//! On which side of a window a new window opens when the window is split.

use crate::event::KeyCode;
use crate::widgets::textbox::TextBox;
use vstd::prelude::*;
use vstd::string::StrSliceExecFns;

verus! {

/// The axis along which the windows of a frame follow one another.
#[derive(Debug, Clone, Copy, PartialEq, Eq, Structural)]
pub enum LayoutAxis {
    Row,
    Col,
}

/// The side of a window on which a split puts the new window.
#[derive(Debug, Clone, Copy, PartialEq, Eq, Structural)]
pub enum SplitDirection {
    Left,
    Right,
    Above,
    Below,
}

impl LayoutAxis {
    /// The name of the axis.
    pub fn name(&self) -> (s: &'static str)
        ensures
            s@ == match *self {
                LayoutAxis::Row => "row"@,
                LayoutAxis::Col => "col"@,
            },
    {
        match self {
            LayoutAxis::Row => "row",
            LayoutAxis::Col => "col",
        }
    }
}

impl SplitDirection {
    /// The axis along which the old and the new window lie side by side.
    pub fn axis(&self) -> (a: LayoutAxis)
        ensures
            a == match *self {
                SplitDirection::Left | SplitDirection::Right => LayoutAxis::Row,
                SplitDirection::Above | SplitDirection::Below => LayoutAxis::Col,
            },
    {
        match self {
            SplitDirection::Left | SplitDirection::Right => LayoutAxis::Row,
            SplitDirection::Above | SplitDirection::Below => LayoutAxis::Col,
        }
    }

    /// Whether the new window comes before the old one along the axis.
    pub fn is_before(&self) -> (b: bool)
        ensures
            b == (*self is Left || *self is Above),
    {
        match self {
            SplitDirection::Left | SplitDirection::Above => true,
            SplitDirection::Right | SplitDirection::Below => false,
        }
    }
}

/// Where a new window goes among the children of a frame that holds `count`
/// windows, when the window at place `at` is split towards `direction`.
pub open spec fn place_of_split(direction: SplitDirection, at: int) -> int {
    if direction is Left || direction is Above {
        at
    } else {
        at + 1
    }
}

/// The place among the children of a frame at which the new window of a split
/// is put: that of the window that is split where the new one comes before it,
/// the next place where it comes after.
pub fn split_place(direction: &SplitDirection, at: usize, count: usize) -> (place: usize)
    requires
        at < count,
    ensures
        place == place_of_split(*direction, at as int),
        place <= count,
{
    if direction.is_before() {
        at
    } else {
        at + 1
    }
}

/// A buffer of text with a cursor, as a window shows it.
pub struct Text {
    pub text: String,
    pub cursor: usize,
}

impl Text {
    /// A few lines of sample text, the cursor at their start.
    pub fn test() -> (t: Self)
        ensures
            t.cursor == 0,
            t.text@ == "Hello, world!\nHello, world1!\nHello, world2!\nHello, world!\nHello, world!"@,
    {
        let text =
            "Hello, world!\nHello, world1!\nHello, world2!\nHello, world!\nHello, world!".to_owned();
        Self { text, cursor: 0 }
    }
}

/// A text and the place of its cursor, in characters.
pub struct Script {
    pub text: Seq<char>,
    pub cursor: usize,
}

impl Script {
    /// The script with its cursor within the text.
    pub open spec fn within(self) -> Script {
        Script {
            cursor: if self.cursor > self.text.len() {
                self.text.len() as usize
            } else {
                self.cursor
            },
            ..self
        }
    }

    /// The script after `c` has been put in at the cursor.
    pub open spec fn with(self, c: char) -> Script {
        Script {
            text: self.text.insert(self.cursor as int, c),
            cursor: if self.cursor < usize::MAX {
                (self.cursor + 1) as usize
            } else {
                self.cursor
            },
        }
    }

    /// The script after a key has been pressed: a character and Enter are put
    /// in at the cursor, Backspace takes out what stands before the cursor and
    /// Delete what stands at it, and the arrows move the cursor within the
    /// text.
    pub open spec fn after_key(self, key: KeyCode) -> Script {
        let s = self.within();
        match key {
            KeyCode::Char(c) => s.with(c),
            KeyCode::Enter => s.with('\n'),
            KeyCode::Backspace => if s.cursor > 0 {
                Script { text: s.text.remove(s.cursor - 1), cursor: (s.cursor - 1) as usize }
            } else {
                s
            },
            KeyCode::Delete => if s.cursor < s.text.len() {
                Script { text: s.text.remove(s.cursor as int), ..s }
            } else {
                s
            },
            KeyCode::LeftArrow => if s.cursor > 0 {
                Script { cursor: (s.cursor - 1) as usize, ..s }
            } else {
                s
            },
            KeyCode::RightArrow => if s.cursor < s.text.len() {
                Script { cursor: (s.cursor + 1) as usize, ..s }
            } else {
                s
            },
            _ => s,
        }
    }
}

impl Text {
    /// The text and its cursor.
    pub open spec fn script(&self) -> Script {
        Script { text: self.text@, cursor: self.cursor }
    }

    /// What the text does with a key.
    pub fn handle_input(&mut self, key: KeyCode)
        ensures
            final(self).script() == old(self).script().after_key(key),
    {
        let len = self.text.as_str().unicode_len();
        if self.cursor > len {
            self.cursor = len;
        }
        match key {
            KeyCode::Char(c) => {
                let text = TextBox::with_char(self.text.as_str(), self.cursor, c);
                self.text = text;
                self.cursor = self.cursor.saturating_add(1);
            },
            KeyCode::Enter => {
                let text = TextBox::with_char(self.text.as_str(), self.cursor, '\n');
                self.text = text;
                self.cursor = self.cursor.saturating_add(1);
            },
            KeyCode::Backspace => {
                if self.cursor > 0 {
                    let text = TextBox::without_char(self.text.as_str(), self.cursor - 1);
                    self.text = text;
                    self.cursor = self.cursor - 1;
                }
            },
            KeyCode::Delete => {
                if self.cursor < len {
                    let text = TextBox::without_char(self.text.as_str(), self.cursor);
                    self.text = text;
                }
            },
            KeyCode::LeftArrow => {
                if self.cursor > 0 {
                    self.cursor = self.cursor - 1;
                }
            },
            KeyCode::RightArrow => {
                if self.cursor < len {
                    self.cursor = self.cursor + 1;
                }
            },
            _ => {},
        }
    }
}

} // verus!
