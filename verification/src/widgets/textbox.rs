//! A simple editable textbox widget: lines of text and a cursor. The cursor
//! counts characters.

use crate::error::Error;
use crate::event::{Event, KeyCode, KeyEvent, MouseEvent};
use crate::layout::geometry::Constraint;
use crate::widget::Widget;
use vstd::prelude::*;
use vstd::string::{StrSliceExecFns, StringExecFns};

verus! {

/// `String::push` appends the character to the end of the string.
pub assume_specification[ String::push ](s: &mut String, ch: char)
    ensures
        final(s)@ == old(s)@.push(ch),
;

/// A place in a text: column and line.
#[derive(Debug, Clone, Copy, PartialEq, Eq, Structural)]
pub struct Cursor {
    pub x: usize,
    pub y: usize,
}

/// A simple editable textbox widget
pub struct TextBox {
    buf: Vec<String>,
    cursor: Cursor,
}

/// The text of a textbox with its cursor.
pub struct Page {
    pub lines: Seq<Seq<char>>,
    pub x: usize,
    pub y: usize,
}

/// `x + 1` while that fits.
pub open spec fn one_more(x: usize) -> usize {
    if x < usize::MAX {
        (x + 1) as usize
    } else {
        x
    }
}

/// `x - 1`, and 0 for 0.
pub open spec fn one_less(x: usize) -> usize {
    if x > 0 {
        (x - 1) as usize
    } else {
        0
    }
}

impl Page {
    /// The length of line `y`; 0 where there is no such line.
    pub open spec fn len_of(self, y: usize) -> usize {
        if y < self.lines.len() {
            self.lines[y as int].len() as usize
        } else {
            0
        }
    }

    /// The page with the cursor in column `x`, or at the end of its line where
    /// the line is shorter.
    pub open spec fn with_x(self, x: usize) -> Page {
        Page {
            x: if x >= self.len_of(self.y) {
                self.len_of(self.y)
            } else {
                x
            },
            ..self
        }
    }

    /// The page with the cursor on line `y`, or on the last line where there
    /// are fewer, and within that line.
    pub open spec fn with_y(self, y: usize) -> Page {
        let to = if y >= self.lines.len() {
            one_less(self.lines.len() as usize)
        } else {
            y
        };
        Page {
            y: to,
            x: if self.x > self.len_of(to) {
                self.len_of(to)
            } else {
                self.x
            },
            ..self
        }
    }

    /// The page with the cursor at column `x` of line `y`, as far as the text
    /// reaches.
    pub open spec fn with_cursor(self, x: usize, y: usize) -> Page {
        self.with_y(y).with_x(x)
    }

    /// The page with the cursor brought back into the text.
    pub open spec fn valid(self) -> Page {
        self.with_y(self.y)
    }

    /// The page after `c` has been typed: `c` stands at the cursor, or at the
    /// end of the line where the cursor lies beyond it, and the cursor has
    /// moved one column on. Nothing can be typed where the cursor is on no
    /// line.
    pub open spec fn typed(self, c: char) -> Option<Page> {
        if self.y < self.lines.len() {
            let line = self.lines[self.y as int];
            let at = if self.x >= line.len() {
                line.len() as int
            } else {
                self.x as int
            };
            Some(
                Page {
                    lines: self.lines.update(self.y as int, line.insert(at, c)),
                    x: one_more(self.x),
                    y: self.y,
                },
            )
        } else {
            None
        }
    }

    /// The page after the character before the cursor has been deleted. At
    /// the start of a line the line is joined to the one before it. Nothing
    /// happens at the start of the text; nothing can be deleted where the
    /// cursor is not in the text.
    pub open spec fn deleted(self) -> Option<Page> {
        if self.x == 0 && self.y == 0 {
            Some(self)
        } else if self.y >= self.lines.len() {
            None
        } else if self.x == 0 {
            let above = self.lines[self.y - 1];
            Some(
                Page {
                    lines: self.lines.remove(self.y as int).update(
                        self.y - 1,
                        above + self.lines[self.y as int],
                    ),
                    x: above.len() as usize,
                    y: (self.y - 1) as usize,
                },
            )
        } else if self.x > self.lines[self.y as int].len() {
            None
        } else {
            Some(
                Page {
                    lines: self.lines.update(
                        self.y as int,
                        self.lines[self.y as int].remove(self.x - 1),
                    ),
                    x: (self.x - 1) as usize,
                    y: self.y,
                },
            )
        }
    }

    /// The page after the line has been broken at the cursor: what follows the
    /// cursor goes to a new line below, and the cursor to the start of that
    /// line. Nothing can be broken where the cursor is on no line.
    pub open spec fn broken(self) -> Option<Page> {
        if self.y < self.lines.len() {
            let line = self.lines[self.y as int];
            let at = if self.x >= line.len() {
                line.len() as int
            } else {
                self.x as int
            };
            Some(
                (Page {
                    lines: self.lines.update(self.y as int, line.take(at)).insert(
                        self.y + 1,
                        line.skip(at),
                    ),
                    ..self
                }).with_cursor(0, one_more(self.y)),
            )
        } else {
            None
        }
    }

    /// The page after a key has been pressed without a modifier or with shift.
    pub open spec fn after_key(self, key: KeyCode) -> Option<Page> {
        match key {
            KeyCode::Char(c) => self.typed(c),
            KeyCode::Enter => self.broken(),
            KeyCode::Tab => match self.typed(' ') {
                Some(p) => p.typed(' '),
                None => None,
            },
            KeyCode::UpArrow => Some(self.with_y(one_less(self.y))),
            KeyCode::DownArrow => Some(
                self.with_y(
                    if one_more(self.y) < self.lines.len() {
                        one_more(self.y)
                    } else {
                        self.lines.len() as usize
                    },
                ),
            ),
            KeyCode::LeftArrow => Some(self.with_x(one_less(self.x))),
            KeyCode::RightArrow => Some(self.with_x(one_more(self.x))),
            KeyCode::Backspace => self.deleted(),
            _ => Some(self),
        }
    }

    /// The page after an event: the cursor is brought back into the text, and
    /// then a key that is pressed without a modifier or with shift edits the
    /// text or moves the cursor, and the left mouse button puts the cursor
    /// where the pointer is.
    pub open spec fn after<U>(self, event: &Event<U>) -> Option<Page> {
        match *event {
            Event::Key(k) => if k.modifiers.is_none() || k.modifiers.is_shift() {
                self.valid().after_key(k.key)
            } else {
                Some(self.valid())
            },
            Event::Mouse(m) => if m.mouse_buttons.is_left() {
                Some(self.valid().with_cursor(m.x as usize, m.y as usize))
            } else {
                Some(self.valid())
            },
            _ => Some(self.valid()),
        }
    }
}

/// The lines of a text: the text is broken after every line feed, a carriage
/// return before a line feed belongs to the break, and what follows the last
/// line feed is a line where it is not empty. `line` is the line that is
/// being read.
pub open spec fn lines_after(line: Seq<char>, rest: Seq<char>) -> Seq<Seq<char>>
    decreases rest.len(),
{
    if rest.len() == 0 {
        if line.len() == 0 {
            Seq::empty()
        } else {
            seq![line]
        }
    } else if rest[0] == '\n' {
        seq![
            if line.len() > 0 && line.last() == '\r' {
                line.drop_last()
            } else {
                line
            },
        ] + lines_after(Seq::empty(), rest.skip(1))
    } else {
        lines_after(line.push(rest[0]), rest.skip(1))
    }
}

/// The lines of a text.
pub open spec fn lines_of(text: Seq<char>) -> Seq<Seq<char>> {
    lines_after(Seq::empty(), text)
}

/// The texts of `buf`.
pub open spec fn texts(buf: Seq<String>) -> Seq<Seq<char>> {
    Seq::new(buf.len(), |i: int| buf[i]@)
}

impl Default for TextBox {
    fn default() -> (t: Self)
        ensures
            t.page() == (Page { lines: seq![Seq::<char>::empty()], x: 0, y: 0 }),
    {
        Self::new()
    }
}

impl TextBox {
    /// The text and the cursor.
    pub closed spec fn page(&self) -> Page {
        Page { lines: texts(self.buf@), x: self.cursor.x, y: self.cursor.y }
    }

    /// A textbox with one empty line.
    pub fn new() -> (t: Self)
        ensures
            t.page() == (Page { lines: seq![Seq::<char>::empty()], x: 0, y: 0 }),
    {
        let mut buf: Vec<String> = Vec::new();
        buf.push(String::new());
        let t = Self { buf, cursor: Cursor { x: 0, y: 0 } };
        assert(texts(t.buf@) =~= seq![Seq::<char>::empty()]);
        t
    }

    /// A textbox that holds the lines of `s`.
    pub fn from_str(s: &str) -> (t: Self)
        ensures
            t.page() == (Page { lines: lines_of(s@), x: 0, y: 0 }),
    {
        Self { buf: split_lines(s), cursor: Cursor { x: 0, y: 0 } }
    }

    /// What a window of the given size shows of the text: as many lines as it
    /// is high, from the first on, each cut to its width.
    pub fn visible(&self, width: usize, height: usize) -> (out: Vec<String>)
        ensures
            texts(out@) == cut_to(self.page().lines, width, height),
    {
        cut_lines(&self.buf, width, height)
    }

    /// The lines of the text.
    pub fn buffer(&self) -> (b: &Vec<String>)
        ensures
            texts(b@) == self.page().lines,
    {
        &self.buf
    }

    /// Where the cursor is: column and line.
    pub fn cursor_at(&self) -> (c: Cursor)
        ensures
            c.x == self.page().x,
            c.y == self.page().y,
    {
        self.cursor
    }

    /// The length of line `y` in characters; 0 where there is no such line.
    fn line_len(&self, y: usize) -> (n: usize)
        ensures
            n == self.page().len_of(y),
    {
        if y < self.buf.len() {
            self.buf[y].as_str().unicode_len()
        } else {
            0
        }
    }

    /// `line` with `c` put in at place `at`.
    pub(crate) fn with_char(line: &str, at: usize, c: char) -> (out: String)
        requires
            at <= line@.len(),
        ensures
            out@ == line@.insert(at as int, c),
    {
        let n = line.unicode_len();
        let mut out = String::from_str(line.substring_char(0, at));
        out.push(c);
        out.append(line.substring_char(at, n));
        assert(out@ =~= line@.insert(at as int, c));
        out
    }

    /// `line` without what stands at place `at`.
    pub(crate) fn without_char(line: &str, at: usize) -> (out: String)
        requires
            at < line@.len(),
        ensures
            out@ == line@.remove(at as int),
    {
        let n = line.unicode_len();
        let mut out = String::from_str(line.substring_char(0, at));
        out.append(line.substring_char(at + 1, n));
        assert(out@ =~= line@.remove(at as int));
        out
    }

    /// Types `c` at the cursor.
    pub fn write_char(&mut self, c: char) -> (r: Result<(), Error>)
        ensures
            match old(self).page().typed(c) {
                Some(p) => r is Ok && final(self).page() == p,
                None => r == Err::<(), Error>(Error::TerminalError) && final(self).page() == old(
                    self,
                ).page(),
            },
    {
        let y = self.cursor.y;
        if y >= self.buf.len() {
            return Err(Error::TerminalError);
        }
        let len = self.buf[y].as_str().unicode_len();
        let at = if self.cursor.x >= len {
            len
        } else {
            self.cursor.x
        };
        let ghost before = self.buf@;
        let line = Self::with_char(self.buf[y].as_str(), at, c);
        self.buf[y] = line;
        self.cursor.x = self.cursor.x.saturating_add(1);
        proof {
            assert(texts(self.buf@) =~= texts(before).update(
                y as int,
                before[y as int]@.insert(at as int, c),
            ));
        }
        Ok(())
    }

    /// Deletes the character before the cursor.
    pub fn delete(&mut self) -> (r: Result<(), Error>)
        ensures
            match old(self).page().deleted() {
                Some(p) => r is Ok && final(self).page() == p,
                None => r == Err::<(), Error>(Error::TerminalError) && final(self).page() == old(
                    self,
                ).page(),
            },
    {
        // backspace
        if self.cursor.x == 0 && self.cursor.y == 0 {
            return Ok(());
        }
        let y = self.cursor.y;
        if y >= self.buf.len() {
            return Err(Error::TerminalError);
        }
        let ghost before = self.buf@;
        if self.cursor.x == 0 {
            let line = self.buf.remove(y);
            let old_len = self.buf[y - 1].as_str().unicode_len();
            self.buf[y - 1].append(line.as_str());
            self.cursor.y = y - 1;
            self.cursor.x = old_len;
            proof {
                assert(texts(self.buf@) =~= texts(before).remove(y as int).update(
                    y - 1,
                    before[y - 1]@ + before[y as int]@,
                ));
            }
        } else {
            let x = self.cursor.x;
            if x > self.buf[y].as_str().unicode_len() {
                return Err(Error::TerminalError);
            }
            let line = Self::without_char(self.buf[y].as_str(), x - 1);
            self.buf[y] = line;
            self.cursor.x = x - 1;
            proof {
                assert(texts(self.buf@) =~= texts(before).update(
                    y as int,
                    before[y as int]@.remove(x - 1),
                ));
            }
        }
        Ok(())
    }

    /// Puts the cursor in column `x` of its line, or at the end of the line.
    pub fn set_cursor_x(&mut self, x: usize)
        ensures
            final(self).page() == old(self).page().with_x(x),
    {
        let line = self.line_len(self.cursor.y);
        if x >= line {
            self.cursor.x = line;
        } else {
            self.cursor.x = x;
        }
    }

    /// Puts the cursor on line `y`, or on the last line.
    pub fn set_cursor_y(&mut self, y: usize)
        ensures
            final(self).page() == old(self).page().with_y(y),
    {
        let nlines = self.buf.len();
        if y >= nlines {
            self.cursor.y = nlines.saturating_sub(1);
        } else {
            self.cursor.y = y;
        }
        let len = self.line_len(self.cursor.y);
        if self.cursor.x > len {
            self.cursor.x = len;
        }
    }

    /// Puts the cursor at column `x` of line `y`, as far as the text reaches.
    pub fn set_cursor(&mut self, x: usize, y: usize)
        ensures
            final(self).page() == old(self).page().with_cursor(x, y),
    {
        self.set_cursor_y(y);
        self.set_cursor_x(x);
    }

    /// Brings the cursor back into the text.
    pub fn validate_cursor(&mut self)
        ensures
            final(self).page() == old(self).page().valid(),
    {
        let y = self.cursor.y;
        self.set_cursor_y(y);
    }

    /// Breaks the line at the cursor.
    pub fn break_line(&mut self) -> (r: Result<(), Error>)
        ensures
            match old(self).page().broken() {
                Some(p) => r is Ok && final(self).page() == p,
                None => r == Err::<(), Error>(Error::TerminalError) && final(self).page() == old(
                    self,
                ).page(),
            },
    {
        let y = self.cursor.y;
        if y >= self.buf.len() {
            return Err(Error::TerminalError);
        }
        let len = self.buf[y].as_str().unicode_len();
        let at = if self.cursor.x >= len {
            len
        } else {
            self.cursor.x
        };
        let ghost before = self.buf@;
        let head = String::from_str(self.buf[y].as_str().substring_char(0, at));
        let tail = String::from_str(self.buf[y].as_str().substring_char(at, len));
        self.buf[y] = head;
        self.buf.insert(y + 1, tail);
        proof {
            assert(texts(self.buf@) =~= texts(before).update(
                y as int,
                before[y as int]@.take(at as int),
            ).insert(y + 1, before[y as int]@.skip(at as int)));
        }
        self.set_cursor(0, y.saturating_add(1));
        Ok(())
    }

    /// What the textbox does with an event.
    pub fn update<U>(&mut self, event: &Event<U>) -> (r: Result<(), Error>)
        ensures
            match old(self).page().after(event) {
                Some(p) => r is Ok && final(self).page() == p,
                None => r == Err::<(), Error>(Error::TerminalError),
            },
    {
        self.validate_cursor();
        match event {
            Event::Key(KeyEvent { key, modifiers }) => {
                let plain = !modifiers.ctrl && !modifiers.alt && !modifiers.sup;
                if plain {
                    match key {
                        KeyCode::Char(c) => self.write_char(*c),
                        KeyCode::Enter => self.break_line(),
                        KeyCode::Tab => {
                            match self.write_char(' ') {
                                Ok(()) => self.write_char(' '),
                                Err(e) => Err(e),
                            }
                        },
                        KeyCode::UpArrow => {
                            let y = self.cursor.y.saturating_sub(1);
                            self.set_cursor_y(y);
                            Ok(())
                        },
                        KeyCode::DownArrow => {
                            let lines = self.buf.len();
                            let next = self.cursor.y.saturating_add(1);
                            let y = if next < lines {
                                next
                            } else {
                                lines
                            };
                            self.set_cursor_y(y);
                            Ok(())
                        },
                        KeyCode::LeftArrow => {
                            let x = self.cursor.x.saturating_sub(1);
                            self.set_cursor_x(x);
                            Ok(())
                        },
                        KeyCode::RightArrow => {
                            let x = self.cursor.x.saturating_add(1);
                            self.set_cursor_x(x);
                            Ok(())
                        },
                        KeyCode::Backspace => self.delete(),
                        _ => Ok(()),
                    }
                } else {
                    Ok(())
                }
            },
            Event::Mouse(MouseEvent { x, y, mouse_buttons, modifiers: _ }) => {
                let left = mouse_buttons.left && !mouse_buttons.right && !mouse_buttons.middle
                    && !mouse_buttons.wheel && !mouse_buttons.wheel_up;
                if left {
                    self.set_cursor(*x as usize, *y as usize);
                }
                Ok(())
            },
            _ => Ok(()),
        }
    }
}

/// The lines of `s`.
pub fn split_lines(s: &str) -> (buf: Vec<String>)
    ensures
        texts(buf@) == lines_of(s@),
{
    let mut buf: Vec<String> = Vec::new();
    let mut line: String = String::new();
    let mut last: Option<char> = None;
    let n: usize = s.unicode_len();
    let mut i: usize = 0;
    let ghost mut lead: Seq<char> = Seq::empty();
    assert(s@.skip(0) =~= s@);
    assert(texts(buf@) + lines_after(Seq::empty(), s@) =~= lines_of(s@));
    while i < n
        invariant
            i <= n,
            n == s@.len(),
            last == if lead.len() > 0 {
                Some(lead.last())
            } else {
                None
            },
            lead == if last == Some('\r') {
                line@.push('\r')
            } else {
                line@
            },
            texts(buf@) + lines_after(lead, s@.skip(i as int)) == lines_of(s@),
        decreases n - i,
    {
        let c = s.get_char(i);
        proof {
            assert(s@.skip(i as int)[0] == c);
            assert(s@.skip(i as int).skip(1) =~= s@.skip(i + 1));
        }
        if c == '\n' {
            let ghost done = texts(buf@);
            let ghost kept = line@;
            buf.push(line);
            line = String::new();
            last = None;
            proof {
                assert(if lead.len() > 0 && lead.last() == '\r' {
                    lead.drop_last()
                } else {
                    lead
                } =~= kept);
                assert(texts(buf@) =~= done + seq![kept]);
                assert((done + seq![kept]) + lines_after(Seq::empty(), s@.skip(i + 1)) =~= done
                    + (seq![kept] + lines_after(Seq::empty(), s@.skip(i + 1))));
                lead = Seq::empty();
            }
        } else {
            if let Some(held) = last {
                if held == '\r' {
                    line.push('\r');
                }
            }
            if c != '\r' {
                line.push(c);
            }
            last = Some(c);
            proof {
                lead = lead.push(c);
                if c == '\r' {
                    assert(lead =~= line@.push('\r'));
                } else {
                    assert(lead =~= line@);
                }
            }
        }
        i = i + 1;
    }
    proof {
        assert(s@.skip(n as int).len() == 0);
    }
    let ghost done = texts(buf@);
    if let Some(held) = last {
        if held == '\r' {
            line.push('\r');
        }
        proof {
            assert(line@ =~= lead);
        }
        buf.push(line);
        assert(texts(buf@) =~= done + seq![lead]);
    } else {
        assert(done + Seq::<Seq<char>>::empty() =~= done);
    }
    buf
}

/// The first `height` of `lines`, each cut to `width` characters.
pub open spec fn cut_to(lines: Seq<Seq<char>>, width: usize, height: usize) -> Seq<Seq<char>> {
    Seq::new(
        if lines.len() < height {
            lines.len()
        } else {
            height as nat
        },
        |i: int|
            if lines[i].len() < width {
                lines[i]
            } else {
                lines[i].take(width as int)
            },
    )
}

/// The first `height` of `lines`, each cut to `width` characters.
pub fn cut_lines(lines: &Vec<String>, width: usize, height: usize) -> (out: Vec<String>)
    ensures
        texts(out@) == cut_to(texts(lines@), width, height),
{
    let mut out: Vec<String> = Vec::new();
    let n: usize = if lines.len() < height {
        lines.len()
    } else {
        height
    };
    let mut i: usize = 0;
    while i < n
        invariant
            i <= n,
            n <= lines.len(),
            n <= height,
            n == lines.len() || n == height,
            out.len() == i,
            forall|k: int|
                0 <= k < i ==> (#[trigger] out@[k])@ == cut_to(texts(lines@), width, height)[k],
        decreases n - i,
    {
        let line = lines[i].as_str();
        let len = line.unicode_len();
        let shown = if len < width {
            String::from_str(line)
        } else {
            String::from_str(line.substring_char(0, width))
        };
        proof {
            assert(texts(lines@)[i as int] == lines@[i as int]@);
            if len >= width {
                assert(line@.subrange(0, width as int) =~= line@.take(width as int));
            }
        }
        out.push(shown);
        i = i + 1;
    }
    assert(texts(out@) =~= cut_to(texts(lines@), width, height));
    out
}

/// A textbox takes whatever space is left, and shows its cursor where it is
/// in the text.
impl Widget for TextBox {
    fn constraint(&self) -> (c: Constraint)
        ensures
            c == Constraint::Fill,
    {
        Constraint::Fill
    }

    fn cursor(&self) -> (r: Option<(Option<usize>, usize, usize)>)
        ensures
            r == Some((None::<usize>, self.page().x, self.page().y)),
    {
        Some((None, self.cursor.x, self.cursor.y))
    }
}

} // verus!
