//! Types relating to input and event handling

use vstd::prelude::*;

verus! {

/// A key of the keyboard.
#[derive(Debug, Clone, Copy, PartialEq, Eq, Structural)]
pub enum KeyCode {
    Char(char),
    Enter,
    Tab,
    Backspace,
    Delete,
    Escape,
    UpArrow,
    DownArrow,
    LeftArrow,
    RightArrow,
    Home,
    End,
    PageUp,
    PageDown,
    Insert,
    Function(u8),
    /// A key that the layout engine and the built-in widgets do not tell apart.
    Other,
}

/// The modifier keys held down with a key or a mouse button.
#[derive(Debug, Clone, Copy, PartialEq, Eq, Structural)]
pub struct Modifiers {
    pub shift: bool,
    pub ctrl: bool,
    pub alt: bool,
    pub sup: bool,
}

/// The mouse buttons held down.
#[derive(Debug, Clone, Copy, PartialEq, Eq, Structural)]
pub struct MouseButtons {
    pub left: bool,
    pub right: bool,
    pub middle: bool,
    /// The wheel was turned; `wheel_up` tells which way.
    pub wheel: bool,
    pub wheel_up: bool,
}

/// A key that was pressed, and the modifiers with it.
#[derive(Debug, Clone, Copy, PartialEq, Eq, Structural)]
pub struct KeyEvent {
    pub key: KeyCode,
    pub modifiers: Modifiers,
}

/// Where the pointer is, in cells, and which buttons and modifiers are down.
#[derive(Debug, Clone, Copy, PartialEq, Eq, Structural)]
pub struct MouseEvent {
    pub x: u16,
    pub y: u16,
    pub mouse_buttons: MouseButtons,
    pub modifiers: Modifiers,
}

/// An event that the application sends to itself.
#[derive(Debug)]
pub enum UserEvent<U> {
    Exit,
    Tick,
    User(U),
}

/// An event that can be sent to a widget or handled by the global event handler.
#[derive(Debug)]
pub enum Event<U> {
    Key(KeyEvent),
    Mouse(MouseEvent),
    Resize { rows: usize, cols: usize },
    Paste(String),
    User(UserEvent<U>),
}

impl Modifiers {
    /// No modifier key.
    pub open spec fn spec_none() -> Modifiers {
        Modifiers { shift: false, ctrl: false, alt: false, sup: false }
    }

    /// Whether no modifier key is held down.
    pub open spec fn is_none(self) -> bool {
        self == Modifiers::spec_none()
    }

    /// Whether shift is held down and nothing else.
    pub open spec fn is_shift(self) -> bool {
        self == (Modifiers { shift: true, ..Modifiers::spec_none() })
    }

    /// Whether control is held down and nothing else.
    pub open spec fn is_ctrl(self) -> bool {
        self == (Modifiers { ctrl: true, ..Modifiers::spec_none() })
    }

    /// No modifier key.
    #[verifier::when_used_as_spec(spec_none)]
    pub fn none() -> (m: Modifiers)
        ensures
            m == Modifiers::spec_none(),
    {
        Modifiers { shift: false, ctrl: false, alt: false, sup: false }
    }

    /// Shift alone.
    pub fn shift() -> (m: Modifiers)
        ensures
            m.is_shift(),
    {
        Modifiers { shift: true, ctrl: false, alt: false, sup: false }
    }

    /// Control alone.
    pub fn ctrl() -> (m: Modifiers)
        ensures
            m.is_ctrl(),
    {
        Modifiers { shift: false, ctrl: true, alt: false, sup: false }
    }
}

impl MouseButtons {
    /// No button.
    pub open spec fn spec_none() -> MouseButtons {
        MouseButtons { left: false, right: false, middle: false, wheel: false, wheel_up: false }
    }

    /// Whether no button is held down and the wheel is at rest.
    pub open spec fn is_none(self) -> bool {
        self == MouseButtons::spec_none()
    }

    /// Whether the left button is held down and nothing else.
    pub open spec fn is_left(self) -> bool {
        self == (MouseButtons { left: true, ..MouseButtons::spec_none() })
    }

    /// No button.
    #[verifier::when_used_as_spec(spec_none)]
    pub fn none() -> (m: MouseButtons)
        ensures
            m == MouseButtons::spec_none(),
    {
        MouseButtons { left: false, right: false, middle: false, wheel: false, wheel_up: false }
    }

    /// The left button alone.
    pub fn left() -> (m: MouseButtons)
        ensures
            m.is_left(),
    {
        MouseButtons { left: true, right: false, middle: false, wheel: false, wheel_up: false }
    }
}

} // verus!
