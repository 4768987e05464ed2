//! The characters that draw the border of a window.

use vstd::prelude::*;

verus! {

/// The six characters of a border: four corners and two lines.
#[derive(Debug, Clone, Copy, PartialEq, Eq, Structural)]
pub struct BorderChars {
    pub top_left: char,
    pub top_right: char,
    pub bottom_left: char,
    pub bottom_right: char,
    pub horizontal: char,
    pub vertical: char,
}

/// The borders that come with the library, and borders of one's own.
#[derive(Debug, Clone, Copy, PartialEq, Eq, Structural)]
pub enum BorderVariant {
    Single,
    Double,
    Rounded,
    Custom(BorderChars),
    /// No border: blanks all around.
    Blank,
}

/// The characters of each variant.
pub open spec fn chars_of(border: BorderVariant) -> BorderChars {
    match border {
        BorderVariant::Single => BorderChars {
            top_left: '┌',
            top_right: '┐',
            bottom_left: '└',
            bottom_right: '┘',
            horizontal: '─',
            vertical: '│',
        },
        BorderVariant::Double => BorderChars {
            top_left: '╔',
            top_right: '╗',
            bottom_left: '╚',
            bottom_right: '╝',
            horizontal: '═',
            vertical: '║',
        },
        BorderVariant::Rounded => BorderChars {
            top_left: '╭',
            top_right: '╮',
            bottom_left: '╰',
            bottom_right: '╯',
            horizontal: '─',
            vertical: '│',
        },
        BorderVariant::Custom(chars) => chars,
        BorderVariant::Blank => BorderChars {
            top_left: ' ',
            top_right: ' ',
            bottom_left: ' ',
            bottom_right: ' ',
            horizontal: ' ',
            vertical: ' ',
        },
    }
}

impl From<BorderVariant> for BorderChars {
    fn from(border: BorderVariant) -> (chars: Self) {
        match border {
            BorderVariant::Single => BorderChars {
                top_left: '┌',
                top_right: '┐',
                bottom_left: '└',
                bottom_right: '┘',
                horizontal: '─',
                vertical: '│',
            },
            BorderVariant::Double => BorderChars {
                top_left: '╔',
                top_right: '╗',
                bottom_left: '╚',
                bottom_right: '╝',
                horizontal: '═',
                vertical: '║',
            },
            BorderVariant::Rounded => BorderChars {
                top_left: '╭',
                top_right: '╮',
                bottom_left: '╰',
                bottom_right: '╯',
                horizontal: '─',
                vertical: '│',
            },
            BorderVariant::Custom(chars) => chars,
            BorderVariant::Blank => BorderChars {
                top_left: ' ',
                top_right: ' ',
                bottom_left: ' ',
                bottom_right: ' ',
                horizontal: ' ',
                vertical: ' ',
            },
        }
    }
}

impl vstd::std_specs::convert::FromSpecImpl<BorderVariant> for BorderChars {
    open spec fn obeys_from_spec() -> bool {
        true
    }

    open spec fn from_spec(border: BorderVariant) -> Self {
        chars_of(border)
    }
}

} // verus!
