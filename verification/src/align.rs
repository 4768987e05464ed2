//! Where a widget puts its content within the space it is given.

use vstd::prelude::*;

verus! {

/// Where content goes along one direction: at the start, in the middle, or at the
/// end.
#[derive(Debug, Clone, Copy, PartialEq, Eq, Structural)]
pub enum Alignment {
    Start,
    Middle,
    End,
}

impl Default for Alignment {
    fn default() -> (a: Self)
        ensures
            a == Alignment::Start,
    {
        Alignment::Start
    }
}

/// How many cells of padding go before content that is `len` cells long, in a
/// space of `room` cells.
pub open spec fn padding_before(alignment: Alignment, room: nat, len: nat) -> nat {
    if len >= room {
        0
    } else {
        match alignment {
            Alignment::Start => 0,
            Alignment::Middle => ((room - len) / 2) as nat,
            Alignment::End => (room - len) as nat,
        }
    }
}

/// The padding that puts content of `len` cells in its place in `room` cells.
pub fn pad_for(alignment: Alignment, room: usize, len: usize) -> (pad: usize)
    ensures
        pad == padding_before(alignment, room as nat, len as nat),
        pad + len <= room || pad == 0,
{
    if len >= room {
        0
    } else {
        match alignment {
            Alignment::Start => 0,
            Alignment::Middle => (room - len) / 2,
            Alignment::End => room - len,
        }
    }
}

/// Something that can be aligned in both directions.
pub trait Align: Sized {
    /// The same, aligned along the line and across the lines as given.
    fn align(self, h_align: Alignment, v_align: Alignment) -> Box<Self>;

    /// The same, aligned along the line as given.
    fn align_h(self, h_align: Alignment) -> Box<Self>;

    /// The same, aligned across the lines as given.
    fn align_v(self, v_align: Alignment) -> Box<Self>;

    /// The same, at the start of the line and of the lines: what `align_v` makes
    /// of what `align_h` makes of it.
    fn topleft(self) -> (r: Box<Self>)
        ensures
            exists|row: Box<Self>|
                #[trigger] call_ensures(Self::align_h, (self, Alignment::Start), row)
                    && call_ensures(Self::align_v, (*row, Alignment::Start), r),
    {
        let row = self.align_h(Alignment::Start);
        (*row).align_v(Alignment::Start)
    }

    /// The same, in the middle of the line, at the start of the lines: what
    /// `align_v` makes of what `align_h` makes of it.
    fn topcenter(self) -> (r: Box<Self>)
        ensures
            exists|row: Box<Self>|
                #[trigger] call_ensures(Self::align_h, (self, Alignment::Middle), row)
                    && call_ensures(Self::align_v, (*row, Alignment::Start), r),
    {
        let row = self.align_h(Alignment::Middle);
        (*row).align_v(Alignment::Start)
    }

    /// The same, at the end of the line, at the start of the lines: what
    /// `align_v` makes of what `align_h` makes of it.
    fn topright(self) -> (r: Box<Self>)
        ensures
            exists|row: Box<Self>|
                #[trigger] call_ensures(Self::align_h, (self, Alignment::End), row)
                    && call_ensures(Self::align_v, (*row, Alignment::Start), r),
    {
        let row = self.align_h(Alignment::End);
        (*row).align_v(Alignment::Start)
    }

    /// The same, at the start of the line, in the middle of the lines: what
    /// `align_v` makes of what `align_h` makes of it.
    fn centerleft(self) -> (r: Box<Self>)
        ensures
            exists|row: Box<Self>|
                #[trigger] call_ensures(Self::align_h, (self, Alignment::Start), row)
                    && call_ensures(Self::align_v, (*row, Alignment::Middle), r),
    {
        let row = self.align_h(Alignment::Start);
        (*row).align_v(Alignment::Middle)
    }

    /// The same, in the middle of the line and of the lines: what `align_v` makes
    /// of what `align_h` makes of it.
    fn center(self) -> (r: Box<Self>)
        ensures
            exists|row: Box<Self>|
                #[trigger] call_ensures(Self::align_h, (self, Alignment::Middle), row)
                    && call_ensures(Self::align_v, (*row, Alignment::Middle), r),
    {
        let row = self.align_h(Alignment::Middle);
        (*row).align_v(Alignment::Middle)
    }

    /// The same, at the end of the line, in the middle of the lines: what
    /// `align_v` makes of what `align_h` makes of it.
    fn centerright(self) -> (r: Box<Self>)
        ensures
            exists|row: Box<Self>|
                #[trigger] call_ensures(Self::align_h, (self, Alignment::End), row)
                    && call_ensures(Self::align_v, (*row, Alignment::Middle), r),
    {
        let row = self.align_h(Alignment::End);
        (*row).align_v(Alignment::Middle)
    }

    /// The same, at the start of the line, at the end of the lines: what
    /// `align_v` makes of what `align_h` makes of it.
    fn bottomleft(self) -> (r: Box<Self>)
        ensures
            exists|row: Box<Self>|
                #[trigger] call_ensures(Self::align_h, (self, Alignment::Start), row)
                    && call_ensures(Self::align_v, (*row, Alignment::End), r),
    {
        let row = self.align_h(Alignment::Start);
        (*row).align_v(Alignment::End)
    }

    /// The same, in the middle of the line, at the end of the lines: what
    /// `align_v` makes of what `align_h` makes of it.
    fn bottomcenter(self) -> (r: Box<Self>)
        ensures
            exists|row: Box<Self>|
                #[trigger] call_ensures(Self::align_h, (self, Alignment::Middle), row)
                    && call_ensures(Self::align_v, (*row, Alignment::End), r),
    {
        let row = self.align_h(Alignment::Middle);
        (*row).align_v(Alignment::End)
    }

    /// The same, at the end of the line and of the lines: what `align_v` makes of
    /// what `align_h` makes of it.
    fn bottomright(self) -> (r: Box<Self>)
        ensures
            exists|row: Box<Self>|
                #[trigger] call_ensures(Self::align_h, (self, Alignment::End), row)
                    && call_ensures(Self::align_v, (*row, Alignment::End), r),
    {
        let row = self.align_h(Alignment::End);
        (*row).align_v(Alignment::End)
    }
}

} // verus!
