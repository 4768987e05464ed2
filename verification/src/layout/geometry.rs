//! Rectangles of terminal cells, the two axes, the four directions, and the
//! size a child asks of its container.

use vstd::prelude::*;

verus! {

/// The denominator of a [`Constraint::Percentage`]: a share of `FULL_SHARE` is
/// the whole of the space on offer.
pub const FULL_SHARE: u32 = 10_000;

/// `n` as a cell count: itself where it fits, else the nearest `usize`.
pub open spec fn saturate(n: int) -> usize {
    if n < 0 {
        0usize
    } else if n > usize::MAX {
        usize::MAX
    } else {
        n as usize
    }
}

/// A rectangle of cells. `x` and `y` are the top left corner.
#[derive(Debug, Clone, Copy, PartialEq, Eq, Structural)]
pub struct Rect {
    pub x: usize,
    pub y: usize,
    pub width: usize,
    pub height: usize,
}

/// One of the four sides of a rectangle, or a direction of movement on screen.
#[derive(Debug, Clone, Copy, PartialEq, Eq, Structural)]
pub enum Direction {
    Left,
    Right,
    Up,
    Down,
}

/// The axis along which a container arranges its children.
#[derive(Debug, Clone, Copy, PartialEq, Eq, Structural)]
pub enum Axis {
    Horizontal,
    Vertical,
}

/// The size a child asks for along the axis of its container.
#[derive(Debug, Clone, Copy, PartialEq, Eq, Structural)]
pub enum Constraint {
    /// This many cells.
    Fixed(usize),
    /// This share, in units of 1/[`FULL_SHARE`], of what the fixed sizes leave.
    Percentage(u32),
    /// An even part of what is left after fixed sizes and shares.
    Fill,
}

/// A width and a height in cells.
#[derive(Debug, Clone, Copy, PartialEq, Eq, Structural)]
pub struct Size {
    pub width: usize,
    pub height: usize,
}

/// A position in cells.
#[derive(Debug, Clone, Copy, PartialEq, Eq, Structural)]
pub struct Point {
    pub x: usize,
    pub y: usize,
}

impl Constraint {
    /// The constraint of a child that takes what is left.
    pub fn fill() -> (c: Constraint)
        ensures
            c == Constraint::Fill,
    {
        Constraint::Fill
    }
}

impl Default for Rect {
    fn default() -> (r: Self)
        ensures
            r == (Rect { x: 0, y: 0, width: 100, height: 100 }),
    {
        Rect { x: 0, y: 0, width: 100, height: 100 }
    }
}

impl Rect {
    /// The column just past the right edge.
    pub open spec fn right_edge(&self) -> int {
        self.x + self.width
    }

    /// The row just past the bottom edge.
    pub open spec fn bottom_edge(&self) -> int {
        self.y + self.height
    }

    /// Whether the point lies in the rectangle, its four edges included.
    pub open spec fn covers(&self, px: int, py: int) -> bool {
        &&& self.x <= px <= self.right_edge()
        &&& self.y <= py <= self.bottom_edge()
    }

    /// Whether one of the four corners of `other` lies in this rectangle.
    pub open spec fn holds_corner_of(&self, other: &Rect) -> bool {
        ||| self.covers(other.x as int, other.y as int)
        ||| self.covers(other.right_edge(), other.y as int)
        ||| self.covers(other.x as int, other.bottom_edge())
        ||| self.covers(other.right_edge(), other.bottom_edge())
    }

    /// Where the rectangle starts along `axis`.
    pub open spec fn origin_along(&self, axis: Axis) -> usize {
        match axis {
            Axis::Horizontal => self.x,
            Axis::Vertical => self.y,
        }
    }

    /// How far the rectangle reaches along `axis`.
    pub open spec fn extent_along(&self, axis: Axis) -> usize {
        match axis {
            Axis::Horizontal => self.width,
            Axis::Vertical => self.height,
        }
    }

    /// The rectangle that starts `offset` cells into this one along `axis`, is
    /// `size` cells long along it, and spans this one across it.
    pub open spec fn slice_along(&self, axis: Axis, offset: int, size: usize) -> Rect {
        match axis {
            Axis::Horizontal => Rect {
                x: saturate(self.x + offset),
                y: self.y,
                width: size,
                height: self.height,
            },
            Axis::Vertical => Rect {
                x: self.x,
                y: saturate(self.y + offset),
                width: self.width,
                height: size,
            },
        }
    }

    /// This rectangle cut back so that it does not reach past the width and
    /// height of `bounds`; its corner stays where it is.
    pub open spec fn clipped_to(&self, bounds: &Rect) -> Rect {
        Rect {
            x: self.x,
            y: self.y,
            width: if self.x + self.width > bounds.width {
                saturate(bounds.width - self.x)
            } else {
                self.width
            },
            height: if self.y + self.height > bounds.height {
                saturate(bounds.height - self.y)
            } else {
                self.height
            },
        }
    }

    /// This rectangle with its corner moved by `dx` to the right and `dy` down.
    pub open spec fn shifted_by(&self, dx: int, dy: int) -> Rect {
        Rect {
            x: saturate(self.x + dx),
            y: saturate(self.y + dy),
            width: self.width,
            height: self.height,
        }
    }

    /// The rectangle with the given corner and size.
    pub fn new(x: usize, y: usize, width: usize, height: usize) -> (r: Self)
        ensures
            r == (Rect { x, y, width, height }),
    {
        Self { x, y, width, height }
    }

    /// Gives the rectangle another size; its corner stays.
    pub fn resize(&mut self, width: usize, height: usize)
        ensures
            *final(self) == (Rect { width, height, ..*old(self) }),
    {
        self.width = width;
        self.height = height;
    }

    /// The cell in the middle of the rectangle.
    pub fn center(&self) -> (c: (usize, usize))
        ensures
            c.0 == saturate(self.x + self.width / 2),
            c.1 == saturate(self.y + self.height / 2),
    {
        (self.x.saturating_add(self.width / 2), self.y.saturating_add(self.height / 2))
    }

    /// Whether the point lies in the rectangle, its edges included.
    pub fn contains(&self, x: usize, y: usize) -> (b: bool)
        ensures
            b == self.covers(x as int, y as int),
    {
        x >= self.x && x - self.x <= self.width && y >= self.y && y - self.y <= self.height
    }

    /// `contains` for a point whose coordinates may lie beyond `usize`.
    fn contains_wide(&self, x: u128, y: u128) -> (b: bool)
        ensures
            b == self.covers(x as int, y as int),
    {
        x >= self.x as u128 && x - self.x as u128 <= self.width as u128 && y >= self.y as u128 && y
            - self.y as u128 <= self.height as u128
    }

    /// Whether one of the four corners of `other` lies in this rectangle.
    pub fn intersects(&self, other: &Rect) -> (b: bool)
        ensures
            b == self.holds_corner_of(other),
    {
        let left: u128 = other.x as u128;
        let top: u128 = other.y as u128;
        let right: u128 = other.x as u128 + other.width as u128;
        let bottom: u128 = other.y as u128 + other.height as u128;
        self.contains_wide(left, top) || self.contains_wide(right, top) || self.contains_wide(
            left,
            bottom,
        ) || self.contains_wide(right, bottom)
    }

    /// The column of the left edge.
    pub fn left(&self) -> (v: usize)
        ensures
            v == self.x,
    {
        self.x
    }

    /// The column just past the right edge.
    pub fn right(&self) -> (v: usize)
        ensures
            v == saturate(self.right_edge()),
    {
        self.x.saturating_add(self.width)
    }

    /// The line of the top edge.
    pub fn top(&self) -> (v: usize)
        ensures
            v == self.y,
    {
        self.y
    }

    /// The line just past the bottom edge.
    pub fn bottom(&self) -> (v: usize)
        ensures
            v == saturate(self.bottom_edge()),
    {
        self.y.saturating_add(self.height)
    }

    /// The rectangle of the given width and height at the origin.
    pub fn from_size(dims: (usize, usize)) -> (r: Rect)
        ensures
            r == (Rect { x: 0, y: 0, width: dims.0, height: dims.1 }),
    {
        Rect { x: 0, y: 0, width: dims.0, height: dims.1 }
    }

    /// Where the rectangle starts along `axis`.
    pub fn origin(&self, axis: Axis) -> (v: usize)
        ensures
            v == self.origin_along(axis),
    {
        match axis {
            Axis::Horizontal => self.x,
            Axis::Vertical => self.y,
        }
    }

    /// How far the rectangle reaches along `axis`.
    pub fn extent(&self, axis: Axis) -> (v: usize)
        ensures
            v == self.extent_along(axis),
    {
        match axis {
            Axis::Horizontal => self.width,
            Axis::Vertical => self.height,
        }
    }

    /// The part of this rectangle that `offset` and `size` cut out along `axis`.
    pub fn slice(&self, axis: Axis, offset: usize, size: usize) -> (r: Rect)
        ensures
            r == self.slice_along(axis, offset as int, size),
    {
        match axis {
            Axis::Horizontal => Rect {
                x: self.x.saturating_add(offset),
                y: self.y,
                width: size,
                height: self.height,
            },
            Axis::Vertical => Rect {
                x: self.x,
                y: self.y.saturating_add(offset),
                width: self.width,
                height: size,
            },
        }
    }

    /// Cuts the rectangle back so that it does not reach past the width and
    /// height of `bounds`.
    pub fn clip(&self, bounds: &Rect) -> (r: Rect)
        ensures
            r == self.clipped_to(bounds),
    {
        let width = if self.width > bounds.width || self.x > bounds.width - self.width {
            bounds.width.saturating_sub(self.x)
        } else {
            self.width
        };
        let height = if self.height > bounds.height || self.y > bounds.height - self.height {
            bounds.height.saturating_sub(self.y)
        } else {
            self.height
        };
        Rect { x: self.x, y: self.y, width, height }
    }

    /// Moves the corner by `dx` to the right and `dy` down.
    pub fn shift(&self, dx: usize, dy: usize) -> (r: Rect)
        ensures
            r == self.shifted_by(dx as int, dy as int),
    {
        Rect {
            x: self.x.saturating_add(dx),
            y: self.y.saturating_add(dy),
            width: self.width,
            height: self.height,
        }
    }
}

} // verus!
