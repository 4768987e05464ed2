//! Displays a border around a widget, with a title and a `*` when the widget is focused.

use crate::layout::geometry::{saturate, Constraint, Rect};
use crate::widget::{Widget, WidgetId};
use vstd::prelude::*;

verus! {

/// Displays a border around a widget, with a title and a `*` when the widget is focused.
pub struct Border {
    pub title: String,
    pub inner: WidgetId,
}

/// What a border of one cell leaves of a window of the given size: the
/// rectangle of the inner widget, relative to the window.
pub open spec fn inside_of(width: usize, height: usize) -> Rect {
    Rect { x: 1, y: 1, width: saturate(width - 2), height: saturate(height - 2) }
}

/// What a border of one cell leaves of `bounds`, on the screen.
pub open spec fn framed(bounds: Rect) -> Rect {
    Rect {
        x: saturate(bounds.x + 1),
        y: saturate(bounds.y + 1),
        width: saturate(bounds.width - 2),
        height: saturate(bounds.height - 2),
    }
}

impl Border {
    /// A border with the given title around the widget `inner`.
    pub fn new(title: String, inner: WidgetId) -> (b: Self)
        ensures
            b.title == title,
            b.inner == inner,
    {
        Self { title, inner }
    }

    /// The widgets that the border reports when it is drawn into a window of
    /// the given size: the inner widget, within the border.
    pub fn nested(&self, width: usize, height: usize) -> (r: Vec<(Rect, WidgetId)>)
        ensures
            r@ == seq![(inside_of(width, height), self.inner)],
    {
        let rect = Rect {
            x: 1,
            y: 1,
            width: width.saturating_sub(2),
            height: height.saturating_sub(2),
        };
        let mut out: Vec<(Rect, WidgetId)> = Vec::new();
        out.push((rect, self.inner));
        out
    }

    /// The bounds that the border hands on to the inner widget with an event.
    pub fn inner_bounds(bounds: &Rect) -> (r: Rect)
        ensures
            r == framed(*bounds),
    {
        Rect {
            x: bounds.x.saturating_add(1),
            y: bounds.y.saturating_add(1),
            width: bounds.width.saturating_sub(2),
            height: bounds.height.saturating_sub(2),
        }
    }

    /// Where the border wants the cursor, for what the inner widget says of
    /// its own: in the first of the widgets that the border reports.
    pub fn cursor_from(inner: Option<(Option<usize>, usize, usize)>) -> (r: Option<
        (Option<usize>, usize, usize),
    >)
        ensures
            r == match inner {
                Some(c) => Some((Some(0usize), c.1, c.2)),
                None => None,
            },
    {
        match inner {
            Some((_, x, y)) => Some((Some(0), x, y)),
            None => None,
        }
    }

    /// How many cells of the top edge the title leaves to the line, in a
    /// window of the given width: the edge less its two corners and the title,
    /// which is followed by a `*` while the window has the focus.
    pub fn top_line_len(&self, width: usize, focused: bool) -> (n: usize)
        ensures
            n == saturate(
                width - 1 - self.title@.len() - if focused {
                    1int
                } else {
                    0int
                },
            ),
    {
        let title = self.title.as_str().unicode_len();
        let mark: usize = if focused {
            1
        } else {
            0
        };
        width.saturating_sub(1).saturating_sub(title).saturating_sub(mark)
    }
}

/// A border takes whatever space is left and has no cursor of its own.
impl Widget for Border {
    fn constraint(&self) -> (c: Constraint)
        ensures
            c == Constraint::Fill,
    {
        Constraint::Fill
    }

    fn cursor(&self) -> (r: Option<(Option<usize>, usize, usize)>)
        ensures
            r is None,
    {
        None
    }
}

} // verus!
