//! A line of text that is aligned within its window.

use crate::align::{pad_for, padding_before, Align, Alignment};
use crate::layout::geometry::Constraint;
use crate::widgets::textbox::{cut_lines, cut_to, lines_of, split_lines, texts};
use vstd::prelude::*;
use vstd::string::StringExecFns;

verus! {

/// A text and where it goes in its window.
#[derive(Debug)]
pub struct Label {
    pub text: String,
    pub h_align: Alignment,
    pub v_align: Alignment,
}

impl Default for Label {
    fn default() -> (l: Self)
        ensures
            l.text@ == Seq::<char>::empty(),
            l.h_align == Alignment::Start,
            l.v_align == Alignment::Start,
    {
        Self { text: String::new(), h_align: Alignment::Start, v_align: Alignment::Start }
    }
}

impl Label {
    /// A label for `text`, at the top left of its window.
    pub fn new(text: &str) -> (l: Box<Self>)
        ensures
            l.text@ == text@,
            l.h_align == Alignment::Start,
            l.v_align == Alignment::Start,
    {
        Box::new(Self { text: text.to_owned(), h_align: Alignment::Start, v_align: Alignment::Start })
    }

    /// The lines that the label draws into a window of the given size: the
    /// lines of its text that fit, each cut to the width of the window and
    /// moved to its place along the line by blanks before it.
    pub open spec fn drawn(&self, width: usize, height: usize) -> Seq<Seq<char>> {
        let shown = cut_to(lines_of(self.text@), width, height);
        Seq::new(
            shown.len(),
            |i: int|
                blanks(padding_before(self.h_align, width as nat, shown[i].len())) + shown[i],
        )
    }

    /// How many lines the label leaves empty above its text in a window of
    /// the given size.
    pub open spec fn lines_above(&self, width: usize, height: usize) -> nat {
        padding_before(self.v_align, height as nat, cut_to(lines_of(self.text@), width, height).len())
    }

    /// What the label draws into a window of the given size: the number of
    /// lines that it leaves empty above its text, and the lines of the text.
    pub fn layout(&self, width: usize, height: usize) -> (r: (usize, Vec<String>))
        ensures
            r.0 == self.lines_above(width, height),
            texts(r.1@) == self.drawn(width, height),
    {
        let lines = split_lines(self.text.as_str());
        let shown = cut_lines(&lines, width, height);
        let ghost cut = cut_to(lines_of(self.text@), width, height);
        let above = pad_for(self.v_align, height, shown.len());
        let mut out: Vec<String> = Vec::new();
        let n: usize = shown.len();
        let mut i: usize = 0;
        while i < n
            invariant
                i <= n,
                n == shown.len(),
                texts(shown@) == cut,
                out.len() == i,
                forall|k: int|
                    0 <= k < i ==> (#[trigger] out@[k])@ == blanks(
                        padding_before(self.h_align, width as nat, cut[k].len()),
                    ) + cut[k],
            decreases n - i,
        {
            let text = shown[i].as_str();
            proof {
                assert(texts(shown@)[i as int] == shown@[i as int]@);
            }
            let pad = pad_for(self.h_align, width, text.unicode_len());
            let mut line = spaces(pad);
            line.append(text);
            out.push(line);
            i = i + 1;
        }
        assert(texts(out@) =~= self.drawn(width, height));
        (above, out)
    }

    /// A label takes whatever space is left.
    pub fn size_hint(&self) -> (c: Constraint)
        ensures
            c == Constraint::Fill,
    {
        Constraint::fill()
    }
}

impl Align for Label {
    fn align(self, h_align: Alignment, v_align: Alignment) -> (r: Box<Self>)
        ensures
            r.text == self.text,
            r.h_align == h_align,
            r.v_align == v_align,
    {
        let mut this = self;
        this.h_align = h_align;
        this.v_align = v_align;
        Box::new(this)
    }

    fn align_h(self, h_align: Alignment) -> (r: Box<Self>)
        ensures
            r.text == self.text,
            r.h_align == h_align,
            r.v_align == self.v_align,
    {
        let mut this = self;
        this.h_align = h_align;
        Box::new(this)
    }

    fn align_v(self, v_align: Alignment) -> (r: Box<Self>)
        ensures
            r.text == self.text,
            r.h_align == self.h_align,
            r.v_align == v_align,
    {
        let mut this = self;
        this.v_align = v_align;
        Box::new(this)
    }
}

/// `n` blanks.
pub open spec fn blanks(n: nat) -> Seq<char> {
    Seq::new(n, |i: int| ' ')
}

/// A string of `n` blanks.
pub fn spaces(n: usize) -> (s: String)
    ensures
        s@ == blanks(n as nat),
{
    let mut s = String::new();
    let mut i: usize = 0;
    while i < n
        invariant
            i <= n,
            s@ == blanks(i as nat),
        decreases n - i,
    {
        s.push(' ');
        assert(blanks(i as nat).push(' ') =~= blanks((i + 1) as nat));
        i = i + 1;
    }
    s
}

} // verus!
