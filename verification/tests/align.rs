use sanguine::align::{pad_for, Align, Alignment};
use sanguine::label::Label;

struct Tag {
    h: Alignment,
    v: Alignment,
}

impl Align for Tag {
    fn align(self, h_align: Alignment, v_align: Alignment) -> Box<Self> {
        Box::new(Tag { h: h_align, v: v_align })
    }

    fn align_h(self, h_align: Alignment) -> Box<Self> {
        Box::new(Tag { h: h_align, v: self.v })
    }

    fn align_v(self, v_align: Alignment) -> Box<Self> {
        Box::new(Tag { h: self.h, v: v_align })
    }
}

#[test]
fn corner_helpers_set_both_alignments() {
    let tag = Tag { h: Alignment::Start, v: Alignment::Start }.bottomright();
    assert_eq!(tag.h, Alignment::End);
    assert_eq!(tag.v, Alignment::End);
    let tag = Tag { h: Alignment::End, v: Alignment::End }.topcenter();
    assert_eq!(tag.h, Alignment::Middle);
    assert_eq!(tag.v, Alignment::Start);
}

#[test]
fn label_alignment() {
    let label = Label::new("hello");
    assert_eq!(label.text, "hello");
    assert_eq!(label.h_align, Alignment::Start);
    let label = (*label).centerright();
    assert_eq!(label.h_align, Alignment::End);
    assert_eq!(label.v_align, Alignment::Middle);
    assert_eq!(label.text, "hello");
}

#[test]
fn padding_places_content() {
    assert_eq!(pad_for(Alignment::Start, 10, 4), 0);
    assert_eq!(pad_for(Alignment::Middle, 10, 4), 3);
    assert_eq!(pad_for(Alignment::Middle, 11, 4), 3);
    assert_eq!(pad_for(Alignment::End, 10, 4), 6);
    assert_eq!(pad_for(Alignment::End, 3, 4), 0);
}
