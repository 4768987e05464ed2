//! Widgets in layers: the layers are drawn from the lowest to the highest, so
//! that what lies higher covers what lies lower.

use std::collections::HashMap;
use vstd::prelude::*;
use vstd::std_specs::iter::IteratorSpec;

verus! {

/// Something that another of its kind can be laid over.
pub trait Layer {
    /// Overlay other onto self
    fn overlay(&mut self, other: &mut Self);
}

/// Widgets by layer.
pub struct Stack<W> {
    layers: HashMap<usize, Vec<W>>,
}

/// Whether `s` runs from the lowest to the highest.
pub open spec fn ascends(s: Seq<usize>) -> bool {
    forall|i: int, j: int| 0 <= i < j < s.len() ==> s[i] <= s[j]
}

/// `itertools::sorted` hands back the elements it is given, each as often as
/// it was given, in ascending order.
#[verifier::external_body]
fn ascending(keys: Vec<usize>) -> (out: Vec<usize>)
    ensures
        out@.to_multiset() == keys@.to_multiset(),
        ascends(out@),
{
    itertools::sorted(keys).collect()
}

impl<W> View for Stack<W> {
    type V = Map<usize, Seq<W>>;

    /// The widgets of every layer.
    closed spec fn view(&self) -> Map<usize, Seq<W>> {
        Map::new(|z: usize| self.layers@.contains_key(z), |z: usize| self.layers@[z]@)
    }
}

impl<W> Stack<W> {
    /// A stack without layers.
    pub fn new() -> (s: Self)
        ensures
            s@ == Map::<usize, Seq<W>>::empty(),
    {
        let s = Self { layers: HashMap::new() };
        assert(s@ =~= Map::<usize, Seq<W>>::empty());
        s
    }

    /// The widgets of layer `layer`; none where there is no such layer.
    pub open spec fn layer_view(&self, layer: usize) -> Seq<W> {
        if self@.contains_key(layer) {
            self@[layer]
        } else {
            Seq::empty()
        }
    }

    /// Adds `widgets` to layer `layer`, behind what the layer holds.
    pub fn add_or_extend_layer(&mut self, layer: usize, widgets: Vec<W>)
        ensures
            final(self)@ == old(self)@.insert(layer, old(self).layer_view(layer) + widgets@),
    {
        let ghost before = self@;
        let ghost added = widgets@;
        let mut widgets = widgets;
        let mut all = match self.layers.remove(&layer) {
            Some(v) => v,
            None => Vec::new(),
        };
        all.append(&mut widgets);
        self.layers.insert(layer, all);
        assert(self@ =~= before.insert(layer, old(self).layer_view(layer) + added));
    }

    /// Adds `widget` to layer `layer`, behind what the layer holds.
    pub fn add_widget(&mut self, layer: usize, widget: W)
        ensures
            final(self)@ == old(self)@.insert(layer, old(self).layer_view(layer).push(widget)),
    {
        let ghost before = self@;
        let mut all = match self.layers.remove(&layer) {
            Some(v) => v,
            None => Vec::new(),
        };
        all.push(widget);
        self.layers.insert(layer, all);
        assert(self@ =~= before.insert(layer, old(self).layer_view(layer).push(widget)));
    }

    /// The stack with `widget` added to layer `z_index`.
    pub fn with_layer(self, z_index: usize, widget: W) -> (s: Box<Self>)
        ensures
            s@ == self@.insert(z_index, self.layer_view(z_index).push(widget)),
    {
        let mut this = self;
        this.add_widget(z_index, widget);
        Box::new(this)
    }

    /// The widgets of layer `layer`.
    pub fn layer(&self, layer: usize) -> (r: Option<&Vec<W>>)
        ensures
            match r {
                Some(v) => self@.contains_key(layer) && v@ == self@[layer],
                None => !self@.contains_key(layer),
            },
    {
        self.layers.get(&layer)
    }

    /// The layers in the order in which they are drawn: from the lowest to the
    /// highest, each once.
    pub fn order(&self) -> (out: Vec<usize>)
        ensures
            ascends(out@),
            out@.no_duplicates(),
            out@.to_set() == self@.dom(),
    {
        let mut keys: Vec<usize> = Vec::new();
        let ghost all = vstd::std_specs::hash::spec_keys_iter(&self.layers).remaining();
        proof {
            vstd::std_specs::hash::axiom_spec_keys_iter(&self.layers);
        }
        for k in it: self.layers.keys()
            invariant
                it.seq() == all,
                keys@.len() == it.index(),
                forall|i: int| 0 <= i < keys@.len() ==> keys@[i] == *all[i],
        {
            keys.push(*k);
        }
        let out = ascending(keys);
        proof {
            assert(keys@ =~= all.unref());
            assert(keys@.no_duplicates()) by {
                assert forall|i: int, j: int|
                    0 <= i < keys@.len() && 0 <= j < keys@.len() && i != j implies keys@[i]
                    != keys@[j] by {
                    assert(all[i] != all[j]);
                }
            }
            assert(self@.dom() =~= self.layers@.dom());
            keys@.lemma_multiset_has_no_duplicates();
            out@.lemma_multiset_has_no_duplicates_conv();
            assert forall|x: usize| out@.to_set().contains(x) <==> keys@.to_set().contains(x) by {
                vstd::seq_lib::to_multiset_contains(out@, x);
                vstd::seq_lib::to_multiset_contains(keys@, x);
            }
            assert(out@.to_set() =~= keys@.to_set());
        }
        out
    }
}

} // verus!
