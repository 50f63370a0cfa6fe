//! The set of the vertices seen so far, in the order of their first
//! appearance.

use std::collections::HashMap;
use vstd::prelude::*;

verus! {

/// The list `ids` with `v` behind it, unless it holds `v` already.
pub open spec fn observed(ids: Seq<usize>, v: usize) -> Seq<usize> {
    if ids.contains(v) {
        ids
    } else {
        ids.push(v)
    }
}

/// Vertex identifiers in the order of their first appearance, each with a
/// position that never changes.
pub struct VertexIndex {
    ids: Vec<usize>,
    slots: HashMap<usize, usize>,
}

impl View for VertexIndex {
    type V = Seq<usize>;

    /// The identifiers, by position.
    closed spec fn view(&self) -> Seq<usize> {
        self.ids@
    }
}

impl VertexIndex {
    /// The invariant: the lookup table holds exactly the listed identifiers,
    /// each with its position.
    pub closed spec fn wf(&self) -> bool {
        &&& forall|i: int|
            0 <= i < self.ids.len() ==> self.slots@.contains_key(#[trigger] self.ids[i])
                && self.slots@[self.ids[i]] == i
        &&& forall|v: usize| #[trigger]
            self.slots@.contains_key(v) ==> self.slots@[v] < self.ids.len()
                && self.ids[self.slots@[v] as int] == v
    }

    /// No identifier is listed twice.
    pub proof fn lemma_distinct(&self)
        requires
            self.wf(),
        ensures
            self@.no_duplicates(),
    {
        assert forall|i: int, j: int| 0 <= i < self@.len() && 0 <= j < self@.len() && i != j implies self@[i]
            != self@[j] by {
            assert(self.slots@[self.ids[i]] == i);
            assert(self.slots@[self.ids[j]] == j);
        }
    }

    pub fn new() -> (s: VertexIndex)
        ensures
            s.wf(),
            s@ == Seq::<usize>::empty(),
    {
        VertexIndex { ids: Vec::new(), slots: HashMap::new() }
    }

    pub fn len(&self) -> (n: usize)
        ensures
            n == self@.len(),
    {
        self.ids.len()
    }

    /// The identifier at a position.
    pub fn id_at(&self, i: usize) -> (v: usize)
        requires
            i < self@.len(),
        ensures
            v == self@[i as int],
    {
        self.ids[i]
    }

    /// The position of `v`, if it has been seen.
    pub fn find(&self, v: usize) -> (r: Option<usize>)
        requires
            self.wf(),
        ensures
            match r {
                Some(i) => i < self@.len() && self@[i as int] == v,
                None => !self@.contains(v),
            },
    {
        match self.slots.get(&v) {
            Some(i) => Some(*i),
            None => {
                proof {
                    if self@.contains(v) {
                        let i = choose|i: int| 0 <= i < self@.len() && self@[i] == v;
                        assert(self.slots@.contains_key(self.ids[i]));
                    }
                }
                None
            },
        }
    }

    /// The position of `v`, which is listed behind the others if it has not
    /// been seen before.
    pub fn observe(&mut self, v: usize) -> (i: usize)
        requires
            old(self).wf(),
        ensures
            final(self).wf(),
            final(self)@ == observed(old(self)@, v),
            i < final(self)@.len(),
            final(self)@[i as int] == v,
            old(self)@.contains(v) <==> i < old(self)@.len(),
    {
        match self.find(v) {
            Some(i) => i,
            None => {
                let i = self.ids.len();
                self.ids.push(v);
                self.slots.insert(v, i);
                proof {
                    assert forall|k: int| 0 <= k < self.ids.len() implies self.slots@.contains_key(
                        #[trigger] self.ids[k],
                    ) && self.slots@[self.ids[k]] == k by {
                        if k < i {
                            assert(old(self).ids[k] == self.ids[k]);
                            assert(old(self)@.contains(self.ids[k]));
                        }
                    }
                    assert forall|w: usize| #[trigger] self.slots@.contains_key(w) implies self.slots@[w]
                        < self.ids.len() && self.ids[self.slots@[w] as int] == w by {
                        if w != v {
                            assert(old(self).slots@.contains_key(w));
                        }
                    }
                }
                i
            },
        }
    }
}

} // verus!
