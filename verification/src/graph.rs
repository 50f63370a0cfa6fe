//! The persistent graph: out-edges and the current rank of every vertex.
//!
//! The graph only grows. A vertex appears the first time an edge names it,
//! with the rank 1.0, and keeps its position and its edges from then on.

use vstd::prelude::*;
use crate::rank::ONE;
use crate::vertices::{observed, VertexIndex};

verus! {

/// One vertex of the graph as contracts see it: its identifier, its current
/// rank and the destinations of its out-edges in the order they were added.
pub struct Node {
    pub id: usize,
    pub rank: u64,
    pub out: Seq<usize>,
}

/// The vertex `v` is part of the graph.
pub open spec fn knows(g: Seq<Node>, v: usize) -> bool {
    exists|i: int| 0 <= i < g.len() && (#[trigger] g[i]).id == v
}

/// The position of the vertex `v`, where the graph knows it.
pub open spec fn position(g: Seq<Node>, v: usize) -> int {
    choose|i: int| 0 <= i < g.len() && (#[trigger] g[i]).id == v
}

/// The current rank of the vertex `v`, where the graph knows it.
pub open spec fn rank_of(g: Seq<Node>, v: usize) -> u64 {
    g[position(g, v)].rank
}

/// The out-edges of the vertex `v`, where the graph knows it.
pub open spec fn successors_of(g: Seq<Node>, v: usize) -> Seq<usize> {
    g[position(g, v)].out
}

/// No vertex is listed twice, and every edge leads to a listed vertex.
pub open spec fn sound(g: Seq<Node>) -> bool {
    &&& forall|i: int, j: int| 0 <= i < j < g.len() ==> (#[trigger] g[i]).id != (#[trigger] g[j]).id
    &&& forall|i: int, k: int|
        0 <= i < g.len() && 0 <= k < g[i].out.len() ==> knows(g, #[trigger] g[i].out[k])
}

/// The graph with the vertex `v`, which is new with rank 1.0 and no edges.
pub open spec fn with_vertex(g: Seq<Node>, v: usize) -> Seq<Node> {
    if knows(g, v) {
        g
    } else {
        g.push(Node { id: v, rank: ONE, out: Seq::empty() })
    }
}

/// The graph with one more edge, behind the other out-edges of its source.
/// The source is seen before the destination.
pub open spec fn with_edge(g: Seq<Node>, source: usize, destination: usize) -> Seq<Node> {
    let seen = with_vertex(g, source);
    let i = position(seen, source);
    let linked = seen.update(
        i,
        Node { id: source, rank: seen[i].rank, out: seen[i].out.push(destination) },
    );
    with_vertex(linked, destination)
}

/// The graph after a batch of edges, added in their order.
pub open spec fn grown(g: Seq<Node>, edges: Seq<(usize, usize)>) -> Seq<Node>
    decreases edges.len(),
{
    if edges.len() == 0 {
        g
    } else {
        with_edge(grown(g, edges.drop_last()), edges.last().0, edges.last().1)
    }
}

/// In a graph without repeated vertices the position of a vertex is the one
/// place where it stands.
pub proof fn lemma_position(g: Seq<Node>, i: int)
    requires
        forall|a: int, b: int| 0 <= a < b < g.len() ==> (#[trigger] g[a]).id != (#[trigger] g[b]).id,
        0 <= i < g.len(),
    ensures
        knows(g, g[i].id),
        position(g, g[i].id) == i,
{
    let j = position(g, g[i].id);
    assert(0 <= j < g.len() && g[j].id == g[i].id);
    if j < i {
        assert(g[j].id != g[i].id);
    }
    if i < j {
        assert(g[i].id != g[j].id);
    }
}

/// One more edge leaves every vertex in its place with its rank, and only
/// lengthens lists of out-edges.
pub proof fn lemma_with_edge(g: Seq<Node>, source: usize, destination: usize)
    requires
        sound(g),
    ensures
        sound(with_edge(g, source, destination)),
        g.len() <= with_edge(g, source, destination).len(),
        knows(with_edge(g, source, destination), source),
        knows(with_edge(g, source, destination), destination),
        forall|i: int|
            0 <= i < g.len() ==> {
                let n = #[trigger] with_edge(g, source, destination)[i];
                &&& n.id == g[i].id
                &&& n.rank == g[i].rank
                &&& g[i].out.is_prefix_of(n.out)
            },
        forall|i: int|
            g.len() <= i < with_edge(g, source, destination).len() ==> (#[trigger] with_edge(
                g,
                source,
                destination,
            )[i]).rank == ONE,
{
    let seen = with_vertex(g, source);
    assert(knows(seen, source)) by {
        if !knows(g, source) {
            assert(seen[g.len() as int].id == source);
        }
    }
    let i = position(seen, source);
    let linked = seen.update(
        i,
        Node { id: source, rank: seen[i].rank, out: seen[i].out.push(destination) },
    );
    let h = with_vertex(linked, destination);
    assert(knows(h, destination)) by {
        if !knows(linked, destination) {
            assert(h[linked.len() as int].id == destination);
        }
    }
    assert(h[i].id == source);
    assert forall|a: int| 0 <= a < linked.len() implies (#[trigger] h[a]).id == seen[a].id by {}
    assert forall|a: int, b: int| 0 <= a < b < h.len() implies (#[trigger] h[a]).id != (
    #[trigger] h[b]).id by {
        if b < seen.len() {
            if b < g.len() {
                assert(g[a].id != g[b].id);
            } else {
                assert(g[a].id == seen[a].id);
            }
        } else {
            assert(linked[a].id == h[a].id);
        }
    }
    assert forall|a: int, k: int| 0 <= a < h.len() && 0 <= k < h[a].out.len() implies knows(
        h,
        #[trigger] h[a].out[k],
    ) by {
        let w = h[a].out[k];
        if a < g.len() && k < g[a].out.len() {
            assert(w == g[a].out[k]);
            let p = position(g, w);
            assert(h[p].id == w);
        } else {
            assert(w == destination);
        }
    }
    assert forall|a: int| 0 <= a < g.len() implies {
        let n = #[trigger] h[a];
        &&& n.id == g[a].id
        &&& n.rank == g[a].rank
        &&& g[a].out.is_prefix_of(n.out)
    } by {
        assert(g[a].out =~= h[a].out.subrange(0, g[a].out.len() as int));
    }
}

/// Growth keeps what is known: every vertex of the graph stays in its place
/// with its identifier and its rank, whatever edges are added; its out-edges
/// are only added to; and every vertex that is new has the rank 1.0.
pub proof fn lemma_grown(g: Seq<Node>, edges: Seq<(usize, usize)>)
    requires
        sound(g),
    ensures
        sound(grown(g, edges)),
        g.len() <= grown(g, edges).len(),
        forall|i: int|
            0 <= i < g.len() ==> {
                let n = #[trigger] grown(g, edges)[i];
                &&& n.id == g[i].id
                &&& n.rank == g[i].rank
                &&& g[i].out.is_prefix_of(n.out)
            },
        forall|i: int| g.len() <= i < grown(g, edges).len() ==> (#[trigger] grown(g, edges)[i]).rank == ONE,
        forall|v: usize| #[trigger]
            knows(g, v) ==> knows(grown(g, edges), v) && rank_of(grown(g, edges), v) == rank_of(g, v),
    decreases edges.len(),
{
    let h = grown(g, edges);
    if edges.len() > 0 {
        let mid = grown(g, edges.drop_last());
        lemma_grown(g, edges.drop_last());
        lemma_with_edge(mid, edges.last().0, edges.last().1);
        assert forall|i: int| 0 <= i < g.len() implies {
            let n = #[trigger] h[i];
            &&& n.id == g[i].id
            &&& n.rank == g[i].rank
            &&& g[i].out.is_prefix_of(n.out)
        } by {
            let m = mid[i];
            assert(m.out.is_prefix_of(h[i].out));
            assert(g[i].out.is_prefix_of(m.out));
            assert(g[i].out =~= h[i].out.subrange(0, g[i].out.len() as int)) by {
                assert(m.out == h[i].out.subrange(0, m.out.len() as int));
                assert(g[i].out == m.out.subrange(0, g[i].out.len() as int));
            }
        }
        assert forall|i: int| g.len() <= i < h.len() implies (#[trigger] h[i]).rank == ONE by {
            if i < mid.len() {
                assert(mid[i].rank == ONE);
                assert(h[i].rank == mid[i].rank);
            }
        }
    }
    assert forall|v: usize| #[trigger] knows(g, v) implies knows(h, v) && rank_of(h, v) == rank_of(
        g,
        v,
    ) by {
        let p = position(g, v);
        assert(h[p].id == v);
        lemma_position(h, p);
    }
}

/// The graph and the ranks, kept from one epoch to the next.
pub struct GraphStore {
    index: VertexIndex,
    ranks: Vec<u64>,
    links: Vec<Vec<usize>>,
}

impl View for GraphStore {
    type V = Seq<Node>;

    /// The vertices in the order of their first appearance.
    closed spec fn view(&self) -> Seq<Node> {
        Seq::new(
            self.index@.len(),
            |i: int| Node { id: self.index@[i], rank: self.ranks[i], out: self.links[i]@ },
        )
    }
}

impl GraphStore {
    /// The invariant of the store.
    pub closed spec fn wf(&self) -> bool {
        &&& self.index.wf()
        &&& self.ranks.len() == self.index@.len()
        &&& self.links.len() == self.index@.len()
        &&& forall|i: int, k: int|
            0 <= i < self.links.len() && 0 <= k < self.links[i].len() ==> self.index@.contains(
                #[trigger] self.links[i][k],
            )
    }

    /// A store that is well formed holds a sound graph.
    pub proof fn lemma_sound(&self)
        requires
            self.wf(),
        ensures
            sound(self@),
    {
        self.index.lemma_distinct();
        assert forall|i: int, k: int| 0 <= i < self@.len() && 0 <= k < self@[i].out.len() implies knows(
            self@,
            #[trigger] self@[i].out[k],
        ) by {
            let w = self.links[i][k];
            assert(self.index@.contains(w));
            let p = choose|p: int| 0 <= p < self.index@.len() && self.index@[p] == w;
            assert(self@[p].id == w);
        }
    }

    proof fn lemma_knows(&self, v: usize)
        ensures
            knows(self@, v) <==> self.index@.contains(v),
    {
        if knows(self@, v) {
            let p = position(self@, v);
            assert(self.index@[p] == v);
        }
        if self.index@.contains(v) {
            let p = choose|p: int| 0 <= p < self.index@.len() && self.index@[p] == v;
            assert(self@[p].id == v);
        }
    }

    /// A store without vertices.
    pub fn new() -> (s: GraphStore)
        ensures
            s.wf(),
            s@ == Seq::<Node>::empty(),
    {
        let s = GraphStore { index: VertexIndex::new(), ranks: Vec::new(), links: Vec::new() };
        assert(s@ =~= Seq::<Node>::empty());
        s
    }

    /// The number of vertices.
    pub fn len(&self) -> (n: usize)
        requires
            self.wf(),
        ensures
            n == self@.len(),
    {
        self.index.len()
    }

    /// The position of a vertex, if the graph knows it.
    pub fn find(&self, v: usize) -> (r: Option<usize>)
        requires
            self.wf(),
        ensures
            match r {
                Some(i) => i < self@.len() && self@[i as int].id == v && i == position(self@, v),
                None => !knows(self@, v),
            },
    {
        let r = self.index.find(v);
        proof {
            self.lemma_knows(v);
            self.lemma_sound();
            if let Some(i) = r {
                lemma_position(self@, i as int);
            }
        }
        r
    }

    /// The identifier of the vertex at a position.
    pub fn id_at(&self, i: usize) -> (v: usize)
        requires
            self.wf(),
            i < self@.len(),
        ensures
            v == self@[i as int].id,
    {
        self.index.id_at(i)
    }

    /// The rank of the vertex at a position.
    pub fn rank_at(&self, i: usize) -> (r: u64)
        requires
            self.wf(),
            i < self@.len(),
        ensures
            r == self@[i as int].rank,
    {
        self.ranks[i]
    }

    /// The out-edges of the vertex at a position.
    pub fn successors_at(&self, i: usize) -> (out: &Vec<usize>)
        requires
            self.wf(),
            i < self@.len(),
        ensures
            out@ == self@[i as int].out,
    {
        &self.links[i]
    }

    /// The rank of a vertex, if the graph knows it.
    pub fn rank(&self, v: usize) -> (r: Option<u64>)
        requires
            self.wf(),
        ensures
            r == (if knows(self@, v) {
                Some(rank_of(self@, v))
            } else {
                None
            }),
    {
        match self.find(v) {
            Some(i) => Some(self.ranks[i]),
            None => None,
        }
    }

    /// Gives the vertex at a position a new rank.
    pub(crate) fn set_rank_at(&mut self, i: usize, rank: u64)
        requires
            old(self).wf(),
            i < old(self)@.len(),
        ensures
            final(self).wf(),
            final(self)@ == old(self)@.update(
                i as int,
                Node { id: old(self)@[i as int].id, rank, out: old(self)@[i as int].out },
            ),
    {
        self.ranks[i] = rank;
        assert(self@ =~= old(self)@.update(
            i as int,
            Node { id: old(self)@[i as int].id, rank, out: old(self)@[i as int].out },
        ));
    }

    /// Makes sure that the graph knows `v`, and gives its position.
    fn observe(&mut self, v: usize) -> (i: usize)
        requires
            old(self).wf(),
        ensures
            final(self).wf(),
            final(self)@ == with_vertex(old(self)@, v),
            i < final(self)@.len(),
            final(self)@[i as int].id == v,
            i == position(final(self)@, v),
    {
        proof {
            old(self).lemma_knows(v);
        }
        let before = self.index.len();
        let i = self.index.observe(v);
        if i == before {
            self.ranks.push(ONE);
            self.links.push(Vec::new());
        }
        proof {
            assert forall|a: int, k: int|
                0 <= a < self.links.len() && 0 <= k < self.links[a].len() implies self.index@.contains(
                #[trigger] self.links[a][k],
            ) by {
                let w = old(self).links[a][k];
                assert(old(self).index@.contains(w));
                let p = choose|p: int| 0 <= p < old(self).index@.len() && old(self).index@[p] == w;
                assert(self.index@[p] == w);
            }
            assert(self@ =~= with_vertex(old(self)@, v));
            self.lemma_sound();
            lemma_position(self@, i as int);
        }
        i
    }

    /// Adds one edge.
    pub(crate) fn link(&mut self, source: usize, destination: usize)
        requires
            old(self).wf(),
        ensures
            final(self).wf(),
            final(self)@ == with_edge(old(self)@, source, destination),
    {
        let i = self.observe(source);
        let ghost seen = self@;
        let _ = self.observe(destination);
        let ghost both = self@;
        let ghost held = self.links@;
        assert(both[i as int].out == held[i as int]@);
        self.links[i].push(destination);
        proof {
            let linked = seen.update(
                i as int,
                Node { id: source, rank: seen[i as int].rank, out: seen[i as int].out.push(destination) },
            );
            assert(knows(linked, destination) == knows(seen, destination)) by {
                if knows(linked, destination) {
                    let p = position(linked, destination);
                    assert(seen[p].id == destination);
                }
                if knows(seen, destination) {
                    let p = position(seen, destination);
                    assert(linked[p].id == destination);
                }
            }
            let target = with_edge(old(self)@, source, destination);
            assert(target == with_vertex(linked, destination));
            assert(both.len() == target.len());
            assert(self@.len() == both.len());
            assert forall|a: int| 0 <= a < self@.len() implies self@[a] == target[a] by {
                if a == i {
                    assert(both[a] == seen[a]);
                    assert(self.links[a]@ == held[a]@.push(destination));
                    assert(self@[a].out =~= seen[a].out.push(destination));
                } else {
                    assert(self@[a] == both[a]);
                }
            }
            assert(self@ =~= target);
            assert forall|a: int, k: int|
                0 <= a < self.links.len() && 0 <= k < self.links[a].len() implies self.index@.contains(
                #[trigger] self.links[a][k],
            ) by {
                if a == i && k == self.links[a].len() - 1 {
                    assert(both[both.len() - 1].id == destination || knows(seen, destination));
                    self.lemma_knows(destination);
                    assert(knows(self@, destination)) by {
                        let p = position(both, destination);
                        assert(self@[p].id == destination);
                    }
                }
            }
        }
    }

    /// Adds a batch of edges, in their order.
    pub(crate) fn grow(&mut self, edges: &Vec<(usize, usize)>)
        requires
            old(self).wf(),
        ensures
            final(self).wf(),
            final(self)@ == grown(old(self)@, edges@),
    {
        let mut k: usize = 0;
        while k < edges.len()
            invariant
                k <= edges.len(),
                self.wf(),
                self@ == grown(old(self)@, edges@.take(k as int)),
            decreases edges.len() - k,
        {
            let (source, destination) = edges[k];
            self.link(source, destination);
            proof {
                assert(edges@.take(k + 1).drop_last() =~= edges@.take(k as int));
            }
            k += 1;
        }
        proof {
            assert(edges@.take(k as int) =~= edges@);
        }
    }
}

} // verus!
