//! The contribution operator: it takes edge batches and contribution
//! batches, keeps the graph and the ranks, and sends every vertex's rank
//! along its out-edges for the next round.

use vstd::prelude::*;
use crate::graph::{grown, GraphStore, Node};
use crate::rank::{cap, capped, damp, damped, distance, gap, share, split, BASE, ONE};

verus! {

/// The part of the rank of `source` that flows to `destination` along one
/// out-edge.
#[derive(Clone, Copy, Debug, PartialEq, Eq, Structural)]
pub struct Contribution {
    pub source: usize,
    pub destination: usize,
    pub amount: u64,
}

/// A contribution together with how far the rank of its source moved in the
/// round that produced it.
#[derive(Clone, Copy, Debug, PartialEq, Eq, Structural)]
pub struct Signal {
    pub source: usize,
    pub destination: usize,
    pub amount: u64,
    pub delta: u64,
}

impl Signal {
    /// The contribution that the signal carries.
    pub open spec fn contribution(self) -> Contribution {
        Contribution { source: self.source, destination: self.destination, amount: self.amount }
    }

    pub fn to_contribution(&self) -> (c: Contribution)
        ensures
            c == self.contribution(),
    {
        Contribution { source: self.source, destination: self.destination, amount: self.amount }
    }
}

/// The contributions that a list of signals carries.
pub open spec fn contributions_of(signals: Seq<Signal>) -> Seq<Contribution> {
    Seq::new(signals.len(), |k: int| signals[k].contribution())
}

/// What one vertex sends: along each out-edge its rank divided by the number
/// of its out-edges, marked with the movement `delta` of its rank. A vertex
/// without out-edges sends nothing.
pub open spec fn shares(n: Node, delta: u64) -> Seq<Signal> {
    Seq::new(
        n.out.len(),
        |k: int|
            Signal {
                source: n.id,
                destination: n.out[k],
                amount: share(n.rank as int, n.out.len() as int) as u64,
                delta,
            },
    )
}

/// What the first `count` vertices send, vertex by vertex.
pub open spec fn emitted_upto(g: Seq<Node>, deltas: Seq<u64>, count: nat) -> Seq<Signal>
    decreases count,
{
    if count == 0 {
        Seq::empty()
    } else {
        emitted_upto(g, deltas, (count - 1) as nat) + shares(g[count - 1], deltas[count - 1])
    }
}

/// What the whole graph sends, where `deltas` holds the movement of each
/// vertex's rank by position.
pub open spec fn emitted(g: Seq<Node>, deltas: Seq<u64>) -> Seq<Signal> {
    emitted_upto(g, deltas, g.len())
}

/// The movement 1.0 for each of `count` vertices: what a round that starts
/// from new edges reports.
pub open spec fn unsettled(count: nat) -> Seq<u64> {
    Seq::new(count, |i: int| ONE)
}

/// By position, how far each rank of `after` lies from the rank in `before`.
pub open spec fn drifts(before: Seq<Node>, after: Seq<Node>) -> Seq<u64> {
    Seq::new(after.len(), |i: int| gap(after[i].rank as int, before[i].rank as int) as u64)
}

/// The sum of the first `count` contributions that go to `v`.
pub open spec fn inbound_upto(batch: Seq<Contribution>, v: usize, count: nat) -> int
    decreases count,
{
    if count == 0 {
        0
    } else {
        inbound_upto(batch, v, (count - 1) as nat) + if batch[count - 1].destination == v {
            batch[count - 1].amount as int
        } else {
            0
        }
    }
}

/// The sum of the contributions of a batch that go to `v`.
pub open spec fn inbound(batch: Seq<Contribution>, v: usize) -> int {
    inbound_upto(batch, v, batch.len())
}

/// The rank that a batch of contributions gives the vertex `v`.
pub open spec fn new_rank(batch: Seq<Contribution>, v: usize) -> u64 {
    damped(capped(inbound(batch, v))) as u64
}

/// The graph after a round: every vertex has the rank that the batch gives
/// it, 0.15 where nothing flows to it. Vertices and edges stay.
pub open spec fn reweighted(g: Seq<Node>, batch: Seq<Contribution>) -> Seq<Node> {
    Seq::new(g.len(), |i: int| Node { id: g[i].id, rank: new_rank(batch, g[i].id), out: g[i].out })
}

/// A partial sum of contributions is bounded by their number.
pub proof fn lemma_inbound_bound(batch: Seq<Contribution>, v: usize, count: nat)
    requires
        count <= batch.len(),
    ensures
        0 <= inbound_upto(batch, v, count) <= count * (u64::MAX as int),
    decreases count,
{
    if count > 0 {
        lemma_inbound_bound(batch, v, (count - 1) as nat);
    }
}

/// The rank that a batch gives a vertex is at least 0.15 and is a rank
/// without loss.
pub proof fn lemma_new_rank(batch: Seq<Contribution>, v: usize)
    ensures
        new_rank(batch, v) >= BASE,
        new_rank(batch, v) == damped(capped(inbound(batch, v))),
{
    lemma_inbound_bound(batch, v, batch.len());
}

/// The operator and the state that it alone may change.
pub struct ContributionOperator {
    store: GraphStore,
}

impl View for ContributionOperator {
    type V = Seq<Node>;

    /// The graph that the operator keeps.
    closed spec fn view(&self) -> Seq<Node> {
        self.store@
    }
}

impl ContributionOperator {
    /// The invariant of the operator.
    pub closed spec fn wf(&self) -> bool {
        self.store.wf()
    }

    /// An operator with an empty graph.
    pub fn new() -> (op: ContributionOperator)
        ensures
            op.wf(),
            op@ == Seq::<Node>::empty(),
    {
        ContributionOperator { store: GraphStore::new() }
    }

    /// The graph store, to read.
    pub fn store(&self) -> (s: &GraphStore)
        requires
            self.wf(),
        ensures
            s.wf(),
            s@ == self@,
    {
        &self.store
    }

    /// Takes a batch of new edges: adds them to the graph, new vertices with
    /// rank 1.0, and sends the current rank of every vertex with out-edges
    /// along all of its edges, old and new.
    pub fn on_edges(&mut self, edges: &Vec<(usize, usize)>) -> (out: Vec<Signal>)
        requires
            old(self).wf(),
        ensures
            final(self).wf(),
            final(self)@ == grown(old(self)@, edges@),
            out@ == emitted(final(self)@, unsettled(final(self)@.len())),
    {
        self.store.grow(edges);
        let n = self.store.len();
        let mut deltas: Vec<u64> = Vec::new();
        let mut i: usize = 0;
        while i < n
            invariant
                i <= n,
                deltas.len() == i,
                forall|j: int| 0 <= j < i ==> deltas[j] == ONE,
            decreases n - i,
        {
            deltas.push(ONE);
            i += 1;
        }
        assert(deltas@ =~= unsettled(n as nat));
        self.emit(&deltas)
    }

    /// Takes the contributions of one round: gives every vertex the rank
    /// 0.15 + 0.85 * (what flows to it), all at once, and sends the new
    /// ranks along the out-edges, each signal marked with the distance
    /// between the new and the old rank of its source. Contributions to
    /// vertices that the graph does not know are left aside.
    pub fn on_contributions(&mut self, batch: &Vec<Contribution>) -> (out: Vec<Signal>)
        requires
            old(self).wf(),
        ensures
            final(self).wf(),
            final(self)@ == reweighted(old(self)@, batch@),
            out@ == emitted(final(self)@, drifts(old(self)@, final(self)@)),
    {
        let n = self.store.len();
        let sums = self.gather(batch);
        let mut deltas: Vec<u64> = Vec::new();
        let mut i: usize = 0;
        while i < n
            invariant
                i <= n,
                n == old(self)@.len(),
                sums.len() == n,
                forall|j: int| 0 <= j < n ==> sums[j] == inbound(batch@, #[trigger] old(self)@[j].id),
                self.wf(),
                self@.len() == n,
                forall|j: int| 0 <= j < i ==> #[trigger] self@[j] == reweighted(old(self)@, batch@)[j],
                forall|j: int| i <= j < n ==> #[trigger] self@[j] == old(self)@[j],
                deltas.len() == i,
                forall|j: int|
                    0 <= j < i ==> #[trigger] deltas[j] == gap(
                        new_rank(batch@, old(self)@[j].id) as int,
                        old(self)@[j].rank as int,
                    ),
            decreases n - i,
        {
            let before = self.store.rank_at(i);
            assert(self@[i as int] == old(self)@[i as int]);
            let after = damp(cap(sums[i]));
            deltas.push(distance(after, before));
            self.store.set_rank_at(i, after);
            i += 1;
        }
        assert(self@ =~= reweighted(old(self)@, batch@));
        assert(deltas@ =~= drifts(old(self)@, self@));
        self.emit(&deltas)
    }

    /// The sum of the contributions to each vertex, by position.
    fn gather(&self, batch: &Vec<Contribution>) -> (sums: Vec<u128>)
        requires
            self.wf(),
        ensures
            sums.len() == self@.len(),
            forall|j: int| 0 <= j < sums.len() ==> sums[j] == inbound(batch@, #[trigger] self@[j].id),
    {
        let n = self.store.len();
        let mut sums: Vec<u128> = Vec::new();
        let mut i: usize = 0;
        while i < n
            invariant
                i <= n,
                sums.len() == i,
                forall|j: int| 0 <= j < i ==> sums[j] == 0,
            decreases n - i,
        {
            sums.push(0);
            i += 1;
        }
        let mut k: usize = 0;
        while k < batch.len()
            invariant
                k <= batch.len(),
                self.wf(),
                n == self@.len(),
                sums.len() == n,
                forall|j: int|
                    0 <= j < n ==> sums[j] == inbound_upto(batch@, #[trigger] self@[j].id, k as nat),
            decreases batch.len() - k,
        {
            let c = batch[k];
            match self.store.find(c.destination) {
                Some(p) => {
                    proof {
                        lemma_inbound_bound(batch@, self@[p as int].id, k as nat);
                        self.store.lemma_sound();
                    }
                    let sum = sums[p] + c.amount as u128;
                    sums[p] = sum;
                    proof {
                        assert forall|j: int| 0 <= j < n implies sums[j] == inbound_upto(
                            batch@,
                            #[trigger] self@[j].id,
                            (k + 1) as nat,
                        ) by {
                            if j != p {
                                assert(self@[j].id != self@[p as int].id);
                            }
                        }
                    }
                },
                None => {
                    proof {
                        assert forall|j: int| 0 <= j < n implies sums[j] == inbound_upto(
                            batch@,
                            #[trigger] self@[j].id,
                            (k + 1) as nat,
                        ) by {
                            assert(self@[j].id != c.destination);
                        }
                    }
                },
            }
            k += 1;
        }
        sums
    }

    /// Sends the current rank of every vertex along its out-edges.
    fn emit(&self, deltas: &Vec<u64>) -> (out: Vec<Signal>)
        requires
            self.wf(),
            deltas.len() == self@.len(),
        ensures
            out@ == emitted(self@, deltas@),
    {
        let n = self.store.len();
        let mut out: Vec<Signal> = Vec::new();
        let mut i: usize = 0;
        while i < n
            invariant
                i <= n,
                self.wf(),
                n == self@.len(),
                deltas.len() == n,
                out@ == emitted_upto(self@, deltas@, i as nat),
            decreases n - i,
        {
            let source = self.store.id_at(i);
            let targets = self.store.successors_at(i);
            let degree = targets.len();
            let ghost sent = out@;
            if degree > 0 {
                let amount = split(self.store.rank_at(i), degree);
                let delta = deltas[i];
                let mut k: usize = 0;
                while k < degree
                    invariant
                        k <= degree,
                        degree == targets.len(),
                        targets@ == self@[i as int].out,
                        out@ == sent + shares(self@[i as int], delta).take(k as int),
                        amount == share(self@[i as int].rank as int, degree as int),
                        source == self@[i as int].id,
                    decreases degree - k,
                {
                    out.push(Signal { source, destination: targets[k], amount, delta });
                    proof {
                        let all = shares(self@[i as int], delta);
                        assert(all.take(k + 1) =~= all.take(k as int).push(all[k as int]));
                        assert(out@ =~= sent + all.take(k + 1));
                    }
                    k += 1;
                }
                proof {
                    let all = shares(self@[i as int], delta);
                    assert(all.take(k as int) =~= all);
                }
            } else {
                assert(shares(self@[i as int], deltas[i as int]) =~= Seq::<Signal>::empty());
                assert(out@ =~= sent + shares(self@[i as int], deltas[i as int]));
            }
            i += 1;
        }
        out
    }
}

/// Strips the movement from every signal of a batch.
pub fn strip(signals: &Vec<Signal>) -> (batch: Vec<Contribution>)
    ensures
        batch@ == contributions_of(signals@),
{
    let mut batch: Vec<Contribution> = Vec::new();
    let mut k: usize = 0;
    while k < signals.len()
        invariant
            k <= signals.len(),
            batch.len() == k,
            forall|j: int| 0 <= j < k ==> batch[j] == signals[j].contribution(),
        decreases signals.len() - k,
    {
        batch.push(signals[k].to_contribution());
        k += 1;
    }
    assert(batch@ =~= contributions_of(signals@));
    batch
}

} // verus!
