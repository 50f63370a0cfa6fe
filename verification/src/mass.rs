//! Conservation of rank: what a round sends out is what the vertices hold,
//! up to rounding, and all of it arrives.

use vstd::prelude::*;
use crate::graph::{knows, lemma_position, position, sound, Node};
use crate::operator::{
    contributions_of, emitted, emitted_upto, inbound, inbound_upto, lemma_inbound_bound, lemma_new_rank,
    reweighted, shares,
    Contribution,
};
use crate::rank::{share, BASE, DAMPING};
use crate::sums::{
    lemma_sum_concat, lemma_sum_constant, lemma_sum_pointwise, lemma_sum_single, sum,
    sum_upto,
};

verus! {

/// The amounts of a batch of contributions.
pub open spec fn amounts(batch: Seq<Contribution>) -> Seq<int> {
    Seq::new(batch.len(), |k: int| batch[k].amount as int)
}

/// The ranks of the vertices of a graph.
pub open spec fn ranks(g: Seq<Node>) -> Seq<int> {
    Seq::new(g.len(), |i: int| g[i].rank as int)
}

/// For each vertex of a graph, the sum of what a batch sends to it.
pub open spec fn inflows(g: Seq<Node>, batch: Seq<Contribution>) -> Seq<int> {
    Seq::new(g.len(), |i: int| inbound(batch, g[i].id))
}

/// The number of out-edges of each vertex of a graph.
pub open spec fn degrees(g: Seq<Node>) -> Seq<int> {
    Seq::new(g.len(), |i: int| g[i].out.len() as int)
}

/// Every vertex of the graph has an out-edge.
pub open spec fn no_sinks(g: Seq<Node>) -> bool {
    forall|i: int| 0 <= i < g.len() ==> (#[trigger] g[i]).out.len() > 0
}

spec fn inflows_upto(g: Seq<Node>, batch: Seq<Contribution>, count: nat) -> Seq<int> {
    Seq::new(g.len(), |i: int| inbound_upto(batch, g[i].id, count))
}

/// What a batch sends to the vertices of a graph is all that it sends, where
/// every contribution goes to a vertex of the graph.
pub proof fn lemma_flows_arrive(g: Seq<Node>, batch: Seq<Contribution>)
    requires
        sound(g),
        forall|k: int| 0 <= k < batch.len() ==> knows(g, (#[trigger] batch[k]).destination),
    ensures
        sum(inflows(g, batch)) == sum(amounts(batch)),
{
    lemma_flows_arrive_upto(g, batch, batch.len());
    assert(inflows_upto(g, batch, batch.len()) =~= inflows(g, batch));
}

proof fn lemma_flows_arrive_upto(g: Seq<Node>, batch: Seq<Contribution>, count: nat)
    requires
        sound(g),
        count <= batch.len(),
        forall|k: int| 0 <= k < batch.len() ==> knows(g, (#[trigger] batch[k]).destination),
    ensures
        sum(inflows_upto(g, batch, count)) == sum_upto(amounts(batch), count),
    decreases count,
{
    let now = inflows_upto(g, batch, count);
    if count == 0 {
        lemma_sum_constant(now, 0, g.len());
    } else {
        let before = inflows_upto(g, batch, (count - 1) as nat);
        lemma_flows_arrive_upto(g, batch, (count - 1) as nat);
        let c = batch[count - 1];
        let place = position(g, c.destination);
        assert(knows(g, c.destination));
        let step = Seq::new(
            g.len(),
            |i: int|
                if i == place {
                    c.amount as int
                } else {
                    0
                },
        );
        assert forall|i: int| 0 <= i < g.len() implies #[trigger] now[i] == before[i] + step[i] by {
            if i != place {
                if g[i].id == c.destination {
                    lemma_position(g, i);
                }
            }
        }
        lemma_sum_pointwise(before, step, now, g.len());
        lemma_sum_single(step, place, g.len());
    }
}

/// What the first vertices send out is, for each of them, its share times
/// the number of its out-edges, and every contribution goes to a vertex of
/// the graph.
proof fn lemma_emitted_upto(g: Seq<Node>, deltas: Seq<u64>, count: nat)
    requires
        sound(g),
        deltas.len() == g.len(),
        count <= g.len(),
    ensures
        forall|k: int|
            0 <= k < emitted_upto(g, deltas, count).len() ==> knows(
                g,
                (#[trigger] contributions_of(emitted_upto(g, deltas, count))[k]).destination,
            ),
        sum(amounts(contributions_of(emitted_upto(g, deltas, count)))) <= sum_upto(ranks(g), count),
        sum(amounts(contributions_of(emitted_upto(g, deltas, count)))) >= sum_upto(ranks(g), count)
            - sum_upto(degrees(g), count) + count - sinks_upto(g, count),
    decreases count,
{
    let all = contributions_of(emitted_upto(g, deltas, count));
    if count == 0 {
    } else {
        let head = contributions_of(emitted_upto(g, deltas, (count - 1) as nat));
        let n = g[count - 1];
        let tail = contributions_of(shares(n, deltas[count - 1]));
        lemma_emitted_upto(g, deltas, (count - 1) as nat);
        assert(all =~= head + tail);
        assert forall|k: int| 0 <= k < all.len() implies knows(g, (#[trigger] all[k]).destination) by {
            if k < head.len() {
                assert(all[k] == head[k]);
            } else {
                assert(all[k] == tail[k - head.len()]);
                assert(all[k].destination == n.out[k - head.len()]);
            }
        }
        assert(amounts(all) =~= amounts(head) + amounts(tail));
        lemma_sum_concat(amounts(head), amounts(tail), tail.len());
        let d = n.out.len() as int;
        let each = share(n.rank as int, d);
        if d > 0 {
            assert(0 <= each <= n.rank) by (nonlinear_arith)
                requires
                    each == n.rank as int / d,
                    d > 0,
                    n.rank >= 0,
            ;
            lemma_sum_constant(amounts(tail), each, tail.len());
            assert(d * each <= n.rank && d * each > n.rank - d) by (nonlinear_arith)
                requires
                    each == n.rank as int / d,
                    d > 0,
                    n.rank >= 0,
            ;
        }
        assert(ranks(g)[count - 1] == n.rank);
        assert(degrees(g)[count - 1] == d);
    }
}

/// What the vertices without out-edges among the first `count` hold, and
/// one more for each of them: what the bound below gives up for them.
spec fn sinks_upto(g: Seq<Node>, count: nat) -> int
    decreases count,
{
    if count == 0 {
        0
    } else {
        sinks_upto(g, (count - 1) as nat) + if g[count - 1].out.len() == 0 {
            g[count - 1].rank as int + 1
        } else {
            0
        }
    }
}

proof fn lemma_no_sinks(g: Seq<Node>, count: nat)
    requires
        no_sinks(g),
        count <= g.len(),
    ensures
        sinks_upto(g, count) == 0,
    decreases count,
{
    if count > 0 {
        lemma_no_sinks(g, (count - 1) as nat);
    }
}

/// A round creates no rank: what flows to the vertices is what is sent, and
/// at most what the vertices hold. And where every vertex has an out-edge
/// the round loses none but to rounding: a vertex with `d` out-edges sends
/// all of its rank but for less than `d` billionths.
pub proof fn lemma_mass_conservation(g: Seq<Node>, deltas: Seq<u64>)
    requires
        sound(g),
        deltas.len() == g.len(),
    ensures
        sum(inflows(g, contributions_of(emitted(g, deltas)))) == sum(
            amounts(contributions_of(emitted(g, deltas))),
        ),
        sum(inflows(g, contributions_of(emitted(g, deltas)))) <= sum(ranks(g)),
        no_sinks(g) ==> sum(inflows(g, contributions_of(emitted(g, deltas)))) >= sum(ranks(g)) - (sum(
            degrees(g),
        ) - g.len()),
{
    let batch = contributions_of(emitted(g, deltas));
    lemma_emitted_upto(g, deltas, g.len());
    lemma_flows_arrive(g, batch);
    if no_sinks(g) {
        lemma_no_sinks(g, g.len());
    }
}

/// After a round the ranks are what the damping makes of the inflows: they
/// sum to at most 0.15 for each vertex and 0.85 of what flowed to the
/// vertices. Where no inflow is beyond the largest rank, they fall short of
/// that by less than one billionth for each vertex.
pub proof fn lemma_round_mass(g: Seq<Node>, batch: Seq<Contribution>)
    ensures
        100 * sum(ranks(reweighted(g, batch))) <= 100 * g.len() * BASE + DAMPING * sum(inflows(g, batch)),
        (forall|i: int| 0 <= i < g.len() ==> #[trigger] inflows(g, batch)[i] <= u64::MAX) ==> 100 * sum(
            ranks(reweighted(g, batch)),
        ) >= 100 * g.len() * BASE + DAMPING * sum(inflows(g, batch)) - 99 * g.len(),
{
    lemma_round_mass_upto(g, batch, g.len());
}

proof fn lemma_round_mass_upto(g: Seq<Node>, batch: Seq<Contribution>, count: nat)
    requires
        count <= g.len(),
    ensures
        100 * sum_upto(ranks(reweighted(g, batch)), count) <= 100 * count * BASE + DAMPING * sum_upto(
            inflows(g, batch),
            count,
        ),
        (forall|i: int| 0 <= i < g.len() ==> #[trigger] inflows(g, batch)[i] <= u64::MAX) ==> 100
            * sum_upto(ranks(reweighted(g, batch)), count) >= 100 * count * BASE + DAMPING * sum_upto(
            inflows(g, batch),
            count,
        ) - 99 * count,
    decreases count,
{
    if count > 0 {
        lemma_round_mass_upto(g, batch, (count - 1) as nat);
        let v = g[count - 1].id;
        lemma_new_rank(batch, v);
        lemma_inbound_bound(batch, v, batch.len());
        assert(ranks(reweighted(g, batch))[count - 1] == reweighted(g, batch)[count - 1].rank);
        assert(inflows(g, batch)[count - 1] == inbound(batch, v));
    }
}

} // verus!
