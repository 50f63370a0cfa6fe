//! The result aggregator: from the contributions that leave the loop of an
//! epoch, the normalized ranks of the vertices they touch and the five
//! highest of them.

use vstd::prelude::*;
use crate::operator::{inbound_upto, lemma_inbound_bound, lemma_new_rank, new_rank, Contribution};
use crate::rank::{cap, damp, mul_div, BASE, ONE};
use crate::sums::{lemma_sum_covers, lemma_sum_of_quotients, sum, sum_upto};
use crate::vertices::{observed, VertexIndex};

verus! {

/// The number of vertices that a report names at most.
pub const TOP: usize = 5;

/// A vertex and its normalized rank, in billionths.
#[derive(Clone, Copy, Debug, PartialEq, Eq, Structural)]
pub struct Ranked {
    pub vertex: usize,
    pub score: u128,
}

/// The highest-ranked vertices of an epoch, the highest first.
#[derive(Debug)]
pub struct Report {
    pub epoch: u64,
    pub top: Vec<Ranked>,
}

/// The vertices that the first `count` contributions name as source or
/// destination, in the order of their first appearance.
pub open spec fn touched_upto(batch: Seq<Contribution>, count: nat) -> Seq<usize>
    decreases count,
{
    if count == 0 {
        Seq::empty()
    } else {
        observed(
            observed(touched_upto(batch, (count - 1) as nat), batch[count - 1].source),
            batch[count - 1].destination,
        )
    }
}

/// The vertices that a batch touches.
pub open spec fn touched(batch: Seq<Contribution>) -> Seq<usize> {
    touched_upto(batch, batch.len())
}

/// The rank of each touched vertex as the batch alone gives it:
/// 0.15 + 0.85 * (what flows to it in the batch).
pub open spec fn local_ranks(batch: Seq<Contribution>) -> Seq<int> {
    Seq::new(touched(batch).len(), |i: int| new_rank(batch, touched(batch)[i]) as int)
}

/// The sum of the ranks of the touched vertices.
pub open spec fn total_rank(batch: Seq<Contribution>) -> int {
    sum(local_ranks(batch))
}

/// The normalized rank of a vertex, in billionths: its rank times the number
/// of touched vertices, divided by the sum of their ranks, rounded down.
pub open spec fn normalized(batch: Seq<Contribution>, v: usize) -> int {
    new_rank(batch, v) as int * touched(batch).len() * (ONE as int) / total_rank(batch)
}

/// The normalized rank of each touched vertex.
pub open spec fn scores(batch: Seq<Contribution>) -> Seq<int> {
    Seq::new(touched(batch).len(), |i: int| normalized(batch, touched(batch)[i]))
}

/// The order of the report: the higher rank first, and of two vertices with
/// the same rank the one with the smaller identifier.
pub open spec fn outranks(batch: Seq<Contribution>, a: usize, b: usize) -> bool {
    new_rank(batch, a) > new_rank(batch, b) || (new_rank(batch, a) == new_rank(batch, b) && a < b)
}

/// The list `top` is the report of the batch: the first five touched
/// vertices in the order of the report, or all of them where there are
/// fewer, each with its normalized rank.
pub open spec fn is_top(batch: Seq<Contribution>, top: Seq<Ranked>) -> bool {
    &&& top.len() == if touched(batch).len() < TOP {
        touched(batch).len()
    } else {
        TOP as nat
    }
    &&& forall|k: int|
        0 <= k < top.len() ==> touched(batch).contains((#[trigger] top[k]).vertex) && top[k].score
            == normalized(batch, top[k].vertex)
    &&& forall|j: int, k: int|
        0 <= j < k < top.len() ==> outranks(batch, (#[trigger] top[j]).vertex, (#[trigger] top[k]).vertex)
    &&& forall|v: usize, k: int|
        #![trigger named(top, v), top[k]]
        touched(batch).contains(v) && !named(top, v) && 0 <= k < top.len() ==> outranks(
            batch,
            top[k].vertex,
            v,
        )
}

/// The list names the vertex `v`.
pub open spec fn named(top: Seq<Ranked>, v: usize) -> bool {
    exists|k: int| 0 <= k < top.len() && (#[trigger] top[k]).vertex == v
}

/// A vertex that the first contributions do not touch receives nothing from
/// them.
proof fn lemma_untouched(batch: Seq<Contribution>, v: usize, count: nat)
    requires
        count <= batch.len(),
        !touched_upto(batch, count).contains(v),
    ensures
        inbound_upto(batch, v, count) == 0,
    decreases count,
{
    if count > 0 {
        let before = touched_upto(batch, (count - 1) as nat);
        let mid = observed(before, batch[count - 1].source);
        let all = observed(mid, batch[count - 1].destination);
        if before.contains(v) {
            let i = choose|i: int| 0 <= i < before.len() && before[i] == v;
            assert(mid[i] == v);
            assert(all[i] == v);
        }
        if batch[count - 1].destination == v {
            if !mid.contains(v) {
                assert(all[mid.len() as int] == v);
            }
        }
        lemma_untouched(batch, v, (count - 1) as nat);
    }
}

/// After normalization the ranks of the touched vertices sum to their
/// number: the normalized ranks, in billionths, sum to at most the number of
/// touched vertices times one billion, and fall short of it by less than one
/// billionth for each vertex.
pub proof fn lemma_normalization(batch: Seq<Contribution>)
    requires
        batch.len() > 0,
    ensures
        sum(scores(batch)) <= touched(batch).len() * ONE,
        sum(scores(batch)) > touched(batch).len() * ONE - touched(batch).len(),
{
    let n = touched(batch).len();
    let s = local_ranks(batch);
    let q = scores(batch);
    let whole = total_rank(batch);
    let factor = n * ONE;
    lemma_touched_some(batch);
    lemma_sum_covers(s, n, 0);
    assert(s[0] >= BASE) by {
        lemma_new_rank(batch, touched(batch)[0]);
    }
    assert forall|k: int| 0 <= k < s.len() implies #[trigger] q[k] == s[k] * factor / whole by {
        assert(s[k] * n * (ONE as int) == s[k] * (n * ONE)) by (nonlinear_arith);
    }
    lemma_sum_of_quotients(s, q, factor, whole, n);
    let total = sum_upto(q, n);
    assert(total <= factor && total > factor - n) by (nonlinear_arith)
        requires
            whole * total <= factor * whole,
            factor * whole - n * (whole - 1) <= whole * total,
            whole > 0,
            n > 0,
    ;
}

/// A batch that is not empty touches some vertex.
proof fn lemma_touched_some(batch: Seq<Contribution>)
    requires
        batch.len() > 0,
    ensures
        touched(batch).len() > 0,
{
    let before = touched_upto(batch, (batch.len() - 1) as nat);
    let mid = observed(before, batch[batch.len() - 1].source);
    assert(mid.len() > 0);
}

/// The vertex at position `a` comes before the one at `b` in the order of
/// the report.
spec fn leads(ids: Seq<usize>, ranks: Seq<u64>, a: int, b: int) -> bool {
    ranks[a] > ranks[b] || (ranks[a] == ranks[b] && ids[a] < ids[b])
}

/// The list holds the position `q`.
spec fn chosen(best: Seq<usize>, q: int) -> bool {
    exists|k: int| 0 <= k < best.len() && #[trigger] best[k] == q
}

/// The list `best` holds the first positions, up to five, of the first
/// `count` vertices in the order of the report.
spec fn is_best(ids: Seq<usize>, ranks: Seq<u64>, best: Seq<usize>, count: int) -> bool {
    &&& best.len() == if count < TOP {
        count
    } else {
        TOP as int
    }
    &&& forall|k: int| 0 <= k < best.len() ==> #[trigger] best[k] < count
    &&& forall|j: int, k: int|
        0 <= j < k < best.len() ==> leads(ids, ranks, #[trigger] best[j] as int, #[trigger] best[k] as int)
    &&& forall|q: int, k: int|
        #![trigger chosen(best, q), best[k]]
        0 <= q < count && !chosen(best, q) && 0 <= k < best.len() ==> leads(
            ids,
            ranks,
            best[k] as int,
            q,
        )
    &&& forall|q: int| 0 <= q < count && count <= TOP ==> #[trigger] chosen(best, q)
}

/// The vertices that a batch touches, and for each the sum of what flows to
/// it.
fn tally(batch: &Vec<Contribution>) -> (r: (VertexIndex, Vec<u128>))
    ensures
        r.0.wf(),
        r.0@ == touched(batch@),
        r.1.len() == r.0@.len(),
        forall|p: int| 0 <= p < r.1.len() ==> #[trigger] r.1[p] == inbound_upto(batch@, r.0@[p], batch@.len()),
{
    let mut index = VertexIndex::new();
    let mut sums: Vec<u128> = Vec::new();
    let mut k: usize = 0;
    while k < batch.len()
        invariant
            k <= batch.len(),
            index.wf(),
            index@ == touched_upto(batch@, k as nat),
            sums.len() == index@.len(),
            forall|p: int| 0 <= p < sums.len() ==> #[trigger] sums[p] == inbound_upto(batch@, index@[p], k as nat),
        decreases batch.len() - k,
    {
        let c = batch[k];
        let ghost before = index@;
        let i = index.observe(c.source);
        if i == sums.len() {
            proof {
                lemma_untouched(batch@, c.source, k as nat);
            }
            sums.push(0);
        }
        let ghost mid = index@;
        let j = index.observe(c.destination);
        if j == sums.len() {
            proof {
                if c.destination != c.source {
                    assert(!before.contains(c.destination)) by {
                        if before.contains(c.destination) {
                            let a = choose|a: int| 0 <= a < before.len() && before[a] == c.destination;
                            assert(mid[a] == c.destination);
                        }
                    }
                    lemma_untouched(batch@, c.destination, k as nat);
                }
            }
            sums.push(0);
        }
        proof {
            lemma_inbound_bound(batch@, c.destination, k as nat);
            index.lemma_distinct();
            assert forall|p: int| 0 <= p < sums.len() implies #[trigger] sums[p] == inbound_upto(
                batch@,
                index@[p],
                k as nat,
            ) by {
                if p < before.len() {
                    assert(index@[p] == before[p]);
                }
            }
        }
        let sum = sums[j] + c.amount as u128;
        sums[j] = sum;
        k += 1;
    }
    (index, sums)
}

/// The rank of each vertex from what flows to it, and the sum of the ranks.
fn weigh(batch: Ghost<Seq<Contribution>>, index: &VertexIndex, sums: &Vec<u128>) -> (r: (Vec<u64>, u128))
    requires
        index@ == touched(batch@),
        sums.len() == index@.len(),
        forall|p: int| 0 <= p < sums.len() ==> #[trigger] sums[p] == inbound_upto(batch@, index@[p], batch@.len()),
    ensures
        r.0.len() == sums.len(),
        forall|p: int| 0 <= p < r.0.len() ==> #[trigger] r.0[p] == new_rank(batch@, index@[p]),
        r.1 == total_rank(batch@),
{
    let mut ranks: Vec<u64> = Vec::new();
    let mut total: u128 = 0;
    let mut p: usize = 0;
    while p < sums.len()
        invariant
            p <= sums.len(),
            index@ == touched(batch@),
            sums.len() == index@.len(),
            forall|a: int| 0 <= a < sums.len() ==> #[trigger] sums[a] == inbound_upto(batch@, index@[a], batch@.len()),
            ranks.len() == p,
            forall|a: int| 0 <= a < p ==> #[trigger] ranks[a] == new_rank(batch@, index@[a]),
            total == sum_upto(local_ranks(batch@), p as nat),
            total <= p * (u64::MAX as int),
        decreases sums.len() - p,
    {
        let rank = damp(cap(sums[p]));
        ranks.push(rank);
        total = total + rank as u128;
        p += 1;
    }
    (ranks, total)
}

/// The positions of the first vertices, up to five, in the order of the
/// report.
fn select(index: &VertexIndex, ranks: &Vec<u64>) -> (best: Vec<usize>)
    requires
        index.wf(),
        ranks.len() == index@.len(),
    ensures
        is_best(index@, ranks@, best@, ranks.len() as int),
{
    let n = ranks.len();
    let mut best: Vec<usize> = Vec::new();
    let mut p: usize = 0;
    proof {
        index.lemma_distinct();
    }
    while p < n
        invariant
            p <= n,
            n == ranks.len(),
            ranks.len() == index@.len(),
            index@.no_duplicates(),
            is_best(index@, ranks@, best@, p as int),
        decreases n - p,
    {
        let ghost ids = index@;
        let ghost old_best = best@;
        let mut j: usize = 0;
        while j < best.len() && !leads_at(index, ranks, p, best[j])
            invariant
                j <= best.len(),
                p < n,
                n == ranks.len(),
                ranks.len() == index@.len(),
                ids == index@,
                index@.no_duplicates(),
                best@ == old_best,
                is_best(ids, ranks@, old_best, p as int),
                forall|k: int| 0 <= k < j ==> leads(ids, ranks@, #[trigger] best[k] as int, p as int),
            decreases best.len() - j,
        {
            j += 1;
        }
        if j < TOP {
            best.insert(j, p);
            let ghost grown_best = best@;
            proof {
                assert forall|a: int, b: int| 0 <= a < b < grown_best.len() implies leads(
                    ids,
                    ranks@,
                    #[trigger] grown_best[a] as int,
                    #[trigger] grown_best[b] as int,
                ) by {
                    if a == j {
                        assert(grown_best[b] == old_best[b - 1]);
                        if b - 1 > j {
                            assert(leads(ids, ranks@, old_best[j as int] as int, old_best[b - 1] as int));
                        }
                    } else if b == j {
                        assert(grown_best[a] == old_best[a]);
                    } else {
                        let a0 = if a < j { a } else { a - 1 };
                        let b0 = if b < j { b } else { b - 1 };
                        assert(grown_best[a] == old_best[a0]);
                        assert(grown_best[b] == old_best[b0]);
                    }
                }
                assert(grown_best[j as int] == p);
                assert forall|q: int| #[trigger] chosen(old_best, q) implies chosen(grown_best, q) by {
                    let k = choose|k: int| 0 <= k < old_best.len() && #[trigger] old_best[k] == q;
                    let k1 = if k < j { k } else { k + 1 };
                    assert(grown_best[k1] == q);
                }
            }
            if best.len() > TOP {
                let last = best.pop();
                proof {
                    let kept = best@;
                    assert(kept =~= grown_best.take(TOP as int));
                    assert(old_best.len() == TOP);
                    let x = grown_best[TOP as int];
                    assert forall|q: int, k: int|
                        #![trigger chosen(kept, q), kept[k]]
                        0 <= q < p + 1 && !chosen(kept, q) && 0 <= k < kept.len() implies leads(
                        ids,
                        ranks@,
                        kept[k] as int,
                        q,
                    ) by {
                        assert(kept[k] == grown_best[k]);
                        assert(leads(ids, ranks@, grown_best[k] as int, x as int));
                        if q == p {
                            assert(kept[j as int] == p);
                        } else if chosen(old_best, q) {
                            let m = choose|m: int| 0 <= m < grown_best.len() && #[trigger] grown_best[m] == q;
                            if m < TOP {
                                assert(kept[m] == q);
                            }
                        } else {
                            assert(x == old_best[TOP - 1]);
                            assert(leads(ids, ranks@, old_best[TOP - 1] as int, q));
                        }
                    }
                    assert forall|a: int, b: int| 0 <= a < b < kept.len() implies leads(
                        ids,
                        ranks@,
                        #[trigger] kept[a] as int,
                        #[trigger] kept[b] as int,
                    ) by {
                        assert(kept[a] == grown_best[a] && kept[b] == grown_best[b]);
                    }
                    assert forall|k: int| 0 <= k < kept.len() implies #[trigger] kept[k] < p + 1 by {
                        assert(kept[k] == grown_best[k]);
                        if k != j {
                            let k0 = if k < j { k } else { k - 1 };
                            assert(grown_best[k] == old_best[k0]);
                        }
                    }
                }
            } else {
                proof {
                    assert forall|k: int| 0 <= k < grown_best.len() implies #[trigger] grown_best[k] < p
                        + 1 by {
                        if k != j {
                            let k0 = if k < j { k } else { k - 1 };
                            assert(grown_best[k] == old_best[k0]);
                        }
                    }
                    assert forall|q: int| 0 <= q < p + 1 implies #[trigger] chosen(grown_best, q) by {
                        if q < p {
                            assert(chosen(old_best, q));
                        }
                    }
                }
            }
        } else {
            proof {
                assert forall|q: int, k: int|
                    #![trigger chosen(old_best, q), old_best[k]]
                    0 <= q < p + 1 && !chosen(old_best, q) && 0 <= k < old_best.len() implies leads(
                    ids,
                    ranks@,
                    old_best[k] as int,
                    q,
                ) by {
                    if q == p {
                        assert(k < j);
                    }
                }
            }
        }
        p += 1;
    }
    best
}

/// Whether the vertex at position `a` comes before the one at `b` in the
/// order of the report.
fn leads_at(index: &VertexIndex, ranks: &Vec<u64>, a: usize, b: usize) -> (r: bool)
    requires
        ranks.len() == index@.len(),
        a < ranks.len(),
        b < ranks.len(),
    ensures
        r == leads(index@, ranks@, a as int, b as int),
{
    ranks[a] > ranks[b] || (ranks[a] == ranks[b] && index.id_at(a) < index.id_at(b))
}

/// The report of an epoch from the contributions that left its loop: the
/// rank of every touched vertex from the batch alone, normalized so that the
/// ranks sum to the number of touched vertices, and the five highest of
/// them. There is no report where the batch is empty.
pub fn aggregate(epoch: u64, batch: &Vec<Contribution>) -> (r: Option<Report>)
    ensures
        batch.len() == 0 <==> r is None,
        match r {
            Some(report) => report.epoch == epoch && is_top(batch@, report.top@),
            None => true,
        },
{
    if batch.len() == 0 {
        return None;
    }
    let (index, sums) = tally(batch);
    let (ranks, total) = weigh(Ghost(batch@), &index, &sums);
    let best = select(&index, &ranks);
    let n = index.len();
    let ghost ids = index@;
    proof {
        lemma_touched_some(batch@);
        index.lemma_distinct();
        lemma_sum_covers(local_ranks(batch@), n as nat, 0);
        assert(local_ranks(batch@)[0] >= BASE) by {
            lemma_new_rank(batch@, touched(batch@)[0]);
        }
    }
    let mut top: Vec<Ranked> = Vec::new();
    let mut k: usize = 0;
    while k < best.len()
        invariant
            k <= best.len(),
            n == ids.len(),
            n > 0,
            ids == index@,
            ids == touched(batch@),
            ranks.len() == n,
            forall|p: int| 0 <= p < n ==> #[trigger] ranks[p] == new_rank(batch@, ids[p]),
            total == total_rank(batch@),
            total > 0,
            is_best(ids, ranks@, best@, n as int),
            top.len() == k,
            forall|a: int|
                0 <= a < k ==> (#[trigger] top[a]).vertex == ids[best[a] as int] && top[a].score
                    == normalized(batch@, top[a].vertex),
        decreases best.len() - k,
    {
        let p = best[k];
        let rank = ranks[p];
        proof {
            lemma_sum_covers(local_ranks(batch@), n as nat, p as int);
            assert(local_ranks(batch@)[p as int] == rank);
            assert(rank * n <= u128::MAX) by (nonlinear_arith)
                requires
                    0 <= rank <= u64::MAX,
                    0 <= n <= usize::MAX,
            ;
            assert((rank * n) * ONE / (total as int) <= n * ONE) by (nonlinear_arith)
                requires
                    0 <= rank <= total,
                    total > 0,
                    n >= 0,
            {
                assert((rank * n) * ONE <= (n * ONE) * total);
            }
        }
        let score = mul_div(rank as u128 * n as u128, ONE, total);
        top.push(Ranked { vertex: index.id_at(p), score });
        k += 1;
    }
    proof {
        let t = top@;
        assert forall|j: int, k: int| 0 <= j < k < t.len() implies outranks(
            batch@,
            (#[trigger] t[j]).vertex,
            (#[trigger] t[k]).vertex,
        ) by {
            assert(leads(ids, ranks@, best[j] as int, best[k] as int));
        }
        assert forall|v: usize, k: int|
            #![trigger named(t, v), t[k]]
            touched(batch@).contains(v) && !named(t, v) && 0 <= k < t.len() implies outranks(
            batch@,
            t[k].vertex,
            v,
        ) by {
            let q = choose|q: int| 0 <= q < ids.len() && ids[q] == v;
            if chosen(best@, q) {
                let m = choose|m: int| 0 <= m < best.len() && #[trigger] best[m] == q;
                assert(t[m].vertex == v);
            }
            assert(leads(ids, ranks@, best[k] as int, q));
        }
        assert forall|k: int| 0 <= k < t.len() implies touched(batch@).contains((#[trigger] t[k]).vertex) by {
            assert(ids[best[k] as int] == t[k].vertex);
        }
    }
    Some(Report { epoch, top })
}

} // verus!
