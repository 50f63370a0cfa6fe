//! Sums of lists of numbers, and what the proofs about ranks need of them.

use vstd::arithmetic::div_mod::{lemma_fundamental_div_mod, lemma_mod_bound};
use vstd::prelude::*;

verus! {

/// The sum of the first `count` numbers of a list.
pub open spec fn sum_upto(s: Seq<int>, count: nat) -> int
    decreases count,
{
    if count == 0 {
        0
    } else {
        sum_upto(s, (count - 1) as nat) + s[count - 1]
    }
}

/// The sum of a list of numbers.
pub open spec fn sum(s: Seq<int>) -> int {
    sum_upto(s, s.len())
}

/// Every number of a list of non-negative numbers is at most their sum.
pub proof fn lemma_sum_covers(s: Seq<int>, count: nat, i: int)
    requires
        count <= s.len(),
        forall|k: int| 0 <= k < s.len() ==> #[trigger] s[k] >= 0,
        0 <= i < count,
    ensures
        s[i] <= sum_upto(s, count),
        0 <= sum_upto(s, count),
    decreases count,
{
    if count > 0 {
        assert(s[count - 1] >= 0);
        if i < count - 1 {
            lemma_sum_covers(s, (count - 1) as nat, i);
        } else if count > 1 {
            lemma_sum_covers(s, (count - 1) as nat, 0);
        }
    }
}

/// Rounding each of `count` quotients down loses less than one each.
pub proof fn lemma_sum_of_quotients(s: Seq<int>, q: Seq<int>, factor: int, whole: int, count: nat)
    requires
        count <= s.len(),
        s.len() == q.len(),
        whole > 0,
        factor >= 0,
        forall|k: int| 0 <= k < s.len() ==> #[trigger] s[k] >= 0,
        forall|k: int| 0 <= k < s.len() ==> #[trigger] q[k] == s[k] * factor / whole,
    ensures
        whole * sum_upto(q, count) <= factor * sum_upto(s, count),
        factor * sum_upto(s, count) - count * (whole - 1) <= whole * sum_upto(q, count),
    decreases count,
{
    if count > 0 {
        lemma_sum_of_quotients(s, q, factor, whole, (count - 1) as nat);
        let x = s[count - 1] * factor;
        let y = q[count - 1];
        assert(y == x / whole);
        lemma_fundamental_div_mod(x, whole);
        lemma_mod_bound(x, whole);
        let a = sum_upto(q, (count - 1) as nat);
        let b = sum_upto(s, (count - 1) as nat);
        assert(whole * (a + y) <= factor * (b + s[count - 1]) && factor * (b + s[count - 1]) - count
            * (whole - 1) <= whole * (a + y)) by (nonlinear_arith)
            requires
                whole * a <= factor * b,
                factor * b - (count - 1) * (whole - 1) <= whole * a,
                x == s[count - 1] * factor,
                x == whole * y + x % whole,
                0 <= x % whole < whole,
        ;
    }
}

/// Lists that agree on their first `count` numbers have the same sum there.
pub proof fn lemma_sum_agrees(s: Seq<int>, t: Seq<int>, count: nat)
    requires
        count <= s.len(),
        count <= t.len(),
        forall|k: int| 0 <= k < count ==> s[k] == t[k],
    ensures
        sum_upto(s, count) == sum_upto(t, count),
    decreases count,
{
    if count > 0 {
        lemma_sum_agrees(s, t, (count - 1) as nat);
    }
}

/// The sum of two lists, one behind the other, is the sum of their sums.
pub proof fn lemma_sum_concat(s: Seq<int>, t: Seq<int>, count: nat)
    requires
        count <= t.len(),
    ensures
        sum_upto(s + t, s.len() + count) == sum(s) + sum_upto(t, count),
    decreases count,
{
    if count == 0 {
        lemma_sum_agrees(s + t, s, s.len());
    } else {
        lemma_sum_concat(s, t, (count - 1) as nat);
        assert((s + t)[s.len() + count - 1] == t[count - 1]);
    }
}

/// The sum of a list that adds two lists number by number is the sum of
/// their sums.
pub proof fn lemma_sum_pointwise(s: Seq<int>, t: Seq<int>, u: Seq<int>, count: nat)
    requires
        count <= s.len(),
        s.len() == t.len(),
        s.len() == u.len(),
        forall|k: int| 0 <= k < u.len() ==> #[trigger] u[k] == s[k] + t[k],
    ensures
        sum_upto(u, count) == sum_upto(s, count) + sum_upto(t, count),
    decreases count,
{
    if count > 0 {
        lemma_sum_pointwise(s, t, u, (count - 1) as nat);
    }
}

/// The sum of a list that is 0 but at one place is the number at that place.
pub proof fn lemma_sum_single(t: Seq<int>, place: int, count: nat)
    requires
        count <= t.len(),
        0 <= place,
        forall|k: int| 0 <= k < t.len() && k != place ==> #[trigger] t[k] == 0,
    ensures
        sum_upto(t, count) == if place < count {
            t[place]
        } else {
            0
        },
    decreases count,
{
    if count > 0 {
        lemma_sum_single(t, place, (count - 1) as nat);
    }
}

/// The sum of a list that holds one number throughout is that number times
/// the length.
pub proof fn lemma_sum_constant(s: Seq<int>, c: int, count: nat)
    requires
        count <= s.len(),
        forall|k: int| 0 <= k < s.len() ==> #[trigger] s[k] == c,
    ensures
        sum_upto(s, count) == count * c,
    decreases count,
{
    if count > 0 {
        lemma_sum_constant(s, c, (count - 1) as nat);
        assert(s[count - 1] == c);
        assert(count * c == (count - 1) * c + c) by (nonlinear_arith);
    } else {
        assert(count * c == 0) by (nonlinear_arith)
            requires
                count == 0,
        ;
    }
}

} // verus!
