//! The convergence policies: whether the refinement loop of an epoch goes
//! on after a round or ends with it.

use vstd::prelude::*;
use crate::operator::Signal;

verus! {

/// What the policy decides for the signals of one round.
#[derive(Clone, Copy, Debug, PartialEq, Eq, Structural)]
pub enum Decision {
    /// The signals are fed back for another round.
    Continue,
    /// The signals leave the loop.
    Terminate,
}

/// When the loop of an epoch ends.
#[derive(Clone, Copy, Debug, PartialEq, Eq, Structural)]
pub enum ConvergencePolicy {
    /// The loop goes on while the round is below `max_rounds`.
    FixedRounds { max_rounds: u64 },
    /// The loop goes on while some rank moved by more than `tolerance` in
    /// the round, in billionths.
    Tolerance { tolerance: u64 },
}

/// The largest movement among the first `count` signals, 0 for none.
pub open spec fn max_delta_upto(signals: Seq<Signal>, count: nat) -> u64
    decreases count,
{
    if count == 0 {
        0
    } else {
        let rest = max_delta_upto(signals, (count - 1) as nat);
        if signals[count - 1].delta > rest {
            signals[count - 1].delta
        } else {
            rest
        }
    }
}

/// The largest movement that the signals of a round report, 0 where the
/// round has no signals.
pub open spec fn max_delta(signals: Seq<Signal>) -> u64 {
    max_delta_upto(signals, signals.len())
}

/// The largest movement is an upper bound of every movement among the
/// signals, and one of them unless there are none.
pub proof fn lemma_max_delta(signals: Seq<Signal>, count: nat)
    requires
        count <= signals.len(),
    ensures
        forall|k: int| 0 <= k < count ==> (#[trigger] signals[k]).delta <= max_delta_upto(signals, count),
        count == 0 ==> max_delta_upto(signals, count) == 0,
        count > 0 ==> exists|k: int|
            0 <= k < count && (#[trigger] signals[k]).delta == max_delta_upto(signals, count),
    decreases count,
{
    if count > 0 {
        lemma_max_delta(signals, (count - 1) as nat);
        let rest = max_delta_upto(signals, (count - 1) as nat);
        if signals[count - 1].delta > rest || count == 1 {
            assert(signals[count - 1].delta == max_delta_upto(signals, count));
        } else {
            let k = choose|k: int| 0 <= k < count - 1 && (#[trigger] signals[k]).delta == rest;
            assert(signals[k].delta == max_delta_upto(signals, count));
        }
    }
}

/// The largest movement that the signals report.
pub fn largest_delta(signals: &Vec<Signal>) -> (m: u64)
    ensures
        m == max_delta(signals@),
{
    let mut m: u64 = 0;
    let mut k: usize = 0;
    while k < signals.len()
        invariant
            k <= signals.len(),
            m == max_delta_upto(signals@, k as nat),
        decreases signals.len() - k,
    {
        if signals[k].delta > m {
            m = signals[k].delta;
        }
        k += 1;
    }
    m
}

impl ConvergencePolicy {
    /// The decision for the signals of a round: one decision for the whole
    /// round. A round without signals has moved nothing, so under a
    /// tolerance it ends the loop.
    pub open spec fn verdict(self, round: u64, signals: Seq<Signal>) -> Decision {
        match self {
            ConvergencePolicy::FixedRounds { max_rounds } => if round < max_rounds {
                Decision::Continue
            } else {
                Decision::Terminate
            },
            ConvergencePolicy::Tolerance { tolerance } => if max_delta(signals) > tolerance {
                Decision::Continue
            } else {
                Decision::Terminate
            },
        }
    }

    /// A policy of a fixed number of rounds, which must be positive.
    pub fn fixed_rounds(max_rounds: u64) -> (p: Option<ConvergencePolicy>)
        ensures
            p == (if max_rounds > 0 {
                Some(ConvergencePolicy::FixedRounds { max_rounds })
            } else {
                None
            }),
    {
        if max_rounds > 0 {
            Some(ConvergencePolicy::FixedRounds { max_rounds })
        } else {
            None
        }
    }

    /// A policy of a tolerance, in billionths, which must be positive.
    pub fn tolerance(tolerance: u64) -> (p: Option<ConvergencePolicy>)
        ensures
            p == (if tolerance > 0 {
                Some(ConvergencePolicy::Tolerance { tolerance })
            } else {
                None
            }),
    {
        if tolerance > 0 {
            Some(ConvergencePolicy::Tolerance { tolerance })
        } else {
            None
        }
    }

    /// Decides for the signals of a round.
    pub fn decide(&self, round: u64, signals: &Vec<Signal>) -> (d: Decision)
        ensures
            d == self.verdict(round, signals@),
    {
        match self {
            ConvergencePolicy::FixedRounds { max_rounds } => {
                if round < *max_rounds {
                    Decision::Continue
                } else {
                    Decision::Terminate
                }
            },
            ConvergencePolicy::Tolerance { tolerance } => {
                if largest_delta(signals) > *tolerance {
                    Decision::Continue
                } else {
                    Decision::Terminate
                }
            },
        }
    }
}

} // verus!
