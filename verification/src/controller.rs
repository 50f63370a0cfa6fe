//! The loop controller: the state of the refinement loop of one epoch, and
//! where the signals of a round go.

use vstd::prelude::*;
use crate::convergence::{ConvergencePolicy, Decision};
use crate::operator::Signal;
use crate::time::LogicalTime;

verus! {

/// The state of the loop of one epoch.
#[derive(Clone, Copy, Debug, PartialEq, Eq, Structural)]
pub enum LoopState {
    /// The loop is at `round`, whose signals have not been routed yet.
    Iterating { round: u64 },
    /// The loop has ended. No round follows in this epoch.
    Done,
}

/// Where the signals of a round go.
#[derive(Clone, Copy, Debug, PartialEq, Eq, Structural)]
pub enum Routing {
    /// Back into the operator, as the input of the round at the given time.
    FeedBack(LogicalTime),
    /// Out of the loop, tagged with the epoch alone.
    Release(u64),
    /// Nowhere: the loop of the epoch had ended before.
    Discard,
}

/// The state that follows `state` on a decision of the policy.
pub open spec fn next_state(state: LoopState, decision: Decision) -> LoopState {
    match (state, decision) {
        (LoopState::Iterating { round }, Decision::Continue) => LoopState::Iterating {
            round: (round + 1) as u64,
        },
        (LoopState::Iterating { round }, Decision::Terminate) => LoopState::Done,
        (LoopState::Done, _) => LoopState::Done,
    }
}

/// Where the signals go on a decision of the policy in `state`.
pub open spec fn routing(epoch: u64, state: LoopState, decision: Decision) -> Routing {
    match (state, decision) {
        (LoopState::Iterating { round }, Decision::Continue) => Routing::FeedBack(
            LogicalTime { epoch, round: (round + 1) as u64 },
        ),
        (LoopState::Iterating { round }, Decision::Terminate) => Routing::Release(epoch),
        (LoopState::Done, _) => Routing::Discard,
    }
}

/// The state of the loop after `steps` rounds have been routed under
/// `policy`, where `batches` gives the signals of each round.
pub open spec fn state_after(
    policy: ConvergencePolicy,
    batches: spec_fn(u64) -> Seq<Signal>,
    steps: nat,
) -> LoopState
    decreases steps,
{
    if steps == 0 {
        LoopState::Iterating { round: 0 }
    } else {
        match state_after(policy, batches, (steps - 1) as nat) {
            LoopState::Iterating { round } => next_state(
                LoopState::Iterating { round },
                policy.verdict(round, batches(round)),
            ),
            LoopState::Done => LoopState::Done,
        }
    }
}

/// With a fixed number of rounds the loop of an epoch is at round `steps`
/// after `steps` routings up to `max_rounds`, and has ended after one more:
/// it ends exactly at round `max_rounds`, whatever the rounds hold.
pub proof fn lemma_fixed_rounds_end(max_rounds: u64, batches: spec_fn(u64) -> Seq<Signal>, steps: nat)
    ensures
        steps <= max_rounds ==> state_after(
            ConvergencePolicy::FixedRounds { max_rounds },
            batches,
            steps,
        ) == (LoopState::Iterating { round: steps as u64 }),
        steps > max_rounds ==> state_after(
            ConvergencePolicy::FixedRounds { max_rounds },
            batches,
            steps,
        ) == LoopState::Done,
    decreases steps,
{
    if steps > 0 {
        lemma_fixed_rounds_end(max_rounds, batches, (steps - 1) as nat);
    }
}

/// Two loops over the same rounds are at the same round as long as both go
/// on.
proof fn lemma_same_round(
    a: ConvergencePolicy,
    b: ConvergencePolicy,
    batches: spec_fn(u64) -> Seq<Signal>,
    steps: nat,
)
    ensures
        state_after(a, batches, steps) != LoopState::Done && state_after(b, batches, steps)
            != LoopState::Done ==> state_after(a, batches, steps) == state_after(b, batches, steps),
    decreases steps,
{
    if steps > 0 {
        lemma_same_round(a, b, batches, (steps - 1) as nat);
    }
}

/// A wider tolerance ends the loop no later: over the same rounds, once the
/// loop under the narrower tolerance has ended, so has the loop under the
/// wider one.
pub proof fn lemma_tolerance_monotone(
    wide: u64,
    narrow: u64,
    batches: spec_fn(u64) -> Seq<Signal>,
    steps: nat,
)
    requires
        wide >= narrow,
        state_after(ConvergencePolicy::Tolerance { tolerance: narrow }, batches, steps) == LoopState::Done,
    ensures
        state_after(ConvergencePolicy::Tolerance { tolerance: wide }, batches, steps) == LoopState::Done,
    decreases steps,
{
    let a = ConvergencePolicy::Tolerance { tolerance: wide };
    let b = ConvergencePolicy::Tolerance { tolerance: narrow };
    if steps > 0 {
        let before = (steps - 1) as nat;
        if state_after(b, batches, before) == LoopState::Done {
            lemma_tolerance_monotone(wide, narrow, batches, before);
        } else {
            lemma_same_round(a, b, batches, before);
        }
    }
}

/// The controller of the loop of one epoch.
#[derive(Clone, Copy, Debug, PartialEq, Eq, Structural)]
pub struct LoopController {
    pub epoch: u64,
    pub state: LoopState,
}

impl LoopController {
    /// The controller of a new epoch, at round 0.
    pub fn begin(epoch: u64) -> (c: LoopController)
        ensures
            c.epoch == epoch,
            c.state == (LoopState::Iterating { round: 0 }),
    {
        LoopController { epoch, state: LoopState::Iterating { round: 0 } }
    }

    /// The time of the round that the loop is at, if it has not ended.
    pub fn time(&self) -> (t: Option<LogicalTime>)
        ensures
            t == (match self.state {
                LoopState::Iterating { round } => Some(LogicalTime { epoch: self.epoch, round }),
                LoopState::Done => None,
            }),
    {
        match self.state {
            LoopState::Iterating { round } => Some(LogicalTime { epoch: self.epoch, round }),
            LoopState::Done => None,
        }
    }

    /// Whether the loop of the epoch has ended.
    pub fn is_done(&self) -> (b: bool)
        ensures
            b == (self.state == LoopState::Done),
    {
        match self.state {
            LoopState::Iterating { round } => false,
            LoopState::Done => true,
        }
    }

    /// Takes the decision of the policy for the round that the loop is at,
    /// moves to the next state and says where the signals of the round go.
    pub fn route(&mut self, decision: Decision) -> (r: Routing)
        requires
            decision == Decision::Continue ==> old(self).state != (LoopState::Iterating {
                round: u64::MAX,
            }),
        ensures
            final(self).epoch == old(self).epoch,
            final(self).state == next_state(old(self).state, decision),
            r == routing(old(self).epoch, old(self).state, decision),
    {
        match (self.state, decision) {
            (LoopState::Iterating { round }, Decision::Continue) => {
                self.state = LoopState::Iterating { round: round + 1 };
                Routing::FeedBack(LogicalTime { epoch: self.epoch, round: round + 1 })
            },
            (LoopState::Iterating { round }, Decision::Terminate) => {
                self.state = LoopState::Done;
                Routing::Release(self.epoch)
            },
            (LoopState::Done, _) => Routing::Discard,
        }
    }
}

} // verus!
