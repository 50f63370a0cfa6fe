//! Logical time and input frontiers.

use vstd::prelude::*;

verus! {

/// A point of logical time: an epoch (one snapshot of the graph) and the
/// round of the refinement loop inside that epoch. Times are ordered
/// lexicographically, the epoch first.
#[derive(Clone, Copy, Debug, PartialEq, Eq, Structural)]
pub struct LogicalTime {
    pub epoch: u64,
    pub round: u64,
}

impl LogicalTime {
    /// Strict lexicographic order.
    pub open spec fn lt(self, other: LogicalTime) -> bool {
        self.epoch < other.epoch || (self.epoch == other.epoch && self.round < other.round)
    }

    /// Lexicographic order.
    pub open spec fn le(self, other: LogicalTime) -> bool {
        self.lt(other) || self == other
    }

    /// The time after this one in the same epoch.
    pub open spec fn succ(self) -> LogicalTime {
        LogicalTime { epoch: self.epoch, round: (self.round + 1) as u64 }
    }

    pub fn new(epoch: u64, round: u64) -> (t: LogicalTime)
        ensures
            t.epoch == epoch,
            t.round == round,
    {
        LogicalTime { epoch, round }
    }

    /// Round 0 of an epoch.
    pub fn start_of(epoch: u64) -> (t: LogicalTime)
        ensures
            t.epoch == epoch,
            t.round == 0,
    {
        LogicalTime { epoch, round: 0 }
    }

    /// Whether this time lies strictly before `other`.
    pub fn precedes(&self, other: &LogicalTime) -> (b: bool)
        ensures
            b == self.lt(*other),
    {
        self.epoch < other.epoch || (self.epoch == other.epoch && self.round < other.round)
    }

    /// The next round of the same epoch.
    pub fn next_round(&self) -> (t: LogicalTime)
        requires
            self.round < u64::MAX,
        ensures
            t == self.succ(),
            self.lt(t),
    {
        LogicalTime { epoch: self.epoch, round: self.round + 1 }
    }
}

/// The frontier of one input: the earliest time at which items may still
/// arrive on it. A closed input delivers nothing more at any time.
#[derive(Clone, Copy, Debug, PartialEq, Eq, Structural)]
pub enum Frontier {
    At(LogicalTime),
    Closed,
}

impl Frontier {
    /// The frontier has advanced strictly past `t`: no item tagged `t` or
    /// earlier can arrive any more.
    pub open spec fn passed(self, t: LogicalTime) -> bool {
        match self {
            Frontier::At(f) => t.lt(f),
            Frontier::Closed => true,
        }
    }

    /// This frontier is no further along than `other`.
    pub open spec fn le(self, other: Frontier) -> bool {
        match (self, other) {
            (Frontier::At(a), Frontier::At(b)) => a.le(b),
            (Frontier::At(_), Frontier::Closed) => true,
            (Frontier::Closed, Frontier::At(_)) => false,
            (Frontier::Closed, Frontier::Closed) => true,
        }
    }

    /// The one of two frontiers that is less far along.
    pub open spec fn meet(self, other: Frontier) -> Frontier {
        if self.le(other) {
            self
        } else {
            other
        }
    }

    /// The least frontier that has passed every round of `epoch`.
    pub open spec fn after_epoch(epoch: u64) -> Frontier {
        if epoch < u64::MAX {
            Frontier::At(LogicalTime { epoch: (epoch + 1) as u64, round: 0 })
        } else {
            Frontier::Closed
        }
    }

    /// The least frontier that has passed `t`.
    pub open spec fn just_after(t: LogicalTime) -> Frontier {
        if t.round < u64::MAX {
            Frontier::At(LogicalTime { epoch: t.epoch, round: (t.round + 1) as u64 })
        } else {
            Frontier::after_epoch(t.epoch)
        }
    }

    pub fn past_epoch(epoch: u64) -> (f: Frontier)
        ensures
            f == Frontier::after_epoch(epoch),
    {
        if epoch < u64::MAX {
            Frontier::At(LogicalTime { epoch: epoch + 1, round: 0 })
        } else {
            Frontier::Closed
        }
    }

    pub fn just_past(t: &LogicalTime) -> (f: Frontier)
        ensures
            f == Frontier::just_after(*t),
    {
        if t.round < u64::MAX {
            Frontier::At(LogicalTime { epoch: t.epoch, round: t.round + 1 })
        } else {
            Frontier::past_epoch(t.epoch)
        }
    }

    /// The frontier of an input on which nothing has been promised yet.
    pub fn origin() -> (f: Frontier)
        ensures
            f == Frontier::At(LogicalTime { epoch: 0, round: 0 }),
            forall|t: LogicalTime| !f.passed(t),
    {
        Frontier::At(LogicalTime { epoch: 0, round: 0 })
    }

    pub fn has_passed(&self, t: &LogicalTime) -> (b: bool)
        ensures
            b == self.passed(*t),
    {
        match self {
            Frontier::At(f) => t.precedes(f),
            Frontier::Closed => true,
        }
    }

    pub fn no_later_than(&self, other: &Frontier) -> (b: bool)
        ensures
            b == self.le(*other),
    {
        match (self, other) {
            (Frontier::At(a), Frontier::At(b)) => a.precedes(b) || (a.epoch == b.epoch && a.round == b.round),
            (Frontier::At(_), Frontier::Closed) => true,
            (Frontier::Closed, Frontier::At(_)) => false,
            (Frontier::Closed, Frontier::Closed) => true,
        }
    }

    pub fn earlier_of(self, other: Frontier) -> (f: Frontier)
        ensures
            f == self.meet(other),
    {
        if self.no_later_than(&other) {
            self
        } else {
            other
        }
    }
}

} // verus!
