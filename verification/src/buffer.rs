//! Hold-until-safe buffering of items by logical time.
//!
//! An [`EpochBuffer`] collects items tagged with a logical time from any
//! number of inputs. The items of a time leave the buffer together, once, and
//! only after the frontier of every input has advanced strictly past that
//! time; times leave in ascending order.

use vstd::prelude::*;
use crate::time::{Frontier, LogicalTime};

verus! {

/// The items that share one logical time.
#[derive(Debug)]
pub struct Batch<T> {
    pub time: LogicalTime,
    pub items: Vec<T>,
}

/// A breach of the contract between the buffer and what feeds it.
#[derive(Clone, Copy, Debug, PartialEq, Eq, Structural)]
pub enum ProtocolViolation {
    /// Items arrived for a time that has already been released.
    AlreadyReleased(LogicalTime),
    /// A frontier was reported for an input that the buffer does not have.
    UnknownInput(usize),
    /// A frontier was reported that lies before the one already known.
    FrontierRetreated(usize),
    /// Edges arrived while the loop of the given epoch was still running.
    EpochInProgress(u64),
}

/// The least advanced of a list of frontiers; closed when there is none.
pub open spec fn low_watermark(fs: Seq<Frontier>) -> Frontier
    decreases fs.len(),
{
    if fs.len() == 0 {
        Frontier::Closed
    } else {
        low_watermark(fs.drop_last()).meet(fs.last())
    }
}

/// Every frontier of the list has advanced strictly past `t`.
pub open spec fn all_passed(fs: Seq<Frontier>, t: LogicalTime) -> bool {
    forall|i: int| 0 <= i < fs.len() ==> (#[trigger] fs[i]).passed(t)
}

/// The low watermark has passed exactly the times that every frontier has
/// passed, and is no further along than any of them.
pub proof fn lemma_low_watermark(fs: Seq<Frontier>)
    ensures
        forall|t: LogicalTime| #[trigger] low_watermark(fs).passed(t) <==> all_passed(fs, t),
        forall|i: int| 0 <= i < fs.len() ==> low_watermark(fs).le(#[trigger] fs[i]),
    decreases fs.len(),
{
    if fs.len() > 0 {
        let head = fs.drop_last();
        lemma_low_watermark(head);
        assert forall|t: LogicalTime| #[trigger] low_watermark(fs).passed(t) <==> all_passed(
            fs,
            t,
        ) by {
            if all_passed(fs, t) {
                assert(fs[fs.len() - 1].passed(t));
                assert forall|i: int| 0 <= i < head.len() implies (#[trigger] head[i]).passed(
                    t,
                ) by {
                    assert(fs[i].passed(t));
                }
            }
            if low_watermark(fs).passed(t) {
                assert(low_watermark(head).passed(t));
                assert forall|i: int| 0 <= i < fs.len() implies (#[trigger] fs[i]).passed(t) by {
                    if i < head.len() {
                        assert(head[i].passed(t));
                    }
                }
            }
        }
        assert forall|i: int| 0 <= i < fs.len() implies low_watermark(fs).le(#[trigger] fs[i]) by {
            if i < head.len() {
                assert(low_watermark(head).le(head[i]));
            }
        }
    }
}

spec fn ascending<T>(p: Seq<Batch<T>>) -> bool {
    forall|i: int, j: int| 0 <= i < j < p.len() ==> (#[trigger] p[i]).time.lt((#[trigger] p[j]).time)
}

spec fn holds<T>(p: Seq<Batch<T>>, t: LogicalTime) -> bool {
    exists|i: int| 0 <= i < p.len() && (#[trigger] p[i]).time == t
}

spec fn place<T>(p: Seq<Batch<T>>, t: LogicalTime) -> int {
    choose|i: int| 0 <= i < p.len() && (#[trigger] p[i]).time == t
}

spec fn queue_of<T>(p: Seq<Batch<T>>) -> Map<LogicalTime, Seq<T>> {
    Map::new(|t: LogicalTime| holds(p, t), |t: LogicalTime| p[place(p, t)].items@)
}

proof fn lemma_queue_at<T>(p: Seq<Batch<T>>, i: int)
    requires
        ascending(p),
        0 <= i < p.len(),
    ensures
        holds(p, p[i].time),
        place(p, p[i].time) == i,
        queue_of(p).contains_key(p[i].time),
        queue_of(p)[p[i].time] == p[i].items@,
{
    let t = p[i].time;
    assert(holds(p, t));
    let j = place(p, t);
    assert(0 <= j < p.len() && p[j].time == t);
    if j < i {
        assert(p[j].time.lt(p[i].time));
    }
    if i < j {
        assert(p[i].time.lt(p[j].time));
    }
}

/// A buffer of items keyed by logical time, fed by a fixed number of inputs.
pub struct EpochBuffer<T> {
    /// The pending batches, by strictly ascending time, none of them empty.
    pending: Vec<Batch<T>>,
    /// The frontier last reported for each input.
    frontiers: Vec<Frontier>,
    /// The low watermark at the last release: what it has passed is gone.
    released: Frontier,
}

impl<T> EpochBuffer<T> {
    /// The pending items, by their time. No pending list is empty.
    pub closed spec fn queue(self) -> Map<LogicalTime, Seq<T>> {
        queue_of(self.pending@)
    }

    /// The frontier of each input.
    pub closed spec fn frontiers(self) -> Seq<Frontier> {
        self.frontiers@
    }

    /// The bound below which every time has been released.
    pub closed spec fn released(self) -> Frontier {
        self.released
    }

    /// The items pending for `t`, none where the buffer holds no such time.
    pub open spec fn items_at(self, t: LogicalTime) -> Seq<T> {
        if self.queue().contains_key(t) {
            self.queue()[t]
        } else {
            Seq::empty()
        }
    }

    /// The time `t` has been released: nothing may be submitted for it.
    pub open spec fn is_released(self, t: LogicalTime) -> bool {
        self.released().passed(t)
    }

    /// The time `t` is safe to release: every input has moved past it.
    pub open spec fn ready(self, t: LogicalTime) -> bool {
        all_passed(self.frontiers(), t)
    }

    /// The invariant of the buffer.
    pub closed spec fn wf(self) -> bool {
        &&& ascending(self.pending@)
        &&& forall|i: int| 0 <= i < self.pending.len() ==> (#[trigger] self.pending[i]).items.len() > 0
        &&& forall|i: int|
            0 <= i < self.pending.len() ==> !self.released.passed((#[trigger] self.pending[i]).time)
        &&& forall|k: int| 0 <= k < self.frontiers.len() ==> self.released.le(#[trigger] self.frontiers[k])
    }

    /// What the invariant says of the pending times: none has been released,
    /// none has an empty list, and a released time is ready for good.
    pub proof fn lemma_wf(self)
        requires
            self.wf(),
        ensures
            forall|t: LogicalTime| #[trigger]
                self.queue().contains_key(t) ==> !self.is_released(t) && self.queue()[t].len() > 0,
            forall|t: LogicalTime| #[trigger] self.is_released(t) ==> self.ready(t),
    {
        assert forall|t: LogicalTime| #[trigger] self.queue().contains_key(t) implies !self.is_released(
            t,
        ) && self.queue()[t].len() > 0 by {
            let i = place(self.pending@, t);
            lemma_queue_at(self.pending@, i);
        }
        assert forall|t: LogicalTime| #[trigger] self.is_released(t) implies self.ready(t) by {
            assert forall|k: int| 0 <= k < self.frontiers@.len() implies (#[trigger] self.frontiers@[k]).passed(
                t,
            ) by {
                assert(self.released.le(self.frontiers[k]));
            }
        }
    }

    /// An empty buffer for `inputs` inputs, each with its frontier at the
    /// earliest time.
    pub fn new(inputs: usize) -> (b: EpochBuffer<T>)
        ensures
            b.wf(),
            b.queue() == Map::<LogicalTime, Seq<T>>::empty(),
            b.frontiers().len() == inputs,
            forall|i: int| 0 <= i < inputs ==> b.frontiers()[i] == Frontier::At(LogicalTime { epoch: 0, round: 0 }),
            b.released() == Frontier::At(LogicalTime { epoch: 0, round: 0 }),
            forall|t: LogicalTime| !b.is_released(t),
    {
        let mut frontiers: Vec<Frontier> = Vec::new();
        let mut i: usize = 0;
        while i < inputs
            invariant
                i <= inputs,
                frontiers.len() == i,
                forall|k: int| 0 <= k < i ==> frontiers[k] == Frontier::At(LogicalTime { epoch: 0, round: 0 }),
            decreases inputs - i,
        {
            frontiers.push(Frontier::origin());
            i += 1;
        }
        let b = EpochBuffer { pending: Vec::new(), frontiers, released: Frontier::origin() };
        assert(b.queue() =~= Map::<LogicalTime, Seq<T>>::empty());
        b
    }

    /// The number of inputs.
    pub fn inputs(&self) -> (n: usize)
        ensures
            n == self.frontiers().len(),
    {
        self.frontiers.len()
    }

    /// The frontier of one input.
    pub fn frontier(&self, input: usize) -> (f: Option<Frontier>)
        ensures
            f == (if input < self.frontiers().len() {
                Some(self.frontiers()[input as int])
            } else {
                None
            }),
    {
        if input < self.frontiers.len() {
            Some(self.frontiers[input])
        } else {
            None
        }
    }

    /// Whether `t` has been released.
    pub fn has_released(&self, t: &LogicalTime) -> (b: bool)
        ensures
            b == self.is_released(*t),
    {
        self.released.has_passed(t)
    }

    /// The number of times that have items pending.
    pub fn pending_times(&self) -> (n: usize)
        requires
            self.wf(),
        ensures
            n == self.queue().dom().len(),
            self.queue().dom().finite(),
    {
        proof {
            lemma_queue_dom(self.pending@);
        }
        self.pending.len()
    }

    /// The first position whose time is not before `time`.
    fn slot(&self, time: &LogicalTime) -> (i: usize)
        requires
            ascending(self.pending@),
        ensures
            i <= self.pending.len(),
            forall|j: int| 0 <= j < i ==> (#[trigger] self.pending[j]).time.lt(*time),
            forall|j: int| i <= j < self.pending.len() ==> time.le((#[trigger] self.pending[j]).time),
    {
        let mut i: usize = 0;
        while i < self.pending.len() && self.pending[i].time.precedes(time)
            invariant
                i <= self.pending.len(),
                forall|j: int| 0 <= j < i ==> (#[trigger] self.pending[j]).time.lt(*time),
            decreases self.pending.len() - i,
        {
            i += 1;
        }
        proof {
            if i < self.pending.len() {
                assert forall|j: int| i <= j < self.pending.len() implies time.le(
                    (#[trigger] self.pending[j]).time,
                ) by {
                    if i < j {
                        assert(self.pending[i as int].time.lt(self.pending[j].time));
                    }
                }
            }
        }
        i
    }

    /// Adds items for `time`, behind those already pending for it. Items for
    /// a time that has already been released are refused, and the buffer
    /// stays as it was.
    pub fn submit_all(&mut self, time: LogicalTime, items: Vec<T>) -> (r: Result<
        (),
        ProtocolViolation,
    >)
        requires
            old(self).wf(),
        ensures
            final(self).wf(),
            final(self).frontiers() == old(self).frontiers(),
            final(self).released() == old(self).released(),
            old(self).is_released(time) ==> r == Err::<(), ProtocolViolation>(
                ProtocolViolation::AlreadyReleased(time),
            ) && final(self).queue() == old(self).queue(),
            !old(self).is_released(time) ==> r == Ok::<(), ProtocolViolation>(()) && final(self).queue()
                == (if items.len() == 0 {
                old(self).queue()
            } else {
                old(self).queue().insert(time, old(self).items_at(time) + items@)
            }),
    {
        if self.released.has_passed(&time) {
            return Err(ProtocolViolation::AlreadyReleased(time));
        }
        if items.len() == 0 {
            return Ok(());
        }
        let mut items = items;
        let ghost added = items@;
        let i = self.slot(&time);
        let ghost before = self.pending@;
        if i < self.pending.len() && self.pending[i].time == time {
            self.pending[i].items.append(&mut items);
            proof {
                let after = self.pending@;
                lemma_queue_at(before, i as int);
                assert(ascending(after)) by {
                    assert forall|a: int, b: int| 0 <= a < b < after.len() implies (#[trigger] after[a]).time.lt(
                        (#[trigger] after[b]).time,
                    ) by {
                        assert(before[a].time.lt(before[b].time));
                    }
                }
                assert forall|t: LogicalTime| holds(after, t) == holds(before, t) by {
                    if holds(after, t) {
                        let j = place(after, t);
                        assert(before[j].time == t);
                    }
                    if holds(before, t) {
                        let j = place(before, t);
                        assert(after[j].time == t);
                    }
                }
                assert forall|t: LogicalTime| holds(after, t) implies queue_of(after)[t] == queue_of(
                    before,
                ).insert(time, before[i as int].items@ + added)[t] by {
                    let j = place(after, t);
                    lemma_queue_at(after, j);
                    lemma_queue_at(before, j);
                }
                assert(queue_of(after) =~= queue_of(before).insert(
                    time,
                    before[i as int].items@ + added,
                ));
            }
        } else {
            self.pending.insert(i, Batch { time, items });
            proof {
                let after = self.pending@;
                assert(!holds(before, time)) by {
                    if holds(before, time) {
                        let j = place(before, time);
                        if j < i {
                            assert(before[j].time.lt(time));
                        } else {
                            assert(time.le(before[j].time));
                            if j > i {
                                assert(before[i as int].time.lt(before[j].time));
                            }
                        }
                    }
                }
                assert(ascending(after)) by {
                    assert forall|a: int, b: int| 0 <= a < b < after.len() implies (#[trigger] after[a]).time.lt(
                        (#[trigger] after[b]).time,
                    ) by {
                        let a0 = if a < i { a } else { a - 1 };
                        let b0 = if b < i { b } else { b - 1 };
                        if a != i && b != i {
                            assert(before[a0].time.lt(before[b0].time));
                        } else if a == i {
                            assert(time.le(before[b0].time));
                            assert(before[b0].time != time) by {
                                assert(holds(before, before[b0].time));
                            }
                        } else {
                            assert(before[a0].time.lt(time));
                        }
                    }
                }
                assert forall|t: LogicalTime| holds(after, t) == (holds(before, t) || t == time) by {
                    if holds(after, t) && t != time {
                        let j = place(after, t);
                        let j0 = if j < i { j } else { j - 1 };
                        assert(before[j0].time == t);
                    }
                    if holds(before, t) {
                        let j = place(before, t);
                        let j1 = if j < i { j } else { j + 1 };
                        assert(after[j1].time == t);
                    }
                    if t == time {
                        assert(after[i as int].time == t);
                    }
                }
                assert forall|t: LogicalTime| holds(after, t) implies queue_of(after)[t] == queue_of(
                    before,
                ).insert(time, Seq::<T>::empty() + added)[t] by {
                    let j = place(after, t);
                    lemma_queue_at(after, j);
                    if t != time {
                        let j0 = if j < i { j } else { j - 1 };
                        lemma_queue_at(before, j0);
                    }
                }
                assert(queue_of(after) =~= queue_of(before).insert(
                    time,
                    Seq::<T>::empty() + added,
                ));
            }
        }
        Ok(())
    }

    /// Adds one item for `time`. An item for a time that has already been
    /// released is refused, and the buffer stays as it was.
    pub fn submit(&mut self, time: LogicalTime, item: T) -> (r: Result<(), ProtocolViolation>)
        requires
            old(self).wf(),
        ensures
            final(self).wf(),
            final(self).frontiers() == old(self).frontiers(),
            final(self).released() == old(self).released(),
            old(self).is_released(time) ==> r == Err::<(), ProtocolViolation>(
                ProtocolViolation::AlreadyReleased(time),
            ) && final(self).queue() == old(self).queue(),
            !old(self).is_released(time) ==> r == Ok::<(), ProtocolViolation>(()) && final(self).queue()
                == old(self).queue().insert(time, old(self).items_at(time).push(item)),
    {
        let mut items: Vec<T> = Vec::new();
        items.push(item);
        proof {
            assert(old(self).items_at(time) + items@ =~= old(self).items_at(time).push(item));
        }
        self.submit_all(time, items)
    }

    /// Reports that `input` has advanced to `to`. A report for an input that
    /// the buffer does not have, or one that lies before the frontier already
    /// known for that input, is refused, and the buffer stays as it was.
    pub fn advance_frontier(&mut self, input: usize, to: Frontier) -> (r: Result<
        (),
        ProtocolViolation,
    >)
        requires
            old(self).wf(),
        ensures
            final(self).wf(),
            final(self).queue() == old(self).queue(),
            final(self).released() == old(self).released(),
            input >= old(self).frontiers().len() ==> r == Err::<(), ProtocolViolation>(
                ProtocolViolation::UnknownInput(input),
            ) && final(self).frontiers() == old(self).frontiers(),
            input < old(self).frontiers().len() && !old(self).frontiers()[input as int].le(to) ==> r
                == Err::<(), ProtocolViolation>(ProtocolViolation::FrontierRetreated(input))
                && final(self).frontiers() == old(self).frontiers(),
            input < old(self).frontiers().len() && old(self).frontiers()[input as int].le(to) ==> r
                == Ok::<(), ProtocolViolation>(()) && final(self).frontiers() == old(
                self,
            ).frontiers().update(input as int, to),
    {
        if input >= self.frontiers.len() {
            return Err(ProtocolViolation::UnknownInput(input));
        }
        if !self.frontiers[input].no_later_than(&to) {
            return Err(ProtocolViolation::FrontierRetreated(input));
        }
        self.frontiers[input] = to;
        Ok(())
    }

    /// The least advanced of the frontiers.
    pub fn watermark(&self) -> (w: Frontier)
        ensures
            w == low_watermark(self.frontiers()),
    {
        let mut w = Frontier::Closed;
        let mut i: usize = 0;
        while i < self.frontiers.len()
            invariant
                i <= self.frontiers.len(),
                w == low_watermark(self.frontiers@.take(i as int)),
            decreases self.frontiers.len() - i,
        {
            proof {
                assert(self.frontiers@.take(i + 1).drop_last() =~= self.frontiers@.take(i as int));
            }
            w = w.earlier_of(self.frontiers[i]);
            i += 1;
        }
        proof {
            assert(self.frontiers@.take(i as int) =~= self.frontiers@);
        }
        w
    }

    /// Releases every pending time that all inputs have moved past. The
    /// batches come out by ascending time, each with all the items of its
    /// time, and leave the buffer; nothing may be submitted for them again.
    pub fn release(&mut self) -> (out: Vec<Batch<T>>)
        requires
            old(self).wf(),
        ensures
            final(self).wf(),
            final(self).frontiers() == old(self).frontiers(),
            final(self).released() == low_watermark(old(self).frontiers()),
            forall|i: int, j: int|
                0 <= i < j < out.len() ==> (#[trigger] out[i]).time.lt((#[trigger] out[j]).time),
            forall|i: int|
                0 <= i < out.len() ==> {
                    &&& old(self).ready((#[trigger] out[i]).time)
                    &&& old(self).queue().contains_key(out[i].time)
                    &&& old(self).queue()[out[i].time] == out[i].items@
                },
            forall|t: LogicalTime|
                old(self).ready(t) && #[trigger] old(self).queue().contains_key(t) ==> exists|i: int|
                    0 <= i < out.len() && (#[trigger] out[i]).time == t,
            final(self).queue() == old(self).queue().remove_keys(
                Set::new(|t: LogicalTime| old(self).ready(t)),
            ),
    {
        let mark = self.watermark();
        proof {
            lemma_low_watermark(self.frontiers@);
        }
        let ghost before = self.pending@;
        let mut k: usize = 0;
        while k < self.pending.len() && mark.has_passed(&self.pending[k].time)
            invariant
                k <= self.pending.len(),
                forall|j: int| 0 <= j < k ==> mark.passed((#[trigger] self.pending[j]).time),
            decreases self.pending.len() - k,
        {
            k += 1;
        }
        proof {
            if k < before.len() {
                assert forall|j: int| k <= j < before.len() implies !mark.passed(
                    (#[trigger] before[j]).time,
                ) by {
                    if k < j {
                        assert(before[k as int].time.lt(before[j].time));
                    }
                }
            }
        }
        let mut out = self.pending.split_off(k);
        core::mem::swap(&mut self.pending, &mut out);
        self.released = mark;
        proof {
            let after = self.pending@;
            assert(out@ =~= before.subrange(0, k as int));
            assert(after =~= before.subrange(k as int, before.len() as int));
            assert forall|i: int| 0 <= i < after.len() implies after[i] == before[i + k] by {}
            assert(ascending(after)) by {
                assert forall|a: int, b: int| 0 <= a < b < after.len() implies (#[trigger] after[a]).time.lt(
                    (#[trigger] after[b]).time,
                ) by {
                    assert(before[a + k].time.lt(before[b + k].time));
                }
            }
            assert forall|i: int| 0 <= i < out.len() implies {
                &&& old(self).ready((#[trigger] out[i]).time)
                &&& old(self).queue().contains_key(out[i].time)
                &&& old(self).queue()[out[i].time] == out[i].items@
            } by {
                lemma_queue_at(before, i);
            }
            assert forall|i: int, j: int| 0 <= i < j < out.len() implies (#[trigger] out[i]).time.lt(
                (#[trigger] out[j]).time,
            ) by {
                assert(before[i].time.lt(before[j].time));
            }
            assert forall|t: LogicalTime|
                old(self).ready(t) && #[trigger] old(self).queue().contains_key(t) implies exists|i: int|
                0 <= i < out.len() && (#[trigger] out[i]).time == t by {
                let j = place(before, t);
                assert(j < k);
                assert(out[j].time == t);
            }
            let gone = Set::new(|t: LogicalTime| old(self).ready(t));
            assert forall|t: LogicalTime| holds(after, t) == (holds(before, t) && !gone.contains(t)) by {
                if holds(after, t) {
                    let j = place(after, t);
                    assert(before[j + k].time == t);
                }
                if holds(before, t) && !gone.contains(t) {
                    let j = place(before, t);
                    assert(j >= k);
                    assert(after[j - k].time == t);
                }
            }
            assert forall|t: LogicalTime| holds(after, t) implies queue_of(after)[t] == queue_of(before)[t] by {
                let j = place(after, t);
                lemma_queue_at(after, j);
                lemma_queue_at(before, j + k);
            }
            assert(queue_of(after) =~= queue_of(before).remove_keys(gone));
            assert forall|i: int| 0 <= i < self.frontiers@.len() implies self.released.le(
                #[trigger] self.frontiers@[i],
            ) by {}
        }
        out
    }
}

/// A time that a release found ready counts as released from then on: items
/// submitted for it afterwards are refused, so no time is handed out twice.
pub proof fn lemma_release_closes_time<T>(before: EpochBuffer<T>, after: EpochBuffer<T>, t: LogicalTime)
    requires
        after.released() == low_watermark(before.frontiers()),
        before.ready(t),
    ensures
        after.is_released(t),
{
    lemma_low_watermark(before.frontiers());
}

proof fn lemma_queue_dom<T>(p: Seq<Batch<T>>)
    requires
        ascending(p),
    ensures
        queue_of(p).dom().finite(),
        queue_of(p).dom().len() == p.len(),
    decreases p.len(),
{
    if p.len() == 0 {
        assert(queue_of(p).dom() =~= Set::<LogicalTime>::empty());
    } else {
        let head = p.drop_last();
        let t = p.last().time;
        assert(ascending(head)) by {
            assert forall|a: int, b: int| 0 <= a < b < head.len() implies (#[trigger] head[a]).time.lt(
                (#[trigger] head[b]).time,
            ) by {
                assert(p[a].time.lt(p[b].time));
            }
        }
        lemma_queue_dom(head);
        assert(!holds(head, t)) by {
            if holds(head, t) {
                let j = place(head, t);
                assert(p[j].time.lt(p[p.len() - 1].time));
            }
        }
        assert forall|u: LogicalTime| holds(p, u) == (holds(head, u) || u == t) by {
            if holds(p, u) && u != t {
                let j = place(p, u);
                assert(head[j].time == u);
            }
            if holds(head, u) {
                let j = place(head, u);
                assert(p[j].time == u);
            }
            if u == t {
                assert(p[p.len() - 1].time == u);
            }
        }
        assert(queue_of(p).dom() =~= queue_of(head).dom().insert(t));
    }
}

} // verus!
