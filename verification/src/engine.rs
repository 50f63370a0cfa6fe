//! The engine: the operator, the policy, the loop controller and the
//! aggregator wired into one sequential dataflow, one epoch at a time.
//!
//! Every batch passes through an epoch buffer on its way: edges and
//! fed-back contributions before the operator, the signals of a round
//! before the policy decides on them, and the contributions that leave the
//! loop before the aggregator.

use vstd::prelude::*;
use crate::buffer::{all_passed, lemma_low_watermark, low_watermark, EpochBuffer, ProtocolViolation};
use crate::controller::{next_state, LoopController, LoopState, Routing};
use crate::convergence::{ConvergencePolicy, Decision};
use crate::graph::{grown, knows, position, with_vertex, Node};
use crate::operator::{
    contributions_of, drifts, emitted, emitted_upto, reweighted, shares, strip, unsettled, Contribution,
    ContributionOperator, Signal,
};
use crate::report::{aggregate, is_top, Report};
use crate::time::{Frontier, LogicalTime};

verus! {

/// What the graph sends in a round: every vertex's rank along its out-edges.
pub open spec fn sent(g: Seq<Node>) -> Seq<Contribution> {
    contributions_of(emitted(g, unsettled(g.len())))
}

/// The graph after one round of refinement: the ranks that follow from what
/// the graph sends.
pub open spec fn refined(g: Seq<Node>) -> Seq<Node> {
    reweighted(g, sent(g))
}

/// The graph after `rounds` rounds of refinement.
pub open spec fn settled(g: Seq<Node>, rounds: nat) -> Seq<Node>
    decreases rounds,
{
    if rounds == 0 {
        g
    } else {
        refined(settled(g, (rounds - 1) as nat))
    }
}

/// What a graph sends does not depend on how its ranks moved.
pub proof fn lemma_sent(g: Seq<Node>, deltas: Seq<u64>)
    requires
        deltas.len() == g.len(),
    ensures
        contributions_of(emitted(g, deltas)) == sent(g),
{
    lemma_sent_upto(g, deltas, g.len());
}

proof fn lemma_sent_upto(g: Seq<Node>, deltas: Seq<u64>, count: nat)
    requires
        deltas.len() == g.len(),
        count <= g.len(),
    ensures
        contributions_of(emitted_upto(g, deltas, count)) == contributions_of(
            emitted_upto(g, unsettled(g.len()), count),
        ),
    decreases count,
{
    if count > 0 {
        lemma_sent_upto(g, deltas, (count - 1) as nat);
        let a = emitted_upto(g, deltas, (count - 1) as nat);
        let b = emitted_upto(g, unsettled(g.len()), (count - 1) as nat);
        let x = shares(g[count - 1], deltas[count - 1]);
        let y = shares(g[count - 1], unsettled(g.len())[count - 1]);
        assert(contributions_of(x) =~= contributions_of(y));
        assert(contributions_of(a + x) =~= contributions_of(a) + contributions_of(x));
        assert(contributions_of(b + y) =~= contributions_of(b) + contributions_of(y));
    }
}

/// Some vertex of the graph has an out-edge.
pub open spec fn has_edge(g: Seq<Node>) -> bool {
    exists|i: int| 0 <= i < g.len() && (#[trigger] g[i]).out.len() > 0
}

/// A graph that has taken a batch of edges that is not empty has an edge.
pub proof fn lemma_grown_has_edge(g: Seq<Node>, edges: Seq<(usize, usize)>)
    requires
        edges.len() > 0,
    ensures
        has_edge(grown(g, edges)),
{
    let mid = grown(g, edges.drop_last());
    let source = edges.last().0;
    let seen = with_vertex(mid, source);
    assert(knows(seen, source)) by {
        if !knows(mid, source) {
            assert(seen[mid.len() as int].id == source);
        }
    }
    let i = position(seen, source);
    assert(grown(g, edges)[i].out.len() > 0);
}

/// Refinement keeps the vertices and the edges.
pub proof fn lemma_settled_keeps_edges(g: Seq<Node>, rounds: nat)
    ensures
        settled(g, rounds).len() == g.len(),
        forall|i: int|
            0 <= i < g.len() ==> (#[trigger] settled(g, rounds)[i]).id == g[i].id && settled(
                g,
                rounds,
            )[i].out == g[i].out,
    decreases rounds,
{
    if rounds > 0 {
        lemma_settled_keeps_edges(g, (rounds - 1) as nat);
    }
}

/// A graph with an edge sends something.
pub proof fn lemma_sends(g: Seq<Node>, deltas: Seq<u64>)
    requires
        has_edge(g),
    ensures
        emitted(g, deltas).len() > 0,
{
    let i = choose|i: int| 0 <= i < g.len() && (#[trigger] g[i]).out.len() > 0;
    lemma_sends_upto(g, deltas, g.len(), i);
}

proof fn lemma_sends_upto(g: Seq<Node>, deltas: Seq<u64>, count: nat, i: int)
    requires
        0 <= i < count <= g.len(),
        g[i].out.len() > 0,
    ensures
        emitted_upto(g, deltas, count).len() > 0,
    decreases count,
{
    if i < count - 1 {
        lemma_sends_upto(g, deltas, (count - 1) as nat, i);
    }
}

/// What a call of [`Engine::advance`] did.
#[derive(Debug)]
pub enum Progress {
    /// Nothing: no epoch was in progress.
    Idle,
    /// One more round of the epoch in progress.
    Iterating,
    /// The loop of the epoch has ended, with this report; there is none
    /// where no contribution left the loop.
    Finished(Option<Report>),
}

/// Moves the frontier of one input of a buffer.
fn shift<T>(buffer: &mut EpochBuffer<T>, input: usize, to: Frontier)
    requires
        old(buffer).wf(),
        input < old(buffer).frontiers().len(),
        old(buffer).frontiers()[input as int].le(to),
    ensures
        final(buffer).wf(),
        final(buffer).queue() == old(buffer).queue(),
        final(buffer).released() == old(buffer).released(),
        final(buffer).frontiers() == old(buffer).frontiers().update(input as int, to),
{
    let _ = buffer.advance_frontier(input, to);
}

/// Takes out of a buffer the one batch that it holds, if any.
fn flush<T>(buffer: &mut EpochBuffer<T>, Ghost(time): Ghost<LogicalTime>, Ghost(items): Ghost<Seq<T>>) -> (out:
    Vec<T>)
    requires
        old(buffer).wf(),
        old(buffer).queue() == (if items.len() == 0 {
            Map::<LogicalTime, Seq<T>>::empty()
        } else {
            Map::<LogicalTime, Seq<T>>::empty().insert(time, items)
        }),
        items.len() > 0 ==> old(buffer).ready(time),
    ensures
        final(buffer).wf(),
        final(buffer).queue() == Map::<LogicalTime, Seq<T>>::empty(),
        final(buffer).frontiers() == old(buffer).frontiers(),
        final(buffer).released() == low_watermark(final(buffer).frontiers()),
        out@ == items,
{
    let mut released = buffer.release();
    proof {
        assert(buffer.queue() =~= Map::<LogicalTime, Seq<T>>::empty());
        if released.len() > 1 {
            assert(released[0].time.lt(released[1].time));
            assert(old(buffer).queue().contains_key(released[0].time));
            assert(old(buffer).queue().contains_key(released[1].time));
        }
        if released.len() > 0 {
            assert(old(buffer).queue().contains_key(released[0].time));
        }
        if items.len() > 0 {
            assert(old(buffer).queue().contains_key(time));
        }
    }
    match released.pop() {
        Some(batch) => batch.items,
        None => Vec::new(),
    }
}

/// An incremental PageRank engine with its convergence policy.
pub struct Engine {
    policy: ConvergencePolicy,
    operator: ContributionOperator,
    /// New edges on their way to the operator. Its inputs are the edge
    /// source and the feedback path.
    edges: EpochBuffer<(usize, usize)>,
    /// Fed-back contributions on their way to the operator, with the same
    /// two inputs.
    feedback: EpochBuffer<Contribution>,
    /// The signals of a round on their way to the decision.
    signals: EpochBuffer<Signal>,
    /// The contributions that left the loop, on their way to the report.
    results: EpochBuffer<Contribution>,
    /// Every input has moved this far between epochs.
    horizon: Frontier,
    controller: LoopController,
    /// What the operator sent last, while the loop is in progress.
    in_flight: Vec<Signal>,
}

impl Engine {
    /// The convergence policy.
    pub closed spec fn policy(&self) -> ConvergencePolicy {
        self.policy
    }

    /// The graph with the current ranks.
    pub closed spec fn graph(&self) -> Seq<Node> {
        self.operator@
    }

    /// The bound of the epochs that are over: an epoch whose round 0 the
    /// horizon has passed takes no more edges.
    pub closed spec fn horizon(&self) -> Frontier {
        self.horizon
    }

    /// The loop of the epoch in progress; done where none is.
    pub closed spec fn controller(&self) -> LoopController {
        self.controller
    }

    /// The signals of the round that the loop is at, not yet routed.
    pub closed spec fn in_flight(&self) -> Seq<Signal> {
        self.in_flight@
    }

    /// No epoch is in progress.
    pub open spec fn idle(&self) -> bool {
        self.controller().state == LoopState::Done
    }

    /// The invariant of the engine. While an epoch is in progress, the
    /// signals in flight are what the graph sends, and the epoch is not
    /// behind the horizon.
    pub closed spec fn wf(&self) -> bool {
        &&& self.operator.wf()
        &&& self.edges.wf()
        &&& self.feedback.wf()
        &&& self.signals.wf()
        &&& self.results.wf()
        &&& self.edges.queue() == Map::<LogicalTime, Seq<(usize, usize)>>::empty()
        &&& self.feedback.queue() == Map::<LogicalTime, Seq<Contribution>>::empty()
        &&& self.signals.queue() == Map::<LogicalTime, Seq<Signal>>::empty()
        &&& self.results.queue() == Map::<LogicalTime, Seq<Contribution>>::empty()
        &&& self.edges.released() == low_watermark(self.edges.frontiers())
        &&& self.feedback.released() == low_watermark(self.feedback.frontiers())
        &&& self.signals.released() == low_watermark(self.signals.frontiers())
        &&& self.results.released() == low_watermark(self.results.frontiers())
        &&& self.edges.frontiers().len() == 2
        &&& self.feedback.frontiers().len() == 2
        &&& self.signals.frontiers().len() == 1
        &&& self.results.frontiers().len() == 1
        &&& self.results.frontiers()[0] == self.horizon
        &&& match self.controller.state {
            LoopState::Done => {
                &&& self.edges.frontiers()[0] == self.horizon
                &&& self.edges.frontiers()[1] == self.horizon
                &&& self.feedback.frontiers()[0] == self.horizon
                &&& self.feedback.frontiers()[1] == self.horizon
                &&& self.signals.frontiers()[0] == self.horizon
            },
            LoopState::Iterating { round } => {
                let start = LogicalTime { epoch: self.controller.epoch, round: 0 };
                let now = LogicalTime { epoch: self.controller.epoch, round };
                &&& !self.horizon.passed(start)
                &&& self.edges.frontiers()[0] == Frontier::after_epoch(self.controller.epoch)
                &&& self.edges.frontiers()[1] == Frontier::just_after(start)
                &&& self.feedback.frontiers()[0] == Frontier::after_epoch(self.controller.epoch)
                &&& self.feedback.frontiers()[1] == Frontier::just_after(now)
                &&& self.signals.frontiers()[0] == Frontier::At(now)
                &&& contributions_of(self.in_flight@) == sent(self.operator@)
            },
        }
    }

    /// While an epoch is in progress, the signals in flight carry what the
    /// graph sends, and the epoch is not behind the horizon.
    pub proof fn lemma_in_flight(&self)
        requires
            self.wf(),
            !self.idle(),
        ensures
            contributions_of(self.in_flight()) == sent(self.graph()),
            !self.horizon().passed(LogicalTime { epoch: self.controller().epoch, round: 0 }),
    {
    }

    /// An engine with an empty graph and no epoch behind it.
    pub fn new(policy: ConvergencePolicy) -> (e: Engine)
        ensures
            e.wf(),
            e.idle(),
            e.policy() == policy,
            e.graph() == Seq::<Node>::empty(),
            forall|t: LogicalTime| !e.horizon().passed(t),
    {
        let e = Engine {
            policy,
            operator: ContributionOperator::new(),
            edges: EpochBuffer::new(2),
            feedback: EpochBuffer::new(2),
            signals: EpochBuffer::new(1),
            results: EpochBuffer::new(1),
            horizon: Frontier::origin(),
            controller: LoopController { epoch: 0, state: LoopState::Done },
            in_flight: Vec::new(),
        };
        proof {
            reveal_with_fuel(low_watermark, 3);
        }
        e
    }

    /// The operator, to read the graph and the ranks.
    pub fn operator(&self) -> (op: &ContributionOperator)
        requires
            self.wf(),
        ensures
            op.wf(),
            op@ == self.graph(),
    {
        &self.operator
    }

    /// The state of the loop.
    pub fn loop_controller(&self) -> (c: LoopController)
        ensures
            c == self.controller(),
    {
        self.controller
    }

    /// Whether the epoch is over for the engine.
    pub fn is_closed(&self, epoch: u64) -> (b: bool)
        ensures
            b == self.horizon().passed(LogicalTime { epoch, round: 0 }),
    {
        self.horizon.has_passed(&LogicalTime { epoch, round: 0 })
    }

    /// Moves every input past `epoch`, with nothing pending and no loop in
    /// progress.
    fn close(&mut self, epoch: u64)
        requires
            old(self).operator.wf(),
            old(self).edges.wf(),
            old(self).feedback.wf(),
            old(self).signals.wf(),
            old(self).results.wf(),
            old(self).signals.queue() == Map::<LogicalTime, Seq<Signal>>::empty(),
            old(self).signals.frontiers().len() == 1,
            old(self).signals.frontiers()[0].le(Frontier::after_epoch(epoch)),
            old(self).edges.queue() == Map::<LogicalTime, Seq<(usize, usize)>>::empty(),
            old(self).feedback.queue() == Map::<LogicalTime, Seq<Contribution>>::empty(),
            old(self).results.queue() == Map::<LogicalTime, Seq<Contribution>>::empty(),
            old(self).edges.frontiers().len() == 2,
            old(self).feedback.frontiers().len() == 2,
            old(self).results.frontiers().len() == 1,
            forall|i: int| 0 <= i < 2 ==> (#[trigger] old(self).edges.frontiers()[i]).le(Frontier::after_epoch(epoch)),
            forall|i: int| 0 <= i < 2 ==> (#[trigger] old(self).feedback.frontiers()[i]).le(Frontier::after_epoch(epoch)),
            old(self).results.frontiers()[0].le(Frontier::after_epoch(epoch)),
        ensures
            final(self).wf(),
            final(self).idle(),
            final(self).controller().epoch == epoch,
            final(self).horizon() == Frontier::after_epoch(epoch),
            final(self).graph() == old(self).graph(),
            final(self).policy() == old(self).policy(),
    {
        let past = Frontier::past_epoch(epoch);
        let ghost t = LogicalTime { epoch, round: 0 };
        shift(&mut self.edges, 0, past);
        shift(&mut self.edges, 1, past);
        let _ = flush(&mut self.edges, Ghost(t), Ghost(Seq::empty()));
        shift(&mut self.feedback, 0, past);
        shift(&mut self.feedback, 1, past);
        let _ = flush(&mut self.feedback, Ghost(t), Ghost(Seq::empty()));
        shift(&mut self.signals, 0, past);
        let _ = flush(&mut self.signals, Ghost(t), Ghost(Seq::empty()));
        shift(&mut self.results, 0, past);
        let _ = flush(&mut self.results, Ghost(t), Ghost(Seq::empty()));
        self.horizon = past;
        self.controller = LoopController { epoch, state: LoopState::Done };
        self.in_flight = Vec::new();
    }

    /// Takes the edges of a new epoch. The edges pass the edge buffer, join
    /// the graph, and the graph sends the signals of round 0; the loop of
    /// the epoch is then in progress. Without edges nothing is sent and the
    /// epoch is over at once.
    ///
    /// Edges for an epoch that is over are refused, and so are edges that
    /// arrive while the loop of another epoch is in progress; the engine
    /// then stays as it was.
    pub fn start_epoch(&mut self, epoch: u64, edges: Vec<(usize, usize)>) -> (r: Result<
        bool,
        ProtocolViolation,
    >)
        requires
            old(self).wf(),
        ensures
            final(self).wf(),
            final(self).policy() == old(self).policy(),
            !old(self).idle() ==> r == Err::<bool, ProtocolViolation>(
                ProtocolViolation::EpochInProgress(old(self).controller().epoch),
            ) && final(self).graph() == old(self).graph() && final(self).controller() == old(self).controller() && final(self).in_flight() == old(self).in_flight() && final(self).horizon()
                == old(self).horizon(),
            old(self).idle() && old(self).horizon().passed(LogicalTime { epoch, round: 0 }) ==> r
                == Err::<bool, ProtocolViolation>(
                ProtocolViolation::AlreadyReleased(LogicalTime { epoch, round: 0 }),
            ) && final(self).graph() == old(self).graph() && final(self).idle() && final(self).horizon()
                == old(self).horizon(),
            old(self).idle() && !old(self).horizon().passed(LogicalTime { epoch, round: 0 })
                && edges.len() == 0 ==> r == Ok::<bool, ProtocolViolation>(false) && final(self).graph()
                == old(self).graph() && final(self).idle() && final(self).horizon()
                == Frontier::after_epoch(epoch),
            old(self).idle() && !old(self).horizon().passed(LogicalTime { epoch, round: 0 })
                && edges.len() > 0 ==> r == Ok::<bool, ProtocolViolation>(true) && final(self).graph()
                == grown(old(self).graph(), edges@) && final(self).controller() == (LoopController {
                epoch,
                state: LoopState::Iterating { round: 0 },
            }) && final(self).in_flight() == emitted(
                final(self).graph(),
                unsettled(final(self).graph().len()),
            ) && final(self).horizon() == old(self).horizon(),
    {
        if !self.controller.is_done() {
            return Err(ProtocolViolation::EpochInProgress(self.controller.epoch));
        }
        let start = LogicalTime::start_of(epoch);
        if self.horizon.has_passed(&start) {
            return Err(ProtocolViolation::AlreadyReleased(start));
        }
        let ghost given = edges@;
        let past = Frontier::past_epoch(epoch);
        let first = Frontier::just_past(&start);
        proof {
            lemma_low_watermark(self.edges.frontiers());
            assert(!all_passed(self.edges.frontiers(), start)) by {
                assert(!self.edges.frontiers()[0].passed(start));
            }
        }
        let _ = self.edges.submit_all(start, edges);
        proof {
            assert(old(self).edges.items_at(start) + given =~= given);
        }
        shift(&mut self.edges, 0, past);
        shift(&mut self.edges, 1, first);
        let arrived = flush(&mut self.edges, Ghost(start), Ghost(given));
        if arrived.len() == 0 {
            self.close(epoch);
            return Ok(false);
        }
        shift(&mut self.feedback, 0, past);
        shift(&mut self.feedback, 1, first);
        let _ = flush(&mut self.feedback, Ghost(start), Ghost(Seq::empty()));
        shift(&mut self.signals, 0, Frontier::At(start));
        let _ = flush(&mut self.signals, Ghost(start), Ghost(Seq::empty()));
        self.in_flight = self.operator.on_edges(&arrived);
        self.controller = LoopController::begin(epoch);
        Ok(true)
    }

    /// Routes the signals in flight: they pass the signal buffer, and the
    /// policy decides once for the round that the loop is at. If the loop
    /// goes on, the contributions are fed back
    /// through the feedback buffer, the operator gives every vertex its new
    /// rank, and the signals of the next round are in flight. If the loop
    /// ends, the contributions pass the result buffer and the aggregator
    /// makes the report of the epoch from them; the epoch is then over.
    pub fn advance(&mut self) -> (p: Progress)
        requires
            old(self).wf(),
            old(self).controller().state == (LoopState::Iterating { round: u64::MAX }) ==> old(self).policy().verdict(u64::MAX, old(self).in_flight()) == Decision::Terminate,
        ensures
            final(self).wf(),
            final(self).policy() == old(self).policy(),
            final(self).controller().state == (match old(self).controller().state {
                LoopState::Done => LoopState::Done,
                LoopState::Iterating { round } => next_state(
                    old(self).controller().state,
                    old(self).policy().verdict(round, old(self).in_flight()),
                ),
            }),
            match old(self).controller().state {
                LoopState::Done => p is Idle && final(self).graph() == old(self).graph() && final(self).controller() == old(self).controller() && final(self).horizon() == old(self).horizon(),
                LoopState::Iterating { round } => match old(self).policy().verdict(
                    round,
                    old(self).in_flight(),
                ) {
                    Decision::Continue => {
                        &&& p is Iterating
                        &&& final(self).graph() == reweighted(
                            old(self).graph(),
                            contributions_of(old(self).in_flight()),
                        )
                        &&& final(self).in_flight() == emitted(
                            final(self).graph(),
                            drifts(old(self).graph(), final(self).graph()),
                        )
                        &&& final(self).controller() == (LoopController {
                            epoch: old(self).controller().epoch,
                            state: LoopState::Iterating { round: (round + 1) as u64 },
                        })
                        &&& final(self).horizon() == old(self).horizon()
                    },
                    Decision::Terminate => {
                        &&& final(self).graph() == old(self).graph()
                        &&& final(self).idle()
                        &&& final(self).horizon() == Frontier::after_epoch(old(self).controller().epoch)
                        &&& match p {
                            Progress::Finished(Some(report)) => old(self).in_flight().len() > 0
                                && report.epoch == old(self).controller().epoch && is_top(
                                contributions_of(old(self).in_flight()),
                                report.top@,
                            ),
                            Progress::Finished(None) => old(self).in_flight().len() == 0,
                            _ => false,
                        }
                    },
                },
            },
    {
        let round = match self.controller.state {
            LoopState::Iterating { round } => round,
            LoopState::Done => {
                return Progress::Idle;
            },
        };
        let epoch = self.controller.epoch;
        let ghost before = self.operator@;
        let now = LogicalTime { epoch, round };
        let mut flying: Vec<Signal> = Vec::new();
        core::mem::swap(&mut self.in_flight, &mut flying);
        let ghost seen = flying@;
        proof {
            lemma_low_watermark(self.signals.frontiers());
            assert(!all_passed(self.signals.frontiers(), now)) by {
                assert(!self.signals.frontiers()[0].passed(now));
            }
        }
        let _ = self.signals.submit_all(now, flying);
        proof {
            assert(old(self).signals.items_at(now) + seen =~= seen);
        }
        shift(&mut self.signals, 0, Frontier::just_past(&now));
        let round_signals = flush(&mut self.signals, Ghost(now), Ghost(seen));
        let decision = self.policy.decide(round, &round_signals);
        let routing = self.controller.route(decision);
        let batch = strip(&round_signals);
        match routing {
            Routing::FeedBack(time) => {
                proof {
                    lemma_low_watermark(self.feedback.frontiers());
                    assert(!all_passed(self.feedback.frontiers(), time)) by {
                        assert(!self.feedback.frontiers()[1].passed(time));
                    }
                }
                let ghost sending = batch@;
                let _ = self.feedback.submit_all(time, batch);
                proof {
                    assert(old(self).feedback.items_at(time) + sending =~= sending);
                }
                shift(&mut self.feedback, 1, Frontier::just_past(&time));
                let arrived = flush(&mut self.feedback, Ghost(time), Ghost(sending));
                self.in_flight = self.operator.on_contributions(&arrived);
                proof {
                    lemma_sent(self.operator@, drifts(before, self.operator@));
                }
                Progress::Iterating
            },
            Routing::Release(_) => {
                let start = LogicalTime::start_of(epoch);
                let past = Frontier::past_epoch(epoch);
                proof {
                    lemma_low_watermark(self.results.frontiers());
                    assert(!all_passed(self.results.frontiers(), start)) by {
                        assert(!self.results.frontiers()[0].passed(start));
                    }
                }
                let ghost sending = batch@;
                let _ = self.results.submit_all(start, batch);
                proof {
                    assert(old(self).results.items_at(start) + sending =~= sending);
                }
                shift(&mut self.results, 0, past);
                let arrived = flush(&mut self.results, Ghost(start), Ghost(sending));
                let report = aggregate(epoch, &arrived);
                self.close(epoch);
                Progress::Finished(report)
            },
            Routing::Discard => Progress::Idle,
        }
    }

    /// Runs a whole epoch under a fixed number of rounds: takes the edges,
    /// refines the ranks round by round, ends the loop at round
    /// `max_rounds` and hands back the report of the epoch. The ranks have
    /// then been refined exactly `max_rounds` times, and the report is made
    /// from what the graph sends after the last of them.
    ///
    /// Edges for an epoch that is over, or edges that arrive while another
    /// epoch is in progress, are refused. Without edges there is no round
    /// and no report.
    pub fn run_epoch(&mut self, epoch: u64, edges: Vec<(usize, usize)>) -> (r: Result<
        Option<Report>,
        ProtocolViolation,
    >)
        requires
            old(self).wf(),
            old(self).policy() is FixedRounds,
        ensures
            final(self).wf(),
            final(self).policy() == old(self).policy(),
            !old(self).idle() ==> r is Err && r->Err_0 == ProtocolViolation::EpochInProgress(
                old(self).controller().epoch,
            ) && final(self).graph() == old(self).graph() && final(self).controller() == old(self).controller() && final(self).in_flight() == old(self).in_flight() && final(self).horizon()
                == old(self).horizon(),
            old(self).idle() && old(self).horizon().passed(LogicalTime { epoch, round: 0 }) ==> r is Err
                && r->Err_0 == ProtocolViolation::AlreadyReleased(LogicalTime { epoch, round: 0 })
                && final(self).graph() == old(self).graph() && final(self).idle() && final(self).horizon() == old(self).horizon(),
            old(self).idle() && !old(self).horizon().passed(LogicalTime { epoch, round: 0 }) ==> {
                &&& final(self).idle()
                &&& final(self).horizon() == Frontier::after_epoch(epoch)
                &&& r is Ok
                &&& edges.len() == 0 ==> final(self).graph() == old(self).graph() && r->Ok_0 is None
                &&& edges.len() > 0 ==> final(self).graph() == settled(
                    grown(old(self).graph(), edges@),
                    old(self).policy()->max_rounds as nat,
                ) && r->Ok_0 is Some && r->Ok_0->Some_0.epoch == epoch && is_top(
                    sent(final(self).graph()),
                    r->Ok_0->Some_0.top@,
                )
            },
    {
        let ghost given = edges@;
        let max = match self.policy {
            ConvergencePolicy::FixedRounds { max_rounds } => max_rounds,
            ConvergencePolicy::Tolerance { tolerance } => 0,
        };
        match self.start_epoch(epoch, edges) {
            Err(e) => {
                return Err(e);
            },
            Ok(started) => {
                if !started {
                    return Ok(None);
                }
            },
        }
        let ghost first = self.operator@;
        let mut round: u64 = 0;
        proof {
            lemma_grown_has_edge(old(self).graph(), given);
        }
        loop
            invariant
                self.wf(),
                self.policy == old(self).policy(),
                self.policy == (ConvergencePolicy::FixedRounds { max_rounds: max }),
                round <= max,
                self.controller == (LoopController { epoch, state: LoopState::Iterating { round } }),
                old(self).idle(),
                !old(self).horizon().passed(LogicalTime { epoch, round: 0 }),
                given == edges@,
                given.len() > 0,
                first == grown(old(self).graph(), given),
                has_edge(first),
                self.operator@ == settled(first, round as nat),
            decreases max - round,
        {
            let ghost before = self.operator@;
            let ghost flying = self.in_flight@;
            proof {
                self.lemma_in_flight();
                lemma_settled_keeps_edges(first, round as nat);
                let i = choose|i: int| 0 <= i < first.len() && (#[trigger] first[i]).out.len() > 0;
                assert(before[i].out.len() > 0);
                lemma_sends(before, unsettled(before.len()));
                assert(flying.len() == sent(before).len());
            }
            match self.advance() {
                Progress::Finished(report) => {
                    return Ok(report);
                },
                _ => {
                    round = round + 1;
                },
            }
        }
    }
}

} // verus!
