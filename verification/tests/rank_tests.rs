use pagerank::convergence::{largest_delta, ConvergencePolicy, Decision};
use pagerank::controller::{LoopController, LoopState, Routing};
use pagerank::operator::{strip, Contribution, ContributionOperator, Signal};
use pagerank::rank::{cap, damp, distance, mul_div, split, BASE, DAMPING, ONE};
use pagerank::time::LogicalTime;

fn contribution(source: usize, destination: usize, amount: u64) -> Contribution {
    Contribution { source, destination, amount }
}

fn signal(source: usize, destination: usize, amount: u64, delta: u64) -> Signal {
    Signal { source, destination, amount, delta }
}

#[test]
fn constants_are_the_damping_split() {
    assert_eq!(ONE, 1_000_000_000);
    assert_eq!(BASE, 150_000_000);
    assert_eq!(DAMPING, 85);
    assert_eq!(damp(ONE), ONE);
}

#[test]
fn damping_rounds_down() {
    assert_eq!(damp(0), 150_000_000);
    assert_eq!(damp(1), 150_000_000);
    assert_eq!(damp(2), 150_000_001);
    assert_eq!(damp(100), 150_000_085);
    assert_eq!(damp(500_000_000), 575_000_000);
    assert_eq!(damp(1_500_000_000), 1_425_000_000);
    assert_eq!(damp(u64::MAX), 15_679_732_462_803_118_872);
}

#[test]
fn shares_round_down() {
    assert_eq!(split(ONE, 1), ONE);
    assert_eq!(split(ONE, 2), 500_000_000);
    assert_eq!(split(ONE, 3), 333_333_333);
    assert_eq!(split(2, 3), 0);
    assert_eq!(split(u64::MAX, usize::MAX), (u64::MAX as u128 / usize::MAX as u128) as u64);
}

#[test]
fn sums_are_held_at_the_largest_rank() {
    assert_eq!(cap(0), 0);
    assert_eq!(cap(u64::MAX as u128), u64::MAX);
    assert_eq!(cap(u64::MAX as u128 + 1), u64::MAX);
    assert_eq!(cap(u128::MAX), u64::MAX);
}

#[test]
fn distance_is_symmetric() {
    assert_eq!(distance(150_000_000, ONE), 850_000_000);
    assert_eq!(distance(ONE, 150_000_000), 850_000_000);
    assert_eq!(distance(7, 7), 0);
    assert_eq!(distance(0, u64::MAX), u64::MAX);
}

#[test]
fn mul_div_is_exact_beyond_the_word() {
    assert_eq!(mul_div(7, 3, 2), 10);
    assert_eq!(mul_div(0, 9, 5), 0);
    assert_eq!(mul_div(9, 0, 5), 0);
    assert_eq!(mul_div(277_500_000 * 2, ONE, 427_500_000), 1_298_245_614);
    assert_eq!(mul_div(u128::MAX, ONE, u128::MAX), ONE as u128);
    assert_eq!(mul_div(u128::MAX - 1, u64::MAX, u128::MAX), u64::MAX as u128 - 1);
    assert_eq!(mul_div(u128::MAX / 2, 2, 1), u128::MAX - 1);
    assert_eq!(mul_div((1u128 << 127) + 12345, 1_000_003, (1u128 << 127) + 12345), 1_000_003);
    // floor((2^100 + 1) * 10^9 / 2^100) = 10^9
    assert_eq!(mul_div((1u128 << 100) + 1, ONE, 1u128 << 100), ONE as u128);
    // floor((2^100 - 1) * 10^9 / 2^100) = 10^9 - 1
    assert_eq!(mul_div((1u128 << 100) - 1, ONE, 1u128 << 100), ONE as u128 - 1);
}

#[test]
fn edges_join_the_graph_and_every_vertex_sends() {
    let mut op = ContributionOperator::new();
    let out = op.on_edges(&vec![(0, 1), (0, 2), (1, 2)]);
    assert_eq!(
        out,
        vec![
            signal(0, 1, 500_000_000, ONE),
            signal(0, 2, 500_000_000, ONE),
            signal(1, 2, ONE, ONE),
        ]
    );
    let store = op.store();
    assert_eq!(store.len(), 3);
    assert_eq!(store.rank(0), Some(ONE));
    assert_eq!(store.rank(2), Some(ONE));
    assert_eq!(store.rank(3), None);
    assert_eq!(store.find(1), Some(1));
    assert_eq!(store.id_at(2), 2);
    assert_eq!(store.successors_at(0), &vec![1, 2]);
    assert!(store.successors_at(2).is_empty());
}

#[test]
fn duplicate_edges_are_kept() {
    let mut op = ContributionOperator::new();
    let out = op.on_edges(&vec![(4, 9), (4, 9), (4, 4)]);
    assert_eq!(
        out,
        vec![
            signal(4, 9, 333_333_333, ONE),
            signal(4, 9, 333_333_333, ONE),
            signal(4, 4, 333_333_333, ONE),
        ]
    );
    assert_eq!(op.store().len(), 2);
}

#[test]
fn a_round_reweights_every_known_vertex() {
    let mut op = ContributionOperator::new();
    let seeds = op.on_edges(&vec![(0, 1), (0, 2), (1, 2)]);
    let out = op.on_contributions(&strip(&seeds));
    assert_eq!(op.store().rank(0), Some(150_000_000));
    assert_eq!(op.store().rank(1), Some(575_000_000));
    assert_eq!(op.store().rank(2), Some(1_425_000_000));
    assert_eq!(
        out,
        vec![
            signal(0, 1, 75_000_000, 850_000_000),
            signal(0, 2, 75_000_000, 850_000_000),
            signal(1, 2, 575_000_000, 425_000_000),
        ]
    );
}

#[test]
fn single_edge_one_round() {
    let mut op = ContributionOperator::new();
    let seeds = op.on_edges(&vec![(0, 1)]);
    assert_eq!(seeds, vec![signal(0, 1, ONE, ONE)]);
    op.on_contributions(&strip(&seeds));
    assert_eq!(op.store().rank(1), Some(ONE));
    assert_eq!(op.store().rank(0), Some(150_000_000));
}

#[test]
fn contributions_to_unknown_vertices_are_left_aside() {
    let mut op = ContributionOperator::new();
    op.on_edges(&vec![(0, 1)]);
    let out = op.on_contributions(&vec![contribution(0, 7, ONE), contribution(5, 1, 200)]);
    assert_eq!(op.store().len(), 2);
    assert_eq!(op.store().rank(7), None);
    assert_eq!(op.store().rank(0), Some(150_000_000));
    assert_eq!(op.store().rank(1), Some(150_000_170));
    assert_eq!(out, vec![signal(0, 1, 150_000_000, 850_000_000)]);
}

#[test]
fn an_empty_round_gives_every_vertex_the_base_rank() {
    let mut op = ContributionOperator::new();
    op.on_edges(&vec![(0, 1)]);
    op.on_contributions(&Vec::new());
    assert_eq!(op.store().rank(0), Some(BASE));
    assert_eq!(op.store().rank(1), Some(BASE));
}

#[test]
fn inbound_sum_saturates() {
    let mut op = ContributionOperator::new();
    op.on_edges(&vec![(0, 1)]);
    op.on_contributions(&vec![contribution(0, 1, u64::MAX), contribution(0, 1, u64::MAX)]);
    assert_eq!(op.store().rank(1), Some(15_679_732_462_803_118_872));
}

#[test]
fn ranks_survive_new_edges() {
    let mut op = ContributionOperator::new();
    let seeds = op.on_edges(&vec![(0, 1), (0, 2), (1, 2)]);
    op.on_contributions(&strip(&seeds));
    let out = op.on_edges(&vec![(2, 3), (1, 0)]);
    assert_eq!(op.store().rank(0), Some(150_000_000));
    assert_eq!(op.store().rank(1), Some(575_000_000));
    assert_eq!(op.store().rank(2), Some(1_425_000_000));
    assert_eq!(op.store().rank(3), Some(ONE));
    assert_eq!(op.store().find(3), Some(3));
    assert_eq!(
        out,
        vec![
            signal(0, 1, 75_000_000, ONE),
            signal(0, 2, 75_000_000, ONE),
            signal(1, 2, 287_500_000, ONE),
            signal(1, 0, 287_500_000, ONE),
            signal(2, 3, 1_425_000_000, ONE),
        ]
    );
}

#[test]
fn no_rank_is_created_and_none_lost_without_sinks() {
    let mut op = ContributionOperator::new();
    let seeds = op.on_edges(&vec![(0, 1), (1, 2), (2, 0), (0, 2)]);
    let sent: u64 = seeds.iter().map(|s| s.amount).sum();
    assert_eq!(sent, 3 * ONE);
    let mut op = ContributionOperator::new();
    let seeds = op.on_edges(&vec![(0, 1), (0, 2), (0, 0), (1, 0), (2, 0)]);
    let sent: u64 = seeds.iter().map(|s| s.amount).sum();
    // vertex 0 has three out-edges and loses one billionth to rounding
    assert_eq!(sent, 3 * ONE - 1);
    let mut op = ContributionOperator::new();
    let seeds = op.on_edges(&vec![(0, 1)]);
    let sent: u64 = seeds.iter().map(|s| s.amount).sum();
    // vertex 1 is a sink: its rank is not sent on
    assert_eq!(sent, ONE);
}

#[test]
fn strip_keeps_the_contributions() {
    let signals = vec![signal(1, 2, 3, 4), signal(5, 6, 7, 8)];
    assert_eq!(strip(&signals), vec![contribution(1, 2, 3), contribution(5, 6, 7)]);
    assert_eq!(signals[1].to_contribution(), contribution(5, 6, 7));
    assert!(strip(&Vec::new()).is_empty());
}

#[test]
fn policies_must_be_positive() {
    assert_eq!(ConvergencePolicy::fixed_rounds(0), None);
    assert_eq!(
        ConvergencePolicy::fixed_rounds(50),
        Some(ConvergencePolicy::FixedRounds { max_rounds: 50 })
    );
    assert_eq!(ConvergencePolicy::tolerance(0), None);
    assert_eq!(
        ConvergencePolicy::tolerance(1_000),
        Some(ConvergencePolicy::Tolerance { tolerance: 1_000 })
    );
}

#[test]
fn fixed_rounds_decide_by_the_round_alone() {
    let p = ConvergencePolicy::FixedRounds { max_rounds: 3 };
    let busy = vec![signal(0, 1, 5, u64::MAX)];
    let none: Vec<Signal> = Vec::new();
    for signals in [&busy, &none] {
        assert_eq!(p.decide(0, signals), Decision::Continue);
        assert_eq!(p.decide(2, signals), Decision::Continue);
        assert_eq!(p.decide(3, signals), Decision::Terminate);
        assert_eq!(p.decide(4, signals), Decision::Terminate);
    }
}

#[test]
fn tolerance_decides_once_for_the_round() {
    let p = ConvergencePolicy::Tolerance { tolerance: 100 };
    let moving = vec![signal(0, 1, 5, 3), signal(1, 2, 5, 101), signal(2, 0, 5, 0)];
    let still = vec![signal(0, 1, 5, 3), signal(1, 2, 5, 100), signal(2, 0, 5, 0)];
    assert_eq!(largest_delta(&moving), 101);
    assert_eq!(largest_delta(&still), 100);
    assert_eq!(p.decide(0, &moving), Decision::Continue);
    assert_eq!(p.decide(9, &moving), Decision::Continue);
    assert_eq!(p.decide(0, &still), Decision::Terminate);
}

#[test]
fn a_round_without_signals_ends_the_loop_under_a_tolerance() {
    let none: Vec<Signal> = Vec::new();
    assert_eq!(largest_delta(&none), 0);
    let p = ConvergencePolicy::Tolerance { tolerance: 1 };
    assert_eq!(p.decide(0, &none), Decision::Terminate);
}

#[test]
fn controller_feeds_back_then_releases() {
    let mut c = LoopController::begin(1994);
    assert_eq!(c.state, LoopState::Iterating { round: 0 });
    assert_eq!(c.time(), Some(LogicalTime::new(1994, 0)));
    assert!(!c.is_done());
    assert_eq!(c.route(Decision::Continue), Routing::FeedBack(LogicalTime::new(1994, 1)));
    assert_eq!(c.route(Decision::Continue), Routing::FeedBack(LogicalTime::new(1994, 2)));
    assert_eq!(c.state, LoopState::Iterating { round: 2 });
    assert_eq!(c.route(Decision::Terminate), Routing::Release(1994));
    assert!(c.is_done());
    assert_eq!(c.time(), None);
    // done is terminal
    assert_eq!(c.route(Decision::Continue), Routing::Discard);
    assert_eq!(c.route(Decision::Terminate), Routing::Discard);
    assert_eq!(c.state, LoopState::Done);
    assert_eq!(c.epoch, 1994);
}

#[test]
fn fixed_rounds_end_exactly_at_max_rounds() {
    for max_rounds in [1u64, 2, 7, 50] {
        let p = ConvergencePolicy::FixedRounds { max_rounds };
        let mut c = LoopController::begin(3);
        let none: Vec<Signal> = Vec::new();
        let mut routed = 0u64;
        while let LoopState::Iterating { round } = c.state {
            assert_eq!(round, routed);
            let r = c.route(p.decide(round, &none));
            if round < max_rounds {
                assert_eq!(r, Routing::FeedBack(LogicalTime::new(3, round + 1)));
            } else {
                assert_eq!(r, Routing::Release(3));
            }
            routed += 1;
        }
        assert_eq!(routed, max_rounds + 1);
    }
}
