use pagerank::buffer::ProtocolViolation;
use pagerank::controller::{LoopController, LoopState};
use pagerank::engine::{Engine, Progress};
use pagerank::convergence::ConvergencePolicy;
use pagerank::operator::Contribution;
use pagerank::rank::ONE;
use pagerank::report::{aggregate, Ranked, Report, TOP};
use pagerank::time::LogicalTime;

fn contribution(source: usize, destination: usize, amount: u64) -> Contribution {
    Contribution { source, destination, amount }
}

fn ranked(vertex: usize, score: u128) -> Ranked {
    Ranked { vertex, score }
}

fn fixed(max_rounds: u64) -> Engine {
    Engine::new(ConvergencePolicy::FixedRounds { max_rounds })
}

fn ranks(engine: &Engine, vertices: &[usize]) -> Vec<Option<u64>> {
    vertices.iter().map(|v| engine.operator().store().rank(*v)).collect()
}

/// Runs the loop of the epoch in progress to its end and counts the rounds.
fn finish(engine: &mut Engine) -> (u64, Option<Report>) {
    let mut rounds = 0;
    loop {
        match engine.advance() {
            Progress::Iterating => rounds += 1,
            Progress::Finished(report) => return (rounds, report),
            Progress::Idle => panic!("no epoch in progress"),
        }
    }
}

#[test]
fn cycle_of_three_stays_at_rank_one() {
    let mut engine = fixed(50);
    let report = engine.run_epoch(1992, vec![(0, 1), (1, 2), (2, 0)]).unwrap().unwrap();
    assert_eq!(ranks(&engine, &[0, 1, 2]), vec![Some(ONE), Some(ONE), Some(ONE)]);
    assert_eq!(report.epoch, 1992);
    assert_eq!(
        report.top,
        vec![ranked(0, ONE as u128), ranked(1, ONE as u128), ranked(2, ONE as u128)]
    );
}

#[test]
fn single_edge_after_one_round() {
    let mut engine = fixed(1);
    let report = engine.run_epoch(0, vec![(0, 1)]).unwrap().unwrap();
    assert_eq!(ranks(&engine, &[0, 1]), vec![Some(150_000_000), Some(ONE)]);
    assert_eq!(report.top, vec![ranked(1, 1_298_245_614), ranked(0, 701_754_385)]);
}

#[test]
fn fixed_rounds_refine_exactly_max_rounds_times() {
    let edges = vec![(0, 1), (1, 2), (2, 0), (0, 2)];
    let expect: [(u64, [u64; 3]); 4] = [
        (1, [1_000_000_000, 575_000_000, 1_425_000_000]),
        (2, [1_361_250_000, 575_000_000, 1_063_750_000]),
        (3, [1_054_187_500, 728_531_250, 1_217_281_250]),
        (10, [1_166_739_174, 643_249_410, 1_190_011_409]),
    ];
    for (max_rounds, want) in expect {
        let mut engine = fixed(max_rounds);
        assert_eq!(engine.start_epoch(5, edges.clone()), Ok(true));
        let (rounds, report) = finish(&mut engine);
        assert_eq!(rounds, max_rounds);
        assert!(report.is_some());
        assert_eq!(
            ranks(&engine, &[0, 1, 2]),
            vec![Some(want[0]), Some(want[1]), Some(want[2])]
        );
        let mut whole = fixed(max_rounds);
        let same = whole.run_epoch(5, edges.clone()).unwrap().unwrap();
        assert_eq!(ranks(&whole, &[0, 1, 2]), ranks(&engine, &[0, 1, 2]));
        assert_eq!(same.top, report.unwrap().top);
    }
}

#[test]
fn report_after_three_rounds() {
    let mut engine = fixed(3);
    let report = engine.run_epoch(7, vec![(0, 1), (1, 2), (2, 0), (0, 2)]).unwrap().unwrap();
    assert_eq!(
        report.top,
        vec![ranked(2, 1_217_281_250), ranked(0, 1_184_689_062), ranked(1, 598_029_687)]
    );
}

#[test]
fn an_epoch_cannot_be_fed_twice() {
    let mut engine = fixed(2);
    let edges = vec![(0, 1), (1, 0)];
    assert!(engine.run_epoch(3, edges.clone()).unwrap().is_some());
    let before = ranks(&engine, &[0, 1]);
    assert!(engine.is_closed(3));
    assert!(engine.is_closed(2));
    assert!(!engine.is_closed(4));
    assert_eq!(
        engine.run_epoch(3, edges.clone()).err(),
        Some(ProtocolViolation::AlreadyReleased(LogicalTime::new(3, 0)))
    );
    assert_eq!(
        engine.start_epoch(1, edges.clone()),
        Err(ProtocolViolation::AlreadyReleased(LogicalTime::new(1, 0)))
    );
    assert_eq!(ranks(&engine, &[0, 1]), before);
    assert_eq!(engine.operator().store().successors_at(0), &vec![1]);
    assert!(engine.run_epoch(4, edges).unwrap().is_some());
    assert_eq!(engine.operator().store().successors_at(0), &vec![1, 1]);
}

#[test]
fn edges_are_refused_while_an_epoch_is_in_progress() {
    let mut engine = fixed(2);
    assert_eq!(engine.start_epoch(1, vec![(0, 1)]), Ok(true));
    assert_eq!(
        engine.loop_controller(),
        LoopController { epoch: 1, state: LoopState::Iterating { round: 0 } }
    );
    assert_eq!(
        engine.start_epoch(2, vec![(1, 2)]),
        Err(ProtocolViolation::EpochInProgress(1))
    );
    assert_eq!(engine.operator().store().len(), 2);
    let (rounds, _) = finish(&mut engine);
    assert_eq!(rounds, 2);
    assert_eq!(engine.start_epoch(2, vec![(1, 2)]), Ok(true));
}

#[test]
fn an_epoch_without_edges_has_no_round_and_no_report() {
    let mut engine = fixed(4);
    assert!(engine.run_epoch(0, vec![(0, 1), (1, 0)]).unwrap().is_some());
    let before = ranks(&engine, &[0, 1]);
    assert!(engine.run_epoch(1, Vec::new()).unwrap().is_none());
    assert_eq!(ranks(&engine, &[0, 1]), before);
    assert!(engine.is_closed(1));
    assert_eq!(engine.start_epoch(2, Vec::new()), Ok(false));
    assert!(engine.loop_controller().is_done());
    assert!(matches!(engine.advance(), Progress::Idle));
}

#[test]
fn a_new_epoch_starts_from_the_ranks_of_the_last() {
    let mut engine = fixed(3);
    engine.run_epoch(1992, vec![(0, 1), (1, 2), (2, 0), (0, 2)]).unwrap();
    let settled = ranks(&engine, &[0, 1, 2]);
    assert_eq!(
        settled,
        vec![Some(1_054_187_500), Some(728_531_250), Some(1_217_281_250)]
    );
    // before any round of the new epoch: old ranks kept, new vertices at 1.0
    assert_eq!(engine.start_epoch(1993, vec![(3, 0), (4, 3), (3, 4)]), Ok(true));
    assert_eq!(ranks(&engine, &[0, 1, 2]), settled);
    assert_eq!(ranks(&engine, &[3, 4]), vec![Some(ONE), Some(ONE)]);
    let (rounds, report) = finish(&mut engine);
    assert_eq!(rounds, 3);
    assert_eq!(report.unwrap().epoch, 1993);
}

#[test]
fn second_epoch_after_two_rounds() {
    let mut engine = fixed(3);
    engine.run_epoch(0, vec![(0, 1), (1, 2), (2, 0), (0, 2)]).unwrap();
    assert_eq!(engine.start_epoch(1, vec![(3, 0), (4, 3), (3, 4)]), Ok(true));
    assert!(matches!(engine.advance(), Progress::Iterating));
    assert!(matches!(engine.advance(), Progress::Iterating));
    assert_eq!(
        ranks(&engine, &[0, 1, 2, 3, 4]),
        vec![
            Some(1_609_689_062),
            Some(834_117_851),
            Some(1_342_443_085),
            Some(638_750_000),
            Some(575_000_000),
        ]
    );
}

#[test]
fn tolerance_ends_the_loop_when_the_ranks_stand_still() {
    let mut engine = Engine::new(ConvergencePolicy::Tolerance { tolerance: 1_000_000 });
    assert_eq!(engine.start_epoch(0, vec![(0, 1), (1, 2), (2, 0)]), Ok(true));
    // round 0 reports the movement 1.0; after one round nothing moves
    let (rounds, report) = finish(&mut engine);
    assert_eq!(rounds, 1);
    assert_eq!(
        report.unwrap().top,
        vec![ranked(0, ONE as u128), ranked(1, ONE as u128), ranked(2, ONE as u128)]
    );
}

#[test]
fn tolerance_of_one_or_more_ends_at_round_zero() {
    let mut engine = Engine::new(ConvergencePolicy::Tolerance { tolerance: ONE });
    assert_eq!(engine.start_epoch(0, vec![(0, 1), (1, 2), (2, 0), (0, 2)]), Ok(true));
    let (rounds, report) = finish(&mut engine);
    assert_eq!(rounds, 0);
    assert!(report.is_some());
    assert_eq!(ranks(&engine, &[0, 1, 2]), vec![Some(ONE), Some(ONE), Some(ONE)]);
}

#[test]
fn a_wider_tolerance_takes_no_more_rounds() {
    let edges = vec![(0, 1), (1, 2), (2, 0), (0, 2)];
    let mut last = 0;
    for (tolerance, want) in [(10_000_000u64, 9u64), (100_000, 19), (1_000, 28), (1, 41)] {
        let mut engine = Engine::new(ConvergencePolicy::Tolerance { tolerance });
        assert_eq!(engine.start_epoch(0, edges.clone()), Ok(true));
        let (rounds, _) = finish(&mut engine);
        assert_eq!(rounds, want);
        assert!(last <= rounds);
        last = rounds;
    }
}

#[test]
fn aggregate_of_nothing_is_no_report() {
    assert!(aggregate(3, &Vec::new()).is_none());
}

#[test]
fn aggregate_names_the_five_highest() {
    assert_eq!(TOP, 5);
    let batch = vec![
        contribution(10, 1, 500_000_000),
        contribution(10, 2, 500_000_000),
        contribution(11, 3, 900_000_000),
        contribution(12, 4, 100_000_000),
        contribution(13, 5, 300_000_000),
        contribution(14, 6, 700_000_000),
    ];
    let report = aggregate(1995, &batch).unwrap();
    assert_eq!(report.epoch, 1995);
    assert_eq!(
        report.top,
        vec![
            ranked(3, 2_396_428_571),
            ranked(6, 1_951_190_476),
            ranked(1, 1_505_952_380),
            ranked(2, 1_505_952_380),
            ranked(5, 1_060_714_285),
        ]
    );
}

#[test]
fn aggregate_breaks_ties_by_the_smaller_identifier() {
    let batch = vec![
        contribution(9, 8, 5),
        contribution(7, 6, 5),
        contribution(3, 4, 5),
        contribution(1, 2, 5),
    ];
    let report = aggregate(0, &batch).unwrap();
    let names: Vec<usize> = report.top.iter().map(|r| r.vertex).collect();
    assert_eq!(names, vec![2, 4, 6, 8, 1]);
}

#[test]
fn aggregate_sums_per_destination_and_counts_sources() {
    let batch = vec![
        contribution(0, 1, 150_000_000),
        contribution(2, 1, 50_000_000),
        contribution(1, 1, 0),
    ];
    let report = aggregate(0, &batch).unwrap();
    // vertex 1 receives 0.2: rank 0.32; vertices 0 and 2: rank 0.15; sum 0.62
    assert_eq!(
        report.top,
        vec![
            ranked(1, 320_000_000u128 * 3 * 1_000_000_000 / 620_000_000),
            ranked(0, 150_000_000u128 * 3 * 1_000_000_000 / 620_000_000),
            ranked(2, 150_000_000u128 * 3 * 1_000_000_000 / 620_000_000),
        ]
    );
    assert_eq!(report.top[0].score, 1_548_387_096);
    assert_eq!(report.top[1].score, 725_806_451);
}

#[test]
fn normalized_ranks_sum_to_the_number_of_vertices() {
    // eleven vertices: the five highest from the report, the other six by the formula
    let batch = vec![
        contribution(10, 1, 500_000_000),
        contribution(10, 2, 500_000_000),
        contribution(11, 3, 900_000_000),
        contribution(12, 4, 100_000_000),
        contribution(13, 5, 300_000_000),
        contribution(14, 6, 700_000_000),
    ];
    let top: u128 = aggregate(0, &batch).unwrap().top.iter().map(|r| r.score).sum();
    let rest: u128 = 615_476_190 + 5 * 392_857_142;
    let sum = top + rest;
    assert!(sum <= 11 * ONE as u128);
    assert!(sum > 11 * ONE as u128 - 11);
    // two vertices: the whole sum is in the report
    let report = aggregate(0, &vec![contribution(0, 1, 150_000_000)]).unwrap();
    let sum: u128 = report.top.iter().map(|r| r.score).sum();
    assert_eq!(sum, 1_999_999_999);
}

#[test]
fn aggregate_of_saturated_inbound() {
    let batch = vec![contribution(0, 1, u64::MAX), contribution(0, 1, u64::MAX)];
    let report = aggregate(0, &batch).unwrap();
    let high: u128 = 15_679_732_462_803_118_872;
    let total: u128 = high + 150_000_000;
    assert_eq!(
        report.top,
        vec![
            ranked(1, high * 2 * 1_000_000_000 / total),
            ranked(0, 150_000_000u128 * 2 * 1_000_000_000 / total),
        ]
    );
}
