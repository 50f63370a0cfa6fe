use pagerank::buffer::{Batch, EpochBuffer, ProtocolViolation};
use pagerank::time::{Frontier, LogicalTime};

fn at(epoch: u64, round: u64) -> LogicalTime {
    LogicalTime::new(epoch, round)
}

fn times(out: &Vec<Batch<u32>>) -> Vec<(u64, u64)> {
    out.iter().map(|b| (b.time.epoch, b.time.round)).collect()
}

#[test]
fn time_order_is_lexicographic() {
    assert!(at(1, 9).precedes(&at(2, 0)));
    assert!(at(2, 0).precedes(&at(2, 1)));
    assert!(!at(2, 1).precedes(&at(2, 1)));
    assert!(!at(3, 0).precedes(&at(2, 7)));
    assert_eq!(at(4, 2).next_round(), at(4, 3));
    assert_eq!(LogicalTime::start_of(7), at(7, 0));
}

#[test]
fn frontier_passes_strictly_earlier_times() {
    let f = Frontier::At(at(3, 2));
    assert!(f.has_passed(&at(3, 1)));
    assert!(f.has_passed(&at(2, 100)));
    assert!(!f.has_passed(&at(3, 2)));
    assert!(!f.has_passed(&at(4, 0)));
    assert!(Frontier::Closed.has_passed(&at(u64::MAX, u64::MAX)));
    assert!(!Frontier::origin().has_passed(&at(0, 0)));
}

#[test]
fn frontier_order_and_meet() {
    let a = Frontier::At(at(1, 5));
    let b = Frontier::At(at(2, 0));
    assert!(a.no_later_than(&b));
    assert!(!b.no_later_than(&a));
    assert!(a.no_later_than(&a));
    assert!(b.no_later_than(&Frontier::Closed));
    assert!(!Frontier::Closed.no_later_than(&b));
    assert_eq!(a.earlier_of(b), a);
    assert_eq!(b.earlier_of(a), a);
    assert_eq!(Frontier::Closed.earlier_of(b), b);
}

#[test]
fn frontier_just_past_steps_over_the_limits() {
    assert_eq!(Frontier::just_past(&at(3, 4)), Frontier::At(at(3, 5)));
    assert_eq!(Frontier::just_past(&at(3, u64::MAX)), Frontier::At(at(4, 0)));
    assert_eq!(Frontier::just_past(&at(u64::MAX, u64::MAX)), Frontier::Closed);
    assert_eq!(Frontier::past_epoch(9), Frontier::At(at(10, 0)));
    assert_eq!(Frontier::past_epoch(u64::MAX), Frontier::Closed);
}

#[test]
fn new_buffer_is_empty_with_frontiers_at_origin() {
    let b: EpochBuffer<u32> = EpochBuffer::new(2);
    assert_eq!(b.inputs(), 2);
    assert_eq!(b.frontier(0), Some(Frontier::origin()));
    assert_eq!(b.frontier(1), Some(Frontier::origin()));
    assert_eq!(b.frontier(2), None);
    assert_eq!(b.pending_times(), 0);
    assert!(!b.has_released(&at(0, 0)));
    assert_eq!(b.watermark(), Frontier::origin());
}

#[test]
fn nothing_is_released_before_every_frontier_has_passed() {
    let mut b: EpochBuffer<u32> = EpochBuffer::new(2);
    assert_eq!(b.submit(at(1, 0), 10), Ok(()));
    assert_eq!(b.advance_frontier(0, Frontier::At(at(2, 0))), Ok(()));
    assert!(b.release().is_empty());
    assert_eq!(b.pending_times(), 1);
    // the second input reaches the time itself: still not strictly past it
    assert_eq!(b.advance_frontier(1, Frontier::At(at(1, 0))), Ok(()));
    assert!(b.release().is_empty());
    assert_eq!(b.advance_frontier(1, Frontier::At(at(1, 1))), Ok(()));
    let out = b.release();
    assert_eq!(times(&out), vec![(1, 0)]);
    assert_eq!(out[0].items, vec![10]);
    assert_eq!(b.pending_times(), 0);
}

#[test]
fn release_is_ascending_and_complete_per_time() {
    let mut b: EpochBuffer<u32> = EpochBuffer::new(1);
    b.submit(at(2, 1), 21).unwrap();
    b.submit(at(1, 0), 10).unwrap();
    b.submit(at(2, 0), 20).unwrap();
    b.submit(at(1, 0), 11).unwrap();
    b.submit_all(at(2, 1), vec![22, 23]).unwrap();
    b.submit(at(5, 0), 50).unwrap();
    assert_eq!(b.pending_times(), 4);
    b.advance_frontier(0, Frontier::At(at(3, 0))).unwrap();
    let out = b.release();
    assert_eq!(times(&out), vec![(1, 0), (2, 0), (2, 1)]);
    assert_eq!(out[0].items, vec![10, 11]);
    assert_eq!(out[1].items, vec![20]);
    assert_eq!(out[2].items, vec![21, 22, 23]);
    // the later time is still open and goes on collecting
    assert_eq!(b.pending_times(), 1);
    b.submit(at(5, 0), 51).unwrap();
    b.advance_frontier(0, Frontier::Closed).unwrap();
    let rest = b.release();
    assert_eq!(times(&rest), vec![(5, 0)]);
    assert_eq!(rest[0].items, vec![50, 51]);
}

#[test]
fn batch_for_a_released_time_is_refused() {
    let mut b: EpochBuffer<u32> = EpochBuffer::new(1);
    assert_eq!(b.submit_all(at(1, 0), vec![1, 2, 3]), Ok(()));
    b.advance_frontier(0, Frontier::At(at(1, 1))).unwrap();
    let out = b.release();
    assert_eq!(out.len(), 1);
    assert!(b.has_released(&at(1, 0)));
    // the same batch again: refused, and nothing is counted twice
    assert_eq!(
        b.submit_all(at(1, 0), vec![1, 2, 3]),
        Err(ProtocolViolation::AlreadyReleased(at(1, 0)))
    );
    assert_eq!(b.submit(at(0, 7), 9), Err(ProtocolViolation::AlreadyReleased(at(0, 7))));
    assert_eq!(b.pending_times(), 0);
    assert!(b.release().is_empty());
    // a time at the frontier is still open
    assert_eq!(b.submit(at(1, 1), 4), Ok(()));
}

#[test]
fn late_item_is_accepted_until_the_release() {
    let mut b: EpochBuffer<u32> = EpochBuffer::new(1);
    b.advance_frontier(0, Frontier::At(at(4, 0))).unwrap();
    // the frontier has moved on, but nothing was released yet
    assert!(!b.has_released(&at(1, 0)));
    assert_eq!(b.submit(at(1, 0), 1), Ok(()));
    assert_eq!(b.release().len(), 1);
    assert_eq!(b.submit(at(1, 0), 1), Err(ProtocolViolation::AlreadyReleased(at(1, 0))));
}

#[test]
fn empty_batch_leaves_no_entry() {
    let mut b: EpochBuffer<u32> = EpochBuffer::new(1);
    assert_eq!(b.submit_all(at(1, 0), Vec::new()), Ok(()));
    assert_eq!(b.pending_times(), 0);
    b.advance_frontier(0, Frontier::Closed).unwrap();
    assert!(b.release().is_empty());
}

#[test]
fn frontier_reports_are_checked() {
    let mut b: EpochBuffer<u32> = EpochBuffer::new(2);
    assert_eq!(
        b.advance_frontier(2, Frontier::Closed),
        Err(ProtocolViolation::UnknownInput(2))
    );
    assert_eq!(b.advance_frontier(1, Frontier::At(at(3, 0))), Ok(()));
    assert_eq!(
        b.advance_frontier(1, Frontier::At(at(2, 9))),
        Err(ProtocolViolation::FrontierRetreated(1))
    );
    assert_eq!(b.frontier(1), Some(Frontier::At(at(3, 0))));
    assert_eq!(b.advance_frontier(1, Frontier::At(at(3, 0))), Ok(()));
    assert_eq!(b.advance_frontier(1, Frontier::Closed), Ok(()));
    assert_eq!(
        b.advance_frontier(1, Frontier::At(at(9, 0))),
        Err(ProtocolViolation::FrontierRetreated(1))
    );
    assert_eq!(b.watermark(), Frontier::origin());
    assert_eq!(b.advance_frontier(0, Frontier::At(at(1, 0))), Ok(()));
    assert_eq!(b.watermark(), Frontier::At(at(1, 0)));
}

#[test]
fn buffer_without_inputs_releases_at_once() {
    let mut b: EpochBuffer<u32> = EpochBuffer::new(0);
    assert_eq!(b.watermark(), Frontier::Closed);
    b.submit(at(8, 8), 1).unwrap();
    assert_eq!(times(&b.release()), vec![(8, 8)]);
    assert_eq!(b.submit(at(9, 0), 1), Err(ProtocolViolation::AlreadyReleased(at(9, 0))));
}
