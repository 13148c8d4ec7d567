use ord::issuance::Schedule;
use ord::units::propagate;
use ord::units::take_units;
use ord::units::UnitRange;
use std::collections::VecDeque;

fn span(start: u64, end: u64) -> UnitRange {
    UnitRange { start, end }
}

fn pool_of(ranges: Vec<UnitRange>) -> VecDeque<UnitRange> {
    VecDeque::from(ranges)
}

fn left_of(pool: VecDeque<UnitRange>) -> Vec<UnitRange> {
    pool.into_iter().collect()
}

#[test]
fn one_range_split_between_two_outputs() {
    let done = propagate(pool_of(vec![span(1000, 1010)]), &vec![3, 7]);
    assert_eq!(done.outputs, vec![vec![span(1000, 1003)], vec![span(1003, 1010)]]);
    assert_eq!(left_of(done.remainder), vec![]);
}

#[test]
fn zero_value_output_carries_no_range() {
    let done = propagate(pool_of(vec![span(0, 5)]), &vec![0, 5, 0]);
    assert_eq!(done.outputs, vec![vec![], vec![span(0, 5)], vec![]]);
    assert_eq!(left_of(done.remainder), vec![]);
}

#[test]
fn empty_pool_assigns_nothing() {
    let done = propagate(pool_of(vec![]), &vec![4, 0, 9]);
    assert_eq!(done.outputs, vec![vec![], vec![], vec![]]);
    assert_eq!(left_of(done.remainder), vec![]);
}

#[test]
fn output_that_finds_the_pool_short_takes_what_is_left() {
    let done = propagate(pool_of(vec![span(0, 5)]), &vec![3, 4, 2]);
    assert_eq!(done.outputs, vec![vec![span(0, 3)], vec![span(3, 5)], vec![]]);
    assert_eq!(left_of(done.remainder), vec![]);
}

#[test]
fn what_no_output_takes_is_the_remainder() {
    let done = propagate(pool_of(vec![span(10, 15), span(20, 22)]), &vec![2]);
    assert_eq!(done.outputs, vec![vec![span(10, 12)]]);
    assert_eq!(left_of(done.remainder), vec![span(12, 15), span(20, 22)]);
}

#[test]
fn output_may_span_source_ranges() {
    let done = propagate(pool_of(vec![span(10, 15), span(20, 22), span(5, 7)]), &vec![6, 2]);
    assert_eq!(done.outputs, vec![vec![span(10, 15), span(20, 21)], vec![span(21, 22), span(5, 6)]]);
    assert_eq!(left_of(done.remainder), vec![span(6, 7)]);
}

#[test]
fn boundary_at_the_end_of_a_range_splits_nothing() {
    let done = propagate(pool_of(vec![span(10, 15), span(20, 22)]), &vec![5, 2]);
    assert_eq!(done.outputs, vec![vec![span(10, 15)], vec![span(20, 22)]]);
    assert_eq!(left_of(done.remainder), vec![]);
}

#[test]
fn no_outputs_leave_the_whole_pool() {
    let done = propagate(pool_of(vec![span(1, 4)]), &vec![]);
    assert_eq!(done.outputs, Vec::<Vec<UnitRange>>::new());
    assert_eq!(left_of(done.remainder), vec![span(1, 4)]);
}

#[test]
fn take_units_takes_from_the_front() {
    let mut pool = pool_of(vec![span(0, 4), span(8, 10)]);
    assert_eq!(take_units(&mut pool, 0), vec![]);
    assert_eq!(take_units(&mut pool, 1), vec![span(0, 1)]);
    assert_eq!(take_units(&mut pool, 4), vec![span(1, 4), span(8, 9)]);
    assert_eq!(left_of(pool.clone()), vec![span(9, 10)]);
    assert_eq!(take_units(&mut pool, 100), vec![span(9, 10)]);
    assert_eq!(take_units(&mut pool, 100), vec![]);
}

#[test]
fn units_are_conserved_in_a_transaction() {
    let pool = vec![span(100, 130), span(0, 7), span(50, 51), span(900, 1000)];
    let values: Vec<u64> = vec![5, 0, 31, 1, 40];
    let entering: u64 = pool.iter().map(|r| r.end - r.start).sum();
    let done = propagate(pool_of(pool), &values);
    let assigned: u64 = done.outputs.iter().flatten().map(|r| r.end - r.start).sum();
    let left: u64 = done.remainder.iter().map(|r| r.end - r.start).sum();
    assert_eq!(entering, 138);
    assert_eq!(assigned, 77);
    assert_eq!(left, 61);
    for (k, value) in values.iter().enumerate() {
        let got: u64 = done.outputs[k].iter().map(|r| r.end - r.start).sum();
        assert_eq!(got, *value);
    }
}

#[test]
fn range_length() {
    assert_eq!(span(3, 10).len(), 7);
    assert_eq!(span(3, 3).len(), 0);
    assert_eq!(span(9, 3).len(), 0);
}

#[test]
fn schedule_refuses_what_is_not_valid() {
    assert_eq!(Schedule::new(50, 0), None);
    assert_eq!(Schedule::new(u64::MAX, 2), None);
    assert_eq!(Schedule::new(u64::MAX / 2 + 1, 1), None);
    assert_eq!(Schedule::new(u64::MAX / 2, 1), Some(Schedule { initial: u64::MAX / 2, interval: 1 }));
    assert_eq!(Schedule::new(50, 2), Some(Schedule { initial: 50, interval: 2 }));
    assert_eq!(Schedule::new(0, 7), Some(Schedule { initial: 0, interval: 7 }));
}

#[test]
fn subsidy_halves_after_each_interval() {
    let schedule = Schedule::new(50, 2).unwrap();
    let expected: [u64; 14] = [50, 50, 25, 25, 12, 12, 6, 6, 3, 3, 1, 1, 0, 0];
    for (height, amount) in expected.iter().enumerate() {
        assert_eq!(schedule.subsidy(height as u64), *amount);
    }
    assert_eq!(schedule.subsidy(127), 0);
    assert_eq!(schedule.subsidy(128), 0);
    assert_eq!(schedule.subsidy(u64::MAX), 0);
}

#[test]
fn issued_ranges_follow_each_other_from_zero() {
    let schedule = Schedule::new(50, 2).unwrap();
    let starts: [u64; 15] = [0, 50, 100, 125, 150, 162, 174, 180, 186, 189, 192, 193, 194, 194, 194];
    for height in 0..14u64 {
        assert_eq!(schedule.starting_unit(height), starts[height as usize]);
        let issued = schedule.issued(height);
        assert_eq!(issued.start, starts[height as usize]);
        assert_eq!(issued.end, starts[height as usize + 1]);
    }
    assert_eq!(schedule.starting_unit(1_000_000), 194);
    assert_eq!(schedule.starting_unit(u64::MAX), 194);
    assert_eq!(schedule.issued(u64::MAX), span(194, 194));
}

#[test]
fn familiar_schedule() {
    let schedule = Schedule::new(5_000_000_000, 210_000).unwrap();
    assert_eq!(schedule.subsidy(0), 5_000_000_000);
    assert_eq!(schedule.subsidy(209_999), 5_000_000_000);
    assert_eq!(schedule.subsidy(210_000), 2_500_000_000);
    assert_eq!(schedule.starting_unit(1), 5_000_000_000);
    assert_eq!(schedule.starting_unit(210_000), 1_050_000_000_000_000);
    assert_eq!(schedule.starting_unit(210_001), 1_050_002_500_000_000);
    assert_eq!(schedule.starting_unit(6_930_000), 2_099_999_997_690_000);
    assert_eq!(schedule.starting_unit(u64::MAX), 2_099_999_997_690_000);
    assert_eq!(schedule.subsidy(6_929_999), 1);
    assert_eq!(schedule.subsidy(6_930_000), 0);
}
