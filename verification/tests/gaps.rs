use rust_leo_sim::gaps::{
    gap_is_propagated, gaps_between_knots, is_time_ordered, knot_epochs, plan_gaps, Gap,
    DEFAULT_GAP_THRESHOLD,
};
use rust_leo_sim::knot::Knot;
use rust_leo_sim::scientific::Scientific;

const SECOND: i64 = 1_000_000;

fn knot(day: u64) -> Knot {
    Knot {
        catalog_number: 25544,
        designator: b"98067A".to_vec(),
        epoch_year: 1970,
        epoch_day: day,
        mean_motion_dot: 0,
        mean_motion_ddot: Scientific { negative: false, mantissa: 0, digits: 5, exponent: 0 },
        bstar: Scientific { negative: false, mantissa: 0, digits: 5, exponent: 0 },
        ephemeris_type: 0,
        element_number: 1,
        inclination: 0,
        raan: 0,
        eccentricity: 0,
        arg_of_perigee: 0,
        mean_anomaly: 0,
        mean_motion: 1_550_000_000,
        rev_number: 0,
    }
}

#[test]
fn the_threshold_is_half_an_hour() {
    assert_eq!(DEFAULT_GAP_THRESHOLD, 1800 * SECOND);
}

#[test]
fn a_gap_is_propagated_from_the_threshold_on() {
    assert!(gap_is_propagated(0, 1800 * SECOND, DEFAULT_GAP_THRESHOLD));
    assert!(!gap_is_propagated(0, 1800 * SECOND - 1, DEFAULT_GAP_THRESHOLD));
    assert!(gap_is_propagated(-5, 1800 * SECOND, DEFAULT_GAP_THRESHOLD));
    assert!(!gap_is_propagated(7, 7, DEFAULT_GAP_THRESHOLD));
    assert!(!gap_is_propagated(1800 * SECOND, 0, DEFAULT_GAP_THRESHOLD));
}

#[test]
fn equal_instants_are_never_propagated() {
    assert!(!gap_is_propagated(7, 7, 0));
    assert!(!gap_is_propagated(7, 7, -100));
    assert!(gap_is_propagated(7, 8, 0));
    assert!(gap_is_propagated(8, 7, -100));
    assert!(!gap_is_propagated(8, 7, 0));
}

#[test]
fn far_instants_do_not_overflow() {
    // the widest gap is 2^64 - 1 microseconds
    assert!(gap_is_propagated(i64::MIN, i64::MAX, i64::MAX));
    assert!(!gap_is_propagated(i64::MAX, i64::MIN, i64::MIN));
    assert!(gap_is_propagated(-1, i64::MIN, i64::MIN));
    assert!(!gap_is_propagated(0, i64::MIN, i64::MIN + 1));
}

#[test]
fn a_narrow_gap_is_skipped_and_the_next_is_judged_alone() {
    let t0 = 1_700_000_000 * SECOND;
    let t1 = t0 + 1000 * SECOND;
    let t2 = t1 + 3600 * SECOND;
    assert_eq!(
        plan_gaps(&[t0, t1, t2], DEFAULT_GAP_THRESHOLD),
        vec![Gap { index: 1, start: t1, end: t2 }]
    );
    // the same pair is judged the same whatever stands before it
    let t0 = t1 - 1800 * SECOND;
    assert_eq!(
        plan_gaps(&[t0, t1, t2], DEFAULT_GAP_THRESHOLD),
        vec![Gap { index: 0, start: t0, end: t1 }, Gap { index: 1, start: t1, end: t2 }]
    );
}

#[test]
fn gaps_come_in_the_order_of_the_knots() {
    let hour = 3600 * SECOND;
    let epochs = [0, hour, hour, 2 * hour, 2 * hour + 5, 5 * hour, 4 * hour, 9 * hour];
    assert_eq!(
        plan_gaps(&epochs, DEFAULT_GAP_THRESHOLD),
        vec![
            Gap { index: 0, start: 0, end: hour },
            Gap { index: 2, start: hour, end: 2 * hour },
            Gap { index: 4, start: 2 * hour + 5, end: 5 * hour },
            Gap { index: 6, start: 4 * hour, end: 9 * hour },
        ]
    );
}

#[test]
fn fewer_than_two_instants_have_no_gap() {
    assert_eq!(plan_gaps(&[], DEFAULT_GAP_THRESHOLD), vec![]);
    assert_eq!(plan_gaps(&[5], DEFAULT_GAP_THRESHOLD), vec![]);
}

#[test]
fn another_threshold_can_be_asked_for() {
    assert_eq!(plan_gaps(&[0, 10, 30], 20), vec![Gap { index: 1, start: 10, end: 30 }]);
    assert_eq!(
        plan_gaps(&[0, 10, 30], 10),
        vec![Gap { index: 0, start: 0, end: 10 }, Gap { index: 1, start: 10, end: 30 }]
    );
}

#[test]
fn instants_of_knots() {
    // one day is 10^8 units; day 1.0 is the start of the year
    let knots = vec![knot(100_000_000), knot(100_000_001), knot(200_000_000)];
    assert_eq!(knot_epochs(&knots), vec![0, 864, 86_400 * SECOND]);
}

#[test]
fn gaps_between_the_knots_of_a_satellite() {
    // 1000 s, then a day, then the same instant again, then 1800 s
    let units_per_second = 100_000_000 / 86_400 + 1;
    let a = 100_000_000;
    let b = a + 1000 * units_per_second;
    let c = b + 100_000_000;
    let d = c;
    let e = d + 1800 * units_per_second;
    let knots = vec![knot(a), knot(b), knot(c), knot(d), knot(e)];
    let epochs = knot_epochs(&knots);
    assert_eq!(
        gaps_between_knots(&knots, DEFAULT_GAP_THRESHOLD),
        vec![
            Gap { index: 1, start: epochs[1], end: epochs[2] },
            Gap { index: 3, start: epochs[3], end: epochs[4] },
        ]
    );
}

#[test]
fn instants_in_the_order_of_time() {
    assert!(is_time_ordered(&[]));
    assert!(is_time_ordered(&[5]));
    assert!(is_time_ordered(&[1, 2, 2, 3]));
    assert!(is_time_ordered(&[i64::MIN, 0, i64::MAX]));
    assert!(!is_time_ordered(&[1, 3, 2]));
    assert!(!is_time_ordered(&[2, 1]));
    assert!(!is_time_ordered(&[1, 2, 3, 4, 3]));
}
