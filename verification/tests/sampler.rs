use rust_leo_sim::sampler::{
    check_field_text, combine_into_one_vec, dense_samples, get_time_steps, SampledState,
    SamplingError, Vector3,
};
use rust_leo_sim::timeline::compare_time_steps;
use std::cmp::Ordering;

fn vector(x: f64, y: f64, z: f64) -> Vector3 {
    Vector3 {
        x: format!("{}", x).into_bytes(),
        y: format!("{}", y).into_bytes(),
        z: format!("{}", z).into_bytes(),
    }
}

fn state(time: i64) -> SampledState {
    SampledState {
        time,
        position: vector(time as f64, 2.5, -3.0),
        velocity: vector(0.1, 0.2, 0.3),
    }
}

#[test]
fn an_arc_has_one_sample_more_than_its_density() {
    for density in [1u16, 2, 3, 10, 1000, u16::MAX] {
        let instants = get_time_steps(0, 3_600_000_000, density).unwrap();
        assert_eq!(instants.len(), density as usize + 1);
    }
}

#[test]
fn samples_are_evenly_spaced() {
    assert_eq!(get_time_steps(0, 100, 4), Ok(vec![0, 25, 50, 75, 100]));
    assert_eq!(get_time_steps(1000, 1100, 1), Ok(vec![1000, 1100]));
    assert_eq!(get_time_steps(-100, 100, 2), Ok(vec![-100, 0, 100]));
    assert_eq!(get_time_steps(5, 15, 3), Ok(vec![5, 8, 11, 15]));
}

#[test]
fn first_and_last_sample_are_the_ends_of_the_arc() {
    let instants = get_time_steps(1_700_000_000_000_000, 1_700_003_600_000_007, 10_000).unwrap();
    assert_eq!(instants[0], 1_700_000_000_000_000);
    assert_eq!(instants[10_000], 1_700_003_600_000_007);
}

#[test]
fn samples_increase_strictly() {
    let instants = get_time_steps(1_700_000_000_000_000, 1_700_001_800_000_000, 10_000).unwrap();
    for pair in instants.windows(2) {
        assert!(pair[0] < pair[1]);
    }
    let tight = get_time_steps(0, 7, 7).unwrap();
    assert_eq!(tight, vec![0, 1, 2, 3, 4, 5, 6, 7]);
}

#[test]
fn samples_of_an_arc_shorter_than_the_density_repeat() {
    assert_eq!(get_time_steps(0, 1, 3), Ok(vec![0, 0, 0, 1]));
    assert_eq!(get_time_steps(9, 9, 2), Ok(vec![9, 9, 9]));
}

#[test]
fn the_widest_arc_does_not_overflow() {
    let instants = get_time_steps(i64::MIN, i64::MAX, 2).unwrap();
    assert_eq!(instants, vec![i64::MIN, -1, i64::MAX]);
    let instants = get_time_steps(i64::MIN, i64::MAX, u16::MAX).unwrap();
    assert_eq!(instants.len(), 65536);
    assert_eq!(instants[65535], i64::MAX);
}

#[test]
fn density_zero_is_refused() {
    assert_eq!(get_time_steps(0, 100, 0), Err(SamplingError::ZeroDensity));
    assert_eq!(get_time_steps(100, 0, 0), Err(SamplingError::ZeroDensity));
}

#[test]
fn an_arc_that_ends_before_it_starts_is_refused() {
    assert_eq!(get_time_steps(100, 99, 4), Err(SamplingError::EndBeforeStart));
}

#[test]
fn samples_are_put_together_in_order() {
    let samples =
        dense_samples(state(0), vec![state(25), state(50), state(75)], state(100), 4).unwrap();
    assert_eq!(samples, vec![state(0), state(25), state(50), state(75), state(100)]);
    let samples = dense_samples(state(3), Vec::new(), state(9), 1).unwrap();
    assert_eq!(samples, vec![state(3), state(9)]);
}

#[test]
fn samples_at_the_wrong_instants_are_refused() {
    assert_eq!(
        dense_samples(state(0), vec![state(25), state(51), state(75)], state(100), 4),
        Err(SamplingError::WrongInstant)
    );
    assert_eq!(
        dense_samples(state(0), vec![state(50), state(25), state(75)], state(100), 4),
        Err(SamplingError::WrongInstant)
    );
}

#[test]
fn a_wrong_number_of_samples_is_refused() {
    assert_eq!(
        dense_samples(state(0), vec![state(25), state(50)], state(100), 4),
        Err(SamplingError::WrongCount)
    );
    assert_eq!(
        dense_samples(state(0), vec![state(50)], state(100), 1),
        Err(SamplingError::WrongCount)
    );
}

#[test]
fn errors_come_in_their_order() {
    assert_eq!(
        dense_samples(state(100), vec![state(1)], state(0), 0),
        Err(SamplingError::ZeroDensity)
    );
    assert_eq!(
        dense_samples(state(100), vec![state(1)], state(0), 5),
        Err(SamplingError::EndBeforeStart)
    );
    assert_eq!(
        dense_samples(state(0), vec![state(1)], state(100), 5),
        Err(SamplingError::WrongCount)
    );
}

#[test]
fn text_of_a_field() {
    assert!(check_field_text(b"1.5"));
    assert!(check_field_text(b"-6878.137e3"));
    assert!(check_field_text(b"NaN"));
    assert!(!check_field_text(b""));
    assert!(!check_field_text(b"1,5"));
    assert!(!check_field_text(b"1.5\n"));
    assert!(!check_field_text(b","));
}

#[test]
fn valid_states() {
    assert!(state(5).valid());
    let mut bad = state(5);
    bad.velocity.z = b"".to_vec();
    assert!(!bad.valid());
    assert!(bad.position.valid());
    assert!(!bad.velocity.valid());
    let mut bad = state(5);
    bad.position.x = b"1,2".to_vec();
    assert!(!bad.valid());
}

#[test]
fn states_are_compared_by_time() {
    assert_eq!(compare_time_steps(&state(1), &state(2)), Ordering::Less);
    assert_eq!(compare_time_steps(&state(2), &state(1)), Ordering::Greater);
    assert_eq!(compare_time_steps(&state(2), &state(2)), Ordering::Equal);
    let mut other = state(2);
    other.position.x = b"99".to_vec();
    assert_eq!(compare_time_steps(&state(2), &other), Ordering::Equal);
    assert_eq!(compare_time_steps(&state(i64::MIN), &state(i64::MAX)), Ordering::Less);
}

#[test]
fn batches_are_put_into_one() {
    let batches = vec![vec![state(1), state(2)], vec![], vec![state(0)], vec![state(7), state(3)]];
    assert_eq!(
        combine_into_one_vec(batches),
        vec![state(1), state(2), state(0), state(7), state(3)]
    );
    assert_eq!(combine_into_one_vec(Vec::new()), Vec::new());
}
