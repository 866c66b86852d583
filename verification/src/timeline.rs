//! The order of states in time.

use crate::sampler::SampledState;
use std::cmp::Ordering;
use vstd::prelude::*;

verus! {

/// Compares two states by the instants at which they stand.
pub fn compare_time_steps(a: &SampledState, b: &SampledState) -> (r: Ordering)
    ensures
        a.time < b.time ==> r == Ordering::Less,
        a.time == b.time ==> r == Ordering::Equal,
        a.time > b.time ==> r == Ordering::Greater,
{
    if a.time > b.time {
        Ordering::Greater
    } else if a.time < b.time {
        Ordering::Less
    } else {
        Ordering::Equal
    }
}

} // verus!
