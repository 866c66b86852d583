//! Which gaps between the knots of a satellite are propagated: those that
//! are wide enough.
//!
//! Instants are counted in microseconds from the start of 1970. Each pair of
//! neighbouring knots is judged by its own two instants and by nothing else.

use crate::knot::Knot;
use vstd::prelude::*;

verus! {

/// The narrowest gap that is propagated unless another width is asked for:
/// 1800 seconds.
pub const DEFAULT_GAP_THRESHOLD: i64 = 1_800_000_000;

/// The gap between knot `index` and the knot after it.
#[derive(Clone, Copy, Debug, PartialEq, Eq, Structural)]
pub struct Gap {
    pub index: usize,
    pub start: i64,
    pub end: i64,
}

/// A gap is propagated where its two instants differ and lie at least
/// `threshold` apart, the later one last.
pub open spec fn is_propagated(start: int, end: int, threshold: int) -> bool {
    end != start && end - start >= threshold
}

/// The gap behind knot `index`.
pub open spec fn gap_at(epochs: Seq<i64>, index: int) -> Gap {
    Gap { index: index as usize, start: epochs[index], end: epochs[index + 1] }
}

/// The gaps to propagate among the first `pairs` pairs of neighbours, in the
/// order of the knots.
pub open spec fn planned(epochs: Seq<i64>, pairs: nat, threshold: i64) -> Seq<Gap>
    decreases pairs,
{
    if pairs == 0 {
        Seq::empty()
    } else {
        let before = planned(epochs, (pairs - 1) as nat, threshold);
        if is_propagated(
            epochs[pairs - 1] as int,
            epochs[pairs as int] as int,
            threshold as int,
        ) {
            before.push(gap_at(epochs, pairs - 1))
        } else {
            before
        }
    }
}

/// The pairs of neighbours that a sequence of instants has.
pub open spec fn pair_count(epochs: Seq<i64>) -> nat {
    if epochs.len() == 0 {
        0
    } else {
        (epochs.len() - 1) as nat
    }
}

/// The instants of a sequence of knots.
pub open spec fn epochs_of(knots: Seq<Knot>) -> Seq<i64> {
    knots.map_values(|k: Knot| k@.epoch_micros() as i64)
}

/// The day of the year of every knot fits its column, so that its instant
/// can be computed.
pub open spec fn days_in_range(knots: Seq<Knot>) -> bool {
    forall|i: int| 0 <= i < knots.len() ==> (#[trigger] knots[i])@.epoch_day <= 99_999_999_999
}

/// Tells whether the gap between two instants is propagated.
pub fn gap_is_propagated(start: i64, end: i64, threshold: i64) -> (r: bool)
    ensures
        r == is_propagated(start as int, end as int, threshold as int),
{
    end != start && end as i128 - start as i128 >= threshold as i128
}

/// Lists the gaps to propagate between neighbouring instants, in order.
pub fn plan_gaps(epochs: &[i64], threshold: i64) -> (r: Vec<Gap>)
    ensures
        r@ == planned(epochs@, pair_count(epochs@), threshold),
{
    let mut gaps: Vec<Gap> = Vec::new();
    let n = epochs.len();
    if n == 0 {
        return gaps;
    }
    let mut i: usize = 0;
    while i < n - 1
        invariant
            n == epochs.len(),
            n > 0,
            i <= n - 1,
            gaps@ == planned(epochs@, i as nat, threshold),
        decreases n - i,
    {
        if gap_is_propagated(epochs[i], epochs[i + 1], threshold) {
            gaps.push(Gap { index: i, start: epochs[i], end: epochs[i + 1] });
        }
        i += 1;
    }
    gaps
}

/// The instants of the knots of a satellite, in their order.
pub fn knot_epochs(knots: &Vec<Knot>) -> (r: Vec<i64>)
    requires
        days_in_range(knots@),
    ensures
        r@ == epochs_of(knots@),
{
    let mut epochs: Vec<i64> = Vec::new();
    let mut i: usize = 0;
    while i < knots.len()
        invariant
            i <= knots.len(),
            days_in_range(knots@),
            epochs@ == epochs_of(knots@.take(i as int)),
        decreases knots.len() - i,
    {
        let t = knots[i].epoch_micros();
        epochs.push(t);
        proof {
            assert(epochs_of(knots@.take(i + 1)) =~= epochs_of(knots@.take(i as int)).push(t));
        }
        i += 1;
    }
    proof {
        assert(knots@.take(knots@.len() as int) =~= knots@);
    }
    epochs
}

/// Lists the gaps to propagate between the knots of a satellite, in order.
pub fn gaps_between_knots(knots: &Vec<Knot>, threshold: i64) -> (r: Vec<Gap>)
    requires
        days_in_range(knots@),
    ensures
        r@ == planned(epochs_of(knots@), pair_count(epochs_of(knots@)), threshold),
{
    let epochs = knot_epochs(knots);
    plan_gaps(epochs.as_slice(), threshold)
}

/// The gaps that are listed come in the order of the knots, each of them
/// among the pairs that were looked at.
#[verifier::rlimit(50)]
pub proof fn lemma_planned_in_order(epochs: Seq<i64>, pairs: nat, threshold: i64)
    requires
        pairs <= usize::MAX,
    ensures
        forall|j: int|
            0 <= j < planned(epochs, pairs, threshold).len() ==> (#[trigger] planned(
                epochs,
                pairs,
                threshold,
            )[j]).index < pairs,
        forall|j: int, k: int|
            0 <= j < k < planned(epochs, pairs, threshold).len() ==> (#[trigger] planned(
                epochs,
                pairs,
                threshold,
            )[j]).index < (#[trigger] planned(epochs, pairs, threshold)[k]).index,
    decreases pairs,
{
    if pairs > 0 {
        lemma_planned_in_order(epochs, (pairs - 1) as nat, threshold);
        let before = planned(epochs, (pairs - 1) as nat, threshold);
        let all = planned(epochs, pairs, threshold);
        assert forall|j: int| 0 <= j < all.len() implies (#[trigger] all[j]).index < pairs by {
            if j < before.len() {
                assert(all[j] == before[j]);
            }
        }
        assert forall|j: int, k: int| 0 <= j < k < all.len() implies (#[trigger] all[j]).index < (
        #[trigger] all[k]).index by {
            assert(all[j] == before[j]);
            if k < before.len() {
                assert(all[k] == before[k]);
            }
        }
    }
}

/// Whether the gap behind a knot is listed depends on the two instants of
/// that gap alone: it is listed exactly where it is wide enough, whatever
/// the gaps before and after it are.
#[verifier::rlimit(50)]
pub proof fn lemma_gap_judged_alone(epochs: Seq<i64>, pairs: nat, threshold: i64, index: int)
    requires
        0 <= index < pairs,
        pairs <= usize::MAX,
    ensures
        planned(epochs, pairs, threshold).contains(gap_at(epochs, index)) <==> is_propagated(
            epochs[index] as int,
            epochs[index + 1] as int,
            threshold as int,
        ),
    decreases pairs,
{
    let before = planned(epochs, (pairs - 1) as nat, threshold);
    let all = planned(epochs, pairs, threshold);
    let wanted = gap_at(epochs, index);
    lemma_planned_in_order(epochs, (pairs - 1) as nat, threshold);
    if index == pairs - 1 {
        if is_propagated(epochs[index] as int, epochs[index + 1] as int, threshold as int) {
            assert(all[all.len() - 1] == wanted);
        } else {
            if all.contains(wanted) {
                let j = choose|j: int| 0 <= j < all.len() && all[j] == wanted;
                assert(before[j].index < pairs - 1);
            }
        }
    } else {
        lemma_gap_judged_alone(epochs, (pairs - 1) as nat, threshold, index);
        if before.contains(wanted) {
            let j = choose|j: int| 0 <= j < before.len() && before[j] == wanted;
            assert(all[j] == wanted);
        }
        if all.contains(wanted) {
            let j = choose|j: int| 0 <= j < all.len() && all[j] == wanted;
            if j == before.len() {
                assert(all[j].index == pairs - 1);
            } else {
                assert(before[j] == wanted);
            }
        }
    }
}

/// No instant of the sequence stands before an earlier one of it; equal
/// instants may follow each other.
pub open spec fn time_ordered(epochs: Seq<i64>) -> bool {
    forall|i: int, j: int| 0 <= i <= j < epochs.len() ==> epochs[i] <= epochs[j]
}

/// Tells whether the instants come in the order of time.
pub fn is_time_ordered(epochs: &[i64]) -> (r: bool)
    ensures
        r == time_ordered(epochs@),
{
    let n = epochs.len();
    if n == 0 {
        return true;
    }
    let mut i: usize = 0;
    while i < n - 1
        invariant
            n == epochs.len(),
            n > 0,
            i <= n - 1,
            time_ordered(epochs@.take(i + 1)),
        decreases n - i,
    {
        if epochs[i] > epochs[i + 1] {
            return false;
        }
        proof {
            let before = epochs@.take(i + 1);
            let next = epochs@.take(i + 2);
            assert forall|a: int, b: int| 0 <= a <= b < next.len() implies next[a] <= next[b] by {
                if b <= i {
                    assert(before[a] <= before[b]);
                } else if a <= i {
                    assert(before[a] <= before[i as int]);
                }
            }
        }
        i += 1;
    }
    proof {
        assert(epochs@.take(n as int) =~= epochs@);
    }
    true
}

} // verus!
