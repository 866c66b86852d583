//! Where an arc is sampled, and the samples of an arc put together.
//!
//! An arc from `start` to `end` with density `n` has `n + 1` samples: sample
//! `i` stands at `start + (end - start) * i / n`, so that the first stands at
//! the start of the arc and the last at its end. Instants are counted in
//! microseconds from the start of 1970.

use vstd::prelude::*;

verus! {

/// One of the three numbers of a position or a velocity, as decimal text.
/// The text is carried as it is given and never read as a number.
#[derive(Debug, PartialEq, Eq)]
pub struct Vector3 {
    pub x: Vec<u8>,
    pub y: Vec<u8>,
    pub z: Vec<u8>,
}

/// The state of a satellite at one instant.
#[derive(Debug, PartialEq, Eq)]
pub struct SampledState {
    pub time: i64,
    pub position: Vector3,
    pub velocity: Vector3,
}

/// Text that can stand as one field of a line of comma-separated fields: it
/// is not empty and holds neither a comma nor a line feed.
pub open spec fn is_field_text(s: Seq<u8>) -> bool {
    s.len() > 0 && forall|i: int| 0 <= i < s.len() ==> #[trigger] s[i] != 0x2c && s[i] != 0x0a
}

impl Vector3 {
    /// Each of the three numbers can stand as a field.
    pub open spec fn is_valid(self) -> bool {
        is_field_text(self.x@) && is_field_text(self.y@) && is_field_text(self.z@)
    }

    /// Tells whether each of the three numbers can stand as a field.
    pub fn valid(&self) -> (r: bool)
        ensures
            r == self.is_valid(),
    {
        check_field_text(self.x.as_slice()) && check_field_text(self.y.as_slice())
            && check_field_text(self.z.as_slice())
    }
}

impl SampledState {
    /// Each number of the position and of the velocity can stand as a field.
    pub open spec fn is_valid(self) -> bool {
        self.position.is_valid() && self.velocity.is_valid()
    }

    /// Tells whether each number of the state can stand as a field.
    pub fn valid(&self) -> (r: bool)
        ensures
            r == self.is_valid(),
    {
        self.position.valid() && self.velocity.valid()
    }
}

/// Tells whether a text can stand as one field of a line of comma-separated
/// fields.
pub fn check_field_text(s: &[u8]) -> (r: bool)
    ensures
        r == is_field_text(s@),
{
    let n = s.len();
    if n == 0 {
        return false;
    }
    let mut i: usize = 0;
    while i < n
        invariant
            n == s.len(),
            i <= n,
            forall|j: int| 0 <= j < i ==> #[trigger] s@[j] != 0x2c && s@[j] != 0x0a,
        decreases n - i,
    {
        if s[i] == 0x2c || s[i] == 0x0a {
            return false;
        }
        i += 1;
    }
    true
}

/// Why no samples could be given.
#[derive(Clone, Copy, Debug, PartialEq, Eq, Structural)]
pub enum SamplingError {
    /// A density of zero.
    ZeroDensity,
    /// The arc ends before it starts.
    EndBeforeStart,
    /// There are not `density - 1` states between the two ends.
    WrongCount,
    /// A state between the two ends does not stand at the instant of its sample.
    WrongInstant,
}

/// The instant of sample `i` of an arc.
pub open spec fn sample_instant(start: int, end: int, density: int, i: int) -> int {
    start + ((end - start) * i) / density
}

/// The instants of the `density + 1` samples of an arc.
pub open spec fn sample_instants(start: int, end: int, density: int) -> Seq<i64> {
    Seq::new((density + 1) as nat, |i: int| sample_instant(start, end, density, i) as i64)
}

/// The instants at which each of a sequence of states stands.
pub open spec fn times_of(states: Seq<SampledState>) -> Seq<i64> {
    states.map_values(|s: SampledState| s.time)
}

/// The samples of an arc lie within the arc, and a later sample never
/// stands before an earlier one.
pub proof fn lemma_sample_instant_bounds(start: int, end: int, density: int, i: int)
    requires
        density >= 1,
        start <= end,
        0 <= i <= density,
    ensures
        start <= sample_instant(start, end, density, i) <= end,
        i < density ==> sample_instant(start, end, density, i) <= sample_instant(
            start,
            end,
            density,
            i + 1,
        ),
        sample_instant(start, end, density, 0) == start,
        sample_instant(start, end, density, density) == end,
{
    let d = end - start;
    assert(0 <= d * i <= d * density) by (nonlinear_arith)
        requires
            0 <= d,
            0 <= i <= density,
    ;
    vstd::arithmetic::div_mod::lemma_div_is_ordered(0, d * i, density);
    vstd::arithmetic::div_mod::lemma_div_is_ordered(d * i, d * density, density);
    vstd::arithmetic::div_mod::lemma_div_multiples_vanish(d, density);
    assert(d * density == density * d) by (nonlinear_arith);
    assert(d * 0 == 0);
    if i < density {
        assert(d * i <= d * (i + 1)) by (nonlinear_arith)
            requires
                0 <= d,
                0 <= i,
        ;
        vstd::arithmetic::div_mod::lemma_div_is_ordered(d * i, d * (i + 1), density);
    }
}

/// Where the arc has at least as many microseconds as the density asks for
/// samples, each sample stands strictly after the one before it.
pub proof fn lemma_sample_instants_increase(start: int, end: int, density: int, i: int)
    requires
        density >= 1,
        end - start >= density,
        0 <= i < density,
    ensures
        sample_instant(start, end, density, i) < sample_instant(start, end, density, i + 1),
{
    let d = end - start;
    assert(d * (i + 1) == d * i + d) by (nonlinear_arith);
    assert(d * i + density <= d * (i + 1));
    vstd::arithmetic::div_mod::lemma_div_is_ordered(d * i + density, d * (i + 1), density);
    // (d * i + density) / density == (d * i) / density + 1
    vstd::arithmetic::div_mod::lemma_div_plus_one(d * i, density);
}

/// The samples of an arc: as many as the density and one more, the first
/// at the start of the arc and the last at its end, none before the one in
/// front of it; and each strictly after the one in front of it where the arc
/// has at least as many microseconds as the density.
#[verifier::rlimit(50)]
pub proof fn lemma_samples_of_an_arc(start: i64, end: i64, density: u16)
    requires
        density >= 1,
        start <= end,
    ensures
        sample_instants(start as int, end as int, density as int).len() == density + 1,
        sample_instants(start as int, end as int, density as int)[0] == start,
        sample_instants(start as int, end as int, density as int)[density as int] == end,
        forall|i: int|
            0 <= i < density ==> (#[trigger] sample_instants(
                start as int,
                end as int,
                density as int,
            )[i]) <= sample_instants(start as int, end as int, density as int)[i + 1],
        end - start >= density ==> forall|i: int|
            0 <= i < density ==> (#[trigger] sample_instants(
                start as int,
                end as int,
                density as int,
            )[i]) < sample_instants(start as int, end as int, density as int)[i + 1],
{
    let s = sample_instants(start as int, end as int, density as int);
    lemma_sample_instant_bounds(start as int, end as int, density as int, 0);
    lemma_sample_instant_bounds(start as int, end as int, density as int, density as int);
    assert forall|i: int| 0 <= i < density implies (#[trigger] s[i]) <= s[i + 1] by {
        lemma_sample_instant_bounds(start as int, end as int, density as int, i);
        lemma_sample_instant_bounds(start as int, end as int, density as int, i + 1);
    }
    if end - start >= density {
        assert forall|i: int| 0 <= i < density implies (#[trigger] s[i]) < s[i + 1] by {
            lemma_sample_instant_bounds(start as int, end as int, density as int, i);
            lemma_sample_instant_bounds(start as int, end as int, density as int, i + 1);
            lemma_sample_instants_increase(start as int, end as int, density as int, i);
        }
    }
}

/// The instants at which an arc is sampled.
///
/// Fails where the density is zero, and else where the arc ends before it
/// starts.
#[verifier::rlimit(50)]
pub fn get_time_steps(start: i64, end: i64, density: u16) -> (r: Result<Vec<i64>, SamplingError>)
    ensures
        match r {
            Ok(instants) => {
                &&& density >= 1
                &&& start <= end
                &&& instants@ == sample_instants(start as int, end as int, density as int)
                &&& instants@.len() == density + 1
                &&& instants@[0] == start
                &&& instants@[density as int] == end
            },
            Err(e) => if density == 0 {
                e == SamplingError::ZeroDensity
            } else {
                e == SamplingError::EndBeforeStart && end < start
            },
        },
{
    if density == 0 {
        return Err(SamplingError::ZeroDensity);
    }
    if end < start {
        return Err(SamplingError::EndBeforeStart);
    }
    let span: i128 = end as i128 - start as i128;
    let mut instants: Vec<i64> = Vec::new();
    let mut i: u32 = 0;
    while i <= density as u32
        invariant
            density >= 1,
            start <= end,
            span == end - start,
            i <= density + 1,
            instants@ == sample_instants(start as int, end as int, density as int).take(i as int),
        decreases density + 1 - i,
    {
        proof {
            lemma_sample_instant_bounds(start as int, end as int, density as int, i as int);
            assert(0 <= span * i <= span * density) by (nonlinear_arith)
                requires
                    0 <= span,
                    0 <= i <= density,
            ;
            assert(span * density <= 0x1_0000_0000_0000_0000 * 0x1_0000) by (nonlinear_arith)
                requires
                    0 <= span <= 0x1_0000_0000_0000_0000,
                    0 <= density <= 0x1_0000,
            ;
        }
        let shift: i128 = (span * i as i128) / density as i128;
        let instant: i64 = (start as i128 + shift) as i64;
        instants.push(instant);
        proof {
            let all = sample_instants(start as int, end as int, density as int);
            assert(all.take(i + 1) =~= all.take(i as int).push(all[i as int]));
        }
        i += 1;
    }
    proof {
        let all = sample_instants(start as int, end as int, density as int);
        assert(all.take(density + 1) =~= all);
        lemma_samples_of_an_arc(start, end, density);
    }
    Ok(instants)
}

/// Puts the samples of an arc together: the state at its start, the states
/// in between as they were worked out for the instants asked for, and the
/// state at its end.
///
/// Fails, in this order, where the density is zero, where the arc ends
/// before it starts, where there are not `density - 1` states in between,
/// and where one of them does not stand at the instant of its sample.
#[verifier::rlimit(50)]
pub fn dense_samples(
    start: SampledState,
    interior: Vec<SampledState>,
    end: SampledState,
    density: u16,
) -> (r: Result<Vec<SampledState>, SamplingError>)
    ensures
        match r {
            Ok(samples) => {
                &&& density >= 1
                &&& start.time <= end.time
                &&& samples@ == seq![start] + interior@ + seq![end]
                &&& samples@.len() == density + 1
                &&& samples@[0] == start
                &&& samples@[density as int] == end
                &&& times_of(samples@) == sample_instants(
                    start.time as int,
                    end.time as int,
                    density as int,
                )
            },
            Err(e) => if density == 0 {
                e == SamplingError::ZeroDensity
            } else if end.time < start.time {
                e == SamplingError::EndBeforeStart
            } else if interior@.len() != density - 1 {
                e == SamplingError::WrongCount
            } else {
                &&& e == SamplingError::WrongInstant
                &&& times_of(seq![start] + interior@ + seq![end]) != sample_instants(
                    start.time as int,
                    end.time as int,
                    density as int,
                )
            },
        },
{
    let instants = match get_time_steps(start.time, end.time, density) {
        Ok(instants) => instants,
        Err(e) => {
            return Err(e);
        },
    };
    if interior.len() != density as usize - 1 {
        return Err(SamplingError::WrongCount);
    }
    let ghost whole = seq![start] + interior@ + seq![end];
    let ghost wanted = sample_instants(start.time as int, end.time as int, density as int);
    proof {
        lemma_sample_instant_bounds(start.time as int, end.time as int, density as int, 0);
        lemma_sample_instant_bounds(
            start.time as int,
            end.time as int,
            density as int,
            density as int,
        );
    }
    let mut i: usize = 0;
    while i < interior.len()
        invariant
            i <= interior.len(),
            interior.len() == density - 1,
            density >= 1,
            start.time <= end.time,
            instants@ == wanted,
            wanted.len() == density + 1,
            whole == seq![start] + interior@ + seq![end],
            wanted == sample_instants(start.time as int, end.time as int, density as int),
            forall|j: int| 0 <= j < i ==> (#[trigger] interior@[j]).time == wanted[j + 1],
        decreases interior.len() - i,
    {
        if interior[i].time != instants[i + 1] {
            proof {
                assert(whole[i + 1] == interior@[i as int]);
                assert(times_of(whole)[i + 1] == interior@[i as int].time);
                assert(wanted[i + 1] == instants@[i + 1]);
            }
            return Err(SamplingError::WrongInstant);
        }
        i += 1;
    }
    let ghost between = interior@;
    let mut interior = interior;
    let mut samples: Vec<SampledState> = Vec::new();
    samples.push(start);
    samples.append(&mut interior);
    samples.push(end);
    proof {
        assert(samples@ =~= whole);
        assert(times_of(samples@) =~= wanted) by {
            assert forall|j: int| 0 <= j < wanted.len() implies times_of(samples@)[j]
                == wanted[j] by {
                if 0 < j < density {
                    assert(samples@[j] == between[j - 1]);
                }
            }
        }
    }
    Ok(samples)
}

/// The states of a sequence of batches, batch after batch.
pub open spec fn flattened(batches: Seq<Vec<SampledState>>) -> Seq<SampledState>
    decreases batches.len(),
{
    if batches.len() == 0 {
        Seq::empty()
    } else {
        flattened(batches.drop_last()) + batches.last()@
    }
}

/// Puts the states of a sequence of batches into one sequence, batch after
/// batch and each batch in its own order.
pub fn combine_into_one_vec(batches: Vec<Vec<SampledState>>) -> (r: Vec<SampledState>)
    ensures
        r@ == flattened(batches@),
{
    let mut out: Vec<SampledState> = Vec::new();
    let ghost all = batches@;
    proof {
        assert(all.take(0) =~= Seq::<Vec<SampledState>>::empty());
    }
    for batch in it: batches
        invariant
            it.seq() == all,
            out@ == flattened(all.take(it.index() as int)),
    {
        let mut batch = batch;
        proof {
            let next = all.take(it.index() + 1);
            assert(next.drop_last() =~= all.take(it.index() as int));
            assert(next.last() == batch);
        }
        out.append(&mut batch);
    }
    proof {
        assert(all.take(all.len() as int) =~= all);
    }
    out
}

} // verus!
