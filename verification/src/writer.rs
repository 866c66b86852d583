//! The writer that gathers the output of one satellite and cuts it into
//! shards of bounded size.
//!
//! What is appended is the record of a knot and, under it, one line for each
//! sample of the arc that starts at the knot. The buffer holds what was
//! appended since the last shard was cut. An append that takes the buffer
//! over its budget cuts a shard of all that the buffer then holds, and the
//! end of the stream cuts a last one of whatever is left.

use crate::codec::{record_text, write_tle_data};
use crate::knot::{Knot, KnotView};
use crate::sampler::SampledState;
use crate::text::{
    all_digits, lemma_decimal_text, lemma_first_index_after_digits, lemma_pow10_add,
    lemma_pow10_values, push_decimal, push_zero_padded, strip_zeros, zero_padded,
};
use vstd::prelude::*;

verus! {

/// The budget of a shard unless another is asked for: 2^30 bytes.
pub const DEFAULT_MAX_SHARD_SIZE: usize = 1_073_741_824;

/// One shard of the output of a satellite: its number among the shards of
/// the satellite, from 0, and what it holds.
#[derive(Debug, PartialEq, Eq)]
pub struct Shard {
    pub index: u64,
    pub content: Vec<u8>,
}

/// What a [`Shard`] is.
pub struct ShardView {
    pub index: nat,
    pub content: Seq<u8>,
}

impl View for Shard {
    type V = ShardView;

    open spec fn view(&self) -> ShardView {
        ShardView { index: self.index as nat, content: self.content@ }
    }
}

/// The writer of one satellite.
#[derive(Debug)]
pub struct ShardBuffer {
    satellite_id: u32,
    max_shard_size: usize,
    next_index: u64,
    pending: Vec<u8>,
}

/// The state of a [`ShardBuffer`]: the satellite, the budget of a shard in
/// bytes, the number of the next shard, and the bytes that wait for it.
pub struct BufferView {
    pub satellite_id: u32,
    pub max_shard_size: nat,
    pub next_index: nat,
    pub pending: Seq<u8>,
}

/// Why nothing was appended.
#[derive(Clone, Copy, Debug, PartialEq, Eq, Structural)]
pub enum AppendError {
    /// The knot is not valid and has no record.
    InvalidKnot,
    /// The sample of this number, from 0, has a number that cannot stand as
    /// a field.
    InvalidSample(usize),
    /// A shard would have to be cut, and the numbers of shards are used up.
    IndexExhausted,
}

impl BufferView {
    /// What waits in the buffer is within the budget of a shard.
    pub open spec fn wf(self) -> bool {
        self.pending.len() <= self.max_shard_size
    }

    /// The running size: the bytes that wait in the buffer.
    pub open spec fn estimate(self) -> nat {
        self.pending.len()
    }

    /// Appending `record` takes the buffer over its budget.
    pub open spec fn overflows_with(self, record: Seq<u8>) -> bool {
        self.pending.len() + record.len() > self.max_shard_size
    }

    /// The buffer after `record` was appended: empty and with the next
    /// number where a shard was cut, else with the record behind what it had.
    pub open spec fn after_append(self, record: Seq<u8>) -> BufferView {
        if self.overflows_with(record) {
            BufferView {
                satellite_id: self.satellite_id,
                max_shard_size: self.max_shard_size,
                next_index: self.next_index + 1,
                pending: Seq::empty(),
            }
        } else {
            BufferView {
                satellite_id: self.satellite_id,
                max_shard_size: self.max_shard_size,
                next_index: self.next_index,
                pending: self.pending + record,
            }
        }
    }

    /// The shard that appending `record` cuts, if it cuts one: all that the
    /// buffer had, and the record.
    pub open spec fn cut_by_append(self, record: Seq<u8>) -> Option<ShardView> {
        if self.overflows_with(record) {
            Some(ShardView { index: self.next_index, content: self.pending + record })
        } else {
            None
        }
    }

    /// The shard that the end of the stream cuts, if anything is left.
    pub open spec fn cut_by_finish(self) -> Option<ShardView> {
        if self.pending.len() > 0 {
            Some(ShardView { index: self.next_index, content: self.pending })
        } else {
            None
        }
    }
}

/// An instant, counted in microseconds from the start of 1970, written as
/// seconds with six decimals.
pub open spec fn unix_time_text(t: int) -> Seq<u8> {
    let magnitude = if t < 0 {
        -t
    } else {
        t
    };
    (if t < 0 {
        seq![0x2du8]
    } else {
        Seq::<u8>::empty()
    }) + strip_zeros(zero_padded((magnitude / 1_000_000) as nat, 13)) + seq![0x2eu8]
        + zero_padded((magnitude % 1_000_000) as nat, 6)
}

/// The line of one sample: the time, the three numbers of the position and
/// the three of the velocity, with commas between them and a line feed at
/// the end.
pub open spec fn step_text(s: SampledState) -> Seq<u8> {
    unix_time_text(s.time as int) + seq![0x2cu8] + s.position.x@ + seq![0x2cu8] + s.position.y@
        + seq![0x2cu8] + s.position.z@ + seq![0x2cu8] + s.velocity.x@ + seq![0x2cu8]
        + s.velocity.y@ + seq![0x2cu8] + s.velocity.z@ + seq![0x0au8]
}

/// The lines of a sequence of samples, one after the other.
pub open spec fn steps_text(samples: Seq<SampledState>) -> Seq<u8>
    decreases samples.len(),
{
    if samples.len() == 0 {
        Seq::empty()
    } else {
        steps_text(samples.drop_last()) + step_text(samples.last())
    }
}

/// Every sample of a sequence can be written.
pub open spec fn all_valid(samples: Seq<SampledState>) -> bool {
    forall|i: int| 0 <= i < samples.len() ==> (#[trigger] samples[i]).is_valid()
}

/// What is appended for one arc: the record of the knot at which it starts,
/// and the lines of its samples.
#[verifier::opaque]
pub open spec fn arc_text(knot: KnotView, samples: Seq<SampledState>) -> Seq<u8> {
    record_text(knot) + steps_text(samples)
}

/// Writes the line of one sample.
///
/// Fails exactly where a number of the sample cannot stand as a field.
#[verifier::rlimit(50)]
pub fn format_step(step: &SampledState) -> (r: Option<Vec<u8>>)
    ensures
        match r {
            Some(line) => step.is_valid() && line@ == step_text(*step),
            None => !step.is_valid(),
        },
{
    if !step.valid() {
        return None;
    }
    let mut out: Vec<u8> = Vec::new();
    let magnitude: u64 = if step.time < 0 {
        out.push(0x2d);
        (-(step.time as i128)) as u64
    } else {
        step.time as u64
    };
    push_decimal(&mut out, magnitude / 1_000_000, 13);
    out.push(0x2e);
    push_zero_padded(&mut out, magnitude % 1_000_000, 6);
    let ghost head = out@;
    assert(head =~= unix_time_text(step.time as int));
    out.push(0x2c);
    out.extend_from_slice(step.position.x.as_slice());
    out.push(0x2c);
    out.extend_from_slice(step.position.y.as_slice());
    out.push(0x2c);
    out.extend_from_slice(step.position.z.as_slice());
    out.push(0x2c);
    out.extend_from_slice(step.velocity.x.as_slice());
    out.push(0x2c);
    out.extend_from_slice(step.velocity.y.as_slice());
    out.push(0x2c);
    out.extend_from_slice(step.velocity.z.as_slice());
    out.push(0x0a);
    proof {
        assert(out@ =~= step_text(*step));
    }
    Some(out)
}

/// Writes the lines of the samples of an arc.
///
/// Fails exactly where a sample cannot be written, with the number of the
/// first such sample.
pub fn write_time_steps(steps: &Vec<SampledState>) -> (r: Result<Vec<u8>, usize>)
    ensures
        match r {
            Ok(text) => all_valid(steps@) && text@ == steps_text(steps@),
            Err(i) => {
                &&& i < steps@.len()
                &&& !steps@[i as int].is_valid()
                &&& all_valid(steps@.take(i as int))
            },
        },
{
    let mut out: Vec<u8> = Vec::new();
    let mut i: usize = 0;
    proof {
        assert(steps@.take(0) =~= Seq::<SampledState>::empty());
    }
    while i < steps.len()
        invariant
            i <= steps.len(),
            all_valid(steps@.take(i as int)),
            out@ == steps_text(steps@.take(i as int)),
        decreases steps.len() - i,
    {
        match format_step(&steps[i]) {
            Some(line) => {
                out.extend_from_slice(line.as_slice());
            },
            None => {
                return Err(i);
            },
        }
        proof {
            let next = steps@.take(i + 1);
            assert(next.drop_last() =~= steps@.take(i as int));
            assert(next.last() == steps@[i as int]);
        }
        i += 1;
    }
    proof {
        assert(steps@.take(steps@.len() as int) =~= steps@);
    }
    Ok(out)
}

impl View for ShardBuffer {
    type V = BufferView;

    closed spec fn view(&self) -> BufferView {
        BufferView {
            satellite_id: self.satellite_id,
            max_shard_size: self.max_shard_size as nat,
            next_index: self.next_index as nat,
            pending: self.pending@,
        }
    }
}

impl ShardBuffer {
    /// What waits in the buffer is within the budget of a shard.
    #[verifier::type_invariant]
    spec fn within_budget(self) -> bool {
        self.pending@.len() <= self.max_shard_size
    }

    /// The state of an empty buffer whose first shard has the number 0.
    pub open spec fn new_view(satellite_id: u32, max_shard_size: usize) -> BufferView {
        BufferView {
            satellite_id,
            max_shard_size: max_shard_size as nat,
            next_index: 0,
            pending: Seq::empty(),
        }
    }

    /// An empty buffer for a satellite, with the budget of a shard in bytes.
    pub fn new(satellite_id: u32, max_shard_size: usize) -> (r: ShardBuffer)
        ensures
            r@ == Self::new_view(satellite_id, max_shard_size),
            r@.wf(),
    {
        ShardBuffer { satellite_id, max_shard_size, next_index: 0, pending: Vec::new() }
    }

    /// An empty buffer that takes up the output of a satellite again where
    /// shards were written before: the next shard gets the number given.
    pub fn resume(satellite_id: u32, max_shard_size: usize, next_index: u64) -> (r: ShardBuffer)
        ensures
            r@ == (BufferView {
                satellite_id,
                max_shard_size: max_shard_size as nat,
                next_index: next_index as nat,
                pending: Seq::empty(),
            }),
            r@.wf(),
    {
        ShardBuffer { satellite_id, max_shard_size, next_index, pending: Vec::new() }
    }

    /// The satellite whose output the buffer gathers.
    pub fn satellite_id(&self) -> (r: u32)
        ensures
            r == self@.satellite_id,
    {
        self.satellite_id
    }

    /// The number that the next shard gets.
    pub fn shard_index(&self) -> (r: u64)
        ensures
            r == self@.next_index,
    {
        self.next_index
    }

    /// The running size: the bytes that wait in the buffer.
    pub fn estimate(&self) -> (r: usize)
        ensures
            r == self@.estimate(),
    {
        self.pending.len()
    }

    /// Tells whether nothing waits in the buffer.
    pub fn is_empty(&self) -> (r: bool)
        ensures
            r == (self@.pending.len() == 0),
    {
        self.pending.len() == 0
    }

    /// Appends the bytes of one arc, and cuts a shard where that takes the
    /// buffer over its budget.
    ///
    /// Fails, and leaves the buffer as it was, exactly where a shard would
    /// have to be cut and the numbers of shards are used up.
    pub fn append_bytes(&mut self, record: Vec<u8>) -> (r: Result<Option<Shard>, AppendError>)
        ensures
            old(self)@.wf(),
            final(self)@.wf(),
            match r {
                Ok(cut) => {
                    &&& final(self)@ == old(self)@.after_append(record@)
                    &&& match cut {
                        Some(shard) => old(self)@.cut_by_append(record@) == Some(shard@),
                        None => old(self)@.cut_by_append(record@) is None,
                    }
                },
                Err(e) => {
                    &&& e == AppendError::IndexExhausted
                    &&& old(self)@.overflows_with(record@)
                    &&& old(self)@.next_index == u64::MAX
                    &&& final(self)@ == old(self)@
                },
            },
    {
        proof {
            use_type_invariant(&*self);
        }
        let mut record = record;
        let cuts = record.len() > self.max_shard_size - self.pending.len();
        if cuts && self.next_index == u64::MAX {
            return Err(AppendError::IndexExhausted);
        }
        let mut content: Vec<u8> = Vec::new();
        core::mem::swap(&mut content, &mut self.pending);
        content.append(&mut record);
        if cuts {
            let shard = Shard { index: self.next_index, content };
            self.next_index = self.next_index + 1;
            Ok(Some(shard))
        } else {
            self.pending = content;
            Ok(None)
        }
    }

    /// Appends the record of a knot and the lines of the samples of the arc
    /// that starts at it, and cuts a shard where that takes the buffer over
    /// its budget.
    ///
    /// Fails, and leaves the buffer as it was, where the knot is not valid,
    /// else where a sample cannot be written, else where a shard would have
    /// to be cut and the numbers of shards are used up.
    #[verifier::rlimit(50)]
    pub fn append(&mut self, knot: &Knot, samples: &Vec<SampledState>) -> (r: Result<
        Option<Shard>,
        AppendError,
    >)
        ensures
            old(self)@.wf(),
            final(self)@.wf(),
            match r {
                Ok(cut) => {
                    &&& knot@.is_valid()
                    &&& all_valid(samples@)
                    &&& final(self)@ == old(self)@.after_append(arc_text(knot@, samples@))
                    &&& match cut {
                        Some(shard) => old(self)@.cut_by_append(arc_text(knot@, samples@)) == Some(
                            shard@,
                        ),
                        None => old(self)@.cut_by_append(arc_text(knot@, samples@)) is None,
                    }
                },
                Err(e) => {
                    &&& final(self)@ == old(self)@
                    &&& match e {
                        AppendError::InvalidKnot => !knot@.is_valid(),
                        AppendError::InvalidSample(i) => {
                            &&& knot@.is_valid()
                            &&& i < samples@.len()
                            &&& !samples@[i as int].is_valid()
                            &&& all_valid(samples@.take(i as int))
                        },
                        AppendError::IndexExhausted => {
                            &&& knot@.is_valid()
                            &&& all_valid(samples@)
                            &&& old(self)@.overflows_with(arc_text(knot@, samples@))
                            &&& old(self)@.next_index == u64::MAX
                        },
                    }
                },
            },
    {
        proof {
            use_type_invariant(&*self);
        }
        let mut record: Vec<u8> = Vec::new();
        match write_tle_data(&mut record, knot) {
            Ok(_) => {},
            Err(_) => {
                return Err(AppendError::InvalidKnot);
            },
        }
        let mut steps = match write_time_steps(samples) {
            Ok(text) => text,
            Err(i) => {
                return Err(AppendError::InvalidSample(i));
            },
        };
        record.append(&mut steps);
        proof {
            reveal(arc_text);
            assert(record@ =~= arc_text(knot@, samples@));
        }
        self.append_bytes(record)
    }

    /// Ends the stream: cuts a last shard of what is left in the buffer,
    /// whatever its size, or none where nothing is left.
    pub fn finish(self) -> (r: Option<Shard>)
        ensures
            match r {
                Some(shard) => self@.cut_by_finish() == Some(shard@),
                None => self@.cut_by_finish() is None,
            },
    {
        if self.pending.len() > 0 {
            Some(Shard { index: self.next_index, content: self.pending })
        } else {
            None
        }
    }
}

/// The pieces of a sequence, one after the other.
pub open spec fn joined(parts: Seq<Seq<u8>>) -> Seq<u8>
    decreases parts.len(),
{
    if parts.len() == 0 {
        Seq::empty()
    } else {
        joined(parts.drop_last()) + parts.last()
    }
}

/// The buffer after a sequence of records was appended, one after the other.
pub open spec fn after_all(start: BufferView, records: Seq<Seq<u8>>) -> BufferView
    decreases records.len(),
{
    if records.len() == 0 {
        start
    } else {
        after_all(start, records.drop_last()).after_append(records.last())
    }
}

/// The shards that appending a sequence of records cuts, in their order.
pub open spec fn shards_cut(start: BufferView, records: Seq<Seq<u8>>) -> Seq<ShardView>
    decreases records.len(),
{
    if records.len() == 0 {
        Seq::empty()
    } else {
        let before = shards_cut(start, records.drop_last());
        match after_all(start, records.drop_last()).cut_by_append(records.last()) {
            Some(shard) => before.push(shard),
            None => before,
        }
    }
}

/// The shards of a whole stream: those that the appends cut, and the one
/// that the end of the stream cuts.
pub open spec fn shards_of_stream(start: BufferView, records: Seq<Seq<u8>>) -> Seq<ShardView> {
    match after_all(start, records).cut_by_finish() {
        Some(shard) => shards_cut(start, records).push(shard),
        None => shards_cut(start, records),
    }
}

/// What each of a sequence of shards holds.
pub open spec fn contents(shards: Seq<ShardView>) -> Seq<Seq<u8>> {
    shards.map_values(|s: ShardView| s.content)
}

/// The shards that were cut, put one after the other, and what waits in the
/// buffer behind them, are what the buffer had at first and the records
/// that were appended, in their order. The buffer stays within its budget,
/// and the shards are numbered one after the other.
#[verifier::rlimit(50)]
pub proof fn lemma_nothing_lost(start: BufferView, records: Seq<Seq<u8>>)
    requires
        start.wf(),
    ensures
        joined(contents(shards_cut(start, records))) + after_all(start, records).pending
            == start.pending + joined(records),
        after_all(start, records).wf(),
        after_all(start, records).next_index == start.next_index + shards_cut(
            start,
            records,
        ).len(),
        forall|j: int|
            0 <= j < shards_cut(start, records).len() ==> (#[trigger] shards_cut(
                start,
                records,
            )[j]).index == start.next_index + j,
    decreases records.len(),
{
    if records.len() == 0 {
        assert(contents(shards_cut(start, records)) =~= Seq::<Seq<u8>>::empty());
        assert(joined(contents(shards_cut(start, records))) + start.pending =~= start.pending
            + joined(records));
    } else {
        let earlier = records.drop_last();
        let record = records.last();
        lemma_nothing_lost(start, earlier);
        let before = after_all(start, earlier);
        let cut = shards_cut(start, earlier);
        if before.overflows_with(record) {
            let shard = ShardView { index: before.next_index, content: before.pending + record };
            assert(contents(cut.push(shard)) =~= contents(cut).push(shard.content));
            assert(contents(cut).push(shard.content).drop_last() =~= contents(cut));
            assert(joined(contents(cut)) + (before.pending + record) + Seq::<u8>::empty()
                =~= (joined(contents(cut)) + before.pending) + record);
        } else {
            assert(joined(contents(cut)) + (before.pending + record) =~= (joined(contents(cut))
                + before.pending) + record);
        }
        assert((start.pending + joined(earlier)) + record =~= start.pending + (joined(earlier)
            + record));
    }
}

/// The shards of a whole stream, put one after the other in the order of
/// their numbers, are the records that were appended, in their order:
/// nothing is lost, nothing comes twice, nothing changes its place. The
/// shards are numbered one after the other from the first number.
#[verifier::rlimit(50)]
pub proof fn lemma_stream_is_kept(start: BufferView, records: Seq<Seq<u8>>)
    requires
        start.wf(),
        start.pending.len() == 0,
    ensures
        joined(contents(shards_of_stream(start, records))) == joined(records),
        forall|j: int|
            0 <= j < shards_of_stream(start, records).len() ==> (#[trigger] shards_of_stream(
                start,
                records,
            )[j]).index == start.next_index + j,
{
    lemma_nothing_lost(start, records);
    let last = after_all(start, records);
    let cut = shards_cut(start, records);
    assert(start.pending + joined(records) =~= joined(records));
    if last.pending.len() > 0 {
        let shard = ShardView { index: last.next_index, content: last.pending };
        assert(contents(cut.push(shard)) =~= contents(cut).push(shard.content));
        assert(contents(cut).push(shard.content).drop_last() =~= contents(cut));
    } else {
        assert(joined(contents(cut)) + last.pending =~= joined(contents(cut)));
    }
}

/// As long as the records fit the budget together, the buffer holds them
/// all and no shard is cut.
pub proof fn lemma_within_budget(start: BufferView, records: Seq<Seq<u8>>)
    requires
        start.pending.len() == 0,
        joined(records).len() <= start.max_shard_size,
    ensures
        after_all(start, records).pending == joined(records),
        after_all(start, records).next_index == start.next_index,
        after_all(start, records).max_shard_size == start.max_shard_size,
        shards_cut(start, records).len() == 0,
    decreases records.len(),
{
    if records.len() == 0 {
        assert(start.pending =~= joined(records));
    } else {
        lemma_within_budget(start, records.drop_last());
    }
}

/// The append that takes the size of all that was appended over the budget
/// cuts a shard at once: where the records before the last fit the budget
/// together and the last does not fit with them, the last append cuts a
/// shard of them all and leaves the buffer empty.
pub proof fn lemma_cut_at_budget(start: BufferView, records: Seq<Seq<u8>>)
    requires
        start.pending.len() == 0,
        records.len() > 0,
        joined(records.drop_last()).len() <= start.max_shard_size,
        joined(records).len() > start.max_shard_size,
    ensures
        after_all(start, records.drop_last()).cut_by_append(records.last()) == Some(
            ShardView { index: start.next_index, content: joined(records) },
        ),
        after_all(start, records).pending.len() == 0,
        after_all(start, records).estimate() == 0,
        after_all(start, records).next_index == start.next_index + 1,
{
    lemma_within_budget(start, records.drop_last());
}

/// The name of a shard: the catalog number of the satellite and the number
/// of the shard, with a line between them.
pub open spec fn shard_name(satellite_id: u32, index: u64) -> Seq<u8> {
    strip_zeros(zero_padded(satellite_id as nat, 10)) + seq![0x5fu8] + strip_zeros(
        zero_padded(index as nat, 20),
    )
}

/// The name of the file of a shard: `integration_`, the name of the shard
/// and `.txt`; and `.zst` behind that where the shard is compressed.
pub open spec fn shard_file_name(satellite_id: u32, index: u64, compressed: bool) -> Seq<u8> {
    seq![
        0x69u8,
        0x6eu8,
        0x74u8,
        0x65u8,
        0x67u8,
        0x72u8,
        0x61u8,
        0x74u8,
        0x69u8,
        0x6fu8,
        0x6eu8,
        0x5fu8,
    ] + shard_name(satellite_id, index) + seq![0x2eu8, 0x74u8, 0x78u8, 0x74u8] + if compressed {
        seq![0x2eu8, 0x7au8, 0x73u8, 0x74u8]
    } else {
        Seq::<u8>::empty()
    }
}

/// Two runs of digits with a line between them are told apart by the line:
/// where two such texts are the same, so are the runs in front of the line
/// and what stands behind it.
pub proof fn lemma_split_at_line(a: Seq<u8>, b: Seq<u8>, c: Seq<u8>, d: Seq<u8>)
    requires
        all_digits(a),
        all_digits(c),
        a + seq![0x5fu8] + b == c + seq![0x5fu8] + d,
    ensures
        a == c,
        b == d,
{
    let left = a + seq![0x5fu8] + b;
    let right = c + seq![0x5fu8] + d;
    lemma_first_index_after_digits(a, 0x5fu8, b);
    lemma_first_index_after_digits(c, 0x5fu8, d);
    assert(a.len() == c.len());
    assert(a =~= left.subrange(0, a.len() as int));
    assert(c =~= right.subrange(0, c.len() as int));
    assert(b =~= left.subrange(a.len() as int + 1, left.len() as int));
    assert(d =~= right.subrange(c.len() as int + 1, right.len() as int));
}

/// No two shards have the same name: the name tells the satellite and the
/// number of the shard.
pub proof fn lemma_shard_names_differ(id1: u32, index1: u64, id2: u32, index2: u64)
    requires
        shard_name(id1, index1) == shard_name(id2, index2),
    ensures
        id1 == id2,
        index1 == index2,
{
    lemma_pow10_values();
    lemma_pow10_add(10, 10);
    lemma_decimal_text(id1 as nat, 10);
    lemma_decimal_text(id2 as nat, 10);
    lemma_decimal_text(index1 as nat, 20);
    lemma_decimal_text(index2 as nat, 20);
    lemma_split_at_line(
        strip_zeros(zero_padded(id1 as nat, 10)),
        strip_zeros(zero_padded(index1 as nat, 20)),
        strip_zeros(zero_padded(id2 as nat, 10)),
        strip_zeros(zero_padded(index2 as nat, 20)),
    );
}

/// No two shards are written to the same file, compressed or not: the name
/// of the file tells the satellite, the number of the shard and whether the
/// shard is compressed.
pub proof fn lemma_file_names_differ(
    id1: u32,
    index1: u64,
    compressed1: bool,
    id2: u32,
    index2: u64,
    compressed2: bool,
)
    requires
        shard_file_name(id1, index1, compressed1) == shard_file_name(id2, index2, compressed2),
    ensures
        id1 == id2,
        index1 == index2,
        compressed1 == compressed2,
{
    let head = seq![
        0x69u8,
        0x6eu8,
        0x74u8,
        0x65u8,
        0x67u8,
        0x72u8,
        0x61u8,
        0x74u8,
        0x69u8,
        0x6fu8,
        0x6eu8,
        0x5fu8,
    ];
    let txt = seq![0x2eu8, 0x74u8, 0x78u8, 0x74u8];
    let zst = seq![0x2eu8, 0x7au8, 0x73u8, 0x74u8];
    let n1 = shard_name(id1, index1);
    let n2 = shard_name(id2, index2);
    let f1 = shard_file_name(id1, index1, compressed1);
    let f2 = shard_file_name(id2, index2, compressed2);
    assert(f1[f1.len() - 3] == if compressed1 {
        0x7au8
    } else {
        0x74u8
    });
    assert(f2[f2.len() - 3] == if compressed2 {
        0x7au8
    } else {
        0x74u8
    });
    assert(compressed1 == compressed2);
    assert(n1 =~= f1.subrange(12, 12 + n1.len() as int));
    assert(n2 =~= f2.subrange(12, 12 + n2.len() as int));
    assert(n1.len() == n2.len());
    lemma_shard_names_differ(id1, index1, id2, index2);
}

/// Writes the name of the file of a shard.
#[verifier::rlimit(50)]
pub fn file_name(satellite_id: u32, index: u64, compressed: bool) -> (r: Vec<u8>)
    ensures
        r@ == shard_file_name(satellite_id, index, compressed),
{
    let mut out: Vec<u8> = Vec::new();
    out.push(0x69);
    out.push(0x6e);
    out.push(0x74);
    out.push(0x65);
    out.push(0x67);
    out.push(0x72);
    out.push(0x61);
    out.push(0x74);
    out.push(0x69);
    out.push(0x6f);
    out.push(0x6e);
    out.push(0x5f);
    push_decimal(&mut out, satellite_id as u64, 10);
    out.push(0x5f);
    push_decimal(&mut out, index, 20);
    out.push(0x2e);
    out.push(0x74);
    out.push(0x78);
    out.push(0x74);
    if compressed {
        out.push(0x2e);
        out.push(0x7a);
        out.push(0x73);
        out.push(0x74);
    }
    proof {
        assert(out@ =~= shard_file_name(satellite_id, index, compressed));
    }
    out
}

/// The Zstandard frame that the bytes `content` make at the effort `level`.
pub uninterp spec fn zstd_frame(content: Seq<u8>, level: int) -> Seq<u8>;

#[verifier::external_type_specification]
#[verifier::external_body]
pub struct ExIoError(std::io::Error);

/// `zstd::stream::encode_all` on a slice of bytes. The contract claims only
/// that what comes out, where anything does, is a function of the bytes and
/// the level; it does not claim that the call succeeds.
#[verifier::external_body]
fn encode_frame(content: &[u8], level: i32) -> (r: Result<Vec<u8>, std::io::Error>)
    ensures
        r matches Ok(frame) ==> frame@ == zstd_frame(content@, level as int),
{
    zstd::stream::encode_all(content, level)
}

/// The compressor did not give a frame.
#[derive(Clone, Copy, Debug, PartialEq, Eq, Structural)]
pub struct CompressionFailed;

/// Compresses what a shard holds into a Zstandard frame, at an effort
/// level; level 0 is the compressor's own choice.
pub fn compress(content: &[u8], level: i32) -> (r: Result<Vec<u8>, CompressionFailed>)
    ensures
        r matches Ok(frame) ==> frame@ == zstd_frame(content@, level as int),
{
    let outcome = encode_frame(content, level);
    frame_or_failure(outcome)
}

/// What the compressor's answer means to the writer: the frame where it
/// gave one, and a failure where it gave an error, whatever the error was.
pub fn frame_or_failure(outcome: Result<Vec<u8>, std::io::Error>) -> (r: Result<
    Vec<u8>,
    CompressionFailed,
>)
    ensures
        match outcome {
            Ok(frame) => r == Ok::<Vec<u8>, CompressionFailed>(frame),
            Err(_) => r == Err::<Vec<u8>, CompressionFailed>(CompressionFailed),
        },
{
    match outcome {
        Ok(frame) => Ok(frame),
        Err(_) => Err(CompressionFailed),
    }
}

/// One arc of the output of a satellite: the knot at which it starts and
/// its samples.
#[derive(Debug, PartialEq, Eq)]
pub struct Arc {
    pub knot: Knot,
    pub samples: Vec<SampledState>,
}

/// Why the output of a satellite could not be written.
#[derive(Clone, Copy, Debug, PartialEq, Eq, Structural)]
pub struct StreamError {
    /// The number of the arc that could not be appended, from 0.
    pub arc: usize,
    pub cause: AppendError,
}

/// What is appended for each of a sequence of arcs.
pub open spec fn arc_texts(arcs: Seq<Arc>) -> Seq<Seq<u8>> {
    arcs.map_values(|a: Arc| arc_text(a.knot@, a.samples@))
}

/// Every arc of a sequence can be written.
pub open spec fn arcs_valid(arcs: Seq<Arc>) -> bool {
    forall|i: int|
        0 <= i < arcs.len() ==> (#[trigger] arcs[i]).knot@.is_valid() && all_valid(
            arcs[i].samples@,
        )
}

/// What each of a sequence of shards is.
pub open spec fn shard_views(shards: Seq<Shard>) -> Seq<ShardView> {
    shards.map_values(|s: Shard| s@)
}

/// The shards that were cut before, and the one that appending `record`
/// cuts, if it cuts one.
pub open spec fn with_cut(shards: Seq<ShardView>, buffer: BufferView, record: Seq<u8>) -> Seq<
    ShardView,
> {
    match buffer.cut_by_append(record) {
        Some(shard) => shards.push(shard),
        None => shards,
    }
}

/// Appends one arc to the buffer of a stream, and puts the shard that this
/// cuts, if any, behind the shards of the stream.
///
/// Fails, and leaves the buffer and the shards as they were, where
/// [`ShardBuffer::append`] fails.
#[verifier::rlimit(50)]
pub fn append_arc(buffer: &mut ShardBuffer, shards: &mut Vec<Shard>, arc: &Arc) -> (r: Result<
    (),
    AppendError,
>)
    ensures
        old(buffer)@.wf(),
        final(buffer)@.wf(),
        match r {
            Ok(_) => {
                &&& arc.knot@.is_valid()
                &&& all_valid(arc.samples@)
                &&& final(buffer)@ == old(buffer)@.after_append(
                    arc_text(arc.knot@, arc.samples@),
                )
                &&& shard_views(final(shards)@) == with_cut(
                    shard_views(old(shards)@),
                    old(buffer)@,
                    arc_text(arc.knot@, arc.samples@),
                )
                &&& final(shards)@.len() - old(shards)@.len() == final(buffer)@.next_index - old(
                    buffer,
                )@.next_index
                &&& final(shards)@.len() <= old(shards)@.len() + 1
            },
            Err(e) => {
                &&& final(buffer)@ == old(buffer)@
                &&& final(shards)@ == old(shards)@
                &&& match e {
                    AppendError::InvalidKnot => !arc.knot@.is_valid(),
                    AppendError::InvalidSample(i) => {
                        &&& arc.knot@.is_valid()
                        &&& i < arc.samples@.len()
                        &&& !arc.samples@[i as int].is_valid()
                        &&& all_valid(arc.samples@.take(i as int))
                    },
                    AppendError::IndexExhausted => {
                        &&& arc.knot@.is_valid()
                        &&& all_valid(arc.samples@)
                        &&& old(buffer)@.overflows_with(arc_text(arc.knot@, arc.samples@))
                        &&& old(buffer)@.next_index == u64::MAX
                    },
                }
            },
        },
{
    match buffer.append(&arc.knot, &arc.samples) {
        Ok(cut) => {
            match cut {
                Some(shard) => {
                    let ghost view = shard@;
                    shards.push(shard);
                    proof {
                        assert(shard_views(shards@) =~= shard_views(old(shards)@).push(view));
                    }
                },
                None => {},
            }
            Ok(())
        },
        Err(e) => Err(e),
    }
}

/// Where every arc of a sequence but the last can be written, and the last
/// can too, every arc of the sequence can.
pub proof fn lemma_arcs_valid_step(arcs: Seq<Arc>, i: int)
    requires
        0 <= i < arcs.len(),
        arcs_valid(arcs.take(i)),
        arcs[i].knot@.is_valid(),
        all_valid(arcs[i].samples@),
    ensures
        arcs_valid(arcs.take(i + 1)),
{
    assert forall|j: int| 0 <= j < i + 1 implies (#[trigger] arcs.take(i + 1)[j]).knot@.is_valid()
        && all_valid(arcs.take(i + 1)[j].samples@) by {
        if j < i {
            assert(arcs.take(i)[j] == arcs[j]);
        }
    }
}

/// The buffer and the shards of a stream after one more record.
pub proof fn lemma_stream_step(start: BufferView, texts: Seq<Seq<u8>>, i: int)
    requires
        0 <= i < texts.len(),
    ensures
        after_all(start, texts.take(i + 1)) == after_all(start, texts.take(i)).after_append(
            texts[i],
        ),
        shards_cut(start, texts.take(i + 1)) == with_cut(
            shards_cut(start, texts.take(i)),
            after_all(start, texts.take(i)),
            texts[i],
        ),
{
    let next = texts.take(i + 1);
    assert(next.drop_last() =~= texts.take(i));
    assert(next.last() == texts[i]);
}

/// Writes the arcs of one satellite into shards of at most
/// `max_shard_size` bytes each, but for a shard that a single append filled
/// beyond that: the arcs are appended in their order to an empty buffer, and
/// the end of the stream cuts the last shard.
///
/// Fails at the first arc that cannot be appended.
#[verifier::rlimit(50)]
pub fn stream(satellite_id: u32, max_shard_size: usize, arcs: &Vec<Arc>) -> (r: Result<
    Vec<Shard>,
    StreamError,
>)
    ensures
        match r {
            Ok(shards) => {
                &&& arcs_valid(arcs@)
                &&& shard_views(shards@) == shards_of_stream(
                    ShardBuffer::new_view(satellite_id, max_shard_size),
                    arc_texts(arcs@),
                )
                &&& joined(contents(shard_views(shards@))) == joined(arc_texts(arcs@))
            },
            Err(e) => {
                &&& e.arc < arcs@.len()
                &&& arcs_valid(arcs@.take(e.arc as int))
                &&& match e.cause {
                    AppendError::InvalidKnot => !arcs@[e.arc as int].knot@.is_valid(),
                    AppendError::InvalidSample(i) => {
                        &&& arcs@[e.arc as int].knot@.is_valid()
                        &&& i < arcs@[e.arc as int].samples@.len()
                        &&& !arcs@[e.arc as int].samples@[i as int].is_valid()
                        &&& all_valid(arcs@[e.arc as int].samples@.take(i as int))
                    },
                    AppendError::IndexExhausted => false,
                }
            },
        },
{
    let mut buffer = ShardBuffer::new(satellite_id, max_shard_size);
    let ghost start = buffer@;
    let ghost texts = arc_texts(arcs@);
    let mut shards: Vec<Shard> = Vec::new();
    let mut i: usize = 0;
    proof {
        assert(texts.take(0) =~= Seq::<Seq<u8>>::empty());
        assert(shard_views(shards@) =~= shards_cut(start, texts.take(0)));
    }
    while i < arcs.len()
        invariant
            i <= arcs.len(),
            texts.len() == arcs.len(),
            forall|j: int|
                0 <= j < arcs.len() ==> #[trigger] texts[j] == arc_text(
                    arcs@[j].knot@,
                    arcs@[j].samples@,
                ),
            buffer@.wf(),
            buffer@ == after_all(start, texts.take(i as int)),
            shard_views(shards@) == shards_cut(start, texts.take(i as int)),
            arcs_valid(arcs@.take(i as int)),
            buffer@.next_index == shards@.len(),
            shards@.len() <= i,
        decreases arcs.len() - i,
    {
        proof {
            lemma_stream_step(start, texts, i as int);
        }
        match append_arc(&mut buffer, &mut shards, &arcs[i]) {
            Ok(_) => {},
            Err(cause) => {
                return Err(StreamError { arc: i, cause });
            },
        }
        proof {
            lemma_arcs_valid_step(arcs@, i as int);
        }
        i += 1;
    }
    proof {
        assert(texts.take(arcs@.len() as int) =~= texts);
        assert(arcs@.take(arcs@.len() as int) =~= arcs@);
        lemma_stream_is_kept(start, texts);
    }
    match buffer.finish() {
        Some(shard) => {
            let ghost before = shards@;
            let ghost view = shard@;
            shards.push(shard);
            proof {
                assert(shard_views(shards@) =~= shard_views(before).push(view));
            }
        },
        None => {},
    }
    Ok(shards)
}

} // verus!
