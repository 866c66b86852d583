//! The knots of each satellite, kept under its catalog number in the order in
//! which they arrived.

use crate::codec::{decode, decoded, first_fault, Fault, Field, FormatError};
use crate::knot::{Knot, KnotView};
use std::collections::HashMap;
use vstd::prelude::*;
use vstd::slice::slice_subrange;
use vstd::std_specs::iter::IteratorSpec;

verus! {

broadcast use vstd::std_specs::hash::group_hash_axioms;

/// The knots of one satellite, in the order in which they arrived.
#[derive(Debug, PartialEq, Eq)]
pub struct SatelliteRecord {
    pub catalog_number: u32,
    pub international_designator: Vec<u8>,
    pub orbital_records: Vec<Knot>,
}

/// What a [`SatelliteRecord`] holds.
pub struct SatelliteView {
    pub catalog_number: u32,
    pub international_designator: Seq<u8>,
    pub orbital_records: Seq<KnotView>,
}

/// What each of a sequence of knots holds.
pub open spec fn knot_views(knots: Seq<Knot>) -> Seq<KnotView> {
    knots.map_values(|k: Knot| k@)
}

impl View for SatelliteRecord {
    type V = SatelliteView;

    open spec fn view(&self) -> SatelliteView {
        SatelliteView {
            catalog_number: self.catalog_number,
            international_designator: self.international_designator@,
            orbital_records: knot_views(self.orbital_records@),
        }
    }
}

/// The record of `kept` with the knots of `lost` behind its own.
pub open spec fn extended(kept: SatelliteView, lost: SatelliteView) -> SatelliteView {
    SatelliteView {
        catalog_number: kept.catalog_number,
        international_designator: kept.international_designator,
        orbital_records: kept.orbital_records + lost.orbital_records,
    }
}

/// What a satellite has after `lost` was merged into `kept`: where both
/// know it, the record of `kept` with the knots of `lost` behind its own;
/// else the record of the one that knows it.
pub open spec fn merged_record(
    kept: Map<u32, SatelliteRecord>,
    lost: Map<u32, SatelliteRecord>,
    id: u32,
) -> SatelliteView {
    if kept.contains_key(id) && lost.contains_key(id) {
        extended(kept[id]@, lost[id]@)
    } else if kept.contains_key(id) {
        kept[id]@
    } else {
        lost[id]@
    }
}

/// `after` is `lost` merged into `kept`: it knows the satellites that either
/// knows, each with its merged record.
pub open spec fn is_merge(
    kept: Map<u32, SatelliteRecord>,
    lost: Map<u32, SatelliteRecord>,
    after: Map<u32, SatelliteRecord>,
) -> bool {
    &&& after.dom() == kept.dom().union(lost.dom())
    &&& forall|id: u32| #[trigger]
        after.contains_key(id) ==> after[id]@ == merged_record(kept, lost, id)
}

/// The catalog numbers under which a map holds records, each once.
pub fn catalog_numbers(map: &HashMap<u32, SatelliteRecord>) -> (ids: Vec<u32>)
    ensures
        ids@.no_duplicates(),
        ids@.to_set() == map@.dom(),
{
    let mut ids: Vec<u32> = Vec::new();
    let ghost keys = map.keys().remaining().unref();
    for id in it: map.keys()
        invariant
            it.seq().unref() == keys,
            keys.to_set() == map@.dom(),
            keys.no_duplicates(),
            ids@ =~= keys.take(it.index() as int),
    {
        ids.push(*id);
    }
    assert(ids@ =~= keys);
    ids
}

/// Moves the knots of `lost` behind those of `kept`.
pub fn extend_record(kept: &mut SatelliteRecord, lost: SatelliteRecord)
    ensures
        final(kept)@ == extended(old(kept)@, lost@),
{
    let mut incoming = lost.orbital_records;
    kept.orbital_records.append(&mut incoming);
    proof {
        assert(knot_views(kept.orbital_records@) =~= knot_views(old(kept).orbital_records@)
            + knot_views(lost.orbital_records@));
    }
}

/// Merges the records of `lost` into `kept`: the knots of a satellite that
/// `kept` knows already go behind those it has, and a satellite that is new
/// to `kept` comes with its record as it is.
#[verifier::rlimit(50)]
pub fn merge_satellite_hashmaps(
    kept: &mut HashMap<u32, SatelliteRecord>,
    lost: HashMap<u32, SatelliteRecord>,
)
    ensures
        is_merge(old(kept)@, lost@, final(kept)@),
{
    let mut lost = lost;
    let ghost before = kept@;
    let ghost incoming = lost@;
    let ids = catalog_numbers(&lost);
    let mut i: usize = 0;
    while i < ids.len()
        invariant
            i <= ids.len(),
            ids@.no_duplicates(),
            ids@.to_set() == incoming.dom(),
            forall|id: u32| #[trigger]
                lost@.contains_key(id) <==> incoming.contains_key(id) && !ids@.take(
                    i as int,
                ).contains(id),
            forall|id: u32| #[trigger] lost@.contains_key(id) ==> lost@[id] == incoming[id],
            forall|id: u32| #[trigger]
                kept@.contains_key(id) <==> before.contains_key(id) || ids@.take(
                    i as int,
                ).contains(id),
            forall|id: u32| #[trigger]
                kept@.contains_key(id) ==> kept@[id]@ == if ids@.take(i as int).contains(id) {
                    merged_record(before, incoming, id)
                } else {
                    before[id]@
                },
        decreases ids.len() - i,
    {
        let id = ids[i];
        proof {
            assert(ids@.take(i + 1) =~= ids@.take(i as int).push(id));
            assert(ids@.contains(id));
            assert(ids@.to_set().contains(id));
            assert(!ids@.take(i as int).contains(id)) by {
                if ids@.take(i as int).contains(id) {
                    let j = choose|j: int| 0 <= j < i && ids@.take(i as int)[j] == id;
                    assert(ids@[j] == ids@[i as int]);
                }
            }
            assert forall|other: u32| ids@.take(i + 1).contains(other) <==> (other == id
                || ids@.take(i as int).contains(other)) by {
                if ids@.take(i as int).contains(other) {
                    let j = choose|j: int| 0 <= j < i && ids@.take(i as int)[j] == other;
                    assert(ids@.take(i + 1)[j] == other);
                }
                if other == id {
                    assert(ids@.take(i + 1)[i as int] == id);
                }
            }
        }
        match lost.remove(&id) {
            Some(record) => {
                match kept.remove(&id) {
                    Some(present) => {
                        let mut present = present;
                        extend_record(&mut present, record);
                        kept.insert(id, present);
                    },
                    None => {
                        kept.insert(id, record);
                    },
                }
            },
            None => {},
        }
        i += 1;
    }
    proof {
        assert(ids@.take(ids@.len() as int) =~= ids@);
        assert forall|id: u32| incoming.contains_key(id) <==> ids@.contains(id) by {
            assert(ids@.to_set().contains(id) <==> ids@.contains(id));
        }
        assert(kept@.dom() =~= before.dom().union(incoming.dom()));
    }
}

/// Which knots are taken in: those with an eccentricity below one bound and
/// a mean motion above another, in the units of a [`Knot`].
#[derive(Clone, Copy, Debug, PartialEq, Eq, Structural)]
pub struct LeoFilter {
    pub eccentricity_below: u32,
    pub mean_motion_above: u64,
}

impl LeoFilter {
    /// The knot passes the filter.
    pub open spec fn admits(self, k: KnotView) -> bool {
        k.eccentricity < self.eccentricity_below && k.mean_motion > self.mean_motion_above
    }

    /// The filter for low Earth orbit: an eccentricity below 0.25 and more
    /// than 11.25 revolutions a day.
    pub fn low_earth_orbit() -> (r: LeoFilter)
        ensures
            r == (LeoFilter { eccentricity_below: 2_500_000, mean_motion_above: 1_125_000_000 }),
    {
        LeoFilter { eccentricity_below: 2_500_000, mean_motion_above: 1_125_000_000 }
    }

    /// Tells whether a knot passes the filter.
    pub fn allows(&self, knot: &Knot) -> (r: bool)
        ensures
            r == self.admits(knot@),
    {
        knot.eccentricity < self.eccentricity_below && knot.mean_motion > self.mean_motion_above
    }
}

/// A pair of lines that was no element record.
#[derive(Debug, PartialEq, Eq)]
pub struct Rejection {
    /// The number of the pair among the pairs of the input, from 0.
    pub pair: usize,
    pub error: FormatError,
}

/// What reading the lines of an input gave: the records of the satellites,
/// and the pairs of lines that were dropped.
#[derive(Debug)]
pub struct Ingested {
    pub satellites: HashMap<u32, SatelliteRecord>,
    pub rejected: Vec<Rejection>,
}

/// The last line of an input with an odd number of lines: it has no partner.
#[derive(Debug, PartialEq, Eq)]
pub struct UnpairedLine {
    pub line: Vec<u8>,
}

/// `s` without the bytes `b` at its end.
pub open spec fn without_trailing(s: Seq<u8>, b: u8) -> Seq<u8>
    decreases s.len(),
{
    if s.len() > 0 && s.last() == b {
        without_trailing(s.drop_last(), b)
    } else {
        s
    }
}

/// The first line of pair `pair`, without the backslashes at its end.
pub open spec fn first_line(lines: Seq<Vec<u8>>, pair: int) -> Seq<u8> {
    without_trailing(lines[2 * pair]@, 0x5c)
}

/// The second line of pair `pair`, without the backslashes at its end.
pub open spec fn second_line(lines: Seq<Vec<u8>>, pair: int) -> Seq<u8> {
    without_trailing(lines[2 * pair + 1]@, 0x5c)
}

/// The knot that pair `pair` of the lines gives: the pair must be an element
/// record, and its knot must pass the filter.
pub open spec fn admitted(lines: Seq<Vec<u8>>, pair: int, filter: LeoFilter) -> Option<KnotView> {
    let knot = decoded(first_line(lines, pair), second_line(lines, pair));
    if first_fault(first_line(lines, pair), second_line(lines, pair)) is None && filter.admits(
        knot,
    ) {
        Some(knot)
    } else {
        None
    }
}

/// The records with one more knot: behind the knots of its satellite, or as
/// the first of a new record that takes its designator.
pub open spec fn with_knot(records: Map<u32, SatelliteView>, k: KnotView) -> Map<
    u32,
    SatelliteView,
> {
    let id = k.catalog_number;
    if records.contains_key(id) {
        records.insert(
            id,
            SatelliteView {
                catalog_number: records[id].catalog_number,
                international_designator: records[id].international_designator,
                orbital_records: records[id].orbital_records.push(k),
            },
        )
    } else {
        records.insert(
            id,
            SatelliteView {
                catalog_number: id,
                international_designator: k.designator,
                orbital_records: seq![k],
            },
        )
    }
}

/// The records that the first `pairs` pairs of the lines give.
pub open spec fn gathered(lines: Seq<Vec<u8>>, pairs: nat, filter: LeoFilter) -> Map<
    u32,
    SatelliteView,
>
    decreases pairs,
{
    if pairs == 0 {
        Map::empty()
    } else {
        let before = gathered(lines, (pairs - 1) as nat, filter);
        match admitted(lines, pairs - 1, filter) {
            Some(k) => with_knot(before, k),
            None => before,
        }
    }
}

/// The pairs among the first `pairs` that are no element record, each with
/// the field at which reading stopped and its fault, in the order of the
/// input.
pub open spec fn faults(lines: Seq<Vec<u8>>, pairs: nat) -> Seq<(int, Field, Fault)>
    decreases pairs,
{
    if pairs == 0 {
        Seq::empty()
    } else {
        let before = faults(lines, (pairs - 1) as nat);
        match first_fault(first_line(lines, pairs - 1), second_line(lines, pairs - 1)) {
            Some((field, fault)) => before.push((pairs - 1, field, fault)),
            None => before,
        }
    }
}

/// What each record of a map holds.
pub open spec fn store_view(records: Map<u32, SatelliteRecord>) -> Map<u32, SatelliteView> {
    records.map_values(|r: SatelliteRecord| r@)
}

/// What each rejection of a list says.
pub open spec fn rejection_views(rejected: Seq<Rejection>) -> Seq<(int, Field, Fault)> {
    rejected.map_values(|r: Rejection| (r.pair as int, r.error.field, r.error.fault))
}

/// The line without the backslashes at its end.
pub fn strip_continuation(line: &[u8]) -> (r: &[u8])
    ensures
        r@ == without_trailing(line@, 0x5c),
{
    let mut end: usize = line.len();
    proof {
        assert(line@.subrange(0, end as int) =~= line@);
    }
    while end > 0 && line[end - 1] == 0x5c
        invariant
            end <= line.len(),
            without_trailing(line@, 0x5c) == without_trailing(line@.subrange(0, end as int), 0x5c),
        decreases end,
    {
        proof {
            let cur = line@.subrange(0, end as int);
            assert(cur.last() == line@[end - 1]);
            assert(cur.drop_last() =~= line@.subrange(0, end - 1));
        }
        end -= 1;
    }
    proof {
        let cur = line@.subrange(0, end as int);
        if end > 0 {
            assert(cur.last() == line@[end - 1]);
        }
    }
    slice_subrange(line, 0, end)
}

/// Puts a knot with the records: behind the knots of its satellite, or as
/// the first of a new record.
#[verifier::rlimit(50)]
pub fn add_knot(satellites: &mut HashMap<u32, SatelliteRecord>, knot: Knot)
    ensures
        store_view(final(satellites)@) == with_knot(store_view(old(satellites)@), knot@),
{
    let id = knot.catalog_number;
    match satellites.remove(&id) {
        Some(present) => {
            let mut present = present;
            present.orbital_records.push(knot);
            proof {
                assert(knot_views(present.orbital_records@) =~= knot_views(
                    old(satellites)@[id].orbital_records@,
                ).push(knot@));
            }
            satellites.insert(id, present);
        },
        None => {
            let designator = knot.designator.clone();
            let mut orbital_records: Vec<Knot> = Vec::new();
            orbital_records.push(knot);
            proof {
                assert(knot_views(orbital_records@) =~= seq![knot@]);
            }
            satellites.insert(
                id,
                SatelliteRecord {
                    catalog_number: id,
                    international_designator: designator,
                    orbital_records,
                },
            );
        },
    }
    proof {
        assert(store_view(satellites@) =~= with_knot(store_view(old(satellites)@), knot@));
    }
}

/// Reads the satellites of an input, two lines to a knot.
///
/// Backslashes at the end of a line are taken off. A pair that is no
/// element record is dropped and listed, and the pairs after it are read
/// all the same. A knot that does not pass the filter is left out. An input
/// with an odd number of lines is refused as a whole.
#[verifier::rlimit(50)]
pub fn read_txt(lines: &Vec<Vec<u8>>, filter: &LeoFilter) -> (r: Result<Ingested, UnpairedLine>)
    ensures
        match r {
            Ok(found) => {
                &&& lines@.len() % 2 == 0
                &&& store_view(found.satellites@) == gathered(
                    lines@,
                    lines@.len() / 2,
                    *filter,
                )
                &&& rejection_views(found.rejected@) == faults(lines@, lines@.len() / 2)
            },
            Err(e) => lines@.len() % 2 == 1 && e.line@ == lines@.last()@,
        },
{
    let n = lines.len();
    if n % 2 == 1 {
        return Err(UnpairedLine { line: lines[n - 1].clone() });
    }
    let pairs = n / 2;
    let mut satellites: HashMap<u32, SatelliteRecord> = HashMap::new();
    let mut rejected: Vec<Rejection> = Vec::new();
    let mut i: usize = 0;
    proof {
        assert(store_view(satellites@) =~= gathered(lines@, 0, *filter));
        assert(rejection_views(rejected@) =~= faults(lines@, 0));
    }
    while i < pairs
        invariant
            i <= pairs,
            pairs * 2 == lines.len(),
            store_view(satellites@) == gathered(lines@, i as nat, *filter),
            rejection_views(rejected@) == faults(lines@, i as nat),
        decreases pairs - i,
    {
        let line1 = strip_continuation(lines[2 * i].as_slice());
        let line2 = strip_continuation(lines[2 * i + 1].as_slice());
        match decode(line1, line2) {
            Ok(knot) => {
                if filter.allows(&knot) {
                    add_knot(&mut satellites, knot);
                }
            },
            Err(error) => {
                let ghost before = rejected@;
                let ghost entry = (i as int, error.field, error.fault);
                rejected.push(Rejection { pair: i, error });
                proof {
                    assert(rejection_views(rejected@) =~= rejection_views(before).push(entry));
                }
            },
        }
        i += 1;
    }
    Ok(Ingested { satellites, rejected })
}

/// A knot that is taken in stays: whatever the pairs of lines before and
/// after it hold, a pair that is an element record and passes the filter has
/// its knot among the knots of its satellite.
#[verifier::rlimit(50)]
pub proof fn lemma_gathered_keeps(lines: Seq<Vec<u8>>, pairs: nat, filter: LeoFilter, pair: int)
    requires
        0 <= pair < pairs,
        admitted(lines, pair, filter) is Some,
    ensures
        ({
            let k = admitted(lines, pair, filter)->0;
            &&& gathered(lines, pairs, filter).contains_key(k.catalog_number)
            &&& gathered(lines, pairs, filter)[k.catalog_number].orbital_records.contains(k)
        }),
    decreases pairs,
{
    let k = admitted(lines, pair, filter)->0;
    let id = k.catalog_number;
    let before = gathered(lines, (pairs - 1) as nat, filter);
    if pair == pairs - 1 {
        let after = with_knot(before, k);
        if before.contains_key(id) {
            let knots = before[id].orbital_records.push(k);
            assert(knots[knots.len() - 1] == k);
        } else {
            assert(seq![k][0] == k);
        }
    } else {
        lemma_gathered_keeps(lines, (pairs - 1) as nat, filter, pair);
        match admitted(lines, pairs - 1, filter) {
            Some(other) => {
                if other.catalog_number == id {
                    let old_knots = before[id].orbital_records;
                    let j = choose|j: int| 0 <= j < old_knots.len() && old_knots[j] == k;
                    assert(old_knots.push(other)[j] == k);
                }
            },
            None => {},
        }
    }
}

} // verus!
