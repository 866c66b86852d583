use rust_leo_sim::codec::{write_line1, write_line2, Fault, Field};
use rust_leo_sim::knot::Knot;
use rust_leo_sim::scientific::Scientific;
use rust_leo_sim::store::{
    add_knot, catalog_numbers, extend_record, merge_satellite_hashmaps, read_txt,
    strip_continuation, LeoFilter, SatelliteRecord,
};
use std::collections::HashMap;

fn knot(catalog_number: u32, day: u64) -> Knot {
    Knot {
        catalog_number,
        designator: b"98067A".to_vec(),
        epoch_year: 2024,
        epoch_day: day,
        mean_motion_dot: 14389,
        mean_motion_ddot: Scientific { negative: false, mantissa: 0, digits: 5, exponent: 0 },
        bstar: Scientific { negative: false, mantissa: 25222, digits: 5, exponent: -3 },
        ephemeris_type: 0,
        element_number: 999,
        inclination: 516_403,
        raan: 1_068_969,
        eccentricity: 7877,
        arg_of_perigee: 61_421,
        mean_anomaly: 1_132_479,
        mean_motion: 1_550_801_739,
        rev_number: 48761,
    }
}

fn record(catalog_number: u32, days: &[u64]) -> SatelliteRecord {
    SatelliteRecord {
        catalog_number,
        international_designator: b"98067A".to_vec(),
        orbital_records: days.iter().map(|d| knot(catalog_number, *d)).collect(),
    }
}

fn lines_of(knots: &[Knot]) -> Vec<Vec<u8>> {
    let mut lines = Vec::new();
    for k in knots {
        lines.push(write_line1(k).unwrap());
        lines.push(write_line2(k).unwrap());
    }
    lines
}

#[test]
fn merging_puts_the_incoming_knots_behind_those_kept() {
    let mut kept = HashMap::new();
    kept.insert(7, record(7, &[300_000_000, 100_000_000]));
    let mut lost = HashMap::new();
    lost.insert(7, record(7, &[200_000_000, 50_000_000]));
    merge_satellite_hashmaps(&mut kept, lost);
    assert_eq!(kept.len(), 1);
    assert_eq!(kept[&7], record(7, &[300_000_000, 100_000_000, 200_000_000, 50_000_000]));
}

#[test]
fn merging_keeps_the_record_that_was_there_first() {
    let mut kept = HashMap::new();
    kept.insert(7, record(7, &[100_000_000]));
    let mut other = record(7, &[200_000_000]);
    other.international_designator = b"OTHER".to_vec();
    other.catalog_number = 8;
    let mut lost = HashMap::new();
    lost.insert(7, other);
    merge_satellite_hashmaps(&mut kept, lost);
    assert_eq!(kept[&7].catalog_number, 7);
    assert_eq!(kept[&7].international_designator, b"98067A".to_vec());
    assert_eq!(kept[&7].orbital_records.len(), 2);
}

#[test]
fn merging_takes_in_new_satellites_and_leaves_the_others() {
    let mut kept = HashMap::new();
    kept.insert(1, record(1, &[100_000_000]));
    kept.insert(2, record(2, &[100_000_000]));
    let mut lost = HashMap::new();
    lost.insert(2, record(2, &[200_000_000]));
    lost.insert(3, record(3, &[300_000_000, 400_000_000]));
    merge_satellite_hashmaps(&mut kept, lost);
    assert_eq!(kept.len(), 3);
    assert_eq!(kept[&1], record(1, &[100_000_000]));
    assert_eq!(kept[&2], record(2, &[100_000_000, 200_000_000]));
    assert_eq!(kept[&3], record(3, &[300_000_000, 400_000_000]));
}

#[test]
fn merging_with_an_empty_map() {
    let mut kept = HashMap::new();
    kept.insert(1, record(1, &[100_000_000]));
    merge_satellite_hashmaps(&mut kept, HashMap::new());
    assert_eq!(kept.len(), 1);
    assert_eq!(kept[&1], record(1, &[100_000_000]));
    let mut empty = HashMap::new();
    merge_satellite_hashmaps(&mut empty, kept);
    assert_eq!(empty.len(), 1);
    assert_eq!(empty[&1], record(1, &[100_000_000]));
}

#[test]
fn catalog_numbers_of_a_map() {
    let mut map = HashMap::new();
    map.insert(3, record(3, &[]));
    map.insert(1, record(1, &[]));
    map.insert(2, record(2, &[]));
    let mut ids = catalog_numbers(&map);
    ids.sort();
    assert_eq!(ids, vec![1, 2, 3]);
}

#[test]
fn a_record_is_extended() {
    let mut kept = record(1, &[100_000_000]);
    extend_record(&mut kept, record(9, &[200_000_000, 300_000_000]));
    assert_eq!(kept.catalog_number, 1);
    assert_eq!(kept.orbital_records.len(), 3);
    assert_eq!(kept.orbital_records[2].epoch_day, 300_000_000);
    assert_eq!(kept.orbital_records[1].catalog_number, 9);
}

#[test]
fn backslashes_at_the_end_are_taken_off() {
    assert_eq!(strip_continuation(b"abc\\"), b"abc");
    assert_eq!(strip_continuation(b"abc\\\\\\"), b"abc");
    assert_eq!(strip_continuation(b"a\\bc"), b"a\\bc");
    assert_eq!(strip_continuation(b"\\\\"), b"");
    assert_eq!(strip_continuation(b""), b"");
    assert_eq!(strip_continuation(b"abc\\ "), b"abc\\ ");
}

#[test]
fn the_filter_for_low_earth_orbit() {
    let filter = LeoFilter::low_earth_orbit();
    assert_eq!(filter.eccentricity_below, 2_500_000);
    assert_eq!(filter.mean_motion_above, 1_125_000_000);
    let mut k = knot(1, 100_000_000);
    assert!(filter.allows(&k));
    k.eccentricity = 2_499_999;
    assert!(filter.allows(&k));
    k.eccentricity = 2_500_000;
    assert!(!filter.allows(&k));
    k.eccentricity = 0;
    k.mean_motion = 1_125_000_001;
    assert!(filter.allows(&k));
    k.mean_motion = 1_125_000_000;
    assert!(!filter.allows(&k));
}

#[test]
fn knots_are_put_under_their_satellite() {
    let mut map = HashMap::new();
    add_knot(&mut map, knot(5, 100_000_000));
    add_knot(&mut map, knot(6, 200_000_000));
    add_knot(&mut map, knot(5, 300_000_000));
    assert_eq!(map.len(), 2);
    assert_eq!(map[&5], record(5, &[100_000_000, 300_000_000]));
    assert_eq!(map[&6], record(6, &[200_000_000]));
}

#[test]
fn lines_are_read_in_pairs() {
    let knots = vec![knot(5, 300_000_000), knot(6, 200_000_000), knot(5, 100_000_000)];
    let found = read_txt(&lines_of(&knots), &LeoFilter::low_earth_orbit()).unwrap();
    assert!(found.rejected.is_empty());
    assert_eq!(found.satellites.len(), 2);
    assert_eq!(found.satellites[&5], record(5, &[300_000_000, 100_000_000]));
    assert_eq!(found.satellites[&6], record(6, &[200_000_000]));
}

#[test]
fn a_bad_pair_does_not_stop_the_pairs_after_it() {
    let knots = vec![knot(5, 100_000_000), knot(5, 200_000_000), knot(5, 300_000_000)];
    let mut lines = lines_of(&knots);
    lines[2][20] = b'x';
    let found = read_txt(&lines, &LeoFilter::low_earth_orbit()).unwrap();
    assert_eq!(found.satellites[&5], record(5, &[100_000_000, 300_000_000]));
    assert_eq!(found.rejected.len(), 1);
    assert_eq!(found.rejected[0].pair, 1);
    assert_eq!(found.rejected[0].error.field, Field::EpochDay);
    assert_eq!(found.rejected[0].error.fault, Fault::Malformed);
    assert_eq!(found.rejected[0].error.line1, lines[2]);
    assert_eq!(found.rejected[0].error.line2, lines[3]);
}

#[test]
fn every_bad_pair_is_listed_in_order() {
    let knots = vec![knot(5, 100_000_000), knot(6, 200_000_000), knot(7, 300_000_000)];
    let mut lines = lines_of(&knots);
    lines[0].truncate(40);
    lines[5][0] = b'1';
    let found = read_txt(&lines, &LeoFilter::low_earth_orbit()).unwrap();
    assert_eq!(found.satellites.len(), 1);
    assert_eq!(found.satellites[&6], record(6, &[200_000_000]));
    let listed: Vec<(usize, Field, Fault)> =
        found.rejected.iter().map(|r| (r.pair, r.error.field, r.error.fault)).collect();
    assert_eq!(
        listed,
        vec![(0, Field::MeanMotionDot, Fault::Missing), (2, Field::LineTwo, Fault::WrongLine)]
    );
}

#[test]
fn knots_outside_the_filter_are_left_out() {
    let mut slow = knot(8, 100_000_000);
    slow.mean_motion = 100_273_791;
    let mut oval = knot(9, 100_000_000);
    oval.eccentricity = 7_000_000;
    let knots = vec![slow, knot(5, 100_000_000), oval];
    let found = read_txt(&lines_of(&knots), &LeoFilter::low_earth_orbit()).unwrap();
    assert!(found.rejected.is_empty());
    assert_eq!(found.satellites.len(), 1);
    assert_eq!(found.satellites[&5], record(5, &[100_000_000]));
    let all = LeoFilter { eccentricity_below: 10_000_000, mean_motion_above: 0 };
    assert_eq!(read_txt(&lines_of(&knots), &all).unwrap().satellites.len(), 3);
}

#[test]
fn continuation_marks_are_taken_off_before_reading() {
    let knots = vec![knot(5, 100_000_000)];
    let mut lines = lines_of(&knots);
    lines[0].extend_from_slice(b" \\");
    lines[1].extend_from_slice(b"\\\\");
    let found = read_txt(&lines, &LeoFilter::low_earth_orbit()).unwrap();
    assert_eq!(found.satellites[&5], record(5, &[100_000_000]));
}

#[test]
fn an_odd_number_of_lines_is_refused() {
    let knots = vec![knot(5, 100_000_000), knot(6, 200_000_000)];
    let mut lines = lines_of(&knots);
    lines.pop();
    let e = read_txt(&lines, &LeoFilter::low_earth_orbit()).unwrap_err();
    assert_eq!(e.line, lines[2]);
    let e = read_txt(&vec![b"alone".to_vec()], &LeoFilter::low_earth_orbit()).unwrap_err();
    assert_eq!(e.line, b"alone".to_vec());
}

#[test]
fn no_lines_give_no_satellites() {
    let found = read_txt(&Vec::new(), &LeoFilter::low_earth_orbit()).unwrap();
    assert!(found.satellites.is_empty());
    assert!(found.rejected.is_empty());
}

#[test]
fn the_designator_of_a_satellite_is_that_of_its_first_knot() {
    let mut second = knot(5, 200_000_000);
    second.designator = b"LATER".to_vec();
    let knots = vec![knot(5, 100_000_000), second];
    let found = read_txt(&lines_of(&knots), &LeoFilter::low_earth_orbit()).unwrap();
    assert_eq!(found.satellites[&5].international_designator, b"98067A".to_vec());
    assert_eq!(found.satellites[&5].orbital_records[1].designator, b"LATER".to_vec());
}
