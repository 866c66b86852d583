use rust_leo_sim::codec::write_tle_data;
use rust_leo_sim::knot::Knot;
use rust_leo_sim::sampler::{SampledState, Vector3};
use rust_leo_sim::scientific::Scientific;
use rust_leo_sim::writer::{
    append_arc, compress, file_name, format_step, frame_or_failure, stream, write_time_steps,
    AppendError, Arc, CompressionFailed, Shard, ShardBuffer, StreamError,
    DEFAULT_MAX_SHARD_SIZE,
};

fn knot(day: u64) -> Knot {
    Knot {
        catalog_number: 25544,
        designator: b"98067A".to_vec(),
        epoch_year: 2024,
        epoch_day: day,
        mean_motion_dot: 14389,
        mean_motion_ddot: Scientific { negative: false, mantissa: 0, digits: 5, exponent: 0 },
        bstar: Scientific { negative: false, mantissa: 25222, digits: 5, exponent: -3 },
        ephemeris_type: 0,
        element_number: 999,
        inclination: 516_403,
        raan: 1_068_969,
        eccentricity: 7877,
        arg_of_perigee: 61_421,
        mean_anomaly: 1_132_479,
        mean_motion: 1_550_801_739,
        rev_number: 48761,
    }
}

fn state(time: i64) -> SampledState {
    SampledState {
        time,
        position: Vector3 {
            x: format!("{}", 6878.137f64).into_bytes(),
            y: format!("{}", -0.5f64).into_bytes(),
            z: format!("{}", 1e-7f64).into_bytes(),
        },
        velocity: Vector3 {
            x: format!("{}", 0.0f64).into_bytes(),
            y: format!("{}", 7.6126f64).into_bytes(),
            z: format!("{}", -1234567.25f64).into_bytes(),
        },
    }
}

fn arc(day: u64, samples: usize) -> Arc {
    Arc { knot: knot(day), samples: (0..samples).map(|i| state(i as i64 * 1_000_000)).collect() }
}

fn text_of(arc: &Arc) -> Vec<u8> {
    let mut out = Vec::new();
    write_tle_data(&mut out, &arc.knot).unwrap();
    out.extend(write_time_steps(&arc.samples).unwrap());
    out
}

#[test]
fn line_of_a_sample() {
    assert_eq!(
        String::from_utf8(format_step(&state(1_734_789_761_190_144)).unwrap()).unwrap(),
        "1734789761.190144,6878.137,-0.5,0.0000001,0,7.6126,-1234567.25\n"
    );
}

#[test]
fn time_of_a_sample_has_six_decimals() {
    let line = |t: i64| {
        let text = String::from_utf8(format_step(&state(t)).unwrap()).unwrap();
        text.split(',').next().unwrap().to_string()
    };
    assert_eq!(line(0), "0.000000");
    assert_eq!(line(1), "0.000001");
    assert_eq!(line(-1), "-0.000001");
    assert_eq!(line(1_500_000), "1.500000");
    assert_eq!(line(-86_400_000_000), "-86400.000000");
    assert_eq!(line(i64::MAX), "9223372036854.775807");
    assert_eq!(line(i64::MIN), "-9223372036854.775808");
}

#[test]
fn a_sample_with_a_bad_number_is_not_written() {
    let mut bad = state(0);
    bad.position.y = b"1,5".to_vec();
    assert_eq!(format_step(&bad), None);
    bad.position.y = Vec::new();
    assert_eq!(format_step(&bad), None);
    assert_eq!(write_time_steps(&vec![state(0), state(1), bad, state(3)]), Err(2));
}

#[test]
fn lines_of_samples_follow_each_other() {
    let mut expected = format_step(&state(5)).unwrap();
    expected.extend(format_step(&state(7)).unwrap());
    assert_eq!(write_time_steps(&vec![state(5), state(7)]), Ok(expected));
    assert_eq!(write_time_steps(&Vec::new()), Ok(Vec::new()));
}

#[test]
fn a_new_buffer_is_empty() {
    let buffer = ShardBuffer::new(25544, 1000);
    assert_eq!(buffer.satellite_id(), 25544);
    assert_eq!(buffer.shard_index(), 0);
    assert_eq!(buffer.estimate(), 0);
    assert!(buffer.is_empty());
    assert_eq!(buffer.finish(), None);
}

#[test]
fn the_estimate_grows_with_each_append() {
    let mut buffer = ShardBuffer::new(1, 1000);
    assert_eq!(buffer.append_bytes(vec![b'a'; 400]), Ok(None));
    assert_eq!(buffer.estimate(), 400);
    assert_eq!(buffer.append_bytes(Vec::new()), Ok(None));
    assert_eq!(buffer.estimate(), 400);
    assert_eq!(buffer.append_bytes(vec![b'b'; 600]), Ok(None));
    assert_eq!(buffer.estimate(), 1000);
    assert_eq!(buffer.shard_index(), 0);
}

#[test]
fn the_append_that_exceeds_the_budget_cuts_a_shard_at_once() {
    let mut buffer = ShardBuffer::new(1, 1000);
    assert_eq!(buffer.append_bytes(vec![b'a'; 400]), Ok(None));
    assert_eq!(buffer.append_bytes(vec![b'b'; 600]), Ok(None));
    let mut all = vec![b'a'; 400];
    all.extend(vec![b'b'; 600]);
    all.push(b'c');
    assert_eq!(buffer.append_bytes(vec![b'c']), Ok(Some(Shard { index: 0, content: all })));
    assert_eq!(buffer.estimate(), 0);
    assert!(buffer.is_empty());
    assert_eq!(buffer.shard_index(), 1);
}

#[test]
fn a_single_append_over_the_budget_is_cut_alone() {
    let mut buffer = ShardBuffer::new(1, 10);
    assert_eq!(
        buffer.append_bytes(vec![b'x'; 11]),
        Ok(Some(Shard { index: 0, content: vec![b'x'; 11] }))
    );
    assert_eq!(buffer.append_bytes(vec![b'y'; 10]), Ok(None));
    assert_eq!(
        buffer.append_bytes(vec![b'z'; 1]),
        Ok(Some(Shard { index: 1, content: b"yyyyyyyyyyz".to_vec() }))
    );
    assert_eq!(buffer.shard_index(), 2);
}

#[test]
fn a_budget_of_zero_cuts_at_every_append_that_holds_something() {
    let mut buffer = ShardBuffer::new(1, 0);
    assert_eq!(buffer.append_bytes(Vec::new()), Ok(None));
    assert_eq!(buffer.append_bytes(vec![1]), Ok(Some(Shard { index: 0, content: vec![1] })));
    assert_eq!(buffer.append_bytes(vec![2]), Ok(Some(Shard { index: 1, content: vec![2] })));
}

#[test]
fn the_end_of_the_stream_cuts_what_is_left() {
    let mut buffer = ShardBuffer::new(1, 1000);
    buffer.append_bytes(vec![b'a'; 3]).unwrap();
    assert_eq!(buffer.finish(), Some(Shard { index: 0, content: b"aaa".to_vec() }));
    let mut buffer = ShardBuffer::new(1, 2);
    buffer.append_bytes(vec![b'a'; 3]).unwrap();
    assert_eq!(buffer.finish(), None);
}

#[test]
fn an_arc_is_appended_as_its_record_and_its_lines() {
    let mut buffer = ShardBuffer::new(25544, 100_000);
    let one = arc(100_000_000, 3);
    assert_eq!(buffer.append(&one.knot, &one.samples), Ok(None));
    assert_eq!(buffer.estimate(), text_of(&one).len());
    assert_eq!(buffer.estimate(), 140 + 3 * format_step(&state(0)).unwrap().len());
    assert_eq!(buffer.finish(), Some(Shard { index: 0, content: text_of(&one) }));
}

#[test]
fn an_arc_that_cannot_be_written_changes_nothing() {
    let mut buffer = ShardBuffer::new(25544, 100_000);
    let good = arc(100_000_000, 2);
    buffer.append(&good.knot, &good.samples).unwrap();
    let before = buffer.estimate();

    let mut bad_knot = arc(200_000_000, 2);
    bad_knot.knot.raan = 10_000_000;
    assert_eq!(buffer.append(&bad_knot.knot, &bad_knot.samples), Err(AppendError::InvalidKnot));
    assert_eq!(buffer.estimate(), before);

    let mut bad_sample = arc(200_000_000, 4);
    bad_sample.samples[3].velocity.x = b"\n".to_vec();
    assert_eq!(
        buffer.append(&bad_sample.knot, &bad_sample.samples),
        Err(AppendError::InvalidSample(3))
    );
    bad_sample.knot.raan = 10_000_000;
    assert_eq!(
        buffer.append(&bad_sample.knot, &bad_sample.samples),
        Err(AppendError::InvalidKnot)
    );
    assert_eq!(buffer.estimate(), before);
    assert_eq!(buffer.finish(), Some(Shard { index: 0, content: text_of(&good) }));
}

#[test]
fn shards_put_together_are_the_whole_stream() {
    let arcs: Vec<Arc> = (0..20).map(|i| arc(100_000_000 + i, (i % 5) as usize)).collect();
    let whole: Vec<u8> = arcs.iter().flat_map(|a| text_of(a)).collect();
    for budget in [0usize, 1, 139, 140, 141, 300, 1000, 5000, 1_000_000] {
        let shards = stream(25544, budget, &arcs).unwrap();
        let joined: Vec<u8> = shards.iter().flat_map(|s| s.content.clone()).collect();
        assert_eq!(joined, whole);
        for (i, shard) in shards.iter().enumerate() {
            assert_eq!(shard.index, i as u64);
            assert!(!shard.content.is_empty());
        }
        if budget == 1_000_000 {
            assert_eq!(shards.len(), 1);
        }
        if budget < 140 {
            assert_eq!(shards.len(), 20);
        }
    }
}

#[test]
fn a_stream_without_arcs_has_no_shard() {
    assert_eq!(stream(1, 100, &Vec::new()), Ok(Vec::new()));
}

#[test]
fn a_stream_stops_at_the_first_arc_that_cannot_be_written() {
    let mut arcs: Vec<Arc> = (0..5).map(|i| arc(100_000_000 + i, 2)).collect();
    arcs[3].samples[1].position.z = b"".to_vec();
    arcs[4].knot.catalog_number = 100_000;
    assert_eq!(
        stream(1, 100, &arcs),
        Err(StreamError { arc: 3, cause: AppendError::InvalidSample(1) })
    );
    arcs[2].knot.mean_motion = 0;
    assert_eq!(stream(1, 100, &arcs), Err(StreamError { arc: 2, cause: AppendError::InvalidKnot }));
}

#[test]
fn arcs_are_appended_one_by_one() {
    let mut buffer = ShardBuffer::new(1, 200);
    let mut shards = Vec::new();
    assert_eq!(append_arc(&mut buffer, &mut shards, &arc(100_000_000, 0)), Ok(()));
    assert!(shards.is_empty());
    assert_eq!(buffer.estimate(), 140);
    assert_eq!(append_arc(&mut buffer, &mut shards, &arc(200_000_000, 0)), Ok(()));
    assert_eq!(shards.len(), 1);
    assert_eq!(shards[0].content.len(), 280);
    assert_eq!(buffer.estimate(), 0);
    let mut bad = arc(300_000_000, 0);
    bad.knot.rev_number = 100_000;
    assert_eq!(append_arc(&mut buffer, &mut shards, &bad), Err(AppendError::InvalidKnot));
    assert_eq!(shards.len(), 1);
}

#[test]
fn names_of_shard_files() {
    assert_eq!(
        String::from_utf8(file_name(25544, 0, true)).unwrap(),
        "integration_25544_0.txt.zst"
    );
    assert_eq!(String::from_utf8(file_name(5, 12, false)).unwrap(), "integration_5_12.txt");
    assert_eq!(String::from_utf8(file_name(0, 0, false)).unwrap(), "integration_0_0.txt");
    assert_eq!(
        String::from_utf8(file_name(u32::MAX, u64::MAX, true)).unwrap(),
        "integration_4294967295_18446744073709551615.txt.zst"
    );
}

#[test]
fn a_compressed_shard_can_be_read_back() {
    let content: Vec<u8> = text_of(&arc(100_000_000, 50));
    let frame = compress(&content, 3).unwrap();
    assert_ne!(frame, content);
    assert!(frame.len() < content.len());
    assert_eq!(&frame[..4], &[0x28, 0xb5, 0x2f, 0xfd]);
    assert_eq!(zstd::stream::decode_all(&frame[..]).unwrap(), content);
}

#[test]
fn compression_gives_the_same_frame_for_the_same_bytes() {
    let content: Vec<u8> = text_of(&arc(100_000_000, 20));
    assert_eq!(compress(&content, 1), compress(&content, 1));
    assert_eq!(compress(&content, 19), compress(&content, 19));
    let empty = compress(b"", 0).unwrap();
    assert_eq!(zstd::stream::decode_all(&empty[..]).unwrap(), Vec::<u8>::new());
}

#[test]
fn the_default_budget_is_a_gibibyte() {
    assert_eq!(DEFAULT_MAX_SHARD_SIZE, 1 << 30);
}

#[test]
fn a_stream_is_taken_up_again_at_a_shard_number() {
    let mut buffer = ShardBuffer::resume(25544, 4, 17);
    assert_eq!(buffer.satellite_id(), 25544);
    assert_eq!(buffer.shard_index(), 17);
    assert!(buffer.is_empty());
    assert_eq!(
        buffer.append_bytes(b"hello".to_vec()),
        Ok(Some(Shard { index: 17, content: b"hello".to_vec() }))
    );
    assert_eq!(buffer.append_bytes(b"abc".to_vec()), Ok(None));
    assert_eq!(buffer.finish(), Some(Shard { index: 18, content: b"abc".to_vec() }));
}

#[test]
fn the_last_shard_number_is_not_passed() {
    let mut buffer = ShardBuffer::resume(1, 4, u64::MAX);
    assert_eq!(buffer.append_bytes(b"abc".to_vec()), Ok(None));
    assert_eq!(buffer.append_bytes(b"de".to_vec()), Err(AppendError::IndexExhausted));
    assert_eq!(buffer.estimate(), 3);
    assert_eq!(buffer.shard_index(), u64::MAX);
    let one = arc(100_000_000, 1);
    assert_eq!(buffer.append(&one.knot, &one.samples), Err(AppendError::IndexExhausted));
    assert_eq!(buffer.append_bytes(b"d".to_vec()), Ok(None));
    assert_eq!(buffer.finish(), Some(Shard { index: u64::MAX, content: b"abcd".to_vec() }));

    let mut buffer = ShardBuffer::resume(1, 4, u64::MAX - 1);
    assert_eq!(
        buffer.append_bytes(b"abcde".to_vec()),
        Ok(Some(Shard { index: u64::MAX - 1, content: b"abcde".to_vec() }))
    );
    assert_eq!(buffer.append_bytes(b"abcde".to_vec()), Err(AppendError::IndexExhausted));
}

#[test]
fn the_answer_of_the_compressor_is_a_frame_or_a_failure() {
    assert_eq!(frame_or_failure(Ok(vec![0x28, 0xb5, 0x2f, 0xfd])), Ok(vec![0x28, 0xb5, 0x2f, 0xfd]));
    assert_eq!(frame_or_failure(Ok(Vec::new())), Ok(Vec::new()));
    let refused = std::io::Error::new(std::io::ErrorKind::OutOfMemory, "no memory");
    assert_eq!(frame_or_failure(Err(refused)), Err(CompressionFailed));
    let other = std::io::Error::new(std::io::ErrorKind::Other, "unknown");
    assert_eq!(frame_or_failure(Err(other)), Err(CompressionFailed));
}
