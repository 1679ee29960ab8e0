use decpack::pack;
use decpack::unpack;
use decpack::CodecError;
use decpack::PackedDecimals;
use decpack::Packer;
use rust_decimal::Decimal;
use std::str::FromStr;

fn varying(n: usize) -> Vec<Decimal> {
    let mut values = Vec::new();
    for i in 0..n {
        values.push(Decimal::new(i as i64 * 37 - 11, 3));
    }
    values
}

fn round_trips(values: &[Decimal]) {
    let packed = pack(values);
    assert_eq!(packed.count, values.len());
    for k in 0..4 {
        assert_eq!(packed.lane(k).len(), (values.len() + 256) / 257);
    }
    let decoded = unpack(&packed).unwrap();
    assert_eq!(decoded.len(), values.len());
    for (a, b) in decoded.iter().zip(values.iter()) {
        assert_eq!(a, b);
        assert_eq!(a.serialize(), b.serialize());
    }
}

#[test]
fn finalize_is_idempotent() {
    let values = varying(300);
    let mut packer = Packer::new();
    for d in values.iter() {
        packer.load_decimal(d);
    }
    packer.finalize();
    let once = packer.unload();
    packer.finalize();
    assert_eq!(packer.packed().count, 300);
    for k in 0..4 {
        assert_eq!(packer.packed().lane(k).len(), 2);
    }
    assert_eq!(packer.unload(), once);
}

#[test]
fn round_trip_lengths() {
    for n in [0usize, 1, 2, 255, 256, 257, 258, 512, 513, 514] {
        round_trips(&varying(n));
    }
}

#[test]
fn round_trip_extremes() {
    let values = [
        Decimal::MAX,
        Decimal::MIN,
        Decimal::from_str("0").unwrap(),
        Decimal::from_str("-0.00").unwrap(),
        Decimal::from_str("-12.5").unwrap(),
    ];
    round_trips(&values);
}

#[test]
fn delta_minimality() {
    let d = Decimal::from_str("1.23").unwrap();
    let values = vec![d; 257];
    let packed = pack(&values[..]);
    assert_eq!(packed.count, 257);
    for k in 0..4 {
        let lane = &packed.lane(k);
        assert_eq!(lane.len(), 1);
        assert_eq!(lane[0].bits(), 0);
        assert!(lane[0].vals().is_empty());
    }
    let decoded = unpack(&packed).unwrap();
    assert_eq!(decoded, values);
}

#[test]
fn truncation_one_chunk_plus_one() {
    let values = varying(257);
    let packed = pack(&values[..]);
    for k in 0..4 {
        assert_eq!(packed.lane(k).len(), 1);
    }
    assert_eq!(packed.count, 257);
    let decoded = unpack(&packed).unwrap();
    assert_eq!(decoded.len(), 257);
    assert_eq!(decoded, values);
}

#[test]
fn compression_slowly_varying() {
    let mut values = Vec::new();
    for i in 0..1000i64 {
        values.push(Decimal::new(i, 0));
    }
    let packed = pack(&values[..]);
    let mut packed_size = 8usize;
    for k in 0..4 {
        for b in packed.lane(k).iter() {
            packed_size += 1 + 4 + b.vals().len();
        }
    }
    let raw_size = 16usize * values.len();
    assert!(packed_size * 3 <= raw_size);
}

#[test]
fn concrete_scenario() {
    let mut packer = Packer::new();
    for _ in 0..65 {
        packer.load("8874.85").unwrap();
        packer.load("8875.14").unwrap();
        packer.load("8874.99").unwrap();
        packer.load("8874.98").unwrap();
    }
    packer.finalize();
    for k in 0..4 {
        assert_eq!(packer.packed().lane(k).len(), 2);
    }
    assert_eq!(packer.packed().count, 260);
    let unload = packer.unload();
    assert_eq!(unload.len(), 260);
    assert_eq!(unload[0], Decimal::from_str("8874.85").unwrap());
    for i in 0..65 {
        assert_eq!(unload[4 * i], Decimal::from_str("8874.85").unwrap());
        assert_eq!(unload[4 * i + 1], Decimal::from_str("8875.14").unwrap());
        assert_eq!(unload[4 * i + 2], Decimal::from_str("8874.99").unwrap());
        assert_eq!(unload[4 * i + 3], Decimal::from_str("8874.98").unwrap());
    }
}

#[test]
fn corrupt_stream_lane_mismatch() {
    let values = varying(10);
    let mut packed = pack(&values[..]);
    packed.lane0.pop();
    assert_eq!(unpack(&packed), Err(CodecError::CorruptStream));
}

#[test]
fn corrupt_stream_count_too_large() {
    let values = varying(10);
    let mut packed = pack(&values[..]);
    packed.count = 258;
    assert_eq!(unpack(&packed), Err(CodecError::CorruptStream));
}

#[test]
fn empty_stream_is_not_an_error() {
    let empty = PackedDecimals {
        lane0: Vec::new(),
        lane1: Vec::new(),
        lane2: Vec::new(),
        lane3: Vec::new(),
        count: 0,
    };
    assert_eq!(unpack(&empty), Ok(Vec::new()));

    let mut packer = Packer::new();
    packer.finalize();
    assert_eq!(packer.packed().count, 0);
    assert!(packer.unload().is_empty());
}

#[test]
fn parse_failure_leaves_packer_unchanged() {
    let mut packer = Packer::new();
    assert_eq!(packer.load("8874.85").ok(), Some(()));
    assert_eq!(packer.load("not a number"), Err(CodecError::ParseFailed));
    assert_eq!(packer.load(""), Err(CodecError::ParseFailed));
    packer.load("8875.14").unwrap();
    packer.finalize();
    let unload = packer.unload();
    assert_eq!(unload.len(), 2);
    assert_eq!(unload[0], Decimal::from_str("8874.85").unwrap());
    assert_eq!(unload[1], Decimal::from_str("8875.14").unwrap());
}

#[test]
fn trim_changes_parsed_scale() {
    let mut trimmed = Packer::new();
    trimmed.with_trim(true);
    trimmed.load("8874.85000000").unwrap();
    trimmed.finalize();
    let out = trimmed.unload();
    assert_eq!(out[0].scale(), 2);

    let mut untrimmed = Packer::new();
    untrimmed.with_trim(false);
    untrimmed.load("8874.85000000").unwrap();
    untrimmed.finalize();
    let out = untrimmed.unload();
    assert_eq!(out[0].scale(), 8);
    assert_eq!(out[0], Decimal::from_str("8874.85000000").unwrap());
}

#[test]
fn trim_strips_leading_and_trailing() {
    let mut packer = Packer::new();
    packer.load("10").unwrap();
    packer.finalize();
    let out = packer.unload();
    assert_eq!(out[0], Decimal::from_str("1").unwrap());
}

#[test]
fn unload_before_finalize_covers_flushed_chunks_only() {
    let values = varying(300);
    let mut packer = Packer::new();
    for d in values.iter() {
        packer.load_decimal(d);
    }
    let partial = packer.unload();
    assert_eq!(partial.len(), 257);
    assert_eq!(&partial[..], &values[..257]);
    packer.finalize();
    let full = packer.unload();
    assert_eq!(full.len(), 300);
    assert_eq!(&full[..], &values[..]);
}
