use std::collections::HashMap;

use rsig::builder::{build_local_diff_file, build_local_file, DiffSchema, Segment};
use rsig::diff::Diff;
use rsig::error::DeltaError;
use rsig::ops::Op;
use rsig::signature::Signature;

fn gen_data(n: usize, seed: u64) -> Vec<u8> {
    let mut x = seed;
    let mut v = Vec::with_capacity(n);
    for _ in 0..n {
        x = x.wrapping_mul(6364136223846793005).wrapping_add(1442695040888963407);
        v.push((x >> 33) as u8);
    }
    v
}

fn round_trip(source_data: &Vec<u8>, target_data: &Vec<u8>) -> Vec<u8> {
    let source = Signature::generate(source_data, 4096, 16384, 65536).unwrap();
    let target = Signature::generate(target_data, 4096, 16384, 65536).unwrap();
    let diff = Diff::new(&source, &target).unwrap();
    let (payload, schema) = build_local_diff_file(target_data, diff.insert_ops()).unwrap();
    build_local_file(source_data, diff.operations(), &payload, &schema).unwrap()
}

#[test]
fn payload_holds_insert_ranges() {
    let source_data = gen_data(120_000, 31);
    let mut target_data = source_data.clone();
    target_data.extend_from_slice(&gen_data(30_000, 32));
    let source = Signature::generate(&source_data, 4096, 16384, 65536).unwrap();
    let target = Signature::generate(&target_data, 4096, 16384, 65536).unwrap();
    let diff = Diff::new(&source, &target).unwrap();
    let (payload, schema) = build_local_diff_file(&target_data, diff.insert_ops()).unwrap();
    let total: usize = diff.insert_ops().iter().map(|op| op.length()).sum();
    assert_eq!(payload.len(), total);
    assert_eq!(schema.len(), diff.insert_ops().len());
    for op in diff.insert_ops().iter() {
        let seg = schema.get(&op.uuid()).expect("segment present for every insert id");
        assert_eq!(seg.length, op.length());
        let from_payload = &payload[seg.at as usize..seg.at as usize + seg.length];
        let from_target = &target_data[op.offset() as usize..op.offset() as usize + op.length()];
        assert_eq!(from_payload, from_target);
    }
}

#[test]
fn reconstruction_rebuilds_target_after_append() {
    let source_data = gen_data(150_000, 41);
    let mut target_data = source_data.clone();
    target_data.extend_from_slice(&gen_data(40_000, 42));
    assert_eq!(round_trip(&source_data, &target_data), target_data);
}

#[test]
fn reconstruction_rebuilds_target_after_middle_edit() {
    let source_data = gen_data(200_000, 51);
    let mut target_data = source_data[..100_000].to_vec();
    target_data.extend_from_slice(&gen_data(100, 52));
    target_data.extend_from_slice(&source_data[100_000..]);
    assert_eq!(round_trip(&source_data, &target_data), target_data);
}

#[test]
fn reconstruction_rebuilds_target_from_empty_source() {
    let source_data: Vec<u8> = Vec::new();
    let target_data = gen_data(80_000, 61);
    assert_eq!(round_trip(&source_data, &target_data), target_data);
}

#[test]
fn reconstruction_rebuilds_truncated_target() {
    let source_data = gen_data(180_000, 71);
    let target_data = source_data[..130_000].to_vec();
    assert_eq!(round_trip(&source_data, &target_data), target_data);
}

#[test]
fn mismatched_schema_fails_with_missing_segment() {
    let source_data = gen_data(100_000, 81);
    let mut target_data = source_data.clone();
    target_data.extend_from_slice(&gen_data(20_000, 82));
    let source = Signature::generate(&source_data, 4096, 16384, 65536).unwrap();
    let target = Signature::generate(&target_data, 4096, 16384, 65536).unwrap();
    let diff = Diff::new(&source, &target).unwrap();
    assert!(diff.insert_ops().len() > 0);
    let (payload, _) = build_local_diff_file(&target_data, diff.insert_ops()).unwrap();
    // A schema built from someone else's inserts: reconstruction must fail,
    // naming the id, rather than silently skipping the insert.
    let wrong_schema: DiffSchema = HashMap::new();
    let r = build_local_file(&source_data, diff.operations(), &payload, &wrong_schema);
    let expected_id = diff
        .operations()
        .iter()
        .find_map(|op| match op {
            rsig::ops::Operation::INSERT(i) => Some(i.uuid()),
            _ => None,
        })
        .unwrap();
    assert_eq!(r.err(), Some(DeltaError::MissingSegment(expected_id)));
}

#[test]
fn insert_out_of_target_bounds_fails() {
    let target_data = gen_data(1000, 91);
    let ops = vec![rsig::ops::InsertOp { offset: 900, length: 200, uuid: 0 }];
    let r = build_local_diff_file(&target_data, &ops);
    assert_eq!(r.err(), Some(DeltaError::InsertOutOfBounds));
}

#[test]
fn copy_out_of_source_bounds_fails() {
    let source_data = gen_data(1000, 92);
    let ops = vec![rsig::ops::Operation::COPY(rsig::ops::CopyOp {
        source_offset: 900,
        offset: 0,
        length: 200,
    })];
    let schema: DiffSchema = HashMap::new();
    let r = build_local_file(&source_data, &ops, &Vec::new(), &schema);
    assert_eq!(r.err(), Some(DeltaError::CopyOutOfBounds));
}

#[test]
fn segment_out_of_payload_bounds_fails() {
    let source_data = gen_data(1000, 93);
    let ops = vec![rsig::ops::Operation::INSERT(rsig::ops::InsertOp {
        offset: 0,
        length: 100,
        uuid: 7,
    })];
    let mut schema: DiffSchema = HashMap::new();
    schema.insert(7, Segment { at: 0, length: 100 });
    let payload: Vec<u8> = vec![0; 50];
    let r = build_local_file(&source_data, &ops, &payload, &schema);
    assert_eq!(r.err(), Some(DeltaError::SegmentOutOfBounds));
}

#[test]
fn reconstruction_of_empty_operation_list_is_empty() {
    let schema: DiffSchema = HashMap::new();
    let out = build_local_file(&Vec::new(), &Vec::new(), &Vec::new(), &schema).unwrap();
    assert_eq!(out.len(), 0);
}
