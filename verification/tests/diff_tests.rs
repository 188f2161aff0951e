use rsig::diff::Diff;
use rsig::digest::Digest;
use rsig::ops::{Op, Operation};
use rsig::signature::{Chunk, Signature};

fn gen_data(n: usize, seed: u64) -> Vec<u8> {
    let mut x = seed;
    let mut v = Vec::with_capacity(n);
    for _ in 0..n {
        x = x.wrapping_mul(6364136223846793005).wrapping_add(1442695040888963407);
        v.push((x >> 33) as u8);
    }
    v
}

fn d(n: u64) -> Digest {
    Digest { w0: n, w1: 0, w2: 0, w3: 0 }
}

fn chunk(offset: u64, length: usize, h: u64) -> Chunk {
    Chunk { length, offset, strong_hash: d(h) }
}

#[test]
fn equal_signatures_give_no_diff() {
    let data = gen_data(100_000, 3);
    let a = Signature::generate(&data, 4096, 16384, 65536).unwrap();
    let b = Signature::generate(&data, 4096, 16384, 65536).unwrap();
    assert!(Diff::new(&a, &b).is_none());
}

#[test]
fn empty_source_gives_single_insert() {
    let source = Signature::generate(&Vec::new(), 4096, 16384, 65536).unwrap();
    let data = gen_data(100_000, 5);
    let target = Signature::generate(&data, 4096, 16384, 65536).unwrap();
    let diff = Diff::new(&source, &target).unwrap();
    assert_eq!(diff.copy_ops().len(), 0);
    assert_eq!(diff.insert_ops().len(), 1);
    let ins = diff.insert_ops()[0];
    assert_eq!(ins.offset(), 0);
    assert_eq!(ins.length(), data.len());
    assert_eq!(diff.insert_length(), data.len());
    assert_eq!(diff.copy_length(), 0);
}

#[test]
fn coverage_sums_to_target_length() {
    let source_data = gen_data(200_000, 11);
    let mut target_data = source_data[..100_000].to_vec();
    target_data.extend_from_slice(&gen_data(50_000, 12));
    let source = Signature::generate(&source_data, 4096, 16384, 65536).unwrap();
    let target = Signature::generate(&target_data, 4096, 16384, 65536).unwrap();
    let diff = Diff::new(&source, &target).unwrap();
    assert_eq!(diff.copy_length() + diff.insert_length(), target_data.len());
    let total: usize = diff
        .operations()
        .iter()
        .map(|op| match op {
            Operation::COPY(c) => c.length(),
            Operation::INSERT(i) => i.length(),
        })
        .sum();
    assert_eq!(total, target_data.len());
}

#[test]
fn operations_ascend_without_gaps() {
    let source_data = gen_data(150_000, 21);
    let mut target_data = source_data.clone();
    // Insert 100 novel bytes in the middle.
    let novel = gen_data(100, 22);
    for (i, b) in novel.iter().enumerate() {
        target_data.insert(75_000 + i, *b);
    }
    let source = Signature::generate(&source_data, 4096, 16384, 65536).unwrap();
    let target = Signature::generate(&target_data, 4096, 16384, 65536).unwrap();
    let diff = Diff::new(&source, &target).unwrap();
    let ops = diff.operations();
    assert!(ops.len() > 0);
    assert_eq!(ops[0].offset(), 0);
    let mut expected: u64 = 0;
    for op in ops.iter() {
        assert_eq!(op.offset(), expected);
        let len = match op {
            Operation::COPY(c) => c.length(),
            Operation::INSERT(i) => i.length(),
        };
        assert!(len > 0);
        expected += len as u64;
    }
    assert_eq!(expected, target_data.len() as u64);
    assert!(diff.insert_length() >= 100);
}

#[test]
fn adjacent_copies_chain_into_one() {
    // Three source chunks; the target carries the same three in the same
    // order, so all three collapse into a single copy spanning everything.
    let source = Signature::new(
        d(1),
        300,
        vec![chunk(0, 100, 10), chunk(100, 120, 11), chunk(220, 80, 12)],
    )
    .unwrap();
    let target = Signature::new(
        d(2),
        300,
        vec![chunk(0, 100, 10), chunk(100, 120, 11), chunk(220, 80, 12)],
    )
    .unwrap();
    let diff = Diff::new(&source, &target).unwrap();
    assert_eq!(diff.copy_ops().len(), 1);
    assert_eq!(diff.insert_ops().len(), 0);
    let cp = diff.copy_ops()[0];
    assert_eq!(cp.source_offset(), 0);
    assert_eq!(cp.offset(), 0);
    assert_eq!(cp.length(), 300);
    assert_eq!(diff.copy_length(), 300);
    assert_eq!(diff.insert_length(), 0);
}

#[test]
fn adjacent_inserts_chain_into_one() {
    let source = Signature::new(d(1), 100, vec![chunk(0, 100, 10)]).unwrap();
    let target = Signature::new(
        d(2),
        250,
        vec![chunk(0, 100, 20), chunk(100, 150, 21)],
    )
    .unwrap();
    let diff = Diff::new(&source, &target).unwrap();
    assert_eq!(diff.copy_ops().len(), 0);
    assert_eq!(diff.insert_ops().len(), 1);
    let ins = diff.insert_ops()[0];
    assert_eq!(ins.offset(), 0);
    assert_eq!(ins.length(), 250);
}

#[test]
fn non_contiguous_copies_do_not_chain() {
    // Target reuses source chunks in swapped order: contiguous in the
    // target but not in the source, so the two copies stay separate.
    let source = Signature::new(d(1), 200, vec![chunk(0, 100, 10), chunk(100, 100, 11)]).unwrap();
    let target = Signature::new(d(2), 200, vec![chunk(0, 100, 11), chunk(100, 100, 10)]).unwrap();
    let diff = Diff::new(&source, &target).unwrap();
    assert_eq!(diff.copy_ops().len(), 2);
    assert_eq!(diff.copy_ops()[0].source_offset(), 100);
    assert_eq!(diff.copy_ops()[1].source_offset(), 0);
}

#[test]
fn truncated_target_gives_single_copy() {
    let source = Signature::new(d(1), 300, vec![chunk(0, 100, 10), chunk(100, 100, 11), chunk(200, 100, 12)]).unwrap();
    let target = Signature::new(d(2), 200, vec![chunk(0, 100, 10), chunk(100, 100, 11)]).unwrap();
    let diff = Diff::new(&source, &target).unwrap();
    assert_eq!(diff.copy_ops().len(), 1);
    assert_eq!(diff.insert_ops().len(), 0);
    assert_eq!(diff.insert_length(), 0);
    assert_eq!(diff.copy_ops()[0].length(), 200);
}

#[test]
fn duplicate_target_chunks_reuse_first_source_occurrence() {
    let source = Signature::new(d(1), 200, vec![chunk(0, 100, 10), chunk(100, 100, 11)]).unwrap();
    // Both target chunks carry the hash of the first source chunk.
    let target = Signature::new(d(2), 200, vec![chunk(0, 100, 10), chunk(100, 100, 10)]).unwrap();
    let diff = Diff::new(&source, &target).unwrap();
    assert_eq!(diff.copy_ops().len(), 2);
    assert_eq!(diff.copy_ops()[0].source_offset(), 0);
    assert_eq!(diff.copy_ops()[1].source_offset(), 0);
}

#[test]
fn mixed_ops_are_sorted_by_target_offset() {
    let source = Signature::new(d(1), 100, vec![chunk(0, 100, 10)]).unwrap();
    let target = Signature::new(
        d(2),
        300,
        vec![chunk(0, 100, 20), chunk(100, 100, 10), chunk(200, 100, 21)],
    )
    .unwrap();
    let diff = Diff::new(&source, &target).unwrap();
    assert_eq!(diff.copy_ops().len(), 1);
    assert_eq!(diff.insert_ops().len(), 2);
    let ops = diff.operations();
    assert_eq!(ops.len(), 3);
    assert!(matches!(ops[0], Operation::INSERT(_)));
    assert!(matches!(ops[1], Operation::COPY(_)));
    assert!(matches!(ops[2], Operation::INSERT(_)));
    assert_eq!(ops[0].offset(), 0);
    assert_eq!(ops[1].offset(), 100);
    assert_eq!(ops[2].offset(), 200);
}

#[test]
fn insert_ids_are_distinct() {
    let source = Signature::new(d(1), 100, vec![chunk(0, 100, 10)]).unwrap();
    let target = Signature::new(
        d(2),
        300,
        vec![chunk(0, 100, 20), chunk(100, 100, 10), chunk(200, 100, 21)],
    )
    .unwrap();
    let diff = Diff::new(&source, &target).unwrap();
    let a = diff.insert_ops()[0].uuid();
    let b = diff.insert_ops()[1].uuid();
    assert_ne!(a, b);
}
