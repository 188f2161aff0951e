use vstd::prelude::*;

use std::collections::HashMap;

use crate::diff::{inserts_of, Diff};
use crate::error::DeltaError;
use crate::ops::{inserts_len_sum, lemma_inserts_sum_prefix_le, lemma_inserts_sum_step, InsertOp, Operation};

verus! {

/// Where one insert operation's bytes live inside the diff payload file:
/// `length` bytes starting at `at`.
#[derive(Clone, Copy, PartialEq, Eq, Structural, Debug)]
pub struct Segment {
    /// Offset within the payload file.
    pub at: u64,
    /// Length of the segment in bytes.
    pub length: usize,
}

/// The mapping from insert operation id to its segment in the payload file.
pub type DiffSchema = HashMap<u64, Segment>;

/// Every insert operation's range lies inside the target bytes.
pub open spec fn inserts_in_bounds(ops: Seq<InsertOp>, target_len: int) -> bool {
    forall|k: int| 0 <= k < ops.len() ==> (#[trigger] ops[k]).offset + ops[k].length <= target_len
}

/// The payload bytes produced for these insert operations: the target
/// ranges of all operations, concatenated in operation order.
pub open spec fn payload_spec(target: Seq<u8>, ops: Seq<InsertOp>) -> Seq<u8>
    decreases ops.len(),
{
    if ops.len() == 0 {
        Seq::empty()
    } else {
        payload_spec(target, ops.drop_last()) + target.subrange(
            ops.last().offset as int,
            ops.last().offset + ops.last().length,
        )
    }
}

/// The schema produced for these insert operations: each op's id mapped to
/// the segment at the running payload cursor, with its length.
pub open spec fn schema_spec(ops: Seq<InsertOp>) -> Map<u64, Segment>
    decreases ops.len(),
{
    if ops.len() == 0 {
        Map::empty()
    } else {
        schema_spec(ops.drop_last()).insert(
            ops.last().uuid,
            Segment { at: inserts_len_sum(ops.drop_last()) as u64, length: ops.last().length },
        )
    }
}

/// Every id of the operations is a key of the schema built from them.
pub proof fn lemma_schema_spec_contains(ops: Seq<InsertOp>)
    ensures
        forall|k: int|
            0 <= k < ops.len() ==> schema_spec(ops).contains_key((#[trigger] ops[k]).uuid),
    decreases ops.len(),
{
    if ops.len() > 0 {
        lemma_schema_spec_contains(ops.drop_last());
        assert forall|k: int|
            0 <= k < ops.len() implies schema_spec(ops).contains_key(
            (#[trigger] ops[k]).uuid,
        ) by {
            if k < ops.len() - 1 {
                assert(ops.drop_last()[k] == ops[k]);
                assert(schema_spec(ops.drop_last()).contains_key(ops[k].uuid));
            }
        }
    }
}

/// Appends `len` bytes of `src` starting at `off` to `dest`.
fn append_range(dest: &mut Vec<u8>, src: &Vec<u8>, off: usize, len: usize)
    requires
        off + len <= old(dest)@.len() + src@.len(),
        off + len <= src@.len(),
    ensures
        final(dest)@ == old(dest)@ + src@.subrange(off as int, off + len),
{
    proof {
        assert(dest@ =~= dest@ + src@.subrange(off as int, off as int));
    }
    let sl = src.len();
    let mut j: usize = 0;
    while j < len
        invariant
            j <= len,
            off + len <= sl,
            sl == src@.len(),
            dest@ == old(dest)@ + src@.subrange(off as int, off + j),
        decreases len - j,
    {
        let b = src[off + j];
        dest.push(b);
        proof {
            assert(src@.subrange(off as int, off + j + 1) =~= src@.subrange(
                off as int,
                off + j,
            ).push(src@[off + j]));
            assert(dest@ =~= old(dest)@ + src@.subrange(off as int, off + j + 1));
        }
        j = j + 1;
    }
}

/// Builds the local diff payload: for each insert operation in order, the
/// target range is appended to the payload bytes and the op's id is mapped
/// to the segment where those bytes now live. Fails when an insert range
/// reaches past the end of the target bytes.
pub fn build_local_diff_file(target: &Vec<u8>, ops: &Vec<InsertOp>) -> (r: Result<
    (Vec<u8>, DiffSchema),
    DeltaError,
>)
    requires
        inserts_len_sum(ops@) <= u64::MAX,
    ensures
        match r {
            Ok(out) => {
                &&& inserts_in_bounds(ops@, target@.len() as int)
                &&& out.0@ == payload_spec(target@, ops@)
                &&& out.1@ == schema_spec(ops@)
            },
            Err(e) => {
                &&& e == DeltaError::InsertOutOfBounds
                &&& !inserts_in_bounds(ops@, target@.len() as int)
            },
        },
{
    let mut payload: Vec<u8> = Vec::new();
    let mut schema: DiffSchema = HashMap::new();
    let mut at: u64 = 0;
    let mut i: usize = 0;
    while i < ops.len()
        invariant
            i <= ops@.len(),
            inserts_len_sum(ops@) <= u64::MAX,
            at as int == inserts_len_sum(ops@.subrange(0, i as int)),
            payload@ == payload_spec(target@, ops@.subrange(0, i as int)),
            payload@.len() == at,
            schema@ == schema_spec(ops@.subrange(0, i as int)),
            inserts_in_bounds(ops@.subrange(0, i as int), target@.len() as int),
        decreases ops@.len() - i,
    {
        proof {
            lemma_inserts_sum_step(ops@, i as int);
            lemma_inserts_sum_prefix_le(ops@, i as int + 1);
            assert(ops@.subrange(0, i as int + 1).drop_last() =~= ops@.subrange(0, i as int));
            assert(ops@.subrange(0, i as int + 1).last() == ops@[i as int]);
        }
        let op = ops[i];
        if op.offset > target.len() as u64 || (op.length as u64) > (target.len() as u64)
            - op.offset {
            proof {
                assert(ops@[i as int].offset + ops@[i as int].length > target@.len());
            }
            return Err(DeltaError::InsertOutOfBounds);
        }
        let off = op.offset as usize;
        append_range(&mut payload, target, off, op.length);
        schema.insert(op.uuid, Segment { at, length: op.length });
        at = at + (op.length as u64);
        proof {
            assert(inserts_in_bounds(ops@.subrange(0, i as int + 1), target@.len() as int)) by {
                assert(forall|k: int|
                    0 <= k < i as int + 1 ==> (#[trigger] ops@.subrange(0, i as int + 1)[k])
                        == ops@[k]);
            }
        }
        i = i + 1;
    }
    proof {
        assert(ops@.subrange(0, ops@.len() as int) =~= ops@);
    }
    Ok((payload, schema))
}

/// What reconstruction produces: the operations applied in order, each
/// appending its bytes to the destination — a copy takes its range from the
/// source, an insert takes its segment, found by id, from the payload. The
/// first operation that reaches out of bounds, or whose id has no segment,
/// aborts reconstruction with its error.
pub open spec fn reconstruct_spec(
    source: Seq<u8>,
    ops: Seq<Operation>,
    payload: Seq<u8>,
    schema: Map<u64, Segment>,
) -> Result<Seq<u8>, DeltaError>
    decreases ops.len(),
{
    if ops.len() == 0 {
        Ok(Seq::empty())
    } else {
        match reconstruct_spec(source, ops.drop_last(), payload, schema) {
            Err(e) => Err(e),
            Ok(prefix) => match ops.last() {
                Operation::COPY(c) => {
                    if c.source_offset + c.length <= source.len() {
                        Ok(
                            prefix + source.subrange(
                                c.source_offset as int,
                                c.source_offset + c.length,
                            ),
                        )
                    } else {
                        Err(DeltaError::CopyOutOfBounds)
                    }
                },
                Operation::INSERT(op) => {
                    if !schema.contains_key(op.uuid) {
                        Err(DeltaError::MissingSegment(op.uuid))
                    } else {
                        let seg = schema[op.uuid];
                        if seg.at + seg.length <= payload.len() {
                            Ok(prefix + payload.subrange(seg.at as int, seg.at + seg.length))
                        } else {
                            Err(DeltaError::SegmentOutOfBounds)
                        }
                    }
                },
            },
        }
    }
}

/// Once some prefix of the operations fails, the whole list fails with the
/// same error.
proof fn lemma_reconstruct_err(
    source: Seq<u8>,
    ops: Seq<Operation>,
    payload: Seq<u8>,
    schema: Map<u64, Segment>,
    j: int,
)
    requires
        0 <= j <= ops.len(),
        reconstruct_spec(source, ops.subrange(0, j), payload, schema) is Err,
    ensures
        reconstruct_spec(source, ops, payload, schema) == reconstruct_spec(
            source,
            ops.subrange(0, j),
            payload,
            schema,
        ),
    decreases ops.len() - j,
{
    if j == ops.len() {
        assert(ops.subrange(0, j) =~= ops);
    } else {
        assert(ops.subrange(0, j + 1).drop_last() =~= ops.subrange(0, j));
        lemma_reconstruct_err(source, ops, payload, schema, j + 1);
    }
}

/// Builds the destination bytes from the source, the operation list, the
/// payload bytes, and the schema: copies come from the source, inserts from
/// their payload segments, in operation order. Fails, naming the id, when
/// an insert's id has no segment in the schema; fails likewise when a copy
/// or a segment reaches out of bounds.
pub fn build_local_file(
    source: &Vec<u8>,
    operations: &Vec<Operation>,
    diff_file: &Vec<u8>,
    schema: &DiffSchema,
) -> (r: Result<Vec<u8>, DeltaError>)
    ensures
        match r {
            Ok(v) => reconstruct_spec(source@, operations@, diff_file@, schema@) == Result::<
                Seq<u8>,
                DeltaError,
            >::Ok(v@),
            Err(e) => reconstruct_spec(source@, operations@, diff_file@, schema@) == Result::<
                Seq<u8>,
                DeltaError,
            >::Err(e),
        },
{
    let mut dest: Vec<u8> = Vec::new();
    let mut i: usize = 0;
    while i < operations.len()
        invariant
            i <= operations@.len(),
            reconstruct_spec(source@, operations@.subrange(0, i as int), diff_file@, schema@)
                == Result::<Seq<u8>, DeltaError>::Ok(dest@),
        decreases operations@.len() - i,
    {
        proof {
            assert(operations@.subrange(0, i as int + 1).drop_last() =~= operations@.subrange(
                0,
                i as int,
            ));
            assert(operations@.subrange(0, i as int + 1).last() == operations@[i as int]);
        }
        let op = operations[i];
        match op {
            Operation::COPY(c) => {
                if c.source_offset > source.len() as u64 || (c.length as u64) > (source.len()
                    as u64) - c.source_offset {
                    proof {
                        lemma_reconstruct_err(source@, operations@, diff_file@, schema@, i + 1);
                    }
                    return Err(DeltaError::CopyOutOfBounds);
                }
                append_range(&mut dest, source, c.source_offset as usize, c.length);
            },
            Operation::INSERT(ins) => {
                match schema.get(&ins.uuid) {
                    None => {
                        proof {
                            lemma_reconstruct_err(
                                source@,
                                operations@,
                                diff_file@,
                                schema@,
                                i + 1,
                            );
                        }
                        return Err(DeltaError::MissingSegment(ins.uuid));
                    },
                    Some(seg) => {
                        let seg = *seg;
                        if seg.at > diff_file.len() as u64 || (seg.length as u64) > (
                        diff_file.len() as u64) - seg.at {
                            proof {
                                lemma_reconstruct_err(
                                    source@,
                                    operations@,
                                    diff_file@,
                                    schema@,
                                    i + 1,
                                );
                            }
                            return Err(DeltaError::SegmentOutOfBounds);
                        }
                        append_range(&mut dest, diff_file, seg.at as usize, seg.length);
                    },
                }
            },
        }
        i = i + 1;
    }
    proof {
        assert(operations@.subrange(0, operations@.len() as int) =~= operations@);
    }
    Ok(dest)
}

/// Segment lookup completeness: every insert id referenced by a diff's
/// operation list has a segment in the schema built from that same diff's
/// insert operations.
pub proof fn lemma_schema_complete(d: Diff, source_len: int, target_len: int)
    requires
        d.wf(source_len, target_len),
    ensures
        forall|k: int|
            0 <= k < d.operations@.len() ==> match #[trigger] d.operations@[k] {
                Operation::INSERT(op) => schema_spec(d.insert_ops@).contains_key(op.uuid),
                Operation::COPY(_) => true,
            },
{
    lemma_schema_spec_contains(d.insert_ops@);
    lemma_inserts_membership(d.operations@);
    assert forall|k: int|
        0 <= k < d.operations@.len() implies match #[trigger] d.operations@[k] {
        Operation::INSERT(op) => schema_spec(d.insert_ops@).contains_key(op.uuid),
        Operation::COPY(_) => true,
    } by {
        match d.operations@[k] {
            Operation::INSERT(op) => {
                let j = choose|j: int|
                    0 <= j < inserts_of(d.operations@).len() && (#[trigger] inserts_of(
                        d.operations@,
                    )[j]) == op;
                assert(d.insert_ops@[j] == op);
                assert(schema_spec(d.insert_ops@).contains_key(d.insert_ops@[j].uuid));
            },
            Operation::COPY(_) => {},
        }
    }
}

/// Every insert of an operation list appears among its inserts.
pub proof fn lemma_inserts_membership(s: Seq<Operation>)
    ensures
        forall|k: int|
            0 <= k < s.len() ==> match #[trigger] s[k] {
                Operation::INSERT(op) => exists|j: int|
                    0 <= j < inserts_of(s).len() && (#[trigger] inserts_of(s)[j]) == op,
                Operation::COPY(_) => true,
            },
    decreases s.len(),
{
    if s.len() > 0 {
        lemma_inserts_membership(s.drop_last());
        assert(forall|k: int| 0 <= k < s.len() - 1 ==> s[k] == (#[trigger] s.drop_last()[k]));
        assert forall|k: int|
            0 <= k < s.len() implies match #[trigger] s[k] {
            Operation::INSERT(op) => exists|j: int|
                0 <= j < inserts_of(s).len() && (#[trigger] inserts_of(s)[j]) == op,
            Operation::COPY(_) => true,
        } by {
            match s[k] {
                Operation::INSERT(op) => {
                    if k == s.len() - 1 {
                        assert(inserts_of(s).last() == op);
                        assert(inserts_of(s)[inserts_of(s).len() - 1] == op);
                    } else {
                        assert(s.drop_last()[k] == s[k]);
                        let j = choose|j: int|
                            0 <= j < inserts_of(s.drop_last()).len() && (#[trigger] inserts_of(
                                s.drop_last(),
                            )[j]) == op;
                        assert(0 <= j < inserts_of(s).len());
                        assert(inserts_of(s)[j] == op);
                    }
                },
                Operation::COPY(_) => {},
            }
        }
    }
}

} // verus!
