use vstd::prelude::*;

use crate::ops::{
    inserts_len_sum, lemma_inserts_sum_push, lemma_inserts_sum_update_last, lemma_tile_bounds,
    lemma_tile_mono, ops_tile, CopyOp, InsertOp, Operation,
};
use crate::signature::{
    chunks_end, chunks_prefix_end, chunks_wf, first_match, lemma_chunks_bounds,
    lemma_first_match_found, lemma_prefix_end_facts, lemma_prefix_end_ge, Chunk, Signature,
};

verus! {

/// The state of the diff computation after some prefix of the target chunks
/// has been classified: the two kind-specific lists, the unified
/// offset-ordered operation list, the running length totals, and the next
/// insert id to mint.
pub ghost struct DiffModel {
    pub copies: Seq<CopyOp>,
    pub inserts: Seq<InsertOp>,
    pub ops: Seq<Operation>,
    pub copy_len: int,
    pub insert_len: int,
    pub next_id: u64,
}

/// The copy operations of an operation list, in order.
pub open spec fn copies_of(ops: Seq<Operation>) -> Seq<CopyOp>
    decreases ops.len(),
{
    if ops.len() == 0 {
        Seq::empty()
    } else {
        match ops.last() {
            Operation::COPY(c) => copies_of(ops.drop_last()).push(c),
            Operation::INSERT(_) => copies_of(ops.drop_last()),
        }
    }
}

/// The insert operations of an operation list, in order.
pub open spec fn inserts_of(ops: Seq<Operation>) -> Seq<InsertOp>
    decreases ops.len(),
{
    if ops.len() == 0 {
        Seq::empty()
    } else {
        match ops.last() {
            Operation::COPY(_) => inserts_of(ops.drop_last()),
            Operation::INSERT(op) => inserts_of(ops.drop_last()).push(op),
        }
    }
}

/// The total length of all operations of a list.
pub open spec fn ops_len_total(ops: Seq<Operation>) -> int
    decreases ops.len(),
{
    if ops.len() == 0 {
        0
    } else {
        ops_len_total(ops.drop_last()) + ops.last().spec_length()
    }
}

/// How one target chunk is classified against the source: the first source
/// chunk with the same strong hash serves as the copy source. A hash match
/// whose length differs from the target chunk's cannot arise from equal
/// bytes, so it is treated as novel content rather than emitting a copy of
/// the wrong extent.
pub open spec fn classify(source_chunks: Seq<Chunk>, tc: Chunk) -> Option<Chunk> {
    match first_match(source_chunks, tc.strong_hash) {
        Some(sc) => if sc.length == tc.length {
            Some(sc)
        } else {
            None
        },
        None => None,
    }
}

/// One step of the diff computation: classify the target chunk, then chain
/// the candidate onto the last operation of its own kind when it directly
/// continues it, or append it otherwise. Chaining also extends the matching
/// entry of the unified operation list in place.
pub open spec fn diff_step(st: DiffModel, source_chunks: Seq<Chunk>, tc: Chunk) -> DiffModel {
    match classify(source_chunks, tc) {
        Some(sc) => {
            let cand = CopyOp { source_offset: sc.offset, offset: tc.offset, length: sc.length };
            if st.copies.len() > 0 && st.copies.last().spec_can_chain(cand) {
                let ext = CopyOp {
                    source_offset: st.copies.last().source_offset,
                    offset: st.copies.last().offset,
                    length: (st.copies.last().length + cand.length) as usize,
                };
                DiffModel {
                    copies: st.copies.update(st.copies.len() - 1, ext),
                    inserts: st.inserts,
                    ops: st.ops.update(st.ops.len() - 1, Operation::COPY(ext)),
                    copy_len: st.copy_len + cand.length,
                    insert_len: st.insert_len,
                    next_id: st.next_id,
                }
            } else {
                DiffModel {
                    copies: st.copies.push(cand),
                    inserts: st.inserts,
                    ops: st.ops.push(Operation::COPY(cand)),
                    copy_len: st.copy_len + cand.length,
                    insert_len: st.insert_len,
                    next_id: st.next_id,
                }
            }
        },
        None => {
            let cand = InsertOp { offset: tc.offset, length: tc.length, uuid: st.next_id };
            if st.inserts.len() > 0 && st.inserts.last().spec_can_chain(cand) {
                let ext = InsertOp {
                    offset: st.inserts.last().offset,
                    length: (st.inserts.last().length + cand.length) as usize,
                    uuid: st.inserts.last().uuid,
                };
                DiffModel {
                    copies: st.copies,
                    inserts: st.inserts.update(st.inserts.len() - 1, ext),
                    ops: st.ops.update(st.ops.len() - 1, Operation::INSERT(ext)),
                    copy_len: st.copy_len,
                    insert_len: st.insert_len + cand.length,
                    next_id: (st.next_id + 1) as u64,
                }
            } else {
                DiffModel {
                    copies: st.copies,
                    inserts: st.inserts.push(cand),
                    ops: st.ops.push(Operation::INSERT(cand)),
                    copy_len: st.copy_len,
                    insert_len: st.insert_len + cand.length,
                    next_id: (st.next_id + 1) as u64,
                }
            }
        },
    }
}

/// The empty starting state of the diff computation.
pub open spec fn diff_start() -> DiffModel {
    DiffModel {
        copies: Seq::empty(),
        inserts: Seq::empty(),
        ops: Seq::empty(),
        copy_len: 0,
        insert_len: 0,
        next_id: 0,
    }
}

/// The state of the diff computation after the first `i` target chunks.
pub open spec fn diff_after(source_chunks: Seq<Chunk>, target_chunks: Seq<Chunk>, i: int) -> DiffModel
    decreases i,
{
    if i <= 0 {
        diff_start()
    } else {
        diff_step(
            diff_after(source_chunks, target_chunks, i - 1),
            source_chunks,
            target_chunks[i - 1],
        )
    }
}

/// Everything that holds of the computation state once the processed target
/// prefix spans `[0, pos)`: the unified list tiles that span, the two
/// kind-specific lists are exactly its copies and inserts, the running
/// totals add up to it, every copy stays within the source, and insert ids
/// ascend strictly below the next id to mint.
pub open spec fn model_inv(st: DiffModel, pos: int, source_end: int) -> bool {
    &&& ops_tile(st.ops, pos)
    &&& copies_of(st.ops) == st.copies
    &&& inserts_of(st.ops) == st.inserts
    &&& st.copy_len >= 0
    &&& st.insert_len >= 0
    &&& st.copy_len + st.insert_len == pos
    &&& st.insert_len == inserts_len_sum(st.inserts)
    &&& ops_len_total(st.ops) == pos
    &&& (forall|k: int|
        0 <= k < st.copies.len() ==> (#[trigger] st.copies[k]).source_offset + st.copies[k].length
            <= source_end)
    &&& (forall|k: int|
        0 <= k < st.copies.len() ==> (#[trigger] st.copies[k]).offset + st.copies[k].length <= pos)
    &&& (forall|k: int|
        0 <= k < st.inserts.len() ==> (#[trigger] st.inserts[k]).offset + st.inserts[k].length
            <= pos)
    &&& (forall|k1: int, k2: int|
        0 <= k1 < k2 < st.inserts.len() ==> (#[trigger] st.inserts[k1]).uuid
            < (#[trigger] st.inserts[k2]).uuid)
    &&& (forall|k: int| 0 <= k < st.inserts.len() ==> (#[trigger] st.inserts[k]).uuid < st.next_id)
}

proof fn lemma_split_push_copy(s: Seq<Operation>, c: CopyOp)
    ensures
        copies_of(s.push(Operation::COPY(c))) == copies_of(s).push(c),
        inserts_of(s.push(Operation::COPY(c))) == inserts_of(s),
        ops_len_total(s.push(Operation::COPY(c))) == ops_len_total(s) + c.length,
{
    assert(s.push(Operation::COPY(c)).drop_last() =~= s);
    assert(s.push(Operation::COPY(c)).last() == Operation::COPY(c));
}

proof fn lemma_split_push_insert(s: Seq<Operation>, c: InsertOp)
    ensures
        inserts_of(s.push(Operation::INSERT(c))) == inserts_of(s).push(c),
        copies_of(s.push(Operation::INSERT(c))) == copies_of(s),
        ops_len_total(s.push(Operation::INSERT(c))) == ops_len_total(s) + c.length,
{
    assert(s.push(Operation::INSERT(c)).drop_last() =~= s);
    assert(s.push(Operation::INSERT(c)).last() == Operation::INSERT(c));
}

proof fn lemma_split_update_last_copy(s: Seq<Operation>, old_c: CopyOp, c: CopyOp)
    requires
        s.len() > 0,
        s.last() == Operation::COPY(old_c),
    ensures
        copies_of(s).len() > 0,
        copies_of(s).last() == old_c,
        copies_of(s.update(s.len() - 1, Operation::COPY(c))) == copies_of(s).update(
            copies_of(s).len() - 1,
            c,
        ),
        inserts_of(s.update(s.len() - 1, Operation::COPY(c))) == inserts_of(s),
        ops_len_total(s.update(s.len() - 1, Operation::COPY(c))) == ops_len_total(s) - old_c.length
            + c.length,
{
    let s2 = s.update(s.len() - 1, Operation::COPY(c));
    assert(s2.drop_last() =~= s.drop_last());
    assert(s2.last() == Operation::COPY(c));
    assert(copies_of(s) == copies_of(s.drop_last()).push(old_c));
    assert(copies_of(s2) == copies_of(s.drop_last()).push(c));
    assert(copies_of(s).update(copies_of(s).len() - 1, c) =~= copies_of(s.drop_last()).push(c));
}

proof fn lemma_split_update_last_insert(s: Seq<Operation>, old_c: InsertOp, c: InsertOp)
    requires
        s.len() > 0,
        s.last() == Operation::INSERT(old_c),
    ensures
        inserts_of(s).len() > 0,
        inserts_of(s).last() == old_c,
        inserts_of(s.update(s.len() - 1, Operation::INSERT(c))) == inserts_of(s).update(
            inserts_of(s).len() - 1,
            c,
        ),
        copies_of(s.update(s.len() - 1, Operation::INSERT(c))) == copies_of(s),
        ops_len_total(s.update(s.len() - 1, Operation::INSERT(c))) == ops_len_total(s)
            - old_c.length + c.length,
{
    let s2 = s.update(s.len() - 1, Operation::INSERT(c));
    assert(s2.drop_last() =~= s.drop_last());
    assert(s2.last() == Operation::INSERT(c));
    assert(inserts_of(s) == inserts_of(s.drop_last()).push(old_c));
    assert(inserts_of(s2) == inserts_of(s.drop_last()).push(c));
    assert(inserts_of(s).update(inserts_of(s).len() - 1, c) =~= inserts_of(s.drop_last()).push(c));
}

/// Every copy of an operation list appears in it, and every insert does.
pub proof fn lemma_split_elems(s: Seq<Operation>)
    ensures
        forall|k: int|
            0 <= k < copies_of(s).len() ==> exists|j: int|
                0 <= j < s.len() && s[j] == Operation::COPY(#[trigger] copies_of(s)[k]),
        forall|k: int|
            0 <= k < inserts_of(s).len() ==> exists|j: int|
                0 <= j < s.len() && s[j] == Operation::INSERT(#[trigger] inserts_of(s)[k]),
    decreases s.len(),
{
    if s.len() > 0 {
        lemma_split_elems(s.drop_last());
        assert(forall|j: int| 0 <= j < s.len() - 1 ==> s[j] == (#[trigger] s.drop_last()[j]));
        assert forall|k: int| 0 <= k < copies_of(s).len() implies exists|j: int|
            0 <= j < s.len() && s[j] == Operation::COPY(#[trigger] copies_of(s)[k]) by {
            match s.last() {
                Operation::COPY(c) => {
                    if k == copies_of(s).len() - 1 {
                        assert(s[s.len() - 1] == Operation::COPY(copies_of(s)[k]));
                    } else {
                        assert(copies_of(s)[k] == copies_of(s.drop_last())[k]);
                        let j = choose|j: int|
                            0 <= j < s.drop_last().len() && s.drop_last()[j] == Operation::COPY(
                                copies_of(s.drop_last())[k],
                            );
                        assert(s[j] == Operation::COPY(copies_of(s)[k]));
                    }
                },
                Operation::INSERT(_) => {
                    assert(copies_of(s)[k] == copies_of(s.drop_last())[k]);
                    let j = choose|j: int|
                        0 <= j < s.drop_last().len() && s.drop_last()[j] == Operation::COPY(
                            copies_of(s.drop_last())[k],
                        );
                    assert(s[j] == Operation::COPY(copies_of(s)[k]));
                },
            }
        }
        assert forall|k: int| 0 <= k < inserts_of(s).len() implies exists|j: int|
            0 <= j < s.len() && s[j] == Operation::INSERT(#[trigger] inserts_of(s)[k]) by {
            match s.last() {
                Operation::INSERT(c) => {
                    if k == inserts_of(s).len() - 1 {
                        assert(s[s.len() - 1] == Operation::INSERT(inserts_of(s)[k]));
                    } else {
                        assert(inserts_of(s)[k] == inserts_of(s.drop_last())[k]);
                        let j = choose|j: int|
                            0 <= j < s.drop_last().len() && s.drop_last()[j] == Operation::INSERT(
                                inserts_of(s.drop_last())[k],
                            );
                        assert(s[j] == Operation::INSERT(inserts_of(s)[k]));
                    }
                },
                Operation::COPY(_) => {
                    assert(inserts_of(s)[k] == inserts_of(s.drop_last())[k]);
                    let j = choose|j: int|
                        0 <= j < s.drop_last().len() && s.drop_last()[j] == Operation::INSERT(
                            inserts_of(s.drop_last())[k],
                        );
                    assert(s[j] == Operation::INSERT(inserts_of(s)[k]));
                },
            }
        }
    }
}

/// When the last copy of a tiled operation list ends exactly at the end of
/// the tiling, it must be the final operation of the list, and likewise for
/// the last insert.
proof fn lemma_last_op_is(s: Seq<Operation>, end: int)
    requires
        ops_tile(s, end),
    ensures
        copies_of(s).len() > 0 && copies_of(s).last().offset + copies_of(s).last().length == end
            ==> s.len() > 0 && s.last() == Operation::COPY(copies_of(s).last()),
        inserts_of(s).len() > 0 && inserts_of(s).last().offset + inserts_of(s).last().length == end
            ==> s.len() > 0 && s.last() == Operation::INSERT(inserts_of(s).last()),
{
    lemma_split_elems(s);
    lemma_tile_bounds(s, end);
    if copies_of(s).len() > 0 && copies_of(s).last().offset + copies_of(s).last().length == end {
        let c = copies_of(s).last();
        let j = choose|j: int| 0 <= j < s.len() && s[j] == Operation::COPY(c);
        if j < s.len() - 1 {
            assert(s[j].spec_offset() + s[j].spec_length() <= s[s.len() - 1].spec_offset());
            assert(s[s.len() - 1].spec_offset() + s[s.len() - 1].spec_length() == end);
            assert(s[s.len() - 1].spec_length() > 0);
            assert(false);
        }
        assert(s.last() == Operation::COPY(c));
    }
    if inserts_of(s).len() > 0 && inserts_of(s).last().offset + inserts_of(s).last().length
        == end {
        let c = inserts_of(s).last();
        let j = choose|j: int| 0 <= j < s.len() && s[j] == Operation::INSERT(c);
        if j < s.len() - 1 {
            assert(s[j].spec_offset() + s[j].spec_length() <= s[s.len() - 1].spec_offset());
            assert(s[s.len() - 1].spec_offset() + s[s.len() - 1].spec_length() == end);
            assert(s[s.len() - 1].spec_length() > 0);
            assert(false);
        }
        assert(s.last() == Operation::INSERT(c));
    }
}

/// The computation state is well formed after every prefix of the target
/// chunks: the central induction behind every guarantee of a diff.
pub proof fn lemma_diff_model_inv(source_chunks: Seq<Chunk>, target_chunks: Seq<Chunk>, i: int)
    requires
        chunks_wf(source_chunks),
        chunks_wf(target_chunks),
        chunks_end(target_chunks) <= usize::MAX,
        0 <= i <= target_chunks.len(),
    ensures
        model_inv(
            diff_after(source_chunks, target_chunks, i),
            chunks_prefix_end(target_chunks, i),
            chunks_end(source_chunks),
        ),
        diff_after(source_chunks, target_chunks, i).next_id <= i,
    decreases i,
{
    if i == 0 {
        assert(copies_of(Seq::<Operation>::empty()) =~= Seq::<CopyOp>::empty());
        assert(inserts_of(Seq::<Operation>::empty()) =~= Seq::<InsertOp>::empty());
    } else {
        lemma_diff_model_inv(source_chunks, target_chunks, i - 1);
        let st = diff_after(source_chunks, target_chunks, i - 1);
        let tc = target_chunks[i - 1];
        let st2 = diff_after(source_chunks, target_chunks, i);
        let pos0 = chunks_prefix_end(target_chunks, i - 1);
        let pos1 = chunks_prefix_end(target_chunks, i);
        lemma_prefix_end_facts(target_chunks, i - 1);
        lemma_prefix_end_facts(target_chunks, i);
        lemma_prefix_end_ge(target_chunks, i);
        assert(st.next_id < u64::MAX) by {
            assert(i <= chunks_prefix_end(target_chunks, i) <= chunks_end(target_chunks)
                <= usize::MAX <= u64::MAX);
        }
        assert(tc.offset == pos0);
        assert(pos1 == tc.offset + tc.length);
        assert(pos1 <= chunks_end(target_chunks));
        lemma_chunks_bounds(source_chunks);
        lemma_first_match_found(source_chunks, tc.strong_hash);
        match classify(source_chunks, tc) {
            Some(sc) => {
                let idx = choose|ix: int|
                    0 <= ix < source_chunks.len() && (#[trigger] source_chunks[ix]) == sc
                        && sc.strong_hash == tc.strong_hash;
                assert(sc.offset + sc.length <= chunks_end(source_chunks));
                let cand = CopyOp {
                    source_offset: sc.offset,
                    offset: tc.offset,
                    length: sc.length,
                };
                if st.copies.len() > 0 && st.copies.last().spec_can_chain(cand) {
                    let last_c = st.copies.last();
                    assert(last_c.offset + last_c.length == pos0);
                    lemma_last_op_is(st.ops, pos0);
                    assert(st.ops.last() == Operation::COPY(last_c));
                    let ext = CopyOp {
                        source_offset: last_c.source_offset,
                        offset: last_c.offset,
                        length: (last_c.length + cand.length) as usize,
                    };
                    assert(last_c.length + cand.length <= usize::MAX) by {
                        assert(last_c.offset + last_c.length + cand.length == pos1);
                    }
                    lemma_split_update_last_copy(st.ops, last_c, ext);
                    if st.ops.len() > 1 {
                        lemma_tile_mono(st.ops, pos0, 0, st.ops.len() - 1);
                    }
                    assert(ops_tile(st2.ops, pos1)) by {
                        assert(forall|j: int|
                            0 <= j < st.ops.len() - 1 ==> st2.ops[j] == (#[trigger] st.ops[j]));
                        assert(st2.ops[st.ops.len() - 1] == Operation::COPY(ext));
                        assert(st2.ops.last().spec_offset() + st2.ops.last().spec_length()
                            == pos1);
                    }
                } else {
                    lemma_split_push_copy(st.ops, cand);
                    assert(ops_tile(st2.ops, pos1)) by {
                        assert(forall|j: int|
                            0 <= j < st.ops.len() ==> st2.ops[j] == (#[trigger] st.ops[j]));
                        assert(st2.ops.last() == Operation::COPY(cand));
                    }
                }
            },
            None => {
                let cand = InsertOp { offset: tc.offset, length: tc.length, uuid: st.next_id };
                if st.inserts.len() > 0 && st.inserts.last().spec_can_chain(cand) {
                    let last_c = st.inserts.last();
                    assert(last_c.offset + last_c.length == pos0);
                    lemma_last_op_is(st.ops, pos0);
                    assert(st.ops.last() == Operation::INSERT(last_c));
                    let ext = InsertOp {
                        offset: last_c.offset,
                        length: (last_c.length + cand.length) as usize,
                        uuid: last_c.uuid,
                    };
                    assert(last_c.length + cand.length <= usize::MAX) by {
                        assert(last_c.offset + last_c.length + cand.length == pos1);
                    }
                    lemma_split_update_last_insert(st.ops, last_c, ext);
                    lemma_inserts_sum_update_last(st.inserts, ext);
                    if st.ops.len() > 1 {
                        lemma_tile_mono(st.ops, pos0, 0, st.ops.len() - 1);
                    }
                    assert(ops_tile(st2.ops, pos1)) by {
                        assert(forall|j: int|
                            0 <= j < st.ops.len() - 1 ==> st2.ops[j] == (#[trigger] st.ops[j]));
                        assert(st2.ops[st.ops.len() - 1] == Operation::INSERT(ext));
                        assert(st2.ops.last().spec_offset() + st2.ops.last().spec_length()
                            == pos1);
                    }
                } else {
                    lemma_split_push_insert(st.ops, cand);
                    lemma_inserts_sum_push(st.inserts, cand);
                    assert(ops_tile(st2.ops, pos1)) by {
                        assert(forall|j: int|
                            0 <= j < st.ops.len() ==> st2.ops[j] == (#[trigger] st.ops[j]));
                        assert(st2.ops.last() == Operation::INSERT(cand));
                    }
                }
            },
        }
    }
}

/// The difference between two files: the merged, offset-ordered operation
/// list, the same operations split by kind for reporting, and the summed
/// lengths of each kind.
#[derive(Debug)]
pub struct Diff {
    /// The insert operations, in target offset order.
    pub insert_ops: Vec<InsertOp>,
    /// The copy operations, in target offset order.
    pub copy_ops: Vec<CopyOp>,
    /// Total bytes covered by copy operations.
    pub copy_length: usize,
    /// Total bytes covered by insert operations.
    pub insert_length: usize,
    /// All operations, ascending by target offset.
    pub operations: Vec<Operation>,
}

impl Diff {
    /// The diff is exactly what the chain-or-push computation produces from
    /// these source and target chunk lists.
    pub open spec fn matches_model(self, source_chunks: Seq<Chunk>, target_chunks: Seq<Chunk>) -> bool {
        let st = diff_after(source_chunks, target_chunks, target_chunks.len() as int);
        &&& self.copy_ops@ == st.copies
        &&& self.insert_ops@ == st.inserts
        &&& self.operations@ == st.ops
        &&& self.copy_length == st.copy_len
        &&& self.insert_length == st.insert_len
    }

    /// What every diff guarantees: the operations tile the whole target
    /// exactly, the kind-specific lists are the copies and inserts of the
    /// unified list, the two length totals add up to the target length,
    /// every copy lies within the source, and insert ids ascend strictly.
    pub open spec fn wf(self, source_len: int, target_len: int) -> bool {
        &&& ops_tile(self.operations@, target_len)
        &&& copies_of(self.operations@) == self.copy_ops@
        &&& inserts_of(self.operations@) == self.insert_ops@
        &&& self.copy_length + self.insert_length == target_len
        &&& self.insert_length == inserts_len_sum(self.insert_ops@)
        &&& ops_len_total(self.operations@) == target_len
        &&& (forall|k: int|
            0 <= k < self.copy_ops@.len() ==> (#[trigger] self.copy_ops@[k]).source_offset
                + self.copy_ops@[k].length <= source_len)
        &&& (forall|k: int|
            0 <= k < self.copy_ops@.len() ==> (#[trigger] self.copy_ops@[k]).offset
                + self.copy_ops@[k].length <= target_len)
        &&& (forall|k: int|
            0 <= k < self.insert_ops@.len() ==> (#[trigger] self.insert_ops@[k]).offset
                + self.insert_ops@[k].length <= target_len)
        &&& (forall|k1: int, k2: int|
            0 <= k1 < k2 < self.insert_ops@.len() ==> (#[trigger] self.insert_ops@[k1]).uuid
                < (#[trigger] self.insert_ops@[k2]).uuid)
    }

    /// Computes the difference between two signatures: nothing when the
    /// whole-file hashes match; otherwise the merged operation list that
    /// covers the whole target, reusing a source chunk wherever its strong
    /// hash matches a target chunk's.
    pub fn new(source: &Signature, target: &Signature) -> (r: Option<Diff>)
        requires
            source.wf(),
            target.wf(),
        ensures
            match r {
                None => source.strong_hash == target.strong_hash,
                Some(d) => {
                    &&& source.strong_hash != target.strong_hash
                    &&& d.matches_model(source.chunks@, target.chunks@)
                    &&& d.wf(source.length as int, target.length as int)
                },
            },
    {
        if source == target {
            return None;
        }
        let ghost scs = source.chunks@;
        let ghost tcs = target.chunks@;
        let mut copy_ops: Vec<CopyOp> = Vec::new();
        let mut insert_ops: Vec<InsertOp> = Vec::new();
        let mut operations: Vec<Operation> = Vec::new();
        let mut copy_length: usize = 0;
        let mut insert_length: usize = 0;
        let mut next_id: u64 = 0;
        let mut i: usize = 0;
        while i < target.chunks.len()
            invariant
                source.wf(),
                target.wf(),
                scs == source.chunks@,
                tcs == target.chunks@,
                i <= tcs.len(),
                copy_ops@ == diff_after(scs, tcs, i as int).copies,
                insert_ops@ == diff_after(scs, tcs, i as int).inserts,
                operations@ == diff_after(scs, tcs, i as int).ops,
                copy_length as int == diff_after(scs, tcs, i as int).copy_len,
                insert_length as int == diff_after(scs, tcs, i as int).insert_len,
                next_id == diff_after(scs, tcs, i as int).next_id,
            decreases tcs.len() - i,
        {
            proof {
                lemma_diff_model_inv(scs, tcs, i as int);
                lemma_diff_model_inv(scs, tcs, i as int + 1);
                lemma_prefix_end_facts(tcs, i as int);
                lemma_prefix_end_facts(tcs, i as int + 1);
                lemma_prefix_end_ge(tcs, i as int + 1);
            }
            let ghost st = diff_after(scs, tcs, i as int);
            let ghost pos0 = chunks_prefix_end(tcs, i as int);
            let ghost pos1 = chunks_prefix_end(tcs, i as int + 1);
            let tc = target.chunks[i];
            let copy_src: Option<Chunk> = match source.find_chunk(&tc.strong_hash) {
                Some(c) => if c.length == tc.length {
                    Some(c)
                } else {
                    None
                },
                None => None,
            };
            proof {
                assert(copy_src == classify(scs, tc));
            }
            match copy_src {
                Some(sc_chunk) => {
                    let cand = CopyOp {
                        source_offset: sc_chunk.offset,
                        offset: tc.offset,
                        length: sc_chunk.length,
                    };
                    let n = copy_ops.len();
                    let mut chained = false;
                    if n > 0 {
                        let last = copy_ops[n - 1];
                        if last.can_chain(&cand) {
                            proof {
                                lemma_last_op_is(st.ops, pos0);
                            }
                            let ext = CopyOp {
                                source_offset: last.source_offset,
                                offset: last.offset,
                                length: last.length + cand.length,
                            };
                            copy_ops[n - 1] = ext;
                            let on = operations.len();
                            operations[on - 1] = Operation::COPY(ext);
                            chained = true;
                        }
                    }
                    if !chained {
                        copy_ops.push(cand);
                        operations.push(Operation::COPY(cand));
                    }
                    copy_length = copy_length + cand.length;
                },
                None => {
                    let cand = InsertOp { offset: tc.offset, length: tc.length, uuid: next_id };
                    let n = insert_ops.len();
                    let mut chained = false;
                    if n > 0 {
                        let last = insert_ops[n - 1];
                        if last.can_chain(&cand) {
                            proof {
                                lemma_last_op_is(st.ops, pos0);
                            }
                            let ext = InsertOp {
                                offset: last.offset,
                                length: last.length + cand.length,
                                uuid: last.uuid,
                            };
                            insert_ops[n - 1] = ext;
                            let on = operations.len();
                            operations[on - 1] = Operation::INSERT(ext);
                            chained = true;
                        }
                    }
                    if !chained {
                        insert_ops.push(cand);
                        operations.push(Operation::INSERT(cand));
                    }
                    insert_length = insert_length + cand.length;
                    next_id = next_id + 1;
                },
            }
            i = i + 1;
        }
        proof {
            lemma_diff_model_inv(scs, tcs, tcs.len() as int);
        }
        Some(Diff { insert_ops, copy_ops, copy_length, insert_length, operations })
    }

    /// Returns the total length covered by copy operations.
    pub fn copy_length(&self) -> (r: usize)
        ensures
            r == self.copy_length,
    {
        self.copy_length
    }

    /// Returns the total length covered by insert operations.
    pub fn insert_length(&self) -> (r: usize)
        ensures
            r == self.insert_length,
    {
        self.insert_length
    }

    /// Returns the copy operations, in target offset order.
    pub fn copy_ops(&self) -> (r: &Vec<CopyOp>)
        ensures
            r@ == self.copy_ops@,
    {
        &self.copy_ops
    }

    /// Returns the insert operations, in target offset order.
    pub fn insert_ops(&self) -> (r: &Vec<InsertOp>)
        ensures
            r@ == self.insert_ops@,
    {
        &self.insert_ops
    }

    /// Returns all operations, ascending by target offset.
    pub fn operations(&self) -> (r: &Vec<Operation>)
        ensures
            r@ == self.operations@,
    {
        &self.operations
    }
}

/// Coverage: the operation lengths of a diff sum to the target file length,
/// and the copy and insert totals add up to it as well.
pub proof fn lemma_diff_coverage(d: Diff, source_len: int, target_len: int)
    requires
        d.wf(source_len, target_len),
    ensures
        d.copy_length + d.insert_length == target_len,
        ops_len_total(d.operations@) == target_len,
{
}

/// Order: the operations of a diff ascend strictly by target offset, with
/// no gaps and no overlaps — each operation starts exactly where the
/// previous one ends, the first starts at zero, and the last ends at the
/// target length.
pub proof fn lemma_diff_order(d: Diff, source_len: int, target_len: int)
    requires
        d.wf(source_len, target_len),
    ensures
        d.operations@.len() > 0 ==> d.operations@[0].spec_offset() == 0,
        forall|k: int|
            0 <= k && k + 1 < d.operations@.len() ==> (#[trigger] d.operations@[k
                + 1]).spec_offset() == d.operations@[k].spec_offset()
                + d.operations@[k].spec_length(),
        d.operations@.len() > 0 ==> d.operations@.last().spec_offset()
            + d.operations@.last().spec_length() == target_len,
        forall|k1: int, k2: int|
            0 <= k1 < k2 < d.operations@.len() ==> (#[trigger] d.operations@[k1]).spec_offset()
                < (#[trigger] d.operations@[k2]).spec_offset(),
{
    lemma_tile_bounds(d.operations@, target_len);
}

/// Chaining, copy side: two adjacent target chunks that map to adjacent
/// source chunks — contiguous in both files — collapse into a single copy
/// operation whose length grows by exactly the second chunk's length,
/// instead of producing a second operation.
pub proof fn lemma_adjacent_copies_collapse(
    source_chunks: Seq<Chunk>,
    target_chunks: Seq<Chunk>,
    i: int,
    s1: Chunk,
    s2: Chunk,
)
    requires
        chunks_wf(source_chunks),
        chunks_wf(target_chunks),
        chunks_end(target_chunks) <= usize::MAX,
        0 <= i,
        i + 1 < target_chunks.len(),
        classify(source_chunks, target_chunks[i]) == Some(s1),
        classify(source_chunks, target_chunks[i + 1]) == Some(s2),
        s1.offset + s1.length == s2.offset,
    ensures
        diff_after(source_chunks, target_chunks, i + 2).ops.len() == diff_after(
            source_chunks,
            target_chunks,
            i + 1,
        ).ops.len(),
        diff_after(source_chunks, target_chunks, i + 2).copies.len() == diff_after(
            source_chunks,
            target_chunks,
            i + 1,
        ).copies.len(),
        diff_after(source_chunks, target_chunks, i + 2).copies.last().length == diff_after(
            source_chunks,
            target_chunks,
            i + 1,
        ).copies.last().length + target_chunks[i + 1].length,
        diff_after(source_chunks, target_chunks, i + 2).copies.last().offset == diff_after(
            source_chunks,
            target_chunks,
            i + 1,
        ).copies.last().offset,
{
    let st0 = diff_after(source_chunks, target_chunks, i);
    let st1 = diff_after(source_chunks, target_chunks, i + 1);
    let t1 = target_chunks[i];
    let t2 = target_chunks[i + 1];
    lemma_diff_model_inv(source_chunks, target_chunks, i);
    lemma_diff_model_inv(source_chunks, target_chunks, i + 1);
    lemma_prefix_end_facts(target_chunks, i);
    lemma_prefix_end_facts(target_chunks, i + 1);
    lemma_prefix_end_facts(target_chunks, i + 2);
    let cand1 = CopyOp { source_offset: s1.offset, offset: t1.offset, length: s1.length };
    assert(st1 == diff_step(st0, source_chunks, t1));
    if st0.copies.len() > 0 && st0.copies.last().spec_can_chain(cand1) {
        assert(st0.copies.last().offset + st0.copies.last().length + s1.length
            == chunks_prefix_end(target_chunks, i + 1));
    }
    let last1 = st1.copies.last();
    assert(last1.offset + last1.length == chunks_prefix_end(target_chunks, i + 1));
    assert(last1.source_offset + last1.length == s1.offset + s1.length);
    let cand2 = CopyOp { source_offset: s2.offset, offset: t2.offset, length: s2.length };
    assert(t2.offset == chunks_prefix_end(target_chunks, i + 1));
    assert(last1.spec_can_chain(cand2));
    assert(last1.length + cand2.length <= usize::MAX) by {
        assert(last1.offset + last1.length + cand2.length == chunks_prefix_end(
            target_chunks,
            i + 2,
        ));
    }
}

/// Chaining, insert side: two adjacent novel target chunks collapse into a
/// single insert operation whose length grows by exactly the second chunk's
/// length, keeping the first one's id, instead of producing a second
/// operation.
pub proof fn lemma_adjacent_inserts_collapse(
    source_chunks: Seq<Chunk>,
    target_chunks: Seq<Chunk>,
    i: int,
)
    requires
        chunks_wf(source_chunks),
        chunks_wf(target_chunks),
        chunks_end(target_chunks) <= usize::MAX,
        0 <= i,
        i + 1 < target_chunks.len(),
        classify(source_chunks, target_chunks[i]) == None::<Chunk>,
        classify(source_chunks, target_chunks[i + 1]) == None::<Chunk>,
    ensures
        diff_after(source_chunks, target_chunks, i + 2).ops.len() == diff_after(
            source_chunks,
            target_chunks,
            i + 1,
        ).ops.len(),
        diff_after(source_chunks, target_chunks, i + 2).inserts.len() == diff_after(
            source_chunks,
            target_chunks,
            i + 1,
        ).inserts.len(),
        diff_after(source_chunks, target_chunks, i + 2).inserts.last().length == diff_after(
            source_chunks,
            target_chunks,
            i + 1,
        ).inserts.last().length + target_chunks[i + 1].length,
        diff_after(source_chunks, target_chunks, i + 2).inserts.last().uuid == diff_after(
            source_chunks,
            target_chunks,
            i + 1,
        ).inserts.last().uuid,
{
    let st0 = diff_after(source_chunks, target_chunks, i);
    let st1 = diff_after(source_chunks, target_chunks, i + 1);
    let t1 = target_chunks[i];
    let t2 = target_chunks[i + 1];
    lemma_diff_model_inv(source_chunks, target_chunks, i);
    lemma_diff_model_inv(source_chunks, target_chunks, i + 1);
    lemma_prefix_end_facts(target_chunks, i);
    lemma_prefix_end_facts(target_chunks, i + 1);
    lemma_prefix_end_facts(target_chunks, i + 2);
    let cand1 = InsertOp { offset: t1.offset, length: t1.length, uuid: st0.next_id };
    assert(st1 == diff_step(st0, source_chunks, t1));
    if st0.inserts.len() > 0 && st0.inserts.last().spec_can_chain(cand1) {
        assert(st0.inserts.last().offset + st0.inserts.last().length + t1.length
            == chunks_prefix_end(target_chunks, i + 1));
    }
    let last1 = st1.inserts.last();
    assert(last1.offset + last1.length == chunks_prefix_end(target_chunks, i + 1));
    let cand2 = InsertOp { offset: t2.offset, length: t2.length, uuid: st1.next_id };
    assert(t2.offset == chunks_prefix_end(target_chunks, i + 1));
    assert(last1.spec_can_chain(cand2));
    assert(last1.length + cand2.length <= usize::MAX) by {
        assert(last1.offset + last1.length + cand2.length == chunks_prefix_end(
            target_chunks,
            i + 2,
        ));
    }
}

} // verus!
