use vstd::prelude::*;

use crate::builder::{
    inserts_in_bounds, lemma_inserts_membership, payload_spec, reconstruct_spec, schema_spec,
    Segment,
};
use crate::diff::{
    classify, copies_of, diff_after, inserts_of, lemma_diff_model_inv, model_inv,
};
use crate::error::DeltaError;
use crate::ops::{
    inserts_len_sum, lemma_inserts_sum_nonneg, lemma_inserts_sum_prefix_le, lemma_inserts_sum_step,
    ops_tile, CopyOp, InsertOp, Operation,
};
use crate::signature::{
    chunks_end, chunks_prefix_end, lemma_first_match_found, lemma_prefix_end_facts, Chunk,
    Signature,
};
use crate::digest::blake3_of;

verus! {

/// The bytes one chunk covers.
pub open spec fn chunk_bytes(data: Seq<u8>, c: Chunk) -> Seq<u8> {
    data.subrange(c.offset as int, c.offset + c.length)
}

/// No strong-hash collision among the chunks at hand: whenever a source
/// chunk and a target chunk carry the same digest, their bytes are the same.
/// Matching trusts the hash, so reconstruction is exact only on inputs where
/// that trust holds — which a collision-resistant 256-bit digest makes of
/// every input in practice.
pub open spec fn collision_free(
    source_data: Seq<u8>,
    target_data: Seq<u8>,
    source_chunks: Seq<Chunk>,
    target_chunks: Seq<Chunk>,
) -> bool {
    forall|i: int, j: int|
        0 <= i < source_chunks.len() && 0 <= j < target_chunks.len() ==> (blake3_of(
            chunk_bytes(source_data, #[trigger] source_chunks[i]),
        ) == blake3_of(chunk_bytes(target_data, #[trigger] target_chunks[j]))
            ==> chunk_bytes(source_data, source_chunks[i]) == chunk_bytes(
            target_data,
            target_chunks[j],
        ))
}

/// Every copy operation the diff computation emits moves bytes that are
/// equal on both sides: the source range it names holds exactly the bytes
/// of the target range it fills.
pub proof fn lemma_copies_semantic(
    source_data: Seq<u8>,
    target_data: Seq<u8>,
    ssig: Signature,
    tsig: Signature,
    min_size: u32,
    avg_size: u32,
    max_size: u32,
    i: int,
)
    requires
        ssig.wf(),
        tsig.wf(),
        ssig.matches(source_data, min_size, avg_size, max_size),
        tsig.matches(target_data, min_size, avg_size, max_size),
        collision_free(source_data, target_data, ssig.chunks@, tsig.chunks@),
        0 <= i <= tsig.chunks@.len(),
    ensures
        ({
            let st = diff_after(ssig.chunks@, tsig.chunks@, i);
            forall|k: int|
                0 <= k < st.copies.len() ==> source_data.subrange(
                    (#[trigger] st.copies[k]).source_offset as int,
                    st.copies[k].source_offset + st.copies[k].length,
                ) == target_data.subrange(
                    st.copies[k].offset as int,
                    st.copies[k].offset + st.copies[k].length,
                )
        }),
    decreases i,
{
    let scs = ssig.chunks@;
    let tcs = tsig.chunks@;
    if i > 0 {
        lemma_copies_semantic(
            source_data,
            target_data,
            ssig,
            tsig,
            min_size,
            avg_size,
            max_size,
            i - 1,
        );
        lemma_diff_model_inv(scs, tcs, i - 1);
        lemma_diff_model_inv(scs, tcs, i);
        lemma_prefix_end_facts(tcs, i - 1);
        lemma_prefix_end_facts(tcs, i);
        let st = diff_after(scs, tcs, i - 1);
        let st2 = diff_after(scs, tcs, i);
        let tc = tcs[i - 1];
        let pos0 = chunks_prefix_end(tcs, i - 1);
        lemma_first_match_found(scs, tc.strong_hash);
        match classify(scs, tc) {
            Some(sc) => {
                let idx = choose|ix: int|
                    0 <= ix < scs.len() && (#[trigger] scs[ix]) == sc && sc.strong_hash
                        == tc.strong_hash;
                assert(scs[idx].strong_hash == blake3_of(chunk_bytes(source_data, scs[idx])));
                assert(tcs[i - 1].strong_hash == blake3_of(chunk_bytes(target_data, tcs[i - 1])));
                assert(chunk_bytes(source_data, sc) == chunk_bytes(target_data, tc));
                let cand = CopyOp {
                    source_offset: sc.offset,
                    offset: tc.offset,
                    length: sc.length,
                };
                assert(source_data.subrange(
                    cand.source_offset as int,
                    cand.source_offset + cand.length,
                ) == target_data.subrange(cand.offset as int, cand.offset + cand.length));
                if st.copies.len() > 0 && st.copies.last().spec_can_chain(cand) {
                    let last_c = st.copies.last();
                    let ext = st2.copies.last();
                    assert(st2.copies == st.copies.update(st.copies.len() - 1, ext));
                    assert(ext.length == last_c.length + cand.length) by {
                        assert(last_c.offset + last_c.length + cand.length == chunks_prefix_end(
                            tcs,
                            i,
                        ));
                        assert(chunks_prefix_end(tcs, i) <= chunks_end(tcs));
                    }
                    assert(ext.source_offset + ext.length <= source_data.len()) by {
                        assert(ssig.length == source_data.len());
                        assert(ssig.length == chunks_end(scs));
                    }
                    assert(ext.offset + ext.length <= target_data.len()) by {
                        assert(tsig.length == target_data.len());
                        assert(tsig.length == chunks_end(tcs));
                        assert(chunks_prefix_end(tcs, i) <= chunks_end(tcs));
                    }
                    assert(source_data.subrange(
                        ext.source_offset as int,
                        ext.source_offset + ext.length,
                    ) =~= source_data.subrange(
                        last_c.source_offset as int,
                        last_c.source_offset + last_c.length,
                    ) + source_data.subrange(
                        cand.source_offset as int,
                        cand.source_offset + cand.length,
                    ));
                    assert(target_data.subrange(ext.offset as int, ext.offset + ext.length)
                        =~= target_data.subrange(last_c.offset as int, last_c.offset
                        + last_c.length) + target_data.subrange(
                        cand.offset as int,
                        cand.offset + cand.length,
                    ));
                    assert(source_data.subrange(
                        last_c.source_offset as int,
                        last_c.source_offset + last_c.length,
                    ) == target_data.subrange(last_c.offset as int, last_c.offset + last_c.length));
                } else {
                    assert(st2.copies == st.copies.push(cand));
                }
            },
            None => {
                assert(st2.copies == st.copies);
            },
        }
    }
}

proof fn lemma_payload_len(target_data: Seq<u8>, inserts: Seq<InsertOp>)
    requires
        inserts_in_bounds(inserts, target_data.len() as int),
    ensures
        payload_spec(target_data, inserts).len() == inserts_len_sum(inserts),
    decreases inserts.len(),
{
    if inserts.len() > 0 {
        assert(forall|k: int| 0 <= k < inserts.len() - 1 ==> (#[trigger] inserts.drop_last()[k])
            == inserts[k]);
        lemma_payload_len(target_data, inserts.drop_last());
        assert(inserts[inserts.len() - 1].offset + inserts[inserts.len() - 1].length
            <= target_data.len());
    }
}

/// The schema built from a list of inserts with strictly ascending ids maps
/// each op's id to its own segment, and that segment of the payload holds
/// exactly the op's target bytes.
pub proof fn lemma_payload_schema_facts(target_data: Seq<u8>, inserts: Seq<InsertOp>)
    requires
        inserts_in_bounds(inserts, target_data.len() as int),
        forall|k1: int, k2: int|
            0 <= k1 < k2 < inserts.len() ==> (#[trigger] inserts[k1]).uuid
                < (#[trigger] inserts[k2]).uuid,
        inserts_len_sum(inserts) <= u64::MAX,
    ensures
        forall|k: int|
            0 <= k < inserts.len() ==> {
                let sch = schema_spec(inserts);
                let seg = sch[(#[trigger] inserts[k]).uuid];
                &&& sch.contains_key(inserts[k].uuid)
                &&& seg.length == inserts[k].length
                &&& seg.at == inserts_len_sum(inserts.subrange(0, k))
                &&& seg.at + seg.length <= payload_spec(target_data, inserts).len()
                &&& payload_spec(target_data, inserts).subrange(
                    seg.at as int,
                    seg.at + seg.length,
                ) == target_data.subrange(
                    inserts[k].offset as int,
                    inserts[k].offset + inserts[k].length,
                )
            },
    decreases inserts.len(),
{
    if inserts.len() > 0 {
        let pre = inserts.drop_last();
        let lastop = inserts.last();
        assert(forall|k: int| 0 <= k < pre.len() ==> (#[trigger] pre[k]) == inserts[k]);
        lemma_inserts_sum_nonneg(pre);
        assert(inserts_len_sum(pre) + lastop.length == inserts_len_sum(inserts));
        lemma_payload_schema_facts(target_data, pre);
        lemma_payload_len(target_data, pre);
        lemma_payload_len(target_data, inserts);
        let sch = schema_spec(inserts);
        let pay = payload_spec(target_data, inserts);
        let paypre = payload_spec(target_data, pre);
        assert(sch == schema_spec(pre).insert(
            lastop.uuid,
            Segment { at: inserts_len_sum(pre) as u64, length: lastop.length },
        ));
        assert(pay == paypre + target_data.subrange(
            lastop.offset as int,
            lastop.offset + lastop.length,
        ));
        assert forall|k: int| 0 <= k < inserts.len() implies {
            let seg = sch[(#[trigger] inserts[k]).uuid];
            &&& sch.contains_key(inserts[k].uuid)
            &&& seg.length == inserts[k].length
            &&& seg.at == inserts_len_sum(inserts.subrange(0, k))
            &&& seg.at + seg.length <= pay.len()
            &&& pay.subrange(seg.at as int, seg.at + seg.length) == target_data.subrange(
                inserts[k].offset as int,
                inserts[k].offset + inserts[k].length,
            )
        } by {
            if k == inserts.len() - 1 {
                let seg = sch[lastop.uuid];
                assert(seg == Segment { at: inserts_len_sum(pre) as u64, length: lastop.length });
                assert(inserts.subrange(0, k) =~= pre);
                assert(pay.subrange(seg.at as int, seg.at + seg.length) =~= target_data.subrange(
                    lastop.offset as int,
                    lastop.offset + lastop.length,
                ));
            } else {
                assert(inserts[k] == pre[k]);
                assert(inserts[k].uuid < lastop.uuid);
                assert(sch[inserts[k].uuid] == schema_spec(pre)[inserts[k].uuid]);
                assert(sch.contains_key(inserts[k].uuid));
                let seg = sch[inserts[k].uuid];
                assert(seg.length == pre[k].length);
                assert(seg.at == inserts_len_sum(pre.subrange(0, k)));
                assert(inserts.subrange(0, k) =~= pre.subrange(0, k));
                assert(seg.at + seg.length <= paypre.len()) by {
                    lemma_inserts_sum_step(pre, k);
                    lemma_inserts_sum_prefix_le(pre, k + 1);
                }
                assert(pay.subrange(seg.at as int, seg.at + seg.length) =~= paypre.subrange(
                    seg.at as int,
                    seg.at + seg.length,
                ));
            }
        }
    }
}

/// Applying a tiled operation list whose copies move equal bytes and whose
/// inserts find their own bytes in the payload rebuilds the target prefix
/// the tiling covers, byte for byte.
proof fn lemma_reconstruct_tiled(
    source_data: Seq<u8>,
    target_data: Seq<u8>,
    ops: Seq<Operation>,
    payload: Seq<u8>,
    schema: Map<u64, Segment>,
    end: int,
)
    requires
        ops_tile(ops, end),
        0 <= end <= target_data.len(),
        forall|k: int|
            0 <= k < ops.len() ==> match #[trigger] ops[k] {
                Operation::COPY(c) => c.source_offset + c.length <= source_data.len()
                    && source_data.subrange(c.source_offset as int, c.source_offset + c.length)
                    == target_data.subrange(c.offset as int, c.offset + c.length),
                Operation::INSERT(op) => schema.contains_key(op.uuid) && schema[op.uuid].length
                    == op.length && schema[op.uuid].at + op.length <= payload.len()
                    && payload.subrange(
                    schema[op.uuid].at as int,
                    schema[op.uuid].at + op.length,
                ) == target_data.subrange(op.offset as int, op.offset + op.length),
            },
    ensures
        reconstruct_spec(source_data, ops, payload, schema) == Result::<Seq<u8>, DeltaError>::Ok(
            target_data.subrange(0, end),
        ),
    decreases ops.len(),
{
    if ops.len() == 0 {
        assert(target_data.subrange(0, 0) =~= Seq::<u8>::empty());
    } else {
        let pre = ops.drop_last();
        let last = ops.last();
        let mid = last.spec_offset() as int;
        assert(forall|j: int| 0 <= j < pre.len() ==> (#[trigger] pre[j]) == ops[j]);
        assert(ops_tile(pre, mid)) by {
            if pre.len() > 0 {
                assert(pre.last() == ops[ops.len() - 2]);
                assert(ops[(ops.len() - 2) + 1].spec_offset() == ops[ops.len() - 2].spec_offset()
                    + ops[ops.len() - 2].spec_length());
            }
        }
        assert(mid + last.spec_length() == end);
        lemma_reconstruct_tiled(source_data, target_data, pre, payload, schema, mid);
        assert(ops[ops.len() - 1] == last);
        match last {
            Operation::COPY(c) => {
                assert(target_data.subrange(0, end) =~= target_data.subrange(0, mid)
                    + target_data.subrange(c.offset as int, c.offset + c.length));
            },
            Operation::INSERT(op) => {
                assert(target_data.subrange(0, end) =~= target_data.subrange(0, mid)
                    + target_data.subrange(op.offset as int, op.offset + op.length));
            },
        }
    }
}

/// Round-trip reconstruction: build both signatures, compute the diff,
/// stream the insert ranges of the target into a payload, then apply the
/// operations to the source and the payload — the destination bytes are the
/// target bytes exactly. Holds on every input on which the strong hash does
/// not collide over the chunks involved.
#[verifier::rlimit(50)]
pub proof fn lemma_round_trip(
    source_data: Seq<u8>,
    target_data: Seq<u8>,
    ssig: Signature,
    tsig: Signature,
    min_size: u32,
    avg_size: u32,
    max_size: u32,
)
    requires
        ssig.wf(),
        tsig.wf(),
        ssig.matches(source_data, min_size, avg_size, max_size),
        tsig.matches(target_data, min_size, avg_size, max_size),
        collision_free(source_data, target_data, ssig.chunks@, tsig.chunks@),
    ensures
        ({
            let st = diff_after(ssig.chunks@, tsig.chunks@, tsig.chunks@.len() as int);
            reconstruct_spec(
                source_data,
                st.ops,
                payload_spec(target_data, st.inserts),
                schema_spec(st.inserts),
            ) == Result::<Seq<u8>, DeltaError>::Ok(target_data)
        }),
{
    let scs = ssig.chunks@;
    let tcs = tsig.chunks@;
    let n = tcs.len() as int;
    let st = diff_after(scs, tcs, n);
    let tlen = target_data.len() as int;
    lemma_diff_model_inv(scs, tcs, n);
    lemma_prefix_end_facts(tcs, n);
    assert(chunks_prefix_end(tcs, n) == chunks_end(tcs));
    assert(chunks_end(tcs) == tsig.length);
    assert(model_inv(st, tlen, chunks_end(scs)));
    lemma_copies_semantic(
        source_data,
        target_data,
        ssig,
        tsig,
        min_size,
        avg_size,
        max_size,
        n,
    );
    assert(inserts_in_bounds(st.inserts, tlen));
    lemma_payload_schema_facts(target_data, st.inserts);
    lemma_inserts_membership(st.ops);
    let payload = payload_spec(target_data, st.inserts);
    let schema = schema_spec(st.inserts);
    assert forall|k: int|
        0 <= k < st.ops.len() implies match #[trigger] st.ops[k] {
        Operation::COPY(c) => c.source_offset + c.length <= source_data.len()
            && source_data.subrange(c.source_offset as int, c.source_offset + c.length)
            == target_data.subrange(c.offset as int, c.offset + c.length),
        Operation::INSERT(op) => schema.contains_key(op.uuid) && schema[op.uuid].length
            == op.length && schema[op.uuid].at + op.length <= payload.len() && payload.subrange(
            schema[op.uuid].at as int,
            schema[op.uuid].at + op.length,
        ) == target_data.subrange(op.offset as int, op.offset + op.length),
    } by {
        match st.ops[k] {
            Operation::COPY(c) => {
                assert(exists|j2: int|
                    0 <= j2 < copies_of(st.ops).len() && (#[trigger] copies_of(st.ops)[j2]) == c)
                    by {
                    lemma_copies_membership(st.ops, k);
                }
                let j2 = choose|j2: int|
                    0 <= j2 < copies_of(st.ops).len() && (#[trigger] copies_of(st.ops)[j2]) == c;
                assert(st.copies[j2] == c);
                assert(c.source_offset + c.length <= chunks_end(scs));
                assert(chunks_end(scs) == ssig.length);
                assert(ssig.length == source_data.len());
            },
            Operation::INSERT(op) => {
                let j = choose|j: int|
                    0 <= j < inserts_of(st.ops).len() && (#[trigger] inserts_of(st.ops)[j]) == op;
                assert(st.inserts[j] == op);
            },
        }
    }
    lemma_reconstruct_tiled(source_data, target_data, st.ops, payload, schema, tlen);
    assert(target_data.subrange(0, tlen) =~= target_data);
}

/// Every copy of an operation list appears among its copies.
proof fn lemma_copies_membership(s: Seq<Operation>, k: int)
    requires
        0 <= k < s.len(),
        s[k] is COPY,
    ensures
        exists|j: int|
            0 <= j < copies_of(s).len() && (#[trigger] copies_of(s)[j]) == s[k]->COPY_0,
    decreases s.len(),
{
    if k == s.len() - 1 {
        assert(copies_of(s).last() == s[k]->COPY_0);
        assert(copies_of(s)[copies_of(s).len() - 1] == s[k]->COPY_0);
    } else {
        assert(s.drop_last()[k] == s[k]);
        lemma_copies_membership(s.drop_last(), k);
        let j = choose|j: int|
            0 <= j < copies_of(s.drop_last()).len() && (#[trigger] copies_of(s.drop_last())[j])
                == s.drop_last()[k]->COPY_0;
        assert(0 <= j < copies_of(s).len());
        assert(copies_of(s)[j] == s[k]->COPY_0);
    }
}

} // verus!
