use vstd::prelude::*;

use vstd::slice::slice_subrange;

use crate::digest::{blake3_digest, blake3_of, Digest};
use crate::error::DeltaError;

verus! {

/// One chunk of a file: `length` bytes at `offset`, identified by the strong
/// hash of exactly those bytes.
#[derive(Clone, Copy, PartialEq, Eq, Structural, Debug)]
pub struct Chunk {
    /// Length of the chunk in bytes.
    pub length: usize,
    /// Starting byte position within the file.
    pub offset: u64,
    /// Strong hash of the chunk's bytes.
    pub strong_hash: Digest,
}

/// A chunk list is well formed when it is gapless and offset-ordered: the
/// first chunk starts at zero, each chunk starts exactly where the previous
/// one ends, and every chunk is non-empty.
pub open spec fn chunks_wf(chunks: Seq<Chunk>) -> bool {
    &&& (chunks.len() > 0 ==> chunks[0].offset == 0)
    &&& (forall|i: int|
        0 <= i && i + 1 < chunks.len() ==> (#[trigger] chunks[i + 1]).offset == chunks[i].offset
            + chunks[i].length)
    &&& (forall|i: int| 0 <= i < chunks.len() ==> (#[trigger] chunks[i]).length > 0)
}

/// The total extent covered by a gapless chunk list.
pub open spec fn chunks_end(chunks: Seq<Chunk>) -> int {
    if chunks.len() == 0 {
        0
    } else {
        chunks.last().offset + chunks.last().length
    }
}

/// The extent of the first `i` chunks of a gapless chunk list.
pub open spec fn chunks_prefix_end(chunks: Seq<Chunk>, i: int) -> int {
    if i <= 0 {
        0
    } else {
        chunks[i - 1].offset + chunks[i - 1].length
    }
}

pub proof fn lemma_chunks_mono(chunks: Seq<Chunk>, i: int, j: int)
    requires
        chunks_wf(chunks),
        0 <= i < j < chunks.len(),
    ensures
        chunks[i].offset + chunks[i].length <= chunks[j].offset,
    decreases j - i,
{
    if j == i + 1 {
        assert(chunks[i + 1].offset == chunks[i].offset + chunks[i].length);
    } else {
        lemma_chunks_mono(chunks, i, j - 1);
        assert(chunks[(j - 1) + 1].offset == chunks[j - 1].offset + chunks[j - 1].length);
    }
}

pub proof fn lemma_chunks_bounds(chunks: Seq<Chunk>)
    requires
        chunks_wf(chunks),
    ensures
        forall|i: int|
            0 <= i < chunks.len() ==> (#[trigger] chunks[i]).offset + chunks[i].length
                <= chunks_end(chunks),
{
    assert forall|i: int|
        0 <= i < chunks.len() implies (#[trigger] chunks[i]).offset + chunks[i].length
        <= chunks_end(chunks) by {
        if i < chunks.len() - 1 {
            lemma_chunks_mono(chunks, i, chunks.len() - 1);
        }
    }
}

/// Each prefix of a gapless chunk list ends no later than the whole list.
pub proof fn lemma_prefix_end_facts(chunks: Seq<Chunk>, i: int)
    requires
        chunks_wf(chunks),
        0 <= i <= chunks.len(),
    ensures
        chunks_prefix_end(chunks, i) <= chunks_end(chunks),
        chunks_prefix_end(chunks, i) >= 0,
        i < chunks.len() ==> chunks[i].offset == chunks_prefix_end(chunks, i),
{
    lemma_chunks_bounds(chunks);
    if i < chunks.len() {
        if i > 0 {
            assert(chunks[(i - 1) + 1].offset == chunks[i - 1].offset + chunks[i - 1].length);
        }
        if chunks.len() > 0 && i < chunks.len() - 1 {
            lemma_chunks_mono(chunks, i, chunks.len() - 1);
        }
    }
}

/// Non-empty gapless chunks cover at least one byte each: the first `i`
/// chunks span at least `i` bytes.
pub proof fn lemma_prefix_end_ge(chunks: Seq<Chunk>, i: int)
    requires
        chunks_wf(chunks),
        0 <= i <= chunks.len(),
    ensures
        chunks_prefix_end(chunks, i) >= i,
    decreases i,
{
    if i > 0 {
        lemma_prefix_end_ge(chunks, i - 1);
        lemma_prefix_end_facts(chunks, i - 1);
        assert(chunks[i - 1].length > 0);
    }
}

/// The size parameters the chunker supports: each within its hard bounds,
/// even, and ordered `min <= avg <= max`.
pub open spec fn valid_chunker_params(min_size: u32, avg_size: u32, max_size: u32) -> bool {
    &&& 64 <= min_size <= 1048576
    &&& 256 <= avg_size <= 4194304
    &&& 1024 <= max_size <= 16777216
    &&& min_size <= avg_size <= max_size
    &&& min_size % 2 == 0
    &&& avg_size % 2 == 0
    &&& max_size % 2 == 0
}

/// The chunk lengths the content-defined chunker cuts a byte sequence into,
/// for the given size parameters. The cuts depend on the bytes and the
/// parameters alone.
pub uninterp spec fn cdc_cuts(data: Seq<u8>, min_size: u32, avg_size: u32, max_size: u32) -> Seq<
    usize,
>;

/// The sum of a sequence of chunk lengths.
pub open spec fn len_sum(s: Seq<usize>) -> int
    decreases s.len(),
{
    if s.len() == 0 {
        0
    } else {
        len_sum(s.drop_last()) + s.last()
    }
}

pub proof fn lemma_len_sum_step(s: Seq<usize>, i: int)
    requires
        0 <= i < s.len(),
    ensures
        len_sum(s.subrange(0, i + 1)) == len_sum(s.subrange(0, i)) + s[i],
{
    assert(s.subrange(0, i + 1).drop_last() =~= s.subrange(0, i));
    assert(s.subrange(0, i + 1).last() == s[i]);
}

pub proof fn lemma_len_sum_prefix_le(s: Seq<usize>, i: int)
    requires
        0 <= i <= s.len(),
    ensures
        len_sum(s.subrange(0, i)) <= len_sum(s),
    decreases s.len() - i,
{
    if i == s.len() {
        assert(s.subrange(0, i) =~= s);
    } else {
        lemma_len_sum_step(s, i);
        lemma_len_sum_prefix_le(s, i + 1);
    }
}

/// Relies on fastcdc's 2020 content-defined chunker, driven over a byte
/// slice: for fixed size parameters the cut lengths depend on the bytes
/// alone, every chunk is non-empty, and the chunks exactly cover the input.
#[verifier::external_body]
fn cdc_cut_lengths(data: &[u8], min_size: u32, avg_size: u32, max_size: u32) -> (r: Vec<usize>)
    requires
        valid_chunker_params(min_size, avg_size, max_size),
    ensures
        r@ == cdc_cuts(data@, min_size, avg_size, max_size),
        forall|i: int| 0 <= i < r@.len() ==> (#[trigger] r@[i]) > 0,
        len_sum(r@) == data@.len(),
        (r@.len() == 0 <==> data@.len() == 0),
{
    let chunker = fastcdc::v2020::FastCDC::new(
        data,
        min_size as usize,
        avg_size as usize,
        max_size as usize,
    );
    chunker.map(|c| c.length).collect()
}

/// The signature of one file: a strong hash of the whole content, the
/// content length, and the ordered list of content-defined chunks.
#[derive(Debug)]
pub struct Signature {
    /// Strong hash of the whole file.
    pub strong_hash: Digest,
    /// Total length of the file in bytes.
    pub length: usize,
    /// The file's chunks, gapless and in offset order.
    pub chunks: Vec<Chunk>,
}

/// The first chunk of the list that carries the given strong hash: the
/// first-occurrence-wins policy of the chunk index.
pub open spec fn first_match(chunks: Seq<Chunk>, h: Digest) -> Option<Chunk>
    decreases chunks.len(),
{
    if chunks.len() == 0 {
        None
    } else if chunks[0].strong_hash == h {
        Some(chunks[0])
    } else {
        first_match(chunks.drop_first(), h)
    }
}

pub proof fn lemma_first_match_at(chunks: Seq<Chunk>, h: Digest, i: int)
    requires
        0 <= i < chunks.len(),
        chunks[i].strong_hash == h,
        forall|j: int| 0 <= j < i ==> (#[trigger] chunks[j]).strong_hash != h,
    ensures
        first_match(chunks, h) == Some(chunks[i]),
    decreases i,
{
    if i > 0 {
        lemma_first_match_at(chunks.drop_first(), h, i - 1);
        assert(chunks.drop_first()[i - 1] == chunks[i]);
        assert(forall|j: int|
            0 <= j < i - 1 ==> (#[trigger] chunks.drop_first()[j]) == chunks[j + 1]);
    }
}

pub proof fn lemma_first_match_none(chunks: Seq<Chunk>, h: Digest)
    requires
        forall|j: int| 0 <= j < chunks.len() ==> (#[trigger] chunks[j]).strong_hash != h,
    ensures
        first_match(chunks, h) == None::<Chunk>,
    decreases chunks.len(),
{
    if chunks.len() > 0 {
        assert(forall|j: int|
            0 <= j < chunks.len() - 1 ==> (#[trigger] chunks.drop_first()[j]) == chunks[j + 1]);
        lemma_first_match_none(chunks.drop_first(), h);
    }
}

/// A successful first-occurrence lookup returns one of the chunks, and one
/// carrying exactly the hash it was asked for.
pub proof fn lemma_first_match_found(chunks: Seq<Chunk>, h: Digest)
    ensures
        match first_match(chunks, h) {
            Some(c) => exists|i: int|
                0 <= i < chunks.len() && (#[trigger] chunks[i]) == c && c.strong_hash == h,
            None => forall|i: int| 0 <= i < chunks.len() ==> (#[trigger] chunks[i]).strong_hash != h,
        },
    decreases chunks.len(),
{
    if chunks.len() > 0 {
        if chunks[0].strong_hash == h {
            assert(first_match(chunks, h) == Some(chunks[0]));
        } else {
            lemma_first_match_found(chunks.drop_first(), h);
            assert(forall|j: int|
                0 <= j < chunks.len() - 1 ==> (#[trigger] chunks.drop_first()[j]) == chunks[j + 1]);
            match first_match(chunks, h) {
                Some(c) => {
                    let i = choose|i: int|
                        0 <= i < chunks.drop_first().len() && (#[trigger] chunks.drop_first()[i])
                            == c && c.strong_hash == h;
                    assert(chunks[i + 1] == c);
                },
                None => {
                    assert forall|i: int|
                        0 <= i < chunks.len() implies (#[trigger] chunks[i]).strong_hash != h by {
                        if i > 0 {
                            assert(chunks.drop_first()[i - 1].strong_hash != h);
                        }
                    }
                },
            }
        }
    }
}

impl Signature {
    /// A signature is well formed when its chunk list is gapless and
    /// offset-ordered and its length is the total extent of the chunks.
    pub open spec fn wf(self) -> bool {
        &&& chunks_wf(self.chunks@)
        &&& self.length == chunks_end(self.chunks@)
    }

    /// The signature describes exactly this content chunked with these
    /// parameters: the chunks follow the content-defined cuts, each chunk
    /// carries the strong hash of its bytes, and the whole-file hash and
    /// length cover all of the data.
    pub open spec fn matches(
        self,
        data: Seq<u8>,
        min_size: u32,
        avg_size: u32,
        max_size: u32,
    ) -> bool {
        let cuts = cdc_cuts(data, min_size, avg_size, max_size);
        &&& self.strong_hash == blake3_of(data)
        &&& self.length == data.len()
        &&& self.chunks@.len() == cuts.len()
        &&& (forall|i: int|
            0 <= i < cuts.len() ==> (#[trigger] self.chunks@[i]).length == cuts[i])
        &&& (forall|i: int|
            0 <= i < cuts.len() ==> (#[trigger] self.chunks@[i]).offset == len_sum(
                cuts.subrange(0, i),
            ))
        &&& (forall|i: int|
            0 <= i < cuts.len() ==> (#[trigger] self.chunks@[i]).strong_hash == blake3_of(
                data.subrange(
                    self.chunks@[i].offset as int,
                    self.chunks@[i].offset + self.chunks@[i].length,
                ),
            ))
    }

    /// Generates a file signature: splits the content into content-defined
    /// chunks, hashes each chunk, and hashes the whole content.
    pub fn generate(data: &Vec<u8>, min_size: u32, avg_size: u32, max_size: u32) -> (r: Result<
        Signature,
        DeltaError,
    >)
        ensures
            match r {
                Ok(sig) => {
                    &&& valid_chunker_params(min_size, avg_size, max_size)
                    &&& sig.wf()
                    &&& sig.matches(data@, min_size, avg_size, max_size)
                },
                Err(e) => {
                    &&& e == DeltaError::BadChunkerParams
                    &&& !valid_chunker_params(min_size, avg_size, max_size)
                },
            },
    {
        if !(64 <= min_size && min_size <= 1048576 && 256 <= avg_size && avg_size <= 4194304
            && 1024 <= max_size && max_size <= 16777216 && min_size <= avg_size && avg_size
            <= max_size && min_size % 2 == 0 && avg_size % 2 == 0 && max_size % 2 == 0) {
            return Err(DeltaError::BadChunkerParams);
        }
        let n = data.len();
        let cuts = cdc_cut_lengths(data.as_slice(), min_size, avg_size, max_size);
        let ghost cs = cuts@;
        let mut chunks: Vec<Chunk> = Vec::new();
        let mut off: usize = 0;
        let mut length: usize = 0;
        let mut i: usize = 0;
        while i < cuts.len()
            invariant
                i <= cs.len(),
                cuts@ == cs,
                n == data@.len(),
                cs == cdc_cuts(data@, min_size, avg_size, max_size),
                forall|k: int| 0 <= k < cs.len() ==> (#[trigger] cs[k]) > 0,
                len_sum(cs) == data@.len(),
                chunks@.len() == i,
                off == len_sum(cs.subrange(0, i as int)),
                length == off,
                forall|k: int| 0 <= k < i ==> (#[trigger] chunks@[k]).length == cs[k],
                forall|k: int|
                    0 <= k < i ==> (#[trigger] chunks@[k]).offset == len_sum(cs.subrange(0, k)),
                forall|k: int|
                    0 <= k < i ==> (#[trigger] chunks@[k]).strong_hash == blake3_of(
                        data@.subrange(
                            chunks@[k].offset as int,
                            chunks@[k].offset + chunks@[k].length,
                        ),
                    ),
            decreases cs.len() - i,
        {
            proof {
                lemma_len_sum_step(cs, i as int);
                lemma_len_sum_prefix_le(cs, i as int + 1);
                assert(off + cs[i as int] <= data@.len());
            }
            let l = cuts[i];
            let end = off + l;
            let piece = slice_subrange(data.as_slice(), off, end);
            let h = blake3_digest(piece);
            chunks.push(Chunk { length: l, offset: off as u64, strong_hash: h });
            off = off + l;
            length = length + l;
            i = i + 1;
        }
        proof {
            assert(cs.subrange(0, cs.len() as int) =~= cs);
            assert forall|k: int|
                0 <= k && k + 1 < chunks@.len() implies (#[trigger] chunks@[k + 1]).offset
                == chunks@[k].offset + chunks@[k].length by {
                lemma_len_sum_step(cs, k);
            }
            if cs.len() > 0 {
                lemma_len_sum_step(cs, cs.len() - 1);
            }
        }
        let strong_hash = blake3_digest(data.as_slice());
        Ok(Signature { strong_hash, length, chunks })
    }

    /// Builds a signature from already known parts, as read back from a
    /// persisted signature file, rejecting a chunk list that is not gapless
    /// and offset-ordered or a length that does not cover it.
    pub fn new(strong_hash: Digest, length: usize, chunks: Vec<Chunk>) -> (r: Result<
        Signature,
        DeltaError,
    >)
        ensures
            match r {
                Ok(sig) => {
                    &&& sig.strong_hash == strong_hash
                    &&& sig.length == length
                    &&& sig.chunks@ == chunks@
                    &&& sig.wf()
                },
                Err(e) => {
                    &&& e == DeltaError::BadChunkList
                    &&& !(chunks_wf(chunks@) && length == chunks_end(chunks@))
                },
            },
    {
        let mut expected: u64 = 0;
        let mut i: usize = 0;
        while i < chunks.len()
            invariant
                i <= chunks@.len(),
                expected == if i == 0 {
                    0int
                } else {
                    chunks@[i as int - 1].offset + chunks@[i as int - 1].length
                },
                i > 0 ==> chunks@[0].offset == 0,
                forall|k: int|
                    0 <= k && k + 1 < i ==> (#[trigger] chunks@[k + 1]).offset == chunks@[k].offset
                        + chunks@[k].length,
                forall|k: int| 0 <= k < i ==> (#[trigger] chunks@[k]).length > 0,
            decreases chunks@.len() - i,
        {
            let c = &chunks[i];
            if c.offset != expected || c.length == 0 {
                proof {
                    if chunks_wf(chunks@) {
                        assert(chunks@[i as int].length > 0);
                        if i > 0 {
                            assert(chunks@[(i - 1) as int + 1].offset == chunks@[i as int
                                - 1].offset + chunks@[i as int - 1].length);
                        }
                        assert(false);
                    }
                }
                return Err(DeltaError::BadChunkList);
            }
            if (c.length as u64) > u64::MAX - expected {
                proof {
                    if i + 1 < chunks@.len() {
                        if chunks_wf(chunks@) {
                            assert(chunks@[i as int + 1].offset == chunks@[i as int].offset
                                + chunks@[i as int].length);
                            assert(false);
                        }
                    } else {
                        assert(chunks_end(chunks@) == c.offset + c.length > u64::MAX >= length);
                    }
                }
                return Err(DeltaError::BadChunkList);
            }
            expected = expected + (c.length as u64);
            i = i + 1;
        }
        if expected != (length as u64) {
            proof {
                if chunks@.len() == 0 {
                    assert(chunks_end(chunks@) == 0);
                } else {
                    assert(chunks_end(chunks@) == expected);
                }
            }
            return Err(DeltaError::BadChunkList);
        }
        Ok(Signature { strong_hash, length, chunks })
    }

    /// Returns the total length of the file.
    pub fn length(&self) -> (r: usize)
        ensures
            r == self.length,
    {
        self.length
    }

    /// Returns the whole-file strong hash.
    pub fn strong_hash(&self) -> (r: Digest)
        ensures
            r == self.strong_hash,
    {
        self.strong_hash
    }

    /// Returns the file's chunks, gapless and in offset order.
    pub fn chunks(&self) -> (r: &Vec<Chunk>)
        ensures
            r@ == self.chunks@,
    {
        &self.chunks
    }

    /// Looks up the first chunk of this signature carrying the given strong
    /// hash, the representative the chunk index would serve.
    pub fn find_chunk(&self, h: &Digest) -> (r: Option<Chunk>)
        ensures
            r == first_match(self.chunks@, *h),
    {
        let mut i: usize = 0;
        while i < self.chunks.len()
            invariant
                i <= self.chunks@.len(),
                forall|j: int| 0 <= j < i ==> (#[trigger] self.chunks@[j]).strong_hash != *h,
            decreases self.chunks@.len() - i,
        {
            let c = &self.chunks[i];
            if c.strong_hash == *h {
                proof {
                    lemma_first_match_at(self.chunks@, *h, i as int);
                }
                return Some(*c);
            }
            i = i + 1;
        }
        proof {
            lemma_first_match_none(self.chunks@, *h);
        }
        None
    }
}

impl PartialEq for Signature {
    /// Two signatures are equal exactly when their whole-file strong hashes
    /// are: chunk-by-chunk comparison is deliberately skipped.
    fn eq(&self, other: &Signature) -> bool {
        self.strong_hash == other.strong_hash
    }
}

impl Eq for Signature {

}

impl vstd::std_specs::cmp::PartialEqSpecImpl for Signature {
    open spec fn obeys_eq_spec() -> bool {
        true
    }

    open spec fn eq_spec(&self, other: &Signature) -> bool {
        self.strong_hash == other.strong_hash
    }
}

/// Signing is deterministic: any two signatures of the same bytes under the
/// same chunking parameters agree on every field — same chunk boundaries,
/// same chunk hashes, same whole-file hash, same length.
pub proof fn lemma_signature_deterministic(
    a: Signature,
    b: Signature,
    data: Seq<u8>,
    min_size: u32,
    avg_size: u32,
    max_size: u32,
)
    requires
        a.matches(data, min_size, avg_size, max_size),
        b.matches(data, min_size, avg_size, max_size),
    ensures
        a.strong_hash == b.strong_hash,
        a.length == b.length,
        a.chunks@ == b.chunks@,
{
    let cuts = cdc_cuts(data, min_size, avg_size, max_size);
    assert forall|i: int| 0 <= i < cuts.len() implies a.chunks@[i] == b.chunks@[i] by {
        assert(a.chunks@[i].length == cuts[i] && b.chunks@[i].length == cuts[i]);
        assert(a.chunks@[i].offset == b.chunks@[i].offset);
        assert(a.chunks@[i].strong_hash == b.chunks@[i].strong_hash);
    }
    assert(a.chunks@ =~= b.chunks@);
}

} // verus!
