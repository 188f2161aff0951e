use vstd::prelude::*;

use crate::error::DeltaError;

verus! {

/// A 256-bit strong content digest, stored as four little-endian 64-bit
/// words: word `k` holds bytes `8*k .. 8*k+8` of the digest, least
/// significant byte first.
#[derive(Clone, Copy, PartialEq, Eq, Structural, Debug)]
pub struct Digest {
    pub w0: u64,
    pub w1: u64,
    pub w2: u64,
    pub w3: u64,
}

/// The blake3 digest of a byte sequence. The result depends on the bytes
/// alone; nothing further is assumed of it.
pub uninterp spec fn blake3_of(data: Seq<u8>) -> Digest;

/// Relies on blake3::hash: the 256-bit digest of the input bytes, a pure
/// function of those bytes, read out through blake3::Hash::as_bytes.
#[verifier::external_body]
pub(crate) fn blake3_digest(data: &[u8]) -> (r: Digest)
    ensures
        r == blake3_of(data@),
{
    let b = *blake3::hash(data).as_bytes();
    Digest {
        w0: u64::from_le_bytes(b[0..8].try_into().unwrap()),
        w1: u64::from_le_bytes(b[8..16].try_into().unwrap()),
        w2: u64::from_le_bytes(b[16..24].try_into().unwrap()),
        w3: u64::from_le_bytes(b[24..32].try_into().unwrap()),
    }
}

/// Byte `k` of a little-endian 64-bit word, for `0 <= k < 8`.
pub open spec fn word_byte(w: u64, k: int) -> u8 {
    (w >> ((8 * k) as u64)) as u8
}

/// Byte `j` of a digest, for `0 <= j < 32`, in the order blake3 emits them.
pub open spec fn digest_byte(d: Digest, j: int) -> u8 {
    if j < 8 {
        word_byte(d.w0, j)
    } else if j < 16 {
        word_byte(d.w1, j - 8)
    } else if j < 24 {
        word_byte(d.w2, j - 16)
    } else {
        word_byte(d.w3, j - 24)
    }
}

/// The ASCII lowercase hexadecimal character for a nibble `n < 16`.
pub open spec fn hex_char_of(n: u8) -> u8 {
    if n < 10 {
        (0x30 + n) as u8
    } else {
        (0x57 + n) as u8
    }
}

/// Nibble `i` of a digest's 64-character hex form: the high nibble of each
/// byte comes first.
pub open spec fn digest_nibble(d: Digest, i: int) -> u8 {
    if i % 2 == 0 {
        (digest_byte(d, i / 2) >> 4) as u8
    } else {
        (digest_byte(d, i / 2) & 0xf) as u8
    }
}

/// The 64-character lowercase hexadecimal form of a digest.
pub open spec fn digest_hex(d: Digest) -> Seq<u8> {
    Seq::new(64, |i: int| hex_char_of(digest_nibble(d, i)))
}

/// Whether an ASCII character is a hexadecimal digit (either case).
pub open spec fn is_hex_digit(c: u8) -> bool {
    (0x30 <= c && c <= 0x39) || (0x61 <= c && c <= 0x66) || (0x41 <= c && c <= 0x46)
}

/// The value of a hexadecimal digit character.
pub open spec fn hex_val(c: u8) -> u8 {
    if 0x30 <= c && c <= 0x39 {
        (c - 0x30) as u8
    } else if 0x61 <= c && c <= 0x66 {
        (c - 0x57) as u8
    } else {
        (c - 0x37) as u8
    }
}

/// The byte spelled out by hex characters `2*j` and `2*j + 1` of `s`.
pub open spec fn hex_byte(s: Seq<u8>, j: int) -> u8 {
    (16 * hex_val(s[2 * j]) + hex_val(s[2 * j + 1])) as u8
}

/// A 64-character string of hex digits spells out exactly the nibbles of
/// digest `d`.
pub open spec fn hex_represents(s: Seq<u8>, d: Digest) -> bool {
    &&& s.len() == 64
    &&& forall|i: int| 0 <= i < 64 ==> is_hex_digit(#[trigger] s[i])
    &&& forall|i: int| 0 <= i < 64 ==> hex_val(#[trigger] s[i]) == digest_nibble(d, i)
}

proof fn lemma_word_byte_injective(x: u64, y: u64)
    requires
        forall|k: int| 0 <= k < 8 ==> word_byte(x, k) == word_byte(y, k),
    ensures
        x == y,
{
    assert(word_byte(x, 0) == word_byte(y, 0) && word_byte(x, 1) == word_byte(y, 1) && word_byte(
        x,
        2,
    ) == word_byte(y, 2) && word_byte(x, 3) == word_byte(y, 3) && word_byte(x, 4) == word_byte(
        y,
        4,
    ) && word_byte(x, 5) == word_byte(y, 5) && word_byte(x, 6) == word_byte(y, 6) && word_byte(
        x,
        7,
    ) == word_byte(y, 7));
    assert(((x >> 0u64) as u8 == (y >> 0u64) as u8 && (x >> 8u64) as u8 == (y >> 8u64) as u8 && (x
        >> 16u64) as u8 == (y >> 16u64) as u8 && (x >> 24u64) as u8 == (y >> 24u64) as u8 && (x
        >> 32u64) as u8 == (y >> 32u64) as u8 && (x >> 40u64) as u8 == (y >> 40u64) as u8 && (x
        >> 48u64) as u8 == (y >> 48u64) as u8 && (x >> 56u64) as u8 == (y >> 56u64) as u8) ==> x
        == y) by (bit_vector);
}

/// Two digests with the same bytes are the same digest.
pub proof fn lemma_digest_byte_injective(a: Digest, b: Digest)
    requires
        forall|j: int| 0 <= j < 32 ==> digest_byte(a, j) == digest_byte(b, j),
    ensures
        a == b,
{
    assert forall|k: int| 0 <= k < 8 implies word_byte(a.w0, k) == word_byte(b.w0, k) by {
        assert(digest_byte(a, k) == digest_byte(b, k));
    }
    assert forall|k: int| 0 <= k < 8 implies word_byte(a.w1, k) == word_byte(b.w1, k) by {
        assert(digest_byte(a, k + 8) == digest_byte(b, k + 8));
    }
    assert forall|k: int| 0 <= k < 8 implies word_byte(a.w2, k) == word_byte(b.w2, k) by {
        assert(digest_byte(a, k + 16) == digest_byte(b, k + 16));
    }
    assert forall|k: int| 0 <= k < 8 implies word_byte(a.w3, k) == word_byte(b.w3, k) by {
        assert(digest_byte(a, k + 24) == digest_byte(b, k + 24));
    }
    lemma_word_byte_injective(a.w0, b.w0);
    lemma_word_byte_injective(a.w1, b.w1);
    lemma_word_byte_injective(a.w2, b.w2);
    lemma_word_byte_injective(a.w3, b.w3);
}

proof fn lemma_zero_word()
    ensures
        forall|k: int| 0 <= k < 8 ==> word_byte(0u64, k) == 0,
{
    assert forall|k: int| 0 <= k < 8 implies word_byte(0u64, k) == 0 by {
        let sh: u64 = (8 * k) as u64;
        assert(sh < 64 ==> (0u64 >> sh) as u8 == 0) by (bit_vector);
    }
}

/// Writes byte `i` of a word whose byte `i` is still zero.
fn set_word_byte(w: u64, i: u64, b: u8) -> (r: u64)
    requires
        i < 8,
        word_byte(w, i as int) == 0,
    ensures
        word_byte(r, i as int) == b,
        forall|k: int| 0 <= k < 8 && k != i ==> word_byte(r, k) == word_byte(w, k),
{
    let sh: u64 = 8 * i;
    let r = w | ((b as u64) << sh);
    proof {
        let shi: u64 = (8 * i) as u64;
        assert(shi < 64 && shi % 8 == 0 && (w >> shi) as u8 == 0 ==> ((w | ((b as u64) << shi))
            >> shi) as u8 == b) by (bit_vector);
        assert forall|k: int| 0 <= k < 8 && k != i implies word_byte(r, k) == word_byte(w, k) by {
            let shk: u64 = (8 * k) as u64;
            assert(shk < 64 && shi < 64 && shk % 8 == 0 && shi % 8 == 0 && shk != shi ==> ((w | ((
            b as u64) << shi)) >> shk) as u8 == (w >> shk) as u8) by (bit_vector);
        }
    }
    r
}

/// Converts one hexadecimal digit character to its value.
fn hex_value(c: u8) -> (r: Option<u8>)
    ensures
        match r {
            Some(v) => is_hex_digit(c) && v == hex_val(c) && v < 16,
            None => !is_hex_digit(c),
        },
{
    if 0x30 <= c && c <= 0x39 {
        Some(c - 0x30)
    } else if 0x61 <= c && c <= 0x66 {
        Some(c - 0x57)
    } else if 0x41 <= c && c <= 0x46 {
        Some(c - 0x37)
    } else {
        None
    }
}

/// Produces the lowercase hexadecimal character of a nibble.
fn hex_char(n: u8) -> (r: u8)
    requires
        n < 16,
    ensures
        r == hex_char_of(n),
{
    if n < 10 {
        0x30 + n
    } else {
        0x57 + n
    }
}

proof fn lemma_nibbles_of_byte(hi: u8, lo: u8)
    requires
        hi < 16,
        lo < 16,
    ensures
        ((16 * hi + lo) as u8) >> 4 == hi,
        ((16 * hi + lo) as u8) & 0xf == lo,
{
    assert(hi < 16 && lo < 16 ==> (((16 * hi + lo) as u8) >> 4) == hi && (((16 * hi + lo) as u8)
        & 0xf) == lo) by (bit_vector);
}

proof fn lemma_byte_from_nibbles(b: u8)
    ensures
        16 * (b >> 4) + (b & 0xf) == b,
        (b >> 4) < 16,
        (b & 0xf) < 16,
{
    assert(16 * (b >> 4) + (b & 0xf) == b && (b >> 4) < 16 && (b & 0xf) < 16) by (bit_vector);
}

impl Digest {
    /// Reads one byte of the digest.
    pub fn byte_at(&self, j: usize) -> (r: u8)
        requires
            j < 32,
        ensures
            r == digest_byte(*self, j as int),
    {
        let w: u64 = if j < 8 {
            self.w0
        } else if j < 16 {
            self.w1
        } else if j < 24 {
            self.w2
        } else {
            self.w3
        };
        let sh: u64 = (8 * (j % 8)) as u64;
        #[verifier::truncate] ((w >> sh) as u8)
    }

    /// Encodes the digest as its 64-character lowercase hexadecimal form.
    pub fn to_hex(&self) -> (r: Vec<u8>)
        ensures
            r@ == digest_hex(*self),
    {
        let mut out: Vec<u8> = Vec::new();
        let mut j: usize = 0;
        while j < 32
            invariant
                j <= 32,
                out@.len() == 2 * j,
                forall|i: int| 0 <= i < 2 * j ==> out@[i] == hex_char_of(digest_nibble(*self, i)),
            decreases 32 - j,
        {
            let b = self.byte_at(j);
            proof {
                lemma_byte_from_nibbles(digest_byte(*self, j as int));
            }
            let hi: u8 = b >> 4;
            let lo: u8 = b & 0xf;
            out.push(hex_char(hi));
            out.push(hex_char(lo));
            j = j + 1;
        }
        assert(out@ =~= digest_hex(*self));
        out
    }

    /// Decodes a digest from its 64-character hexadecimal form, either case.
    /// Anything else is rejected as a malformed digest string.
    pub fn from_hex(s: &Vec<u8>) -> (r: Result<Digest, DeltaError>)
        ensures
            match r {
                Ok(d) => hex_represents(s@, d),
                Err(e) => {
                    &&& e == DeltaError::BadHexDigest
                    &&& !(s@.len() == 64 && forall|i: int|
                        0 <= i < 64 ==> is_hex_digit(#[trigger] s@[i]))
                },
            },
    {
        if s.len() != 64 {
            return Err(DeltaError::BadHexDigest);
        }
        let mut w0: u64 = 0;
        let mut w1: u64 = 0;
        let mut w2: u64 = 0;
        let mut w3: u64 = 0;
        proof {
            lemma_zero_word();
        }
        let mut j: usize = 0;
        while j < 32
            invariant
                j <= 32,
                s@.len() == 64,
                forall|i: int| 0 <= i < 2 * j ==> is_hex_digit(#[trigger] s@[i]),
                forall|k: int|
                    0 <= k < 8 ==> word_byte(w0, k) == (if k < j {
                        hex_byte(s@, k)
                    } else {
                        0
                    }),
                forall|k: int|
                    0 <= k < 8 ==> word_byte(w1, k) == (if k + 8 < j {
                        hex_byte(s@, k + 8)
                    } else {
                        0
                    }),
                forall|k: int|
                    0 <= k < 8 ==> word_byte(w2, k) == (if k + 16 < j {
                        hex_byte(s@, k + 16)
                    } else {
                        0
                    }),
                forall|k: int|
                    0 <= k < 8 ==> word_byte(w3, k) == (if k + 24 < j {
                        hex_byte(s@, k + 24)
                    } else {
                        0
                    }),
            decreases 32 - j,
        {
            let hi = match hex_value(s[2 * j]) {
                Some(v) => v,
                None => {
                    return Err(DeltaError::BadHexDigest);
                },
            };
            let lo = match hex_value(s[2 * j + 1]) {
                Some(v) => v,
                None => {
                    return Err(DeltaError::BadHexDigest);
                },
            };
            let b: u8 = 16 * hi + lo;
            assert(b == hex_byte(s@, j as int));
            let i: u64 = (j % 8) as u64;
            if j < 8 {
                w0 = set_word_byte(w0, i, b);
            } else if j < 16 {
                w1 = set_word_byte(w1, i, b);
            } else if j < 24 {
                w2 = set_word_byte(w2, i, b);
            } else {
                w3 = set_word_byte(w3, i, b);
            }
            j = j + 1;
        }
        let d = Digest { w0, w1, w2, w3 };
        assert forall|i: int| 0 <= i < 64 implies hex_val(#[trigger] s@[i]) == digest_nibble(d, i)
        by {
            let jj = i / 2;
            assert(digest_byte(d, jj) == hex_byte(s@, jj));
            lemma_nibbles_of_byte(hex_val(s@[2 * jj]), hex_val(s@[2 * jj + 1]));
        }
        Ok(d)
    }
}

/// Hex encoding then decoding gives back the digest it started from: the
/// 64-character form written by `to_hex` denotes exactly one digest.
pub proof fn lemma_hex_round_trip(d: Digest, s: Seq<u8>, d2: Digest)
    requires
        s == digest_hex(d),
        hex_represents(s, d2),
    ensures
        d2 == d,
{
    assert forall|j: int| 0 <= j < 32 implies digest_byte(d2, j) == digest_byte(d, j) by {
        assert(s[2 * j] == hex_char_of(digest_nibble(d, 2 * j)));
        assert(s[2 * j + 1] == hex_char_of(digest_nibble(d, 2 * j + 1)));
        lemma_byte_from_nibbles(digest_byte(d, j));
        lemma_byte_from_nibbles(digest_byte(d2, j));
        assert(hex_val(s[2 * j]) == digest_nibble(d, 2 * j));
        assert(hex_val(s[2 * j + 1]) == digest_nibble(d, 2 * j + 1));
    }
    lemma_digest_byte_injective(d2, d);
}

} // verus!
