use vstd::prelude::*;

verus! {

/// Everything that can go wrong while building signatures, payloads, or
/// reconstructed files. Stream-level I/O failures belong to the caller that
/// owns the streams; the library itself works on in-memory bytes and reports
/// exactly these conditions.
#[derive(Clone, Copy, PartialEq, Eq, Structural, Debug)]
pub enum DeltaError {
    /// Chunker size parameters outside the supported bounds.
    BadChunkerParams,
    /// A chunk list that is not gapless, offset-ordered, and positive-length.
    BadChunkList,
    /// A digest string that is not exactly 64 hexadecimal characters.
    BadHexDigest,
    /// An insert range that reaches past the end of the target bytes.
    InsertOutOfBounds,
    /// A copy range that reaches past the end of the source bytes.
    CopyOutOfBounds,
    /// A segment that reaches past the end of the payload bytes.
    SegmentOutOfBounds,
    /// An insert operation whose id has no segment in the schema.
    MissingSegment(u64),
}

} // verus!
