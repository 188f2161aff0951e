//! Delta synchronisation over content-defined chunk signatures: a file is
//! fingerprinted as a list of chunk digests, two fingerprints are diffed
//! into a minimal list of copy and insert operations, the insert bytes are
//! gathered into a payload file, and the destination file is rebuilt from
//! the source bytes and that payload.

pub mod builder;
pub mod diff;
pub mod digest;
pub mod error;
pub mod ops;
pub mod roundtrip;
pub mod signature;
