use vstd::prelude::*;

verus! {

/// What can go wrong while reading or writing an archive.
#[derive(Debug, Clone, PartialEq, Eq)]
pub enum Error {
    /// Malformed bytes: a bad varint, a bad identifier, a truncated frame.
    Parsing(String),
    /// Well-formed bytes that are not an archive this library accepts.
    InvalidFile(String),
    /// A failure of the byte source or sink, as its text.
    Io(String),
    /// A failure of the CBOR codec, as its text.
    Cbor(String),
    /// A frame declares this length, beyond the reader's limit.
    LdReadTooLarge(u64),
}

} // verus!
