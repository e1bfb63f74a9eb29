use vstd::prelude::*;

verus! {

/// Every way a DEFLATE session can fail. All of them end the session.
#[derive(Debug, Clone, Copy, PartialEq, Eq, Structural)]
pub enum DeflateError {
    /// The input ended before the current block was complete.
    EndOfStream,
    /// More than 31 bits were asked for at once.
    BitCountOutOfRange,
    /// A code-length array assigns more codewords than a prefix code can hold.
    OverSubscribedCode,
    /// A code-length array leaves part of the code space unused.
    UnderSubscribedCode,
    /// No codeword of at most fifteen bits matched the input.
    InvalidCode,
    /// A decoded symbol, or a declared alphabet size, lies outside its range.
    InvalidSymbol,
    /// A back-reference distance is zero or reaches before the window's history.
    InvalidBackReference,
    /// The stored-block length does not match its one's complement.
    ChecksumMismatch,
    /// The reserved block type `0b11` was found.
    UnsupportedBlockType,
    /// A zlib envelope is too short to hold its header and trailer.
    InvalidCheckBytes,
    /// The zlib codec reported a failure.
    Io,
}

/// Why a PNG file could not be read or rewritten.
#[derive(Debug, Clone)]
pub struct PngError {
    pub reason: String,
}

impl PngError {
    pub fn new(reason: &str) -> (r: Self)
        ensures
            r.reason@ == reason@,
    {
        PngError { reason: reason.to_owned() }
    }
}

pub type PngResult<T> = Result<T, PngError>;

} // verus!
