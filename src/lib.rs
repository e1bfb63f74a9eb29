//! A DEFLATE (RFC 1951) codec with verified bit reader, canonical Huffman
//! code construction, sliding window and block decoder, plus the PNG
//! container pieces that carry a DEFLATE payload.

pub mod bit_reader;
pub mod bit_writer;
pub mod byte_window;
pub mod canonical_code;
pub mod chunk;
pub mod compression;
pub mod crc;
pub mod decoder;
pub mod encoder;
pub mod error;
pub mod fixed_code;
pub mod inflate_spec;
pub mod lz77;
pub mod png;
pub mod zlib_stream;

use vstd::prelude::*;

verus! {

/// A value that can be rewritten in a smaller encoding of the same content.
pub trait Compressable: Sized {
    type Error;

    /// What `try_compress` on `self` returns.
    spec fn compresses_to(&self, r: Result<Self, Self::Error>) -> bool;

    fn try_compress(&self) -> (r: Result<Self, Self::Error>)
        ensures
            self.compresses_to(r),
    ;
}

} // verus!
