use crate::chunk::{be_bytes, be_u32};
use crate::error::DeflateError;
use std::io::{Read, Write};
use vstd::prelude::*;

verus! {

/// What flate2's zlib decoder makes of a zlib stream, or `None` where it
/// reports an error; it depends on the bytes alone.
pub uninterp spec fn zlib_decoded(b: Seq<u8>) -> Option<Seq<u8>>;

/// What flate2's zlib encoder at its best level makes of some bytes, or
/// `None` where it reports an error; it depends on the bytes alone.
pub uninterp spec fn zlib_encoded_best(b: Seq<u8>) -> Option<Seq<u8>>;

/// Relies on `flate2::read::ZlibDecoder` read to the end: the decompressed
/// bytes, or an I/O error for a malformed stream.
#[verifier::external_body]
fn zlib_decompress(b: &[u8]) -> (r: Result<Vec<u8>, DeflateError>)
    ensures
        match zlib_decoded(b@) {
            Some(v) => r is Ok && r->Ok_0@ == v,
            None => r == Err::<Vec<u8>, DeflateError>(DeflateError::Io),
        },
{
    let mut out: Vec<u8> = Vec::new();
    match flate2::read::ZlibDecoder::new(b).read_to_end(&mut out) {
        Ok(_) => Ok(out),
        Err(_) => Err(DeflateError::Io),
    }
}

/// Relies on `flate2::write::ZlibEncoder` at `Compression::best()`, written
/// into a `Vec` and finished: the zlib stream of `b`.
#[verifier::external_body]
fn zlib_compress_best(b: &[u8]) -> (r: Result<Vec<u8>, DeflateError>)
    ensures
        match zlib_encoded_best(b@) {
            Some(v) => r is Ok && r->Ok_0@ == v,
            None => r == Err::<Vec<u8>, DeflateError>(DeflateError::Io),
        },
{
    let mut encoder = flate2::write::ZlibEncoder::new(Vec::new(), flate2::Compression::best());
    if encoder.write_all(b).is_err() {
        return Err(DeflateError::Io);
    }
    match encoder.finish() {
        Ok(v) => Ok(v),
        Err(_) => Err(DeflateError::Io),
    }
}

/// A zlib stream cut into its parts: header bytes, DEFLATE data, Adler-32 trailer.
pub type StreamModel = (u8, u8, Seq<u8>, u32);

/// The parts of a zlib stream of at least six bytes.
pub open spec fn stream_model_of(b: Seq<u8>) -> StreamModel {
    (b[0], b[1], b.subrange(2, b.len() - 4), be_u32(b.subrange(b.len() - 4, b.len() as int)) as u32)
}

/// The bytes of a zlib stream put back together.
pub open spec fn stream_bytes(m: StreamModel) -> Seq<u8> {
    seq![m.0, m.1] + m.2 + be_bytes(m.3)
}

/// The zlib stream that decompressing `b` and compressing the result again
/// at the best level gives, or the reason there is none.
pub open spec fn recompressed(b: Seq<u8>) -> Result<Seq<u8>, DeflateError> {
    match zlib_decoded(b) {
        None => Err(DeflateError::Io),
        Some(d) => match zlib_encoded_best(d) {
            None => Err(DeflateError::Io),
            Some(z) => if z.len() < 6 {
                Err(DeflateError::InvalidCheckBytes)
            } else {
                Ok(z)
            },
        },
    }
}

/// A zlib-wrapped DEFLATE stream.
#[derive(Debug, Clone)]
pub struct DeflateStream {
    compression_method: u8,
    flags: u8,
    data_blocks: Vec<u8>,
    check_value: u32,
}

impl View for DeflateStream {
    type V = StreamModel;

    closed spec fn view(&self) -> StreamModel {
        (self.compression_method, self.flags, self.data_blocks@, self.check_value)
    }
}

impl DeflateStream {
    /// Cuts a zlib stream into header, data and trailer; one shorter than
    /// six bytes cannot hold them.
    pub fn try_create(data: &[u8]) -> (r: Result<Self, DeflateError>)
        ensures
            data@.len() < 6 ==> r == Err::<Self, DeflateError>(DeflateError::InvalidCheckBytes),
            data@.len() >= 6 ==> r is Ok && r->Ok_0@ == stream_model_of(data@),
    {
        let n = data.len();
        if n < 6 {
            return Err(DeflateError::InvalidCheckBytes);
        }
        let mut blocks: Vec<u8> = Vec::new();
        let mut i: usize = 2;
        while i < n - 4
            invariant
                2 <= i <= n - 4,
                n == data@.len(),
                blocks@ == data@.subrange(2, i as int),
            decreases n - 4 - i,
        {
            blocks.push(data[i]);
            i = i + 1;
            assert(blocks@ =~= data@.subrange(2, i as int));
        }
        let check_value = data[n - 4] as u32 * 0x100_0000 + data[n - 3] as u32 * 0x1_0000
            + data[n - 2] as u32 * 0x100 + data[n - 1] as u32;
        assert(data@.subrange(n - 4, n as int)[0] == data@[n - 4]);
        Ok(DeflateStream { compression_method: data[0], flags: data[1], data_blocks: blocks, check_value })
    }

    /// The stream's bytes.
    pub fn to_bytes(&self) -> (r: Vec<u8>)
        ensures
            r@ == stream_bytes(self@),
    {
        let mut v: Vec<u8> = Vec::new();
        v.push(self.compression_method);
        v.push(self.flags);
        let mut i: usize = 0;
        while i < self.data_blocks.len()
            invariant
                i <= self.data_blocks@.len(),
                v@ == seq![self.compression_method, self.flags] + self.data_blocks@.subrange(0, i as int),
            decreases self.data_blocks@.len() - i,
        {
            v.push(self.data_blocks[i]);
            i = i + 1;
            assert(v@ =~= seq![self.compression_method, self.flags] + self.data_blocks@.subrange(0, i as int));
        }
        let c = self.check_value;
        v.push((c / 0x100_0000) as u8);
        v.push((c / 0x1_0000 % 0x100) as u8);
        v.push((c / 0x100 % 0x100) as u8);
        v.push((c % 0x100) as u8);
        assert(self.data_blocks@.subrange(0, self.data_blocks@.len() as int) =~= self.data_blocks@);
        assert(v@ =~= stream_bytes(self@));
        v
    }

    /// Decompresses the stream with flate2 and compresses it again at the
    /// best level.
    pub fn recompress(&self) -> (r: Result<Self, DeflateError>)
        ensures
            match recompressed(stream_bytes(self@)) {
                Ok(z) => r is Ok && r->Ok_0@ == stream_model_of(z),
                Err(e) => r == Err::<Self, DeflateError>(e),
            },
    {
        let bytes = self.to_bytes();
        let inflated = match zlib_decompress(bytes.as_slice()) {
            Ok(v) => v,
            Err(e) => {
                return Err(e);
            },
        };
        let deflated = match zlib_compress_best(inflated.as_slice()) {
            Ok(v) => v,
            Err(e) => {
                return Err(e);
            },
        };
        DeflateStream::try_create(deflated.as_slice())
    }
}

impl crate::Compressable for DeflateStream {
    type Error = DeflateError;

    open spec fn compresses_to(&self, r: Result<Self, DeflateError>) -> bool {
        match recompressed(stream_bytes(self@)) {
            Ok(z) => r is Ok && r->Ok_0@ == stream_model_of(z),
            Err(e) => r == Err::<Self, DeflateError>(e),
        }
    }

    fn try_compress(&self) -> (r: Result<Self, DeflateError>) {
        self.recompress()
    }
}

proof fn lemma_be_digits(a: int, b: int, c: int, d: int)
    requires
        0 <= a < 256,
        0 <= b < 256,
        0 <= c < 256,
        0 <= d < 256,
    ensures
        (a * 0x100_0000 + b * 0x1_0000 + c * 0x100 + d) / 0x100_0000 == a,
        (a * 0x100_0000 + b * 0x1_0000 + c * 0x100 + d) / 0x1_0000 % 0x100 == b,
        (a * 0x100_0000 + b * 0x1_0000 + c * 0x100 + d) / 0x100 % 0x100 == c,
        (a * 0x100_0000 + b * 0x1_0000 + c * 0x100 + d) % 0x100 == d,
{
    let v = a * 0x100_0000 + b * 0x1_0000 + c * 0x100 + d;
    assert(v / 0x100_0000 == a) by (nonlinear_arith)
        requires
            v == a * 0x100_0000 + b * 0x1_0000 + c * 0x100 + d,
            0 <= b * 0x1_0000 + c * 0x100 + d < 0x100_0000,
    ;
    assert(v / 0x1_0000 == a * 0x100 + b) by (nonlinear_arith)
        requires
            v == (a * 0x100 + b) * 0x1_0000 + c * 0x100 + d,
            0 <= c * 0x100 + d < 0x1_0000,
    ;
    assert((a * 0x100 + b) % 0x100 == b) by (nonlinear_arith)
        requires
            0 <= b < 0x100,
            a >= 0,
    ;
    assert(v / 0x100 == (a * 0x1_0000 + b * 0x100) + c) by (nonlinear_arith)
        requires
            v == (a * 0x1_0000 + b * 0x100 + c) * 0x100 + d,
            0 <= d < 0x100,
    ;
    assert((a * 0x1_0000 + b * 0x100 + c) % 0x100 == c) by (nonlinear_arith)
        requires
            0 <= c < 0x100,
            a >= 0,
            b >= 0,
    ;
    assert(v % 0x100 == d) by (nonlinear_arith)
        requires
            v == (a * 0x1_0000 + b * 0x100 + c) * 0x100 + d,
            0 <= d < 0x100,
            a >= 0,
            b >= 0,
            c >= 0,
    ;
}

/// Putting a stream back together after cutting it gives the same bytes.
pub proof fn lemma_stream_round_trip(b: Seq<u8>)
    requires
        b.len() >= 6,
    ensures
        stream_bytes(stream_model_of(b)) == b,
{
    let m = stream_model_of(b);
    let t = b.subrange(b.len() - 4, b.len() as int);
    lemma_be_digits(t[0] as int, t[1] as int, t[2] as int, t[3] as int);
    let v = be_u32(t) as u32;
    assert(be_bytes(v) =~= t);
    assert(stream_bytes(m) =~= b);
}

} // verus!
