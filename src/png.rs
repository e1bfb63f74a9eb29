use crate::chunk::{
    be_u32, bit_set, chunk, chunk_bytes, make_idat_chunk, parse_chunks, Chunk, ChunkModel,
};
use crate::crc::{crc_of, Crc32};
use crate::error::{PngError, PngResult};
use crate::zlib_stream::{lemma_stream_round_trip, recompressed, DeflateStream};
use vstd::prelude::*;

verus! {

/// The largest payload of one IDAT chunk that this library writes.
pub const IDAT_SIZE: usize = 65524;

#[allow(non_camel_case_types)]
#[derive(Debug, Clone, Copy, PartialEq, Eq, Structural)]
pub enum ColorType {
    GRAYSCALE,
    RGB,
    PLTE,
    GRAYSCALEALPHA,
    RGBA,
}

#[allow(non_camel_case_types)]
#[derive(Debug, Clone, Copy, PartialEq, Eq, Structural)]
pub enum CompressionMethod {
    DEFLATE,
}

#[allow(non_camel_case_types)]
#[derive(Debug, Clone, Copy, PartialEq, Eq, Structural)]
pub enum FilterMethod {
    NONE,
    SUB,
    UP,
    AVERAGE,
    PAETH,
}

#[allow(non_camel_case_types)]
#[derive(Debug, Clone, Copy, PartialEq, Eq, Structural)]
pub enum InterlaceMethod {
    NONE,
    ADAM7,
}

pub open spec fn color_type_of(b: u8) -> Option<ColorType> {
    if b == 0 {
        Some(ColorType::GRAYSCALE)
    } else if b == 2 {
        Some(ColorType::RGB)
    } else if b == 3 {
        Some(ColorType::PLTE)
    } else if b == 4 {
        Some(ColorType::GRAYSCALEALPHA)
    } else if b == 6 {
        Some(ColorType::RGBA)
    } else {
        None
    }
}

pub open spec fn filter_method_of(b: u8) -> Option<FilterMethod> {
    if b == 0 {
        Some(FilterMethod::NONE)
    } else if b == 1 {
        Some(FilterMethod::SUB)
    } else if b == 2 {
        Some(FilterMethod::UP)
    } else if b == 3 {
        Some(FilterMethod::AVERAGE)
    } else if b == 4 {
        Some(FilterMethod::PAETH)
    } else {
        None
    }
}

pub open spec fn interlace_method_of(b: u8) -> Option<InterlaceMethod> {
    if b == 0 {
        Some(InterlaceMethod::NONE)
    } else if b == 1 {
        Some(InterlaceMethod::ADAM7)
    } else {
        None
    }
}

impl ColorType {
    pub fn from_byte(value: u8) -> (r: PngResult<Self>)
        ensures
            match color_type_of(value) {
                Some(c) => r is Ok && r->Ok_0 == c,
                None => r is Err,
            },
    {
        match value {
            0 => Ok(ColorType::GRAYSCALE),
            2 => Ok(ColorType::RGB),
            3 => Ok(ColorType::PLTE),
            4 => Ok(ColorType::GRAYSCALEALPHA),
            6 => Ok(ColorType::RGBA),
            _ => Err(PngError::new("unknown color type")),
        }
    }

    pub fn to_byte(&self) -> (r: u8)
        ensures
            color_type_of(r) == Some(*self),
    {
        match self {
            ColorType::GRAYSCALE => 0,
            ColorType::RGB => 2,
            ColorType::PLTE => 3,
            ColorType::GRAYSCALEALPHA => 4,
            ColorType::RGBA => 6,
        }
    }
}

impl FilterMethod {
    pub fn from_byte(value: u8) -> (r: PngResult<Self>)
        ensures
            match filter_method_of(value) {
                Some(f) => r is Ok && r->Ok_0 == f,
                None => r is Err,
            },
    {
        match value {
            0 => Ok(FilterMethod::NONE),
            1 => Ok(FilterMethod::SUB),
            2 => Ok(FilterMethod::UP),
            3 => Ok(FilterMethod::AVERAGE),
            4 => Ok(FilterMethod::PAETH),
            _ => Err(PngError::new("unknown filter type")),
        }
    }
}

/// The image header a 13-byte IHDR payload describes.
#[derive(Debug, Clone, Copy)]
pub struct IhdrHeader {
    pub width: u32,
    pub height: u32,
    pub bit_depth: u8,
    pub color_type: ColorType,
    pub compression_method: CompressionMethod,
    pub filter_method: FilterMethod,
    pub interlace_method: InterlaceMethod,
}

/// The header an IHDR payload describes, if every field is a known value.
pub open spec fn ihdr_of(p: Seq<u8>) -> Option<IhdrHeader> {
    if p.len() < 13 || color_type_of(p[9]) is None || p[10] != 0 || filter_method_of(p[11]) is None
        || interlace_method_of(p[12]) is None {
        None
    } else {
        Some(
            IhdrHeader {
                width: be_u32(p.subrange(0, 4)) as u32,
                height: be_u32(p.subrange(4, 8)) as u32,
                bit_depth: p[8],
                color_type: color_type_of(p[9])->Some_0,
                compression_method: CompressionMethod::DEFLATE,
                filter_method: filter_method_of(p[11])->Some_0,
                interlace_method: interlace_method_of(p[12])->Some_0,
            },
        )
    }
}

impl IhdrHeader {
    /// Reads the header from an IHDR chunk's payload.
    pub fn try_from_chunk(value: &Chunk) -> (r: PngResult<Self>)
        ensures
            match ihdr_of(value.chunk_data@) {
                Some(h) => r is Ok && r->Ok_0 == h,
                None => r is Err,
            },
    {
        let bytes = &value.chunk_data;
        if bytes.len() < 13 {
            return Err(PngError::new("not enough data"));
        }
        let width = bytes[0] as u32 * 0x100_0000 + bytes[1] as u32 * 0x1_0000 + bytes[2] as u32
            * 0x100 + bytes[3] as u32;
        let height = bytes[4] as u32 * 0x100_0000 + bytes[5] as u32 * 0x1_0000 + bytes[6] as u32
            * 0x100 + bytes[7] as u32;
        let bit_depth = bytes[8];
        let color_type = match ColorType::from_byte(bytes[9]) {
            Ok(c) => c,
            Err(e) => {
                return Err(e);
            },
        };
        if bytes[10] != 0 {
            return Err(PngError::new("unknown compression method"));
        }
        let filter_method = match FilterMethod::from_byte(bytes[11]) {
            Ok(f) => f,
            Err(e) => {
                return Err(e);
            },
        };
        let interlace_method = match bytes[12] {
            0 => InterlaceMethod::NONE,
            1 => InterlaceMethod::ADAM7,
            _ => {
                return Err(PngError::new("unknown interlace method"));
            },
        };
        Ok(
            IhdrHeader {
                width,
                height,
                bit_depth,
                color_type,
                compression_method: CompressionMethod::DEFLATE,
                filter_method,
                interlace_method,
            },
        )
    }
}

/// The eight bytes every PNG file starts with.
pub open spec fn png_signature() -> Seq<u8> {
    seq![137u8, 80u8, 78u8, 71u8, 13u8, 10u8, 26u8, 10u8]
}

/// The chunks and header of a PNG file.
pub open spec fn png_parse(b: Seq<u8>) -> Option<(Seq<ChunkModel>, IhdrHeader)> {
    if b.len() < 8 || b.subrange(0, 8) != png_signature() {
        None
    } else {
        match parse_chunks(b.subrange(8, b.len() as int), 0) {
            None => None,
            Some(cs) => if cs.len() == 0 {
                None
            } else {
                match ihdr_of(cs[0].2) {
                    None => None,
                    Some(h) => Some((cs, h)),
                }
            },
        }
    }
}

/// The chunks that are not ancillary, in order.
pub open spec fn critical_of(cs: Seq<ChunkModel>) -> Seq<ChunkModel>
    decreases cs.len(),
{
    if cs.len() == 0 {
        Seq::empty()
    } else if bit_set(cs.last().1[0], 5) {
        critical_of(cs.drop_last())
    } else {
        critical_of(cs.drop_last()).push(cs.last())
    }
}

/// The payloads of `cs`, one after another.
pub open spec fn concat_data(cs: Seq<ChunkModel>) -> Seq<u8>
    decreases cs.len(),
{
    if cs.len() == 0 {
        Seq::empty()
    } else {
        concat_data(cs.drop_last()) + cs.last().2
    }
}

/// The payload that the critical chunks between the first and the last carry.
pub open spec fn idat_stream_of(cs: Seq<ChunkModel>) -> Seq<u8> {
    let crit = critical_of(cs);
    concat_data(crit.subrange(1, crit.len() - 1))
}

/// The IDAT chunk that carries `p`.
pub open spec fn idat_model(p: Seq<u8>) -> ChunkModel {
    (
        p.len() as u32,
        seq![0x49u8, 0x44u8, 0x41u8, 0x54u8],
        p,
        crc_of(seq![0x49u8, 0x44u8, 0x41u8, 0x54u8] + p),
    )
}

/// `b` cut into IDAT chunks of `IDAT_SIZE` bytes, the last one shorter.
pub open spec fn idat_chunks(b: Seq<u8>) -> Seq<ChunkModel>
    decreases b.len(),
{
    if b.len() == 0 {
        Seq::empty()
    } else {
        let n = if b.len() > IDAT_SIZE {
            IDAT_SIZE as int
        } else {
            b.len() as int
        };
        seq![idat_model(b.subrange(0, n))] + idat_chunks(b.subrange(n, b.len() as int))
    }
}

/// The chunks as they stand in a file, one after another.
pub open spec fn chunks_bytes(cs: Seq<ChunkModel>) -> Seq<u8>
    decreases cs.len(),
{
    if cs.len() == 0 {
        Seq::empty()
    } else {
        chunks_bytes(cs.drop_last()) + chunk_bytes(cs.last())
    }
}

/// The chunks that rewriting the image data gives: the first chunk, the
/// recompressed stream cut into IDAT chunks, the last chunk; `None` where
/// there is no such stream.
pub open spec fn recompressed_chunks(cs: Seq<ChunkModel>) -> Option<Seq<ChunkModel>> {
    if critical_of(cs).len() < 2 || idat_stream_of(cs).len() < 6 {
        None
    } else {
        match recompressed(idat_stream_of(cs)) {
            Err(_) => None,
            Ok(z) => Some(seq![cs[0]] + idat_chunks(z) + seq![cs.last()]),
        }
    }
}

/// The sum of the chunks' length fields.
pub open spec fn sum_lengths(cs: Seq<ChunkModel>) -> nat
    decreases cs.len(),
{
    if cs.len() == 0 {
        0
    } else {
        sum_lengths(cs.drop_last()) + cs.last().0 as nat
    }
}

proof fn lemma_critical_len(cs: Seq<ChunkModel>)
    ensures
        critical_of(cs).len() <= cs.len(),
    decreases cs.len(),
{
    if cs.len() > 0 {
        lemma_critical_len(cs.drop_last());
    }
}

/// Cuts `b` into IDAT chunks.
fn split_idat(crc32: &Crc32, b: &Vec<u8>) -> (r: Vec<Chunk>)
    requires
        crc32.wf(),
    ensures
        r@.map_values(|c: Chunk| c@) == idat_chunks(b@),
{
    let ghost whole = b@;
    let mut out: Vec<Chunk> = Vec::new();
    let mut off: usize = 0;
    proof {
        assert(b@.subrange(0, b@.len() as int) =~= b@);
        assert(out@.map_values(|c: Chunk| c@) =~= Seq::<ChunkModel>::empty());
        assert(Seq::<ChunkModel>::empty() + idat_chunks(whole) =~= idat_chunks(whole));
    }
    while off < b.len()
        invariant
            crc32.wf(),
            whole == b@,
            off <= b@.len(),
            out@.map_values(|c: Chunk| c@) + idat_chunks(b@.subrange(off as int, b@.len() as int))
                == idat_chunks(whole),
        decreases b@.len() - off,
    {
        let n = if b.len() - off > IDAT_SIZE {
            IDAT_SIZE
        } else {
            b.len() - off
        };
        assert(off + n <= b@.len());
        let end: usize = off + n;
        let mut piece: Vec<u8> = Vec::new();
        let mut k: usize = off;
        while k < end
            invariant
                end == off + n,
                off <= k <= off + n <= b@.len(),
                piece@ == b@.subrange(off as int, k as int),
            decreases end - k,
        {
            piece.push(b[k]);
            k = k + 1;
            assert(piece@ =~= b@.subrange(off as int, k as int));
        }
        let c = make_idat_chunk(crc32, piece.as_slice());
        let ghost rest = b@.subrange(off as int, b@.len() as int);
        let ghost before = out@.map_values(|c: Chunk| c@);
        out.push(c);
        proof {
            assert(rest.subrange(0, n as int) =~= piece@);
            assert(rest.subrange(n as int, rest.len() as int) =~= b@.subrange(
                off + n,
                b@.len() as int,
            ));
            assert(idat_chunks(rest) == seq![idat_model(piece@)] + idat_chunks(
                b@.subrange(off + n, b@.len() as int),
            ));
            assert(out@.map_values(|c: Chunk| c@) =~= before.push(c@));
            assert(before + (seq![c@] + idat_chunks(b@.subrange(off + n, b@.len() as int)))
                =~= before.push(c@) + idat_chunks(b@.subrange(off + n, b@.len() as int)));
        }
        off = off + n;
    }
    proof {
        assert(b@.subrange(off as int, b@.len() as int) =~= Seq::<u8>::empty());
        assert(out@.map_values(|c: Chunk| c@) + Seq::<ChunkModel>::empty() =~= out@.map_values(
            |c: Chunk| c@,
        ));
    }
    out
}

/// The chunks of `cs` that are not ancillary.
fn critical_chunks(cs: &Vec<Chunk>) -> (r: Vec<Chunk>)
    ensures
        r@.map_values(|c: Chunk| c@) == critical_of(cs@.map_values(|c: Chunk| c@)),
{
    let ghost all = cs@.map_values(|c: Chunk| c@);
    let mut r: Vec<Chunk> = Vec::new();
    let mut i: usize = 0;
    assert(all.subrange(0, 0) =~= Seq::<ChunkModel>::empty());
    assert(r@.map_values(|c: Chunk| c@) =~= Seq::<ChunkModel>::empty());
    while i < cs.len()
        invariant
            i <= cs@.len(),
            all == cs@.map_values(|c: Chunk| c@),
            r@.map_values(|c: Chunk| c@) == critical_of(all.subrange(0, i as int)),
        decreases cs@.len() - i,
    {
        let ghost before = r@.map_values(|c: Chunk| c@);
        proof {
            assert(all.subrange(0, i + 1).drop_last() =~= all.subrange(0, i as int));
            assert(all.subrange(0, i + 1).last() == cs@[i as int]@);
        }
        if !cs[i].is_ancillary() {
            r.push(cs[i].duplicate());
            assert(r@.map_values(|c: Chunk| c@) =~= before.push(cs@[i as int]@));
        }
        i = i + 1;
    }
    assert(all.subrange(0, cs@.len() as int) =~= all);
    r
}

/// The payloads of `cs[from..to]`, one after another.
fn concat_payloads(cs: &Vec<Chunk>, from: usize, to: usize) -> (r: Vec<u8>)
    requires
        from <= to <= cs@.len(),
    ensures
        r@ == concat_data(cs@.map_values(|c: Chunk| c@).subrange(from as int, to as int)),
{
    let ghost all = cs@.map_values(|c: Chunk| c@);
    let mut v: Vec<u8> = Vec::new();
    let mut i: usize = from;
    assert(all.subrange(from as int, from as int) =~= Seq::<ChunkModel>::empty());
    while i < to
        invariant
            from <= i <= to <= cs@.len(),
            all == cs@.map_values(|c: Chunk| c@),
            v@ == concat_data(all.subrange(from as int, i as int)),
        decreases to - i,
    {
        let ghost before = v@;
        let data = &cs[i].chunk_data;
        let mut j: usize = 0;
        while j < data.len()
            invariant
                j <= data@.len(),
                v@ == before + data@.subrange(0, j as int),
            decreases data@.len() - j,
        {
            v.push(data[j]);
            j = j + 1;
            assert(v@ =~= before + data@.subrange(0, j as int));
        }
        proof {
            assert(data@.subrange(0, data@.len() as int) =~= data@);
            assert(all.subrange(from as int, i + 1).drop_last() =~= all.subrange(
                from as int,
                i as int,
            ));
        }
        i = i + 1;
    }
    v
}

/// A PNG image as a header and the file's chunks.
#[derive(Debug, Clone)]
pub struct PngImage {
    pub header: IhdrHeader,
    pub file_signature: [u8; 8],
    data: Vec<Chunk>,
}

impl PngImage {
    /// The image's chunks, in file order.
    pub closed spec fn chunks(&self) -> Seq<ChunkModel> {
        self.data@.map_values(|c: Chunk| c@)
    }

    /// The image header.
    pub closed spec fn head(&self) -> IhdrHeader {
        self.header
    }

    /// The file's first eight bytes.
    pub closed spec fn signature(&self) -> Seq<u8> {
        self.file_signature@
    }

    /// Reads a PNG file: signature, then chunks, the first an IHDR.
    pub fn try_create(data: &[u8]) -> (r: PngResult<Self>)
        ensures
            match png_parse(data@) {
                None => r is Err,
                Some((cs, h)) => {
                    &&& r is Ok
                    &&& r->Ok_0.chunks() == cs
                    &&& r->Ok_0.head() == h
                    &&& r->Ok_0.signature() == png_signature()
                },
            },
    {
        if data.len() < 8 {
            return Err(PngError::new("file signature is wrong"));
        }
        let file_signature: [u8; 8] = [
            data[0],
            data[1],
            data[2],
            data[3],
            data[4],
            data[5],
            data[6],
            data[7],
        ];
        assert(file_signature@ =~= data@.subrange(0, 8));
        if !(data[0] == 137 && data[1] == 80 && data[2] == 78 && data[3] == 71 && data[4] == 13
            && data[5] == 10 && data[6] == 26 && data[7] == 10) {
            assert(data@.subrange(0, 8) != png_signature()) by {
                if data@.subrange(0, 8) == png_signature() {
                    assert(data@.subrange(0, 8)[0] == data@[0]);
                }
            }
            return Err(PngError::new("file signature is wrong"));
        }
        assert(data@.subrange(0, 8) =~= png_signature());
        let mut rest: Vec<u8> = Vec::new();
        let mut i: usize = 8;
        while i < data.len()
            invariant
                8 <= i <= data@.len(),
                rest@ == data@.subrange(8, i as int),
            decreases data@.len() - i,
        {
            rest.push(data[i]);
            i = i + 1;
            assert(rest@ =~= data@.subrange(8, i as int));
        }
        let chunks = match chunk(rest.as_slice()) {
            Ok(c) => c,
            Err(e) => {
                return Err(e);
            },
        };
        if chunks.len() == 0 {
            return Err(PngError::new("not enough data"));
        }
        let header = match IhdrHeader::try_from_chunk(&chunks[0]) {
            Ok(h) => h,
            Err(e) => {
                return Err(e);
            },
        };
        Ok(PngImage { header, file_signature, data: chunks })
    }

    /// The chunks, in file order.
    pub fn get_data(&self) -> (r: &[Chunk])
        ensures
            r@.map_values(|c: Chunk| c@) == self.chunks(),
    {
        self.data.as_slice()
    }

    /// Eight signature bytes plus every chunk's payload length, saturating at
    /// the largest `usize`.
    pub fn size(&self) -> (r: usize)
        ensures
            r == if 8 + sum_lengths(self.chunks()) > usize::MAX {
                usize::MAX as int
            } else {
                8 + sum_lengths(self.chunks()) as int
            },
    {
        let mut total: usize = 8;
        let mut i: usize = 0;
        let mut saturated = false;
        while i < self.data.len()
            invariant
                i <= self.data@.len(),
                saturated ==> total == usize::MAX && 8 + sum_lengths(
                    self.chunks().subrange(0, i as int),
                ) > usize::MAX,
                !saturated ==> total == 8 + sum_lengths(self.chunks().subrange(0, i as int)),
            decreases self.data@.len() - i,
        {
            let ghost pre = self.chunks().subrange(0, i as int);
            let len = self.data[i].length as usize;
            proof {
                assert(self.chunks().subrange(0, i + 1).drop_last() =~= pre);
                assert(self.chunks().subrange(0, i + 1).last() == self.data@[i as int]@);
            }
            if !saturated {
                if total > usize::MAX - len {
                    total = usize::MAX;
                    saturated = true;
                } else {
                    total = total + len;
                }
            }
            i = i + 1;
        }
        assert(self.chunks().subrange(0, self.data@.len() as int) =~= self.chunks());
        total
    }

    /// Rewrites the image data: the payloads of the critical chunks between
    /// the first and the last are one zlib stream; it is decompressed and
    /// compressed again at the best level, and written back as IDAT chunks of
    /// at most `IDAT_SIZE` bytes between the image's first and last chunks.
    /// Ancillary chunks are dropped.
    pub fn recompress(&self) -> (r: PngResult<Self>)
        ensures
            match recompressed_chunks(self.chunks()) {
                None => r is Err,
                Some(out) => {
                    &&& r is Ok
                    &&& r->Ok_0.chunks() == out
                    &&& r->Ok_0.head() == self.head()
                    &&& r->Ok_0.signature() == self.signature()
                },
            },
    {
        let ghost cs = self.chunks();
        let only_critical = critical_chunks(&self.data);
        let n = only_critical.len();
        if n < 2 {
            return Err(PngError::new("not enough chunks"));
        }
        proof {
            lemma_critical_len(cs);
        }
        let idat_stream_data = concat_payloads(&only_critical, 1, n - 1);
        let deflate = match DeflateStream::try_create(idat_stream_data.as_slice()) {
            Ok(stream) => stream,
            Err(_) => {
                return Err(PngError::new("could not create inflate stream"));
            },
        };
        proof {
            lemma_stream_round_trip(idat_stream_data@);
        }
        let compressed = match deflate.recompress() {
            Ok(comp) => comp,
            Err(_) => {
                return Err(PngError::new("could not compress data stream"));
            },
        };
        let deflate_bytes = compressed.to_bytes();
        proof {
            lemma_stream_round_trip(recompressed(idat_stream_data@)->Ok_0);
        }
        let crc32 = Crc32::new();
        let chunked = split_idat(&crc32, &deflate_bytes);
        let mut out_chunks: Vec<Chunk> = Vec::new();
        out_chunks.push(self.data[0].duplicate());
        assert(out_chunks@.map_values(|c: Chunk| c@) =~= seq![cs[0]] + chunked@.map_values(
            |c: Chunk| c@,
        ).subrange(0, 0));
        let mut i: usize = 0;
        while i < chunked.len()
            invariant
                i <= chunked@.len(),
                cs.len() >= 2,
                out_chunks@.map_values(|c: Chunk| c@) == seq![cs[0]] + chunked@.map_values(
                    |c: Chunk| c@,
                ).subrange(0, i as int),
            decreases chunked@.len() - i,
        {
            let ghost before = out_chunks@.map_values(|c: Chunk| c@);
            out_chunks.push(chunked[i].duplicate());
            assert(out_chunks@.map_values(|c: Chunk| c@) =~= before.push(chunked@[i as int]@));
            i = i + 1;
            assert(out_chunks@.map_values(|c: Chunk| c@) =~= seq![cs[0]] + chunked@.map_values(
                |c: Chunk| c@,
            ).subrange(0, i as int));
        }
        let ghost mid = out_chunks@.map_values(|c: Chunk| c@);
        out_chunks.push(self.data[self.data.len() - 1].duplicate());
        proof {
            assert(chunked@.map_values(|c: Chunk| c@).subrange(0, chunked@.len() as int)
                =~= chunked@.map_values(|c: Chunk| c@));
            assert(out_chunks@.map_values(|c: Chunk| c@) =~= mid.push(cs.last()));
        }
        Ok(PngImage { header: self.header, file_signature: self.file_signature, data: out_chunks })
    }

    /// The file's bytes: signature, then every chunk.
    pub fn to_bytes(&self) -> (r: Vec<u8>)
        ensures
            r@ == self.signature() + chunks_bytes(self.chunks()),
    {
        let mut v: Vec<u8> = Vec::new();
        let mut k: usize = 0;
        while k < 8
            invariant
                k <= 8,
                v@ == self.file_signature@.subrange(0, k as int),
            decreases 8 - k,
        {
            v.push(self.file_signature[k]);
            k = k + 1;
            assert(v@ =~= self.file_signature@.subrange(0, k as int));
        }
        assert(self.file_signature@.subrange(0, 8) =~= self.signature());
        assert(self.chunks().subrange(0, 0) =~= Seq::<ChunkModel>::empty());
        assert(v@ =~= self.signature() + chunks_bytes(self.chunks().subrange(0, 0)));
        let mut i: usize = 0;
        while i < self.data.len()
            invariant
                i <= self.data@.len(),
                v@ == self.signature() + chunks_bytes(self.chunks().subrange(0, i as int)),
            decreases self.data@.len() - i,
        {
            let bytes = self.data[i].to_bytes();
            let ghost before = v@;
            let mut j: usize = 0;
            while j < bytes.len()
                invariant
                    j <= bytes@.len(),
                    v@ == before + bytes@.subrange(0, j as int),
                decreases bytes@.len() - j,
            {
                v.push(bytes[j]);
                j = j + 1;
                assert(v@ =~= before + bytes@.subrange(0, j as int));
            }
            proof {
                assert(bytes@.subrange(0, bytes@.len() as int) =~= bytes@);
                let pre = self.chunks().subrange(0, i + 1);
                assert(pre.drop_last() =~= self.chunks().subrange(0, i as int));
                assert(pre.last() == self.data@[i as int]@);
                assert(v@ =~= self.signature() + chunks_bytes(pre));
            }
            i = i + 1;
        }
        assert(self.chunks().subrange(0, self.data@.len() as int) =~= self.chunks());
        v
    }
}

impl crate::Compressable for PngImage {
    type Error = PngError;

    open spec fn compresses_to(&self, r: PngResult<Self>) -> bool {
        match recompressed_chunks(self.chunks()) {
            None => r is Err,
            Some(out) => {
                &&& r is Ok
                &&& r->Ok_0.chunks() == out
                &&& r->Ok_0.head() == self.head()
                &&& r->Ok_0.signature() == self.signature()
            },
        }
    }

    fn try_compress(&self) -> (r: PngResult<Self>) {
        self.recompress()
    }
}

} // verus!
