use crate::crc::{crc_of, Crc32};
use crate::error::{PngError, PngResult};
use vstd::prelude::*;

verus! {

/// The number four big-endian bytes spell.
pub open spec fn be_u32(b: Seq<u8>) -> int {
    b[0] * 0x100_0000 + b[1] * 0x1_0000 + b[2] * 0x100 + b[3]
}

/// The four big-endian bytes of `v`.
pub open spec fn be_bytes(v: u32) -> Seq<u8> {
    seq![
        (v / 0x100_0000) as u8,
        (v / 0x1_0000 % 0x100) as u8,
        (v / 0x100 % 0x100) as u8,
        (v % 0x100) as u8,
    ]
}

/// A chunk as plain values: length field, type, payload, CRC.
pub type ChunkModel = (u32, Seq<u8>, Seq<u8>, u32);

/// The chunk that `try_create` makes of `length` bytes holding type, payload and CRC.
pub open spec fn chunk_model_of(length: u32, body: Seq<u8>) -> ChunkModel {
    (
        (length - 8) as u32,
        body.subrange(0, 4),
        body.subrange(4, length - 4),
        be_u32(body.subrange(length - 4, length as int)) as u32,
    )
}

/// The chunks of a chunk stream from offset `i` on: each is a 4-byte
/// big-endian payload length, then type, payload and CRC.
pub open spec fn parse_chunks(s: Seq<u8>, i: int) -> Option<Seq<ChunkModel>>
    decreases s.len() - i,
{
    if i < 0 || i >= s.len() {
        Some(Seq::empty())
    } else if i + 4 > s.len() {
        None
    } else {
        let len = be_u32(s.subrange(i, i + 4)) + 8;
        if len > u32::MAX || len > s.len() - (i + 4) {
            None
        } else {
            match parse_chunks(s, i + 4 + len) {
                None => None,
                Some(rest) => Some(
                    seq![chunk_model_of(len as u32, s.subrange(i + 4, i + 4 + len))] + rest,
                ),
            }
        }
    }
}

/// Reads a big-endian `u32`.
fn read_be_u32(b: &[u8], i: usize) -> (r: u32)
    requires
        i + 4 <= b@.len(),
    ensures
        r == be_u32(b@.subrange(i as int, i + 4)),
{
    let r = b[i] as u32 * 0x100_0000 + b[i + 1] as u32 * 0x1_0000 + b[i + 2] as u32 * 0x100 + b[
        i + 3] as u32;
    r
}

/// Appends the four big-endian bytes of `v`.
fn push_be_u32(out: &mut Vec<u8>, v: u32)
    ensures
        final(out)@ == old(out)@ + be_bytes(v),
{
    out.push((v / 0x100_0000) as u8);
    out.push((v / 0x1_0000 % 0x100) as u8);
    out.push((v / 0x100 % 0x100) as u8);
    out.push((v % 0x100) as u8);
    assert(final(out)@ =~= old(out)@ + be_bytes(v));
}

/// The type code of image-data chunks, "IDAT".
pub fn idat_type() -> (r: [u8; 4])
    ensures
        r@ == seq![0x49u8, 0x44u8, 0x41u8, 0x54u8],
{
    let r: [u8; 4] = [0x49, 0x44, 0x41, 0x54];
    assert(r@ =~= seq![0x49u8, 0x44u8, 0x41u8, 0x54u8]);
    r
}

/// One PNG chunk.
#[derive(Debug, Clone)]
pub struct Chunk {
    pub length: u32,
    pub chunk_type: [u8; 4],
    pub chunk_data: Vec<u8>,
    pub crc: u32,
}

impl View for Chunk {
    type V = ChunkModel;

    open spec fn view(&self) -> ChunkModel {
        (self.length, self.chunk_type@, self.chunk_data@, self.crc)
    }
}

/// The bytes of a chunk as it stands in a file.
pub open spec fn chunk_bytes(c: ChunkModel) -> Seq<u8> {
    be_bytes(c.0) + c.1 + c.2 + be_bytes(c.3)
}

/// The bit `index` of `data`.
pub open spec fn bit_set(data: u8, index: u8) -> bool {
    (data >> index) & 1 == 1
}

impl Chunk {
    /// A copy with the same fields.
    pub fn duplicate(&self) -> (r: Self)
        ensures
            r@ == self@,
    {
        Chunk {
            length: self.length,
            chunk_type: self.chunk_type,
            chunk_data: self.chunk_data.clone(),
            crc: self.crc,
        }
    }

    /// Replaces the payload; the other fields stay.
    pub fn set_data(&mut self, data: Vec<u8>)
        ensures
            final(self)@ == (old(self)@.0, old(self)@.1, data@, old(self)@.3),
    {
        self.chunk_data = data;
    }

    /// Builds a chunk from `length` bytes of `data`: type, payload, CRC; the
    /// chunk's length field is the payload length, `length - 8`.
    pub fn try_create(length: u32, data: &[u8]) -> (r: PngResult<Self>)
        ensures
            (8 <= length && length <= data@.len()) <==> r is Ok,
            r is Ok ==> r->Ok_0@ == chunk_model_of(length, data@),
    {
        if length < 8 || data.len() < length as usize {
            return Err(PngError::new("not enough data"));
        }
        let n = length as usize;
        let chunk_type: [u8; 4] = [data[0], data[1], data[2], data[3]];
        let mut chunk_data: Vec<u8> = Vec::new();
        let mut i: usize = 4;
        while i < n - 4
            invariant
                4 <= i <= n - 4,
                n == length,
                n <= data@.len(),
                chunk_data@ == data@.subrange(4, i as int),
            decreases n - 4 - i,
        {
            chunk_data.push(data[i]);
            i = i + 1;
            assert(chunk_data@ =~= data@.subrange(4, i as int));
        }
        let crc = read_be_u32(data, n - 4);
        let chunk = Chunk { length: length - 8, chunk_type, chunk_data, crc };
        assert(chunk.chunk_type@ =~= data@.subrange(0, 4));
        assert(data@.subrange(n - 4, n as int) =~= data@.subrange(n - 4, n as int));
        Ok(chunk)
    }

    /// The chunk as it stands in a file.
    pub fn to_bytes(&self) -> (r: Vec<u8>)
        ensures
            r@ == chunk_bytes(self@),
    {
        let mut v: Vec<u8> = Vec::new();
        push_be_u32(&mut v, self.length);
        let mut k: usize = 0;
        while k < 4
            invariant
                k <= 4,
                v@ == be_bytes(self.length) + self.chunk_type@.subrange(0, k as int),
            decreases 4 - k,
        {
            v.push(self.chunk_type[k]);
            k = k + 1;
            assert(v@ =~= be_bytes(self.length) + self.chunk_type@.subrange(0, k as int));
        }
        let ghost head = v@;
        let mut i: usize = 0;
        while i < self.chunk_data.len()
            invariant
                i <= self.chunk_data@.len(),
                v@ == head + self.chunk_data@.subrange(0, i as int),
            decreases self.chunk_data@.len() - i,
        {
            v.push(self.chunk_data[i]);
            i = i + 1;
            assert(v@ =~= head + self.chunk_data@.subrange(0, i as int));
        }
        push_be_u32(&mut v, self.crc);
        assert(self.chunk_type@.subrange(0, 4) =~= self.chunk_type@);
        assert(self.chunk_data@.subrange(0, self.chunk_data@.len() as int) =~= self.chunk_data@);
        v
    }

    /// Bit 5 of the first type byte: the chunk is not critical.
    pub fn is_ancillary(&self) -> (r: bool)
        ensures
            r == bit_set(self.chunk_type@[0], 5),
    {
        Chunk::is_bit_set(self.chunk_type[0], 5)
    }

    /// Bit 5 of the second type byte: the chunk type is not public.
    pub fn is_private(&self) -> (r: bool)
        ensures
            r == bit_set(self.chunk_type@[1], 5),
    {
        Chunk::is_bit_set(self.chunk_type[1], 5)
    }

    /// Bit 5 of the third type byte, reserved by the format.
    pub fn is_reserved(&self) -> (r: bool)
        ensures
            r == bit_set(self.chunk_type@[2], 5),
    {
        Chunk::is_bit_set(self.chunk_type[2], 5)
    }

    /// Bit 5 of the fourth type byte: editors may copy the chunk unchanged.
    pub fn is_save_to_copy(&self) -> (r: bool)
        ensures
            r == bit_set(self.chunk_type@[3], 5),
    {
        Chunk::is_bit_set(self.chunk_type[3], 5)
    }

    fn is_bit_set(data: u8, index: u8) -> (r: bool)
        requires
            index < 8,
        ensures
            r == bit_set(data, index),
    {
        (data >> index) & 1 == 1
    }
}

/// Splits a chunk stream into its chunks.
pub fn chunk(data: &[u8]) -> (r: PngResult<Vec<Chunk>>)
    ensures
        parse_chunks(data@, 0) is None <==> r is Err,
        r is Ok ==> r->Ok_0@.map_values(|c: Chunk| c@) == parse_chunks(data@, 0)->Some_0,
{
    let ghost s = data@;
    let mut chunks: Vec<Chunk> = Vec::new();
    let mut i: usize = 0;
    let mut failed = false;
    while i < data.len() && !failed
        invariant
            s == data@,
            i <= s.len(),
            !failed ==> match parse_chunks(s, i as int) {
                None => parse_chunks(s, 0) is None,
                Some(rest) => parse_chunks(s, 0) == Some(
                    chunks@.map_values(|c: Chunk| c@) + rest,
                ),
            },
            failed ==> parse_chunks(s, 0) is None,
        decreases s.len() - i, if failed { 0int } else { 1int },
    {
        if data.len() - i < 4 {
            failed = true;
        } else {
            let len = read_be_u32(data, i) as u64 + 8;
            if len > u32::MAX as u64 || len > (data.len() - (i + 4)) as u64 {
                failed = true;
            } else {
                let start = i + 4;
                let end = start + len as usize;
                let mut body: Vec<u8> = Vec::new();
                let mut k: usize = start;
                while k < end
                    invariant
                        start <= k <= end <= s.len(),
                        s == data@,
                        body@ == s.subrange(start as int, k as int),
                    decreases end - k,
                {
                    body.push(data[k]);
                    k = k + 1;
                    assert(body@ =~= s.subrange(start as int, k as int));
                }
                match Chunk::try_create(len as u32, body.as_slice()) {
                    Err(_) => {
                        failed = true;
                    },
                    Ok(c) => {
                        let ghost before = chunks@.map_values(|c: Chunk| c@);
                        chunks.push(c);
                        proof {
                            assert(chunks@.map_values(|c: Chunk| c@) =~= before.push(c@));
                            match parse_chunks(s, end as int) {
                                None => {},
                                Some(rest) => {
                                    assert(before + (seq![c@] + rest) =~= before.push(c@) + rest);
                                },
                            }
                        }
                        i = end;
                    },
                }
            }
        }
    }
    if failed {
        Err(PngError::new("not enough data"))
    } else {
        proof {
            assert(chunks@.map_values(|c: Chunk| c@) + Seq::<ChunkModel>::empty() =~= chunks@.map_values(|c: Chunk| c@));
        }
        Ok(chunks)
    }
}

/// The chunk of type IDAT that carries `payload`, with its CRC.
pub fn make_idat_chunk(crc32: &Crc32, payload: &[u8]) -> (r: Chunk)
    requires
        crc32.wf(),
        payload@.len() <= u32::MAX,
    ensures
        r@ == (
            payload@.len() as u32,
            seq![0x49u8, 0x44u8, 0x41u8, 0x54u8],
            payload@,
            crc_of(seq![0x49u8, 0x44u8, 0x41u8, 0x54u8] + payload@),
        ),
{
    let chunk_type = idat_type();
    let mut bytes: Vec<u8> = Vec::new();
    let mut data: Vec<u8> = Vec::new();
    let mut k: usize = 0;
    while k < 4
        invariant
            k <= 4,
            chunk_type@ == seq![0x49u8, 0x44u8, 0x41u8, 0x54u8],
            bytes@ == chunk_type@.subrange(0, k as int),
        decreases 4 - k,
    {
        bytes.push(chunk_type[k]);
        k = k + 1;
        assert(bytes@ =~= chunk_type@.subrange(0, k as int));
    }
    let mut i: usize = 0;
    while i < payload.len()
        invariant
            i <= payload@.len(),
            chunk_type@ == seq![0x49u8, 0x44u8, 0x41u8, 0x54u8],
            bytes@ == chunk_type@ + payload@.subrange(0, i as int),
            data@ == payload@.subrange(0, i as int),
        decreases payload@.len() - i,
    {
        bytes.push(payload[i]);
        data.push(payload[i]);
        i = i + 1;
        assert(bytes@ =~= chunk_type@ + payload@.subrange(0, i as int));
        assert(data@ =~= payload@.subrange(0, i as int));
    }
    assert(payload@.subrange(0, payload@.len() as int) =~= payload@);
    let crc = crc32.crc(bytes.as_slice());
    Chunk { length: payload.len() as u32, chunk_type, chunk_data: data, crc }
}

} // verus!
