use vstd::prelude::*;

verus! {

/// The reflected CRC-32 polynomial of PNG and zlib.
pub const CRC_POLY: u32 = 0xedb8_8320;

/// One shift of the CRC register.
pub open spec fn crc_shift(c: u32) -> u32 {
    if c & 1 != 0 {
        CRC_POLY ^ (c >> 1u32)
    } else {
        c >> 1u32
    }
}

/// `k` shifts of the CRC register.
pub open spec fn crc_shifts(c: u32, k: nat) -> u32
    decreases k,
{
    if k == 0 {
        c
    } else {
        crc_shift(crc_shifts(c, (k - 1) as nat))
    }
}

/// Table entry `n`: the register after eight shifts from `n`.
pub open spec fn crc_table_entry(n: int) -> u32 {
    crc_shifts(n as u32, 8)
}

/// The register after feeding `buf` to it, starting from `crc`.
pub open spec fn crc_update(crc: u32, buf: Seq<u8>) -> u32
    decreases buf.len(),
{
    if buf.len() == 0 {
        crc
    } else {
        let c = crc_update(crc, buf.drop_last());
        crc_table_entry(((c ^ buf.last() as u32) & 0xff) as int) ^ (c >> 8u32)
    }
}

/// The CRC-32 of `buf`.
pub open spec fn crc_of(buf: Seq<u8>) -> u32 {
    crc_update(0xffff_ffff, buf) ^ 0xffff_ffff
}

/// A table-driven CRC-32 calculator.
pub struct Crc32 {
    crc_table: Vec<u32>,
    crc_table_computed: bool,
}

impl Crc32 {
    pub closed spec fn wf(&self) -> bool {
        &&& self.crc_table@.len() == 256
        &&& forall|n: int| 0 <= n < 256 ==> #[trigger] self.crc_table@[n] == crc_table_entry(n)
    }

    pub fn new() -> (r: Self)
        ensures
            r.wf(),
    {
        let mut crc32 = Crc32 { crc_table: Vec::new(), crc_table_computed: false };
        crc32.make_crc_table();
        crc32
    }

    fn make_crc_table(&mut self)
        ensures
            final(self).wf(),
            final(self).crc_table_computed,
    {
        let mut table: Vec<u32> = Vec::new();
        let mut n: u32 = 0;
        while n < 256
            invariant
                n <= 256,
                table@.len() == n,
                forall|m: int| 0 <= m < n ==> #[trigger] table@[m] == crc_table_entry(m),
            decreases 256 - n,
        {
            let mut c: u32 = n;
            let mut k: u32 = 0;
            while k < 8
                invariant
                    k <= 8,
                    c == crc_shifts(n, k as nat),
                decreases 8 - k,
            {
                if c & 1 != 0 {
                    c = CRC_POLY ^ (c >> 1);
                } else {
                    c = c >> 1;
                }
                k = k + 1;
            }
            table.push(c);
            n = n + 1;
        }
        self.crc_table = table;
        self.crc_table_computed = true;
    }

    /// Feeds `buf` to a running register `crc`.
    pub fn update_crc(&self, crc: u32, buf: &[u8]) -> (r: u32)
        requires
            self.wf(),
        ensures
            r == crc_update(crc, buf@),
    {
        let mut c = crc;
        let mut i: usize = 0;
        while i < buf.len()
            invariant
                self.wf(),
                i <= buf@.len(),
                c == crc_update(crc, buf@.subrange(0, i as int)),
            decreases buf@.len() - i,
        {
            let byte = buf[i];
            let idx = ((c ^ byte as u32) & 0xff) as usize;
            assert(((c ^ byte as u32) & 0xff) < 256) by (bit_vector);
            proof {
                let s = buf@.subrange(0, i + 1);
                assert(s.drop_last() =~= buf@.subrange(0, i as int));
                assert(s.last() == byte);
            }
            c = self.crc_table[idx] ^ (c >> 8);
            i = i + 1;
        }
        assert(buf@.subrange(0, buf@.len() as int) =~= buf@);
        c
    }

    /// The CRC-32 of `buf`.
    pub fn crc(&self, buf: &[u8]) -> (r: u32)
        requires
            self.wf(),
        ensures
            r == crc_of(buf@),
    {
        self.update_crc(0xffff_ffff, buf) ^ 0xffff_ffff
    }
}

} // verus!
