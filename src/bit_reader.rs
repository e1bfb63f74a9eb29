use crate::error::DeflateError;
use vstd::prelude::*;

verus! {

/// `2^n`, written out so that it unfolds without any hidden lemma.
pub open spec fn weight(n: nat) -> nat
    decreases n,
{
    if n == 0 {
        1
    } else {
        2 * weight((n - 1) as nat)
    }
}

/// Bit number `i` of a byte stream, least-significant bit of each byte first.
pub open spec fn bit_at(data: Seq<u8>, i: int) -> u8 {
    (data[i / 8] >> ((i % 8) as u8)) & 1u8
}

/// The number made of the `n` bits starting at bit `p`; the first bit read is bit 0.
pub open spec fn bits_value(data: Seq<u8>, p: int, n: nat) -> nat
    decreases n,
{
    if n == 0 {
        0
    } else {
        bits_value(data, p, (n - 1) as nat) + bit_at(data, p + n - 1) as nat * weight(
            (n - 1) as nat,
        )
    }
}

/// The bit position `p` rounded up to the next byte boundary.
pub open spec fn align_up(p: int) -> int {
    if p % 8 == 0 {
        p
    } else {
        p + 8 - p % 8
    }
}

pub proof fn lemma_weight_mono(a: nat, b: nat)
    requires
        a <= b,
    ensures
        weight(a) <= weight(b),
    decreases b,
{
    if a < b {
        lemma_weight_mono(a, (b - 1) as nat);
    }
}

pub proof fn lemma_bit_at_le_one(data: Seq<u8>, i: int)
    ensures
        bit_at(data, i) <= 1,
{
    let b = data[i / 8];
    let s = (i % 8) as u8;
    assert((b >> s) & 1u8 <= 1u8) by (bit_vector);
}

pub proof fn lemma_bits_value_one(data: Seq<u8>, p: int)
    ensures
        bits_value(data, p, 1) == bit_at(data, p) as nat,
        bit_at(data, p) <= 1,
{
    reveal_with_fuel(bits_value, 2);
    assert(weight(0) == 1);
    lemma_bit_at_le_one(data, p);
    assert(bits_value(data, p, 1) == bits_value(data, p, 0) + bit_at(data, p) as nat * weight(0));
}

pub proof fn lemma_bits_value_bound(data: Seq<u8>, p: int, n: nat)
    ensures
        bits_value(data, p, n) < weight(n),
    decreases n,
{
    if n > 0 {
        lemma_bits_value_bound(data, p, (n - 1) as nat);
        lemma_bit_at_le_one(data, p + n - 1);
        let a = bits_value(data, p, (n - 1) as nat);
        let b = bit_at(data, p + n - 1) as nat;
        let w = weight((n - 1) as nat);
        assert(a + b * w < 2 * w) by (nonlinear_arith)
            requires
                a < w,
                b <= 1,
        ;
    }
}

/// Eight bits read from a byte boundary give back the byte.
pub proof fn lemma_bits_value_byte(data: Seq<u8>, j: int)
    requires
        0 <= j < data.len(),
    ensures
        bits_value(data, 8 * j, 8) == data[j] as nat,
{
    let b = data[j];
    assert forall|k: int| 0 <= k < 8 implies #[trigger] bit_at(data, 8 * j + k) == (b >> (k as u8))
        & 1u8 by {
        assert((8 * j + k) / 8 == j);
        assert((8 * j + k) % 8 == k);
    }
    reveal_with_fuel(bits_value, 9);
    reveal_with_fuel(weight, 8);
    let b0 = bit_at(data, 8 * j) as nat;
    let b1 = bit_at(data, 8 * j + 1) as nat;
    let b2 = bit_at(data, 8 * j + 2) as nat;
    let b3 = bit_at(data, 8 * j + 3) as nat;
    let b4 = bit_at(data, 8 * j + 4) as nat;
    let b5 = bit_at(data, 8 * j + 5) as nat;
    let b6 = bit_at(data, 8 * j + 6) as nat;
    let b7 = bit_at(data, 8 * j + 7) as nat;
    let p = 8 * j;
    assert(weight(0) == 1 && weight(1) == 2 && weight(2) == 4 && weight(3) == 8);
    assert(weight(4) == 16 && weight(5) == 32 && weight(6) == 64 && weight(7) == 128);
    assert(bits_value(data, p, 1) == b0);
    assert(bits_value(data, p, 2) == b0 + b1 * 2);
    assert(bits_value(data, p, 3) == b0 + b1 * 2 + b2 * 4);
    assert(bits_value(data, p, 4) == b0 + b1 * 2 + b2 * 4 + b3 * 8);
    assert(bits_value(data, p, 5) == b0 + b1 * 2 + b2 * 4 + b3 * 8 + b4 * 16);
    assert(bits_value(data, p, 6) == b0 + b1 * 2 + b2 * 4 + b3 * 8 + b4 * 16 + b5 * 32);
    assert(bits_value(data, p, 7) == b0 + b1 * 2 + b2 * 4 + b3 * 8 + b4 * 16 + b5 * 32 + b6 * 64);
    assert(bits_value(data, p, 8) == b0 + b1 * 2 + b2 * 4 + b3 * 8 + b4 * 16 + b5 * 32 + b6 * 64
        + b7 * 128);
    assert(b == ((b >> 0u8) & 1u8) + ((b >> 1u8) & 1u8) * 2 + ((b >> 2u8) & 1u8) * 4 + ((b
        >> 3u8) & 1u8) * 8 + ((b >> 4u8) & 1u8) * 16 + ((b >> 5u8) & 1u8) * 32 + ((b >> 6u8)
        & 1u8) * 64 + ((b >> 7u8) & 1u8) * 128) by (bit_vector);
    assert(bit_at(data, 8 * j + 0) == (b >> 0u8) & 1u8);
}

/// Reading `m + n` bits is reading `m` bits, then `n` more above them.
pub proof fn lemma_bits_value_split(data: Seq<u8>, p: int, m: nat, n: nat)
    ensures
        bits_value(data, p, m + n) == bits_value(data, p, m) + weight(m) * bits_value(
            data,
            p + m,
            n,
        ),
    decreases n,
{
    if n == 0 {
        assert(bits_value(data, p + m, 0) == 0);
        assert(weight(m) * 0 == 0);
    } else {
        lemma_bits_value_split(data, p, m, (n - 1) as nat);
        let k = (m + n - 1) as nat;
        assert(weight(k) == weight(m) * weight((n - 1) as nat)) by {
            lemma_weight_add(m, (n - 1) as nat);
        }
        let x = bit_at(data, p + k) as nat;
        assert(bits_value(data, p, m + n) == bits_value(data, p, k) + x * weight(k));
        assert(bits_value(data, p + m, n) == bits_value(data, p + m, (n - 1) as nat) + x * weight(
            (n - 1) as nat,
        ));
        assert(weight(m) * (bits_value(data, p + m, (n - 1) as nat) + x * weight((n - 1) as nat))
            == weight(m) * bits_value(data, p + m, (n - 1) as nat) + x * (weight(m) * weight(
            (n - 1) as nat,
        ))) by (nonlinear_arith);
    }
}

pub proof fn lemma_weight_add(a: nat, b: nat)
    ensures
        weight(a + b) == weight(a) * weight(b),
    decreases b,
{
    if b == 0 {
        assert(weight(0) == 1);
        assert(a + b == a);
    } else {
        lemma_weight_add(a, (b - 1) as nat);
        assert(weight(a + b) == 2 * weight((a + b - 1) as nat));
        assert(weight(b) == 2 * weight((b - 1) as nat));
        assert(weight(a) * (2 * weight((b - 1) as nat)) == 2 * (weight(a) * weight((b - 1) as nat)))
            by (nonlinear_arith);
    }
}

/// Bits written least significant first read back as the value, cut to `n` bits.
pub proof fn lemma_bits_value_of(data: Seq<u8>, p: int, v: nat, n: nat)
    requires
        forall|j: int| 0 <= j < n ==> #[trigger] bit_at(data, p + j) as nat == (v / weight(j as nat)) % 2,
    ensures
        bits_value(data, p, n) == v % weight(n),
    decreases n,
{
    if n == 0 {
        assert(weight(0) == 1);
        assert(v % 1 == 0) by (nonlinear_arith);
    } else {
        let m = (n - 1) as nat;
        lemma_bits_value_of(data, p, v, m);
        lemma_weight_mono(0, m);
        assert(weight(0) == 1);
        assert(bit_at(data, p + m) as nat == (v / weight(m)) % 2);
        assert(weight(n) == weight(m) * 2);
        vstd::arithmetic::div_mod::lemma_mod_breakdown(v as int, weight(m) as int, 2);
        assert(v % weight(n) == weight(m) * ((v / weight(m)) % 2) + v % weight(m));
        assert(bits_value(data, p, n) == bits_value(data, p, m) + bit_at(data, p + m) as nat * weight(m));
        assert(bit_at(data, p + m) as nat * weight(m) == weight(m) * ((v / weight(m)) % 2)) by (nonlinear_arith)
            requires
                bit_at(data, p + m) as nat == (v / weight(m)) % 2,
        ;
    }
}

/// A reader over a byte sequence that hands out its bits, least-significant
/// bit of each byte first.
#[derive(Debug)]
pub struct BitIter {
    data: Vec<u8>,
    byte_pos: usize,
    bit_pos: u8,
}

impl BitIter {
    /// The bytes being read.
    pub closed spec fn bytes(&self) -> Seq<u8> {
        self.data@
    }

    /// The number of bits consumed so far.
    pub closed spec fn pos(&self) -> int {
        self.byte_pos * 8int + self.bit_pos
    }

    pub open spec fn bit_len(&self) -> int {
        self.bytes().len() * 8int
    }

    pub closed spec fn wf(&self) -> bool {
        &&& self.bit_pos < 8
        &&& self.byte_pos <= self.data.len()
        &&& self.byte_pos == self.data.len() ==> self.bit_pos == 0
    }

    pub proof fn lemma_pos_in_range(&self)
        requires
            self.wf(),
        ensures
            0 <= self.pos() <= self.bit_len(),
    {
    }

    pub fn new(inner: Vec<u8>) -> (r: Self)
        ensures
            r.wf(),
            r.bytes() == inner@,
            r.pos() == 0,
    {
        BitIter { data: inner, byte_pos: 0, bit_pos: 0 }
    }

    /// The offset of the next bit within its byte.
    pub fn get_bit_position(&self) -> (r: u8)
        requires
            self.wf(),
        ensures
            r as int == self.pos() % 8,
    {
        self.bit_pos
    }

    /// Whether at least `n` bits are left.
    pub fn has_bits(&self, n: usize) -> (r: bool)
        requires
            self.wf(),
            n <= 0x10_0000,
        ensures
            r == (self.pos() + n <= self.bit_len()),
    {
        let left_bytes = self.data.len() - self.byte_pos;
        if left_bytes > 0x2_0000 {
            true
        } else {
            left_bytes * 8 >= self.bit_pos as usize + n
        }
    }

    /// The whole bytes not yet touched.
    pub fn bytes_left(&self) -> (r: usize)
        requires
            self.wf(),
        ensures
            self.pos() % 8 == 0 ==> 8 * r == self.bit_len() - self.pos(),
    {
        self.data.len() - self.byte_pos
    }

    /// Reads one bit; the caller has checked that one is left.
    fn read_bit(&mut self) -> (r: u8)
        requires
            old(self).wf(),
            old(self).pos() < old(self).bit_len(),
        ensures
            final(self).wf(),
            final(self).bytes() == old(self).bytes(),
            final(self).pos() == old(self).pos() + 1,
            r == bit_at(old(self).bytes(), old(self).pos()),
    {
        let ghost p = self.pos();
        assert(p / 8 == self.byte_pos as int && p % 8 == self.bit_pos as int);
        let r = (self.data[self.byte_pos] >> self.bit_pos) & 1u8;
        if self.bit_pos == 7 {
            self.byte_pos = self.byte_pos + 1;
            self.bit_pos = 0;
        } else {
            self.bit_pos = self.bit_pos + 1;
        }
        r
    }

    /// Reads `num_bits` bits as a number whose bit 0 is the first bit read.
    /// Consumes nothing when fewer bits are left.
    pub fn read_uint(&mut self, num_bits: u8) -> (r: Result<u32, DeflateError>)
        requires
            old(self).wf(),
        ensures
            final(self).wf(),
            final(self).bytes() == old(self).bytes(),
            num_bits > 31 ==> {
                &&& r == Err::<u32, DeflateError>(DeflateError::BitCountOutOfRange)
                &&& final(self).pos() == old(self).pos()
            },
            num_bits <= 31 && old(self).pos() + num_bits <= old(self).bit_len() ==> {
                &&& r == Ok::<u32, DeflateError>(
                    bits_value(old(self).bytes(), old(self).pos(), num_bits as nat) as u32,
                )
                &&& final(self).pos() == old(self).pos() + num_bits
            },
            num_bits <= 31 && old(self).pos() + num_bits > old(self).bit_len() ==> {
                &&& r == Err::<u32, DeflateError>(DeflateError::EndOfStream)
                &&& final(self).pos() == old(self).pos()
            },
    {
        if num_bits > 31 {
            return Err(DeflateError::BitCountOutOfRange);
        }
        if !self.has_bits(num_bits as usize) {
            return Err(DeflateError::EndOfStream);
        }
        Ok(self.read_known(num_bits))
    }

    /// Reads `num_bits` bits that are known to be there.
    pub fn read_known(&mut self, num_bits: u8) -> (r: u32)
        requires
            old(self).wf(),
            num_bits <= 31,
            old(self).pos() + num_bits <= old(self).bit_len(),
        ensures
            final(self).wf(),
            final(self).bytes() == old(self).bytes(),
            r == bits_value(old(self).bytes(), old(self).pos(), num_bits as nat),
            final(self).pos() == old(self).pos() + num_bits,
    {
        let ghost p = self.pos();
        let mut result: u32 = 0;
        let mut w: u32 = 1;
        let mut i: u8 = 0;
        proof {
            reveal_with_fuel(weight, 31);
            assert(weight(30) == 0x4000_0000);
        }
        while i < num_bits
            invariant
                self.wf(),
                self.bytes() == old(self).bytes(),
                i <= num_bits <= 31,
                self.pos() == p + i,
                p + num_bits <= self.bit_len(),
                w == weight(i as nat),
                result == bits_value(self.bytes(), p, i as nat),
                weight(30) == 0x4000_0000,
            decreases num_bits - i,
        {
            proof {
                lemma_weight_mono(i as nat, 30);
                lemma_bits_value_bound(self.bytes(), p, i as nat);
            }
            let bit = self.read_bit();
            proof {
                lemma_bit_at_le_one(self.bytes(), p + i);
            }
            let add: u32 = if bit == 1 {
                w
            } else {
                0
            };
            assert(add == bit as nat * weight(i as nat));
            result = result + add;
            w = w * 2;
            i = i + 1;
        }
        result
    }

    /// Drops the unread bits of the current byte.
    pub fn align_to_byte(&mut self)
        requires
            old(self).wf(),
        ensures
            final(self).wf(),
            final(self).bytes() == old(self).bytes(),
            final(self).pos() == align_up(old(self).pos()),
    {
        if self.bit_pos != 0 {
            self.byte_pos = self.byte_pos + 1;
            self.bit_pos = 0;
        }
    }
}

} // verus!
