use crate::bit_reader::{bit_at, bits_value, lemma_bits_value_byte, weight};
use vstd::prelude::*;

verus! {

/// Bit `i` of `v`, counting from the least significant.
pub open spec fn nth_bit(v: nat, i: nat) -> u8 {
    ((v / weight(i)) % 2) as u8
}

/// The `n` low bits of `v`, least significant first.
pub open spec fn lsb_bits(v: nat, n: nat) -> Seq<u8> {
    Seq::new(n, |i: int| nth_bit(v, i as nat))
}

/// The `n` low bits of `v`, most significant first.
pub open spec fn msb_bits(v: nat, n: nat) -> Seq<u8> {
    Seq::new(n, |i: int| nth_bit(v, (n - 1 - i) as nat))
}

/// `bytes` hold `bits` in order, least significant bit of each byte first,
/// with the unused high bits of the last byte clear.
pub open spec fn packs(bytes: Seq<u8>, bits: Seq<u8>) -> bool {
    &&& bytes.len() == (bits.len() + 7) / 8
    &&& forall|i: int|
        0 <= i < bytes.len() * 8 ==> #[trigger] bit_at(bytes, i) == if i < bits.len() {
            bits[i]
        } else {
            0u8
        }
}

proof fn lemma_bits_value_same(a: Seq<u8>, b: Seq<u8>, p: int, n: nat)
    requires
        forall|i: int| p <= i < p + n ==> #[trigger] bit_at(a, i) == bit_at(b, i),
    ensures
        bits_value(a, p, n) == bits_value(b, p, n),
    decreases n,
{
    if n > 0 {
        lemma_bits_value_same(a, b, p, (n - 1) as nat);
        assert(bit_at(a, p + n - 1) == bit_at(b, p + n - 1));
    }
}

/// Only one byte sequence packs given bits.
pub proof fn lemma_packs_unique(a: Seq<u8>, b: Seq<u8>, bits: Seq<u8>)
    requires
        packs(a, bits),
        packs(b, bits),
    ensures
        a == b,
{
    assert forall|j: int| 0 <= j < a.len() implies a[j] == b[j] by {
        assert forall|i: int| 8 * j <= i < 8 * j + 8 implies #[trigger] bit_at(a, i) == bit_at(b, i) by {
            assert(bit_at(a, i) == (if i < bits.len() { bits[i] } else { 0u8 }));
            assert(bit_at(b, i) == (if i < bits.len() { bits[i] } else { 0u8 }));
        }
        lemma_bits_value_same(a, b, 8 * j, 8);
        lemma_bits_value_byte(a, j);
        lemma_bits_value_byte(b, j);
    }
    assert(a =~= b);
}

proof fn lemma_or_bit(x: u8, b: u8, k: u8, j: u8)
    requires
        b <= 1,
        k < 8,
        j < 8,
        (x >> k) & 1 == 0,
    ensures
        ((x | (b << k)) >> j) & 1 == if j == k {
            b
        } else {
            (x >> j) & 1
        },
{
    assert(b <= 1 && k < 8 && j < 8 && (x >> k) & 1 == 0 ==> ((x | (b << k)) >> j) & 1 == if j
        == k {
        b
    } else {
        (x >> j) & 1
    }) by (bit_vector);
}

proof fn lemma_low_bit(b: u8, j: u8)
    requires
        b <= 1,
        j < 8,
    ensures
        (b >> j) & 1 == if j == 0 {
            b
        } else {
            0
        },
{
    assert(b <= 1 && j < 8 ==> (b >> j) & 1 == if j == 0 {
        b
    } else {
        0
    }) by (bit_vector);
}

/// Collects bits into bytes, least significant bit of each byte first.
pub struct BitWriter {
    bytes: Vec<u8>,
    nbits: usize,
    bits: Ghost<Seq<u8>>,
}

impl View for BitWriter {
    type V = Seq<u8>;

    /// The bits written so far, each 0 or 1.
    closed spec fn view(&self) -> Seq<u8> {
        self.bits@
    }
}

impl BitWriter {
    pub closed spec fn wf(&self) -> bool {
        &&& self.nbits == self.bits@.len()
        &&& packs(self.bytes@, self.bits@)
    }

    pub fn new() -> (r: Self)
        ensures
            r.wf(),
            r@ == Seq::<u8>::empty(),
    {
        BitWriter { bytes: Vec::new(), nbits: 0, bits: Ghost(Seq::empty()) }
    }

    pub fn write_bit(&mut self, b: u8)
        requires
            old(self).wf(),
            b <= 1,
            old(self)@.len() < usize::MAX,
        ensures
            final(self).wf(),
            final(self)@ == old(self)@.push(b),
    {
        let ghost old_bytes = self.bytes@;
        let ghost n = self.nbits as int;
        let k = (self.nbits % 8) as u8;
        if k == 0 {
            self.bytes.push(b);
            proof {
                assert forall|i: int| 0 <= i < self.bytes@.len() * 8 implies #[trigger] bit_at(
                    self.bytes@,
                    i,
                ) == if i < n + 1 {
                    self.bits@.push(b)[i]
                } else {
                    0u8
                } by {
                    if i / 8 < old_bytes.len() {
                        assert(bit_at(self.bytes@, i) == bit_at(old_bytes, i));
                        assert(bit_at(old_bytes, i) == if i < n {
                            self.bits@[i]
                        } else {
                            0u8
                        });
                    } else {
                        lemma_low_bit(b, (i % 8) as u8);
                    }
                }
            }
        } else {
            let last = self.bytes.len() - 1;
            let x = self.bytes[last];
            proof {
                assert(bit_at(old_bytes, n) == 0u8);
                assert(n / 8 == last as int && n % 8 == k as int);
            }
            self.bytes.set(last, x | (b << k));
            proof {
                assert forall|i: int| 0 <= i < self.bytes@.len() * 8 implies #[trigger] bit_at(
                    self.bytes@,
                    i,
                ) == if i < n + 1 {
                    self.bits@.push(b)[i]
                } else {
                    0u8
                } by {
                    assert(bit_at(old_bytes, i) == if i < n {
                        self.bits@[i]
                    } else {
                        0u8
                    });
                    if i / 8 == last as int {
                        lemma_or_bit(x, b, k, (i % 8) as u8);
                    }
                }
            }
        }
        self.nbits = self.nbits + 1;
        self.bits = Ghost(self.bits@.push(b));
    }

    /// Writes the `n` low bits of `v`, least significant first.
    pub fn write_bits(&mut self, v: u32, n: u8)
        requires
            old(self).wf(),
            n <= 31,
            old(self)@.len() + n <= usize::MAX,
        ensures
            final(self).wf(),
            final(self)@ == old(self)@ + lsb_bits(v as nat, n as nat),
    {
        let mut w: u32 = 1;
        let mut i: u8 = 0;
        proof {
            reveal_with_fuel(weight, 32);
        }
        while i < n
            invariant
                self.wf(),
                i <= n <= 31,
                w == weight(i as nat),
                old(self)@.len() + n <= usize::MAX,
                self@ == old(self)@ + lsb_bits(v as nat, i as nat),
                weight(31) == 0x8000_0000,
            decreases n - i,
        {
            proof {
                crate::bit_reader::lemma_weight_mono(i as nat, 30);
                reveal_with_fuel(weight, 32);
            }
            let bit = ((v / w) % 2) as u8;
            self.write_bit(bit);
            proof {
                assert(self@ =~= old(self)@ + lsb_bits(v as nat, (i + 1) as nat));
            }
            w = if i < 31 { w * 2 } else { w };
            i = i + 1;
        }
    }

    /// Writes the `n` low bits of `v`, most significant first.
    pub fn write_code(&mut self, v: u32, n: u8)
        requires
            old(self).wf(),
            1 <= n <= 16,
            old(self)@.len() + n <= usize::MAX,
        ensures
            final(self).wf(),
            final(self)@ == old(self)@ + msb_bits(v as nat, n as nat),
    {
        let mut i: u8 = 0;
        while i < n
            invariant
                self.wf(),
                i <= n <= 16,
                old(self)@.len() + n <= usize::MAX,
                self@ == old(self)@ + msb_bits(v as nat, n as nat).subrange(0, i as int),
            decreases n - i,
        {
            let w = crate::decoder::weight_u32(n - 1 - i);
            proof {
                crate::bit_reader::lemma_weight_mono(0, (n - 1 - i) as nat);
                assert(weight(0) == 1);
            }
            let bit = ((v / w) % 2) as u8;
            self.write_bit(bit);
            proof {
                assert(self@ =~= old(self)@ + msb_bits(v as nat, n as nat).subrange(0, i + 1));
            }
            i = i + 1;
        }
        assert(msb_bits(v as nat, n as nat).subrange(0, n as int) =~= msb_bits(v as nat, n as nat));
    }

    /// The bytes, the last one padded with zero bits.
    pub fn finish(self) -> (r: Vec<u8>)
        requires
            self.wf(),
        ensures
            packs(r@, self@),
    {
        self.bytes
    }
}

} // verus!
