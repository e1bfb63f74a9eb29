use crate::bit_reader::{bit_at, bits_value, weight, BitIter};
use crate::error::DeflateError;
use vstd::prelude::*;

verus! {

/// The longest codeword the format allows.
pub const MAX_CODE_LENGTH: u8 = 15;

/// How many of the first `n` symbols have code length `l`.
pub open spec fn count_below(lengths: Seq<u8>, n: int, l: int) -> nat
    decreases n,
{
    if n <= 0 {
        0
    } else {
        count_below(lengths, n - 1, l) + if lengths[n - 1] == l {
            1nat
        } else {
            0nat
        }
    }
}

/// The running `next_code` once tiers `1..=l` are assigned: every tier
/// doubles the previous value and adds its own symbol count. It stays at most
/// `2^l` exactly when no tier up to `l` runs out of codewords.
pub open spec fn next_code(lengths: Seq<u8>, l: int) -> nat
    decreases l,
{
    if l <= 0 {
        0
    } else {
        2 * next_code(lengths, l - 1) + count_below(lengths, lengths.len() as int, l)
    }
}

/// More codewords are asked for than the 15-bit code space holds.
pub open spec fn over_subscribed(lengths: Seq<u8>) -> bool {
    next_code(lengths, MAX_CODE_LENGTH as int) > weight(MAX_CODE_LENGTH as nat)
}

/// How many of the first `n` symbols have a non-zero length.
pub open spec fn used_below(lengths: Seq<u8>, n: int) -> nat
    decreases n,
{
    if n <= 0 {
        0
    } else {
        used_below(lengths, n - 1) + if lengths[n - 1] != 0 {
            1nat
        } else {
            0nat
        }
    }
}

/// Part of the code space is left unused, and the code is not the
/// degenerate one in which exactly one symbol has a length.
pub open spec fn under_subscribed(lengths: Seq<u8>) -> bool {
    &&& next_code(lengths, MAX_CODE_LENGTH as int) < weight(MAX_CODE_LENGTH as nat)
    &&& used_below(lengths, lengths.len() as int) != 1
}

/// A distance code that RFC 1951 allows to leave code space unused: no
/// codeword at all, or a single one-bit codeword.
pub open spec fn sparse_distance_code(lengths: Seq<u8>) -> bool {
    next_code(lengths, MAX_CODE_LENGTH as int) == 0 || (next_code(lengths, MAX_CODE_LENGTH as int)
        == weight(14) && count_below(lengths, lengths.len() as int, 1) == 1)
}

/// The codeword of length `l` that symbol `s` receives, with a leading 1 bit
/// above it so that codewords of different lengths stay distinct.
pub open spec fn marked_codeword(lengths: Seq<u8>, l: int, s: int) -> int {
    (weight(l as nat) + 2 * next_code(lengths, l - 1) + count_below(lengths, s, l)) as int
}

/// The (marked codeword, symbol) pairs of tier `l` among the first `n` symbols,
/// in increasing symbol order.
pub open spec fn tier_prefix(lengths: Seq<u8>, l: int, n: int) -> Seq<(int, int)>
    decreases n,
{
    if n <= 0 {
        Seq::empty()
    } else if lengths[n - 1] == l {
        tier_prefix(lengths, l, n - 1).push((marked_codeword(lengths, l, n - 1), n - 1))
    } else {
        tier_prefix(lengths, l, n - 1)
    }
}

/// The canonical code of tiers `1..=l`, shortest codewords first.
pub open spec fn tiers(lengths: Seq<u8>, l: int) -> Seq<(int, int)>
    decreases l,
{
    if l <= 0 {
        Seq::empty()
    } else {
        tiers(lengths, l - 1) + tier_prefix(lengths, l, lengths.len() as int)
    }
}

/// The canonical code (RFC 1951, section 3.2.2) of a code-length array.
pub open spec fn canon_entries(lengths: Seq<u8>) -> Seq<(int, int)> {
    tiers(lengths, MAX_CODE_LENGTH as int)
}

/// The index of the first entry whose marked codeword is `c`, at or after `i`.
pub open spec fn find_from(entries: Seq<(int, int)>, c: int, i: int) -> Option<int>
    decreases entries.len() - i,
{
    if i < 0 || i >= entries.len() {
        None
    } else if entries[i].0 == c {
        Some(i)
    } else {
        find_from(entries, c, i + 1)
    }
}

/// Decoding one symbol from bit `q` on, `k` bits having been read into the
/// marked value `acc`: codeword bits come most-significant first.
pub open spec fn huff_decode_from(
    entries: Seq<(int, int)>,
    data: Seq<u8>,
    q: int,
    k: nat,
    acc: int,
) -> Result<(int, int), DeflateError>
    decreases MAX_CODE_LENGTH - k,
{
    if q >= data.len() * 8 {
        Err(DeflateError::EndOfStream)
    } else {
        let acc2 = 2 * acc + bit_at(data, q);
        match find_from(entries, acc2, 0) {
            Some(i) => Ok((entries[i].1, q + 1)),
            None => if k + 1 >= MAX_CODE_LENGTH {
                Err(DeflateError::InvalidCode)
            } else {
                huff_decode_from(entries, data, q + 1, k + 1, acc2)
            },
        }
    }
}

/// The symbol at bit `p`, and the bit position after its codeword.
pub open spec fn huff_decode(entries: Seq<(int, int)>, data: Seq<u8>, p: int) -> Result<
    (int, int),
    DeflateError,
> {
    huff_decode_from(entries, data, p, 0, 1)
}

pub proof fn lemma_count_below_mono(lengths: Seq<u8>, a: int, b: int, l: int)
    requires
        a <= b,
    ensures
        count_below(lengths, a, l) <= count_below(lengths, b, l),
    decreases b - a,
{
    if a < b {
        lemma_count_below_mono(lengths, a, b - 1, l);
    }
}

pub proof fn lemma_over_propagates(lengths: Seq<u8>, l: int)
    requires
        1 <= l <= MAX_CODE_LENGTH,
        next_code(lengths, l) > weight(l as nat),
    ensures
        over_subscribed(lengths),
    decreases MAX_CODE_LENGTH - l,
{
    if l < MAX_CODE_LENGTH {
        assert(next_code(lengths, l + 1) >= 2 * next_code(lengths, l));
        assert(weight((l + 1) as nat) == 2 * weight(l as nat));
        lemma_over_propagates(lengths, l + 1);
    }
}

/// A canonical Huffman code: its marked codewords and their symbols, shortest
/// codewords first and, within one length, in increasing symbol order.
pub struct CanonicalCode {
    symbol_code_bits: Vec<u32>,
    symbol_values: Vec<u16>,
}

impl CanonicalCode {
    /// The (marked codeword, symbol) pairs of the code.
    pub closed spec fn entries(&self) -> Seq<(int, int)> {
        Seq::new(
            self.symbol_code_bits@.len(),
            |i: int| (self.symbol_code_bits@[i] as int, self.symbol_values@[i] as int),
        )
    }

    pub closed spec fn wf(&self) -> bool {
        self.symbol_code_bits@.len() == self.symbol_values@.len()
    }

    /// Builds the canonical code of `code_lengths` (0 marks an unused symbol).
    pub fn try_new(code_lengths: &[u8]) -> (r: Result<Self, DeflateError>)
        requires
            code_lengths@.len() <= 65536,
            forall|i: int| 0 <= i < code_lengths@.len() ==> code_lengths@[i] <= MAX_CODE_LENGTH,
        ensures
            over_subscribed(code_lengths@) ==> r == Err::<Self, DeflateError>(
                DeflateError::OverSubscribedCode,
            ),
            !over_subscribed(code_lengths@) && under_subscribed(code_lengths@) ==> r == Err::<
                Self,
                DeflateError,
            >(DeflateError::UnderSubscribedCode),
            !over_subscribed(code_lengths@) && !under_subscribed(code_lengths@) ==> {
                &&& r is Ok
                &&& r->Ok_0.wf()
                &&& r->Ok_0.entries() == canon_entries(code_lengths@)
            },
    {
        Self::build(code_lengths, false)
    }

    /// Builds a distance code: as `try_new`, except that a code with no
    /// codeword, or with a single one-bit codeword, is accepted as RFC 1951
    /// allows for distances.
    pub fn try_new_distance(code_lengths: &[u8]) -> (r: Result<Self, DeflateError>)
        requires
            code_lengths@.len() <= 65536,
            forall|i: int| 0 <= i < code_lengths@.len() ==> code_lengths@[i] <= MAX_CODE_LENGTH,
        ensures
            over_subscribed(code_lengths@) ==> r == Err::<Self, DeflateError>(
                DeflateError::OverSubscribedCode,
            ),
            !over_subscribed(code_lengths@) && under_subscribed(code_lengths@)
                && !sparse_distance_code(code_lengths@) ==> r == Err::<Self, DeflateError>(
                DeflateError::UnderSubscribedCode,
            ),
            !over_subscribed(code_lengths@) && (!under_subscribed(code_lengths@)
                || sparse_distance_code(code_lengths@)) ==> {
                &&& r is Ok
                &&& r->Ok_0.wf()
                &&& r->Ok_0.entries() == canon_entries(code_lengths@)
            },
    {
        Self::build(code_lengths, true)
    }

    fn build(code_lengths: &[u8], sparse_ok: bool) -> (r: Result<Self, DeflateError>)
        requires
            code_lengths@.len() <= 65536,
            forall|i: int| 0 <= i < code_lengths@.len() ==> code_lengths@[i] <= MAX_CODE_LENGTH,
        ensures
            over_subscribed(code_lengths@) ==> r == Err::<Self, DeflateError>(
                DeflateError::OverSubscribedCode,
            ),
            !over_subscribed(code_lengths@) && under_subscribed(code_lengths@) && !(sparse_ok
                && sparse_distance_code(code_lengths@)) ==> r == Err::<Self, DeflateError>(
                DeflateError::UnderSubscribedCode,
            ),
            !over_subscribed(code_lengths@) && (!under_subscribed(code_lengths@) || (sparse_ok
                && sparse_distance_code(code_lengths@))) ==> {
                &&& r is Ok
                &&& r->Ok_0.wf()
                &&& r->Ok_0.entries() == canon_entries(code_lengths@)
            },
    {
        let ghost lens = code_lengths@;
        let n = code_lengths.len();
        let mut codes: Vec<u32> = Vec::new();
        let mut values: Vec<u16> = Vec::new();
        let mut next: u32 = 0;
        let mut tier_bit: u32 = 1;
        let mut ones: u32 = 0;
        let mut l: u8 = 1;
        while l <= MAX_CODE_LENGTH
            invariant
                1 <= l <= MAX_CODE_LENGTH + 1,
                l > 1 ==> ones == count_below(lens, n as int, 1),
                n == lens.len() <= 65536,
                lens == code_lengths@,
                codes@.len() == values@.len(),
                Seq::new(codes@.len(), |i: int| (codes@[i] as int, values@[i] as int)) == tiers(
                    lens,
                    l - 1,
                ),
                next == next_code(lens, l - 1),
                tier_bit == weight((l - 1) as nat),
                next <= tier_bit,
                tier_bit <= 0x8000,
            decreases MAX_CODE_LENGTH + 1 - l,
        {
            proof {
                crate::bit_reader::lemma_weight_mono((l - 1) as nat, 14);
                reveal_with_fuel(weight, 16);
            }
            next = next * 2;
            tier_bit = tier_bit * 2;
            let ghost base = codes@.len();
            let ghost before = tiers(lens, l - 1);
            let mut s: usize = 0;
            while s < n
                invariant
                    1 <= l <= MAX_CODE_LENGTH,
                    n == lens.len() <= 65536,
                    lens == code_lengths@,
                    s <= n,
                    codes@.len() == values@.len(),
                    Seq::new(codes@.len(), |i: int| (codes@[i] as int, values@[i] as int)) == before
                        + tier_prefix(lens, l as int, s as int),
                    next == 2 * next_code(lens, l - 1) + count_below(lens, s as int, l as int),
                    tier_bit == weight(l as nat),
                    tier_bit <= 0x8000,
                    next <= tier_bit,
                decreases n - s,
            {
                if code_lengths[s] == l {
                    if next >= tier_bit {
                        proof {
                            lemma_count_below_mono(lens, s + 1, n as int, l as int);
                            lemma_over_propagates(lens, l as int);
                        }
                        return Err(DeflateError::OverSubscribedCode);
                    }
                    let ghost old_seq = Seq::new(
                        codes@.len(),
                        |i: int| (codes@[i] as int, values@[i] as int),
                    );
                    codes.push(tier_bit + next);
                    values.push(s as u16);
                    next = next + 1;
                    proof {
                        let new_seq = Seq::new(
                            codes@.len(),
                            |i: int| (codes@[i] as int, values@[i] as int),
                        );
                        assert(new_seq =~= old_seq.push(
                            (marked_codeword(lens, l as int, s as int), s as int),
                        ));
                        assert(before + tier_prefix(lens, l as int, s + 1) =~= (before
                            + tier_prefix(lens, l as int, s as int)).push(
                            (marked_codeword(lens, l as int, s as int), s as int),
                        ));
                    }
                } else {
                    proof {
                        assert(tier_prefix(lens, l as int, s + 1) == tier_prefix(
                            lens,
                            l as int,
                            s as int,
                        ));
                    }
                }
                s = s + 1;
            }
            if l == 1 {
                ones = next;
            }
            l = l + 1;
        }
        proof {
            reveal_with_fuel(weight, 16);
        }
        let mut used: usize = 0;
        let mut k: usize = 0;
        while k < n
            invariant
                k <= n,
                n == lens.len(),
                lens == code_lengths@,
                used == used_below(lens, k as int),
                used <= k,
            decreases n - k,
        {
            if code_lengths[k] != 0 {
                used = used + 1;
            }
            k = k + 1;
        }
        let sparse = next == 0 || (next == 0x4000 && ones == 1);
        if next != tier_bit && used != 1 && !(sparse_ok && sparse) {
            return Err(DeflateError::UnderSubscribedCode);
        }
        let r = CanonicalCode { symbol_code_bits: codes, symbol_values: values };
        assert(r.entries() =~= canon_entries(lens));
        Ok(r)
    }

    /// The position of the marked codeword `c` in the table, if it is there.
    fn find(&self, c: u32) -> (r: Option<usize>)
        requires
            self.wf(),
        ensures
            r matches Some(i) ==> find_from(self.entries(), c as int, 0) == Some(i as int) && i
                < self.entries().len(),
            r is None ==> find_from(self.entries(), c as int, 0) is None,
    {
        let mut i: usize = 0;
        while i < self.symbol_code_bits.len()
            invariant
                self.wf(),
                i <= self.symbol_code_bits@.len(),
                find_from(self.entries(), c as int, 0) == find_from(self.entries(), c as int, i as int),
            decreases self.symbol_code_bits@.len() - i,
        {
            if self.symbol_code_bits[i] == c {
                return Some(i);
            }
            i = i + 1;
        }
        None
    }

    /// Reads one codeword, bit by bit, and returns its symbol.
    pub fn decode_next_symbol(&self, input: &mut BitIter) -> (r: Result<u16, DeflateError>)
        requires
            self.wf(),
            old(input).wf(),
        ensures
            final(input).wf(),
            final(input).bytes() == old(input).bytes(),
            final(input).pos() >= old(input).pos(),
            r is Ok ==> final(input).pos() > old(input).pos(),
            match huff_decode(self.entries(), old(input).bytes(), old(input).pos()) {
                Ok((s, q)) => r is Ok && r->Ok_0 as int == s && final(input).pos() == q,
                Err(e) => r == Err::<u16, DeflateError>(e),
            },
    {
        let ghost p = old(input).pos();
        let ghost data = old(input).bytes();
        let ghost entries = self.entries();
        let mut code_bits: u32 = 1;
        let mut k: u8 = 0;
        let mut result: Result<u16, DeflateError> = Err(DeflateError::InvalidCode);
        let mut done = false;
        proof {
            reveal_with_fuel(weight, 16);
        }
        while !done
            invariant
                self.wf(),
                entries == self.entries(),
                input.wf(),
                input.bytes() == data,
                k < MAX_CODE_LENGTH,
                !done ==> 1 <= code_bits < weight(k as nat) * 2,
                weight(k as nat) <= 0x4000,
                !done ==> input.pos() == p + k,
                !done ==> huff_decode(entries, data, p) == huff_decode_from(
                    entries,
                    data,
                    p + k,
                    k as nat,
                    code_bits as int,
                ),
                done && result is Ok ==> input.pos() > p,
                input.pos() >= p,
                done ==> match huff_decode(entries, data, p) {
                    Ok((s, q)) => result is Ok && result->Ok_0 as int == s && input.pos() == q,
                    Err(e) => result == Err::<u16, DeflateError>(e),
                },
            decreases MAX_CODE_LENGTH - k, if done { 0int } else { 1int },
        {
            proof {
                input.lemma_pos_in_range();
                reveal_with_fuel(bits_value, 2);
                crate::bit_reader::lemma_bit_at_le_one(data, p + k);
            }
            let res = input.read_uint(1);
            match res {
                Err(e) => {
                    result = Err(e);
                    done = true;
                },
                Ok(bit) => {
                    proof {
                        crate::bit_reader::lemma_bits_value_one(data, p + k);
                    }
                    assert(bit as int == bit_at(data, p + k) as int);
                    assert(code_bits * 2 + bit < weight(k as nat) * 4);
                    code_bits = code_bits * 2 + bit;
                    match self.find(code_bits) {
                        Some(i) => {
                            assert(entries[i as int].1 == self.symbol_values@[i as int]);
                            result = Ok(self.symbol_values[i]);
                            done = true;
                        },
                        None => {
                            if k + 1 >= MAX_CODE_LENGTH {
                                result = Err(DeflateError::InvalidCode);
                                done = true;
                            } else {
                                proof {
                                    crate::bit_reader::lemma_weight_mono((k + 1) as nat, 14);
                                    reveal_with_fuel(weight, 16);
                                    assert(weight((k + 1) as nat) == 2 * weight(k as nat));
                                }
                                k = k + 1;
                            }
                        },
                    }
                },
            }
        }
        result
    }
}

} // verus!
