use crate::bit_reader::{bit_at, weight};
use crate::bit_writer::nth_bit;
use crate::canonical_code::{
    count_below, find_from, huff_decode, huff_decode_from, next_code, over_subscribed,
    tier_prefix, tiers, under_subscribed,
};
use crate::error::DeflateError;
use crate::inflate_spec::{code_of, fixed_dist_lengths, fixed_lit_lengths};
use vstd::prelude::*;

verus! {

spec fn c7(n: int) -> int {
    if n <= 256 {
        0
    } else if n <= 280 {
        n - 256
    } else {
        24
    }
}

spec fn c8(n: int) -> int {
    if n <= 144 {
        n
    } else if n <= 280 {
        144
    } else {
        144 + n - 280
    }
}

spec fn c9(n: int) -> int {
    if n <= 144 {
        0
    } else if n <= 256 {
        n - 144
    } else {
        112
    }
}

/// The symbol of the `k`-th 8-bit codeword of the fixed literal/length code.
spec fn sym8(k: int) -> int {
    if k < 144 {
        k
    } else {
        k + 136
    }
}

/// The fixed literal/length code, written out in canonical order.
pub open spec fn fixed_lit_entries() -> Seq<(int, int)> {
    Seq::new(
        288,
        |i: int|
            if i < 24 {
                (128 + i, 256 + i)
            } else if i < 176 {
                (304 + i - 24, if i - 24 < 144 {
                    i - 24
                } else {
                    i - 24 + 136
                })
            } else {
                (912 + i - 176, 144 + i - 176)
            },
    )
}

/// The fixed distance code, written out.
pub open spec fn fixed_dist_entries() -> Seq<(int, int)> {
    Seq::new(32, |i: int| (32 + i, i))
}

proof fn lemma_lit_counts(n: int, l: int)
    requires
        0 <= n <= 288,
    ensures
        count_below(fixed_lit_lengths(), n, l) == if l == 7 {
            c7(n)
        } else if l == 8 {
            c8(n)
        } else if l == 9 {
            c9(n)
        } else {
            0
        },
    decreases n,
{
    if n > 0 {
        lemma_lit_counts(n - 1, l);
    }
}

proof fn lemma_dist_counts(n: int, l: int)
    requires
        0 <= n <= 32,
    ensures
        count_below(fixed_dist_lengths(), n, l) == if l == 5 {
            n
        } else {
            0
        },
    decreases n,
{
    if n > 0 {
        lemma_dist_counts(n - 1, l);
    }
}

proof fn lemma_lit_next_code()
    ensures
        next_code(fixed_lit_lengths(), 6) == 0,
        next_code(fixed_lit_lengths(), 7) == 24,
        next_code(fixed_lit_lengths(), 8) == 200,
        next_code(fixed_lit_lengths(), 15) == 32768,
{
    let fl = fixed_lit_lengths();
    assert forall|l: int| 1 <= l <= 15 implies #[trigger] count_below(fl, 288, l) == if l == 7 {
        24int
    } else if l == 8 {
        152int
    } else if l == 9 {
        112int
    } else {
        0int
    } by {
        lemma_lit_counts(288, l);
    }
    reveal_with_fuel(next_code, 16);
}

proof fn lemma_dist_next_code()
    ensures
        next_code(fixed_dist_lengths(), 4) == 0,
        next_code(fixed_dist_lengths(), 15) == 32768,
{
    let fd = fixed_dist_lengths();
    assert forall|l: int| 1 <= l <= 15 implies #[trigger] count_below(fd, 32, l) == if l == 5 {
        32int
    } else {
        0int
    } by {
        lemma_dist_counts(32, l);
    }
    reveal_with_fuel(next_code, 16);
}

proof fn lemma_lit_tier(l: int, n: int)
    requires
        1 <= l <= 15,
        0 <= n <= 288,
    ensures
        tier_prefix(fixed_lit_lengths(), l, n) == if l == 7 {
            Seq::new(c7(n) as nat, |k: int| (128 + k, 256 + k))
        } else if l == 8 {
            Seq::new(c8(n) as nat, |k: int| (304 + k, sym8(k)))
        } else if l == 9 {
            Seq::new(c9(n) as nat, |k: int| (912 + k, 144 + k))
        } else {
            Seq::empty()
        },
    decreases n,
{
    let fl = fixed_lit_lengths();
    if n > 0 {
        lemma_lit_tier(l, n - 1);
        lemma_lit_counts(n - 1, l);
        lemma_lit_next_code();
        reveal_with_fuel(weight, 10);
        if fl[n - 1] == l {
            if l == 7 {
                assert(tier_prefix(fl, l, n) =~= Seq::new(c7(n) as nat, |k: int| (128 + k, 256 + k)));
            } else if l == 8 {
                assert(tier_prefix(fl, l, n) =~= Seq::new(c8(n) as nat, |k: int| (304 + k, sym8(k))));
            } else {
                assert(tier_prefix(fl, l, n) =~= Seq::new(c9(n) as nat, |k: int| (912 + k, 144 + k)));
            }
        } else {
            if l == 7 {
                assert(Seq::new(c7(n) as nat, |k: int| (128 + k, 256 + k)) =~= Seq::new(
                    c7(n - 1) as nat,
                    |k: int| (128 + k, 256 + k),
                ));
            } else if l == 8 {
                assert(Seq::new(c8(n) as nat, |k: int| (304 + k, sym8(k))) =~= Seq::new(
                    c8(n - 1) as nat,
                    |k: int| (304 + k, sym8(k)),
                ));
            } else if l == 9 {
                assert(Seq::new(c9(n) as nat, |k: int| (912 + k, 144 + k)) =~= Seq::new(
                    c9(n - 1) as nat,
                    |k: int| (912 + k, 144 + k),
                ));
            }
        }
    } else {
        if l == 7 {
            assert(Seq::new(c7(n) as nat, |k: int| (128 + k, 256 + k)) =~= Seq::<(int, int)>::empty());
        } else if l == 8 {
            assert(Seq::new(c8(n) as nat, |k: int| (304 + k, sym8(k))) =~= Seq::<(int, int)>::empty());
        } else if l == 9 {
            assert(Seq::new(c9(n) as nat, |k: int| (912 + k, 144 + k)) =~= Seq::<(int, int)>::empty());
        }
    }
}

proof fn lemma_lit_tiers(l: int)
    requires
        0 <= l <= 15,
    ensures
        tiers(fixed_lit_lengths(), l) == if l < 7 {
            Seq::empty()
        } else if l == 7 {
            fixed_lit_entries().subrange(0, 24)
        } else if l == 8 {
            fixed_lit_entries().subrange(0, 176)
        } else {
            fixed_lit_entries()
        },
    decreases l,
{
    if l > 0 {
        lemma_lit_tiers(l - 1);
        lemma_lit_tier(l, 288);
        let e = fixed_lit_entries();
        if l == 7 {
            assert(tiers(fixed_lit_lengths(), l) =~= e.subrange(0, 24));
        } else if l == 8 {
            assert(tiers(fixed_lit_lengths(), l) =~= e.subrange(0, 176));
        } else if l == 9 {
            assert(tiers(fixed_lit_lengths(), l) =~= e);
        } else if l > 9 {
            assert(tiers(fixed_lit_lengths(), l) =~= e);
        } else {
            assert(tiers(fixed_lit_lengths(), l) =~= Seq::<(int, int)>::empty());
        }
    }
}

proof fn lemma_dist_tier(l: int, n: int)
    requires
        1 <= l <= 15,
        0 <= n <= 32,
    ensures
        tier_prefix(fixed_dist_lengths(), l, n) == if l == 5 {
            Seq::new(n as nat, |k: int| (32 + k, k))
        } else {
            Seq::empty()
        },
    decreases n,
{
    let fd = fixed_dist_lengths();
    if n > 0 {
        lemma_dist_tier(l, n - 1);
        lemma_dist_counts(n - 1, l);
        lemma_dist_next_code();
        reveal_with_fuel(weight, 6);
        if l == 5 {
            assert(tier_prefix(fd, l, n) =~= Seq::new(n as nat, |k: int| (32 + k, k)));
        }
    } else if l == 5 {
        assert(Seq::new(n as nat, |k: int| (32 + k, k)) =~= Seq::<(int, int)>::empty());
    }
}

proof fn lemma_dist_tiers(l: int)
    requires
        0 <= l <= 15,
    ensures
        tiers(fixed_dist_lengths(), l) == if l < 5 {
            Seq::empty()
        } else {
            fixed_dist_entries()
        },
    decreases l,
{
    if l > 0 {
        lemma_dist_tiers(l - 1);
        lemma_dist_tier(l, 32);
        if l == 5 {
            assert(tiers(fixed_dist_lengths(), l) =~= fixed_dist_entries());
        } else if l > 5 {
            assert(tiers(fixed_dist_lengths(), l) =~= fixed_dist_entries());
        } else {
            assert(tiers(fixed_dist_lengths(), l) =~= Seq::<(int, int)>::empty());
        }
    }
}

/// The fixed codes are complete canonical codes, written out above.
pub proof fn lemma_fixed_codes()
    ensures
        code_of(fixed_lit_lengths()) == Ok::<Seq<(int, int)>, DeflateError>(fixed_lit_entries()),
        code_of(fixed_dist_lengths()) == Ok::<Seq<(int, int)>, DeflateError>(fixed_dist_entries()),
{
    lemma_lit_next_code();
    lemma_dist_next_code();
    reveal_with_fuel(weight, 16);
    lemma_lit_tiers(15);
    lemma_dist_tiers(15);
    assert(!over_subscribed(fixed_lit_lengths()));
    assert(!under_subscribed(fixed_lit_lengths()));
    assert(!over_subscribed(fixed_dist_lengths()));
    assert(!under_subscribed(fixed_dist_lengths()));
}

pub proof fn lemma_small_weights()
    ensures
        weight(10) == 1024,
        weight(11) == 2048,
        weight(12) == 4096,
        weight(13) == 8192,
        weight(0) == 1,
        weight(1) == 2,
        weight(2) == 4,
        weight(3) == 8,
        weight(4) == 16,
        weight(5) == 32,
        weight(6) == 64,
        weight(7) == 128,
        weight(8) == 256,
        weight(9) == 512,
{
    reveal_with_fuel(weight, 14);
}

proof fn lemma_find_absent(e: Seq<(int, int)>, c: int, i: int)
    requires
        0 <= i <= e.len(),
        forall|j: int| i <= j < e.len() ==> #[trigger] e[j].0 != c,
    ensures
        find_from(e, c, i) is None,
    decreases e.len() - i,
{
    if i < e.len() {
        lemma_find_absent(e, c, i + 1);
    }
}

proof fn lemma_find_present(e: Seq<(int, int)>, c: int, i: int, j: int)
    requires
        0 <= i <= j < e.len(),
        e[j].0 == c,
        forall|m: int| i <= m < j ==> #[trigger] e[m].0 != c,
    ensures
        find_from(e, c, i) == Some(j),
    decreases j - i,
{
    if i < j {
        lemma_find_present(e, c, i + 1, j);
    }
}

proof fn lemma_halves(v: nat, w: nat)
    requires
        w > 0,
    ensures
        2 * (v / (2 * w)) + (v / w) % 2 == v / w,
{
    vstd::arithmetic::div_mod::lemma_div_denominator(v as int, w as int, 2);
    vstd::arithmetic::div_mod::lemma_fundamental_div_mod((v / w) as int, 2);
}

/// Reading codeword `v` of `len` bits, most significant bit first, from bit
/// `p` finds the entry at `idx`, when no shorter prefix of it is a codeword.
pub proof fn lemma_decode_codeword(
    e: Seq<(int, int)>,
    data: Seq<u8>,
    p: int,
    v: nat,
    len: nat,
    idx: int,
    k: nat,
)
    requires
        1 <= len <= 15,
        k < len,
        0 <= p,
        p + len <= data.len() * 8,
        forall|j: int| 0 <= j < len ==> #[trigger] bit_at(data, p + j) == nth_bit(v, (len - 1 - j) as nat),
        forall|j: nat| j + 1 < len ==> #[trigger] find_from(e, (weight(j + 1) + v / weight((len - 1 - j) as nat)) as int, 0) is None,
        find_from(e, (weight(len) + v) as int, 0) == Some(idx),
    ensures
        huff_decode_from(e, data, p + k, k, (weight(k) + v / weight((len - k) as nat)) as int) == Ok::<(int, int), DeflateError>(
            (e[idx].1, p + len),
        ),
    decreases len - k,
{
    let w = weight((len - 1 - k) as nat);
    crate::bit_reader::lemma_weight_mono(0, (len - 1 - k) as nat);
    assert(weight(0) == 1);
    assert(weight((len - k) as nat) == 2 * w);
    lemma_halves(v, w);
    assert(bit_at(data, p + k) == nth_bit(v, (len - 1 - k) as nat));
    let acc2 = 2 * (weight(k) + v / weight((len - k) as nat)) + bit_at(data, p + k);
    assert(weight(k + 1) == 2 * weight(k));
    assert(acc2 == weight(k + 1) + v / w);
    if k + 1 < len {
        assert(find_from(e, (weight(k + 1) + v / weight((len - 1 - k) as nat)) as int, 0) is None);
        lemma_decode_codeword(e, data, p, v, len, idx, k + 1);
    } else {
        assert(len - 1 - k == 0);
        assert(w == 1);
        assert(v / 1 == v) by (nonlinear_arith);
    }
}

/// The fixed-code codeword of literal/length symbol `sym` and its length.
pub open spec fn fixed_lit_code(sym: int) -> (nat, nat) {
    if sym < 144 {
        ((48 + sym) as nat, 8)
    } else if sym < 256 {
        ((400 + sym - 144) as nat, 9)
    } else if sym < 280 {
        ((sym - 256) as nat, 7)
    } else {
        ((192 + sym - 280) as nat, 8)
    }
}

/// The bits at `p` are codeword `v` of `len` bits, most significant first.
pub open spec fn holds_code(data: Seq<u8>, p: int, v: nat, len: nat) -> bool {
    forall|j: int| 0 <= j < len ==> #[trigger] bit_at(data, p + j) == nth_bit(v, (len - 1 - j) as nat)
}

/// Decoding the fixed literal/length code where symbol `s` was written.
pub proof fn lemma_fixed_lit_symbol(data: Seq<u8>, p: int, s: int)
    requires
        0 <= s < 288,
        0 <= p,
        p + fixed_lit_code(s).1 <= data.len() * 8,
        holds_code(data, p, fixed_lit_code(s).0, fixed_lit_code(s).1),
    ensures
        huff_decode(fixed_lit_entries(), data, p) == Ok::<(int, int), DeflateError>(
            (s, p + fixed_lit_code(s).1),
        ),
{
    let e = fixed_lit_entries();
    let v = fixed_lit_code(s).0;
    let len = fixed_lit_code(s).1;
    reveal_with_fuel(weight, 10);
    let idx: int = if s < 144 {
        24 + s
    } else if s < 256 {
        s + 32
    } else if s < 280 {
        s - 256
    } else {
        s - 112
    };
    let c = (weight(len) + v) as int;
    assert(e[idx].0 == c && e[idx].1 == s);
    assert forall|m: int| 0 <= m < idx implies #[trigger] e[m].0 != c by {}
    lemma_find_present(e, c, 0, idx);
    assert forall|j: nat| j + 1 < len implies #[trigger] find_from(
        e,
        (weight(j + 1) + v / weight((len - 1 - j) as nat)) as int,
        0,
    ) is None by {
        let pv = (weight(j + 1) + v / weight((len - 1 - j) as nat)) as int;
        if j + 1 <= 6 {
            crate::bit_reader::lemma_weight_mono(j + 1, 6);
            assert(v < weight(len));
            assert(v / weight((len - 1 - j) as nat) < weight(j + 1)) by {
                crate::bit_reader::lemma_weight_add(j + 1, (len - 1 - j) as nat);
                crate::bit_reader::lemma_weight_mono(0, (len - 1 - j) as nat);
                assert(weight(len) == weight((len - 1 - j) as nat) * weight(j + 1)) by (nonlinear_arith)
                    requires
                        weight(len) == weight(j + 1) * weight((len - 1 - j) as nat),
                ;
                vstd::arithmetic::div_mod::lemma_multiply_divide_lt(
                    v as int,
                    weight((len - 1 - j) as nat) as int,
                    weight(j + 1) as int,
                );
            }
            assert(pv < 128);
        } else if j + 1 == 7 {
            lemma_small_weights();
            if len == 8 {
                assert(pv == 128 + v / 2);
            } else {
                assert(pv == 128 + v / 4);
            }
            assert(pv >= 152 && pv < 304);
        } else {
            lemma_small_weights();
            assert(j == 7 && len == 9);
            assert(pv == 256 + v / 2);
            assert(pv >= 456 && pv < 912);
        }
        assert forall|m: int| 0 <= m < e.len() implies #[trigger] e[m].0 != pv by {}
        lemma_find_absent(e, pv, 0);
    }
    lemma_small_weights();
    assert(v < weight(len));
    assert(v / weight(len) == 0) by {
        vstd::arithmetic::div_mod::lemma_basic_div(v as int, weight(len) as int);
    }
    lemma_decode_codeword(e, data, p, v, len, idx, 0);
}

/// Decoding the fixed distance code where symbol `d` was written.
pub proof fn lemma_fixed_dist_symbol(data: Seq<u8>, p: int, d: int)
    requires
        0 <= d < 32,
        0 <= p,
        p + 5 <= data.len() * 8,
        holds_code(data, p, d as nat, 5),
    ensures
        huff_decode(fixed_dist_entries(), data, p) == Ok::<(int, int), DeflateError>((d, p + 5)),
{
    let e = fixed_dist_entries();
    let v = d as nat;
    reveal_with_fuel(weight, 7);
    let c = (weight(5) + v) as int;
    assert forall|m: int| 0 <= m < d implies #[trigger] e[m].0 != c by {}
    lemma_find_present(e, c, 0, d);
    assert forall|j: nat| j + 1 < 5 implies #[trigger] find_from(
        e,
        (weight(j + 1) + v / weight((5 - 1 - j) as nat)) as int,
        0,
    ) is None by {
        let pv = (weight(j + 1) + v / weight((5 - 1 - j) as nat)) as int;
        lemma_small_weights();
        if j == 0 {
            assert(pv == 2 + v / 16);
        } else if j == 1 {
            assert(pv == 4 + v / 8);
        } else if j == 2 {
            assert(pv == 8 + v / 4);
        } else {
            assert(pv == 16 + v / 2);
        }
        assert(pv < 32);
        assert forall|m: int| 0 <= m < e.len() implies #[trigger] e[m].0 != pv by {}
        lemma_find_absent(e, pv, 0);
    }
    lemma_small_weights();
    assert(v / weight(5) == 0) by {
        vstd::arithmetic::div_mod::lemma_basic_div(v as int, weight(5) as int);
    }
    lemma_decode_codeword(e, data, p, v, 5, d, 0);
}

} // verus!
