use crate::bit_reader::{
    align_up, bit_at, bits_value, lemma_bits_value_bound, lemma_bits_value_byte,
    lemma_bits_value_of, lemma_bits_value_one, lemma_bits_value_split, weight,
};
use crate::bit_writer::{lemma_packs_unique, lsb_bits, msb_bits, nth_bit, packs, BitWriter};
use crate::byte_window::{back_ref, lemma_back_ref_len, WINDOW_SIZE};
use crate::compression::Compression;
use crate::decoder::{dist_params, length_params};
use crate::error::DeflateError;
use crate::fixed_code::{
    fixed_dist_entries, fixed_lit_code, fixed_lit_entries, lemma_fixed_codes,
    lemma_fixed_dist_symbol, lemma_fixed_lit_symbol, lemma_small_weights,
};
use crate::inflate_spec::{
    block_body, blocks, dist_base, dist_extra, huffman_symbols, inflate, lemma_blocks_step,
    lemma_huffman_symbols_step, length_base, length_distance, length_extra, stored_block,
    stored_bytes,
};
use crate::lz77::{expand, greedy_tokens, lz77_tokens, tokens_ok, Token, MAX_MATCH, MIN_MATCH};
use vstd::prelude::*;

verus! {

/// The most bytes one stored block can carry.
pub const MAX_STORED_LEN: usize = 65535;

/// How many bytes the stored block starting at input offset `start` carries.
pub open spec fn stored_chunk(n: int, start: int) -> int {
    if n - start > MAX_STORED_LEN {
        MAX_STORED_LEN as int
    } else {
        n - start
    }
}

/// The stored block that carries `data[start..]`, or as much of it as fits:
/// a header byte (final flag, type 0), `LEN` and `NLEN` little-endian, the bytes.
pub open spec fn stored_block_bytes(data: Seq<u8>, start: int) -> Seq<u8> {
    let c = stored_chunk(data.len() as int, start);
    let fin: u8 = if start + c == data.len() {
        1
    } else {
        0
    };
    seq![
        fin,
        (c % 256) as u8,
        (c / 256) as u8,
        (255 - c % 256) as u8,
        (255 - c / 256) as u8,
    ] + data.subrange(start, start + c)
}

/// `data[start..]` as a sequence of stored blocks, the last marked final.
pub open spec fn stored_encoding(data: Seq<u8>, start: int) -> Seq<u8>
    decreases data.len() - start,
{
    let c = stored_chunk(data.len() as int, start);
    if start + c >= data.len() || c <= 0 {
        stored_block_bytes(data, start)
    } else {
        stored_block_bytes(data, start) + stored_encoding(data, start + c)
    }
}

#[verifier::spinoff_prover]
#[verifier::rlimit(40)]
proof fn lemma_stored_decodes(enc: Seq<u8>, off: int, data: Seq<u8>, start: int)
    requires
        0 <= start <= data.len(),
        0 <= off <= enc.len(),
        enc.subrange(off, enc.len() as int) == stored_encoding(data, start),
    ensures
        blocks(enc, 8 * off, data.subrange(0, start)) == Ok::<Seq<u8>, DeflateError>(data),
    decreases data.len() - start,
{
    let c = stored_chunk(data.len() as int, start);
    let fin: u8 = if start + c == data.len() {
        1
    } else {
        0
    };
    let hdr = seq![
        fin,
        (c % 256) as u8,
        (c / 256) as u8,
        (255 - c % 256) as u8,
        (255 - c / 256) as u8,
    ];
    let blk = stored_block_bytes(data, start);
    assert(blk == hdr + data.subrange(start, start + c));
    assert(blk[0] == fin && blk[1] == (c % 256) as u8 && blk[2] == (c / 256) as u8);
    assert(blk[3] == (255 - c % 256) as u8 && blk[4] == (255 - c / 256) as u8);
    assert forall|i: int| 0 <= i < c implies #[trigger] blk[5 + i] == data[start + i] by {
        assert(blk[5 + i] == data.subrange(start, start + c)[i]);
    }
    let rest = enc.subrange(off, enc.len() as int);
    assert(c >= 0 && c <= 65535);
    if start + c < data.len() && c > 0 {
        assert(rest == blk + stored_encoding(data, start + c));
    } else {
        assert(rest == blk);
    }
    assert(rest.subrange(0, blk.len() as int) == blk);
    assert forall|t: int| 0 <= t < blk.len() implies enc[off + t] == #[trigger] blk[t] by {
        assert(rest[t] == enc[off + t]);
    }
    let pre = data.subrange(0, start);
    let p = 8 * off;
    lemma_blocks_step(enc, p, pre);
    // The header byte: final flag, then block type 0.
    let h = enc[off];
    lemma_bits_value_byte(enc, off);
    lemma_bits_value_split(enc, p, 1, 7);
    lemma_bits_value_split(enc, p + 1, 2, 5);
    lemma_bits_value_bound(enc, p, 1);
    reveal_with_fuel(weight, 17);
    assert(h == fin);
    assert(weight(1) == 2 && weight(2) == 4);
    assert(bits_value(enc, p, 8) == bits_value(enc, p, 1) + 2 * bits_value(enc, p + 1, 7));
    assert(bits_value(enc, p + 1, 7) == bits_value(enc, p + 1, 2) + 4 * bits_value(enc, p + 3, 5));
    assert(bits_value(enc, p, 1) < 2);
    assert(bits_value(enc, p, 8) == h as nat);
    assert(bits_value(enc, p, 1) == fin as nat);
    assert(bits_value(enc, p + 1, 2) == 0);
    // The stored block body.
    let a = p + 8;
    assert(align_up(p + 3) == a);
    lemma_bits_value_split(enc, a, 8, 8);
    lemma_bits_value_byte(enc, off + 1);
    lemma_bits_value_byte(enc, off + 2);
    lemma_bits_value_split(enc, a + 16, 8, 8);
    lemma_bits_value_byte(enc, off + 3);
    lemma_bits_value_byte(enc, off + 4);
    assert(8 * (off + 1) == a && 8 * (off + 2) == a + 8);
    assert(8 * (off + 3) == a + 16 && 8 * (off + 4) == a + 24);
    assert(enc[off + 1] as int == c % 256 && enc[off + 2] as int == c / 256);
    assert(enc[off + 3] as int == 255 - c % 256 && enc[off + 4] as int == 255 - c / 256);
    assert(bits_value(enc, a, 16) == enc[off + 1] as int + 256 * enc[off + 2] as int);
    assert(c == c % 256 + 256 * (c / 256)) by (nonlinear_arith)
        requires
            c >= 0,
    ;
    assert(bits_value(enc, a, 16) == c);
    assert(bits_value(enc, a + 16, 16) == enc[off + 3] as int + 256 * enc[off + 4] as int);
    assert(bits_value(enc, a + 16, 16) == 65535 - c);
    let body = stored_bytes(enc, a + 32, c as nat);
    assert forall|i: int| 0 <= i < c implies #[trigger] body[i] == data[start + i] by {
        lemma_bits_value_byte(enc, off + 5 + i);
        assert(8 * (off + 5 + i) == a + 32 + 8 * i);
        assert(enc[off + 5 + i] == blk[5 + i]);
    }
    assert(pre + body =~= data.subrange(0, start + c));
    assert(stored_block(enc, p + 3, pre) == Ok::<(int, Seq<u8>), DeflateError>(
        (8 * (off + 5 + c), data.subrange(0, start + c)),
    ));
    assert(block_body(enc, p + 3, 0, pre) == stored_block(enc, p + 3, pre));
    if start + c >= data.len() || c <= 0 {
        assert(data.subrange(0, start + c) =~= data);
    } else {
        let off2 = off + 5 + c;
        assert(enc.subrange(off2, enc.len() as int) =~= rest.subrange(
            blk.len() as int,
            rest.len() as int,
        ));
        assert(rest.subrange(blk.len() as int, rest.len() as int) =~= stored_encoding(
            data,
            start + c,
        ));
        lemma_stored_decodes(enc, off2, data, start + c);
    }
}

/// Decompressing the stored-block encoding of some bytes gives them back.
pub proof fn lemma_stored_round_trip(data: Seq<u8>)
    ensures
        inflate(stored_encoding(data, 0)) == Ok::<Seq<u8>, DeflateError>(data),
{
    let enc = stored_encoding(data, 0);
    assert(enc.subrange(0, enc.len() as int) =~= enc);
    assert(data.subrange(0, 0) =~= Seq::<u8>::empty());
    lemma_stored_decodes(enc, 0, data, 0);
}

/// The bits of symbol `sym` in the fixed literal/length code.
pub open spec fn lit_bits(sym: int) -> Seq<u8> {
    msb_bits(fixed_lit_code(sym).0, fixed_lit_code(sym).1)
}

/// The length symbol (less 257) whose range holds length `l`, searching from `i`.
pub open spec fn len_sym_from(l: int, i: int) -> int
    decreases 28 - i,
{
    if i >= 28 || length_base(i + 1) > l {
        i
    } else {
        len_sym_from(l, i + 1)
    }
}

/// The distance symbol whose range holds distance `d`, searching from `j`.
pub open spec fn dist_sym_from(d: int, j: int) -> int
    decreases 29 - j,
{
    if j >= 29 || dist_base(j + 1) > d {
        j
    } else {
        dist_sym_from(d, j + 1)
    }
}

/// The bits of one token in a fixed-Huffman block.
#[verifier::opaque]
pub open spec fn token_bits(t: Token) -> Seq<u8> {
    match t {
        Token::Literal(b) => lit_bits(b as int),
        Token::Match(l, d) => {
            let i = len_sym_from(l as int, 0);
            let j = dist_sym_from(d as int, 0);
            lit_bits(257 + i) + lsb_bits((l - length_base(i)) as nat, length_extra(i)) + msb_bits(
                j as nat,
                5,
            ) + lsb_bits((d - dist_base(j)) as nat, dist_extra(j))
        },
    }
}

/// The bits of the tokens, one after another.
#[verifier::opaque]
pub open spec fn tokens_bits(ts: Seq<Token>) -> Seq<u8>
    decreases ts.len(),
{
    if ts.len() == 0 {
        Seq::empty()
    } else {
        tokens_bits(ts.drop_last()) + token_bits(ts.last())
    }
}

/// One final fixed-Huffman block holding the tokens, then end-of-block.
pub open spec fn fixed_stream_bits(ts: Seq<Token>) -> Seq<u8> {
    seq![1u8, 1u8, 0u8] + tokens_bits(ts) + lit_bits(256)
}

proof fn lemma_tokens_len(ts: Seq<Token>)
    requires
        tokens_ok(ts),
    ensures
        ts.len() <= expand(ts).len(),
    decreases ts.len(),
{
    if ts.len() > 0 {
        let pre = ts.drop_last();
        assert forall|i: int| 0 <= i < pre.len() implies match #[trigger] pre[i] {
            Token::Literal(_) => true,
            Token::Match(l, d) => MIN_MATCH <= l <= MAX_MATCH && 1 <= d <= crate::byte_window::WINDOW_SIZE
                && d <= expand(pre.subrange(0, i)).len(),
        } by {
            assert(pre.subrange(0, i) =~= ts.subrange(0, i));
            assert(pre[i] == ts[i]);
        }
        lemma_tokens_len(pre);
        assert(ts[ts.len() - 1] == ts.last());
        match ts.last() {
            Token::Literal(_) => {},
            Token::Match(l, d) => {
                lemma_back_ref_len(expand(ts.drop_last()), d as int, l as nat);
            },
        }
    }
}

/// Following the search from `i` keeps the base at most `l`, and stops at the
/// last symbol or before one whose base exceeds `l`.
proof fn lemma_len_sym_from(l: int, i: int)
    requires
        0 <= i <= 28,
        length_base(i) <= l,
    ensures
        0 <= len_sym_from(l, i) <= 28,
        length_base(len_sym_from(l, i)) <= l,
        len_sym_from(l, i) == 28 || length_base(len_sym_from(l, i) + 1) > l,
    decreases 28 - i,
{
    if i < 28 && length_base(i + 1) <= l {
        lemma_len_sym_from(l, i + 1);
    }
}

proof fn lemma_dist_sym_from(d: int, j: int)
    requires
        0 <= j <= 29,
        dist_base(j) <= d,
    ensures
        0 <= dist_sym_from(d, j) <= 29,
        dist_base(dist_sym_from(d, j)) <= d,
        dist_sym_from(d, j) == 29 || dist_base(dist_sym_from(d, j) + 1) > d,
    decreases 29 - j,
{
    if j < 29 && dist_base(j + 1) <= d {
        lemma_dist_sym_from(d, j + 1);
    }
}

/// Each length symbol's range reaches the next symbol's base.
proof fn lemma_length_ranges(i: int)
    requires
        0 <= i < 28,
    ensures
        length_base(i + 1) <= length_base(i) + weight(length_extra(i)),
        length_extra(i) <= 5,
{
    lemma_small_weights();
    if 8 <= i < 27 {
        let e = length_extra(i);
        let w = weight(e);
        let r = i % 4;
        assert(e == (i - 4) / 4 && e <= 5);
        assert(length_base(i) == (4 + r) * w + 3);
        if r == 3 {
            assert(length_extra(i + 1) == e + 1);
            assert(weight(e + 1) == 2 * w);
            assert((i + 1) % 4 == 0);
            assert(length_base(i + 1) == 4 * (2 * w) + 3);
            assert((4 + 3) * w + 3 + w == 4 * (2 * w) + 3) by (nonlinear_arith);
        } else {
            assert(length_extra(i + 1) == e);
            assert((i + 1) % 4 == r + 1);
            assert(length_base(i + 1) == (4 + r + 1) * w + 3);
            assert((4 + r + 1) * w + 3 == (4 + r) * w + 3 + w) by (nonlinear_arith);
        }
    } else if i == 27 {
        assert(length_extra(27int) == 5);
        assert(length_base(27int) == 227) by {
            assert(27int % 4 == 3);
        }
    } else if i == 7 {
        assert(length_base(8int) == 11) by {
            assert(8int % 4 == 0);
            assert(length_extra(8int) == 1);
        }
    }
}

/// Each distance symbol's range reaches the next symbol's base.
proof fn lemma_distance_ranges(j: int)
    requires
        0 <= j < 29,
    ensures
        dist_base(j + 1) == dist_base(j) + weight(dist_extra(j)),
        dist_extra(j) <= 13,
{
    lemma_small_weights();
    if j >= 4 {
        let e = dist_extra(j);
        let w = weight(e);
        let r = j % 2;
        assert(e == j / 2 - 1 && e <= 13);
        assert(dist_base(j) == (2 + r) * w + 1);
        if r == 1 {
            assert(dist_extra(j + 1) == e + 1);
            assert(weight(e + 1) == 2 * w);
            assert((j + 1) % 2 == 0);
            assert(dist_base(j + 1) == 2 * (2 * w) + 1);
            assert((2 + 1) * w + 1 + w == 2 * (2 * w) + 1) by (nonlinear_arith);
        } else {
            assert(dist_extra(j + 1) == e);
            assert((j + 1) % 2 == 1);
            assert(dist_base(j + 1) == (2 + 1) * w + 1);
            assert((2 + 1) * w + 1 == (2 + 0) * w + 1 + w) by (nonlinear_arith);
        }
    } else if j == 3 {
        assert(dist_base(4int) == 5) by {
            assert(4int % 2 == 0);
            assert(dist_extra(4int) == 1);
        }
    }
}

/// The length symbol of `l` and the extra value that `l` leaves over its base.
proof fn lemma_length_code(l: int)
    requires
        3 <= l <= 258,
    ensures
        0 <= len_sym_from(l, 0) <= 28,
        length_base(len_sym_from(l, 0)) <= l,
        l - length_base(len_sym_from(l, 0)) < weight(length_extra(len_sym_from(l, 0))),
        length_extra(len_sym_from(l, 0)) <= 5,
{
    lemma_small_weights();
    lemma_len_sym_from(l, 0);
    let i = len_sym_from(l, 0);
    if i < 28 {
        lemma_length_ranges(i);
    }
}

/// The distance symbol of `d` and the extra value that `d` leaves over its base.
proof fn lemma_distance_code(d: int)
    requires
        1 <= d <= 32768,
    ensures
        0 <= dist_sym_from(d, 0) <= 29,
        dist_base(dist_sym_from(d, 0)) <= d,
        d - dist_base(dist_sym_from(d, 0)) < weight(dist_extra(dist_sym_from(d, 0))),
        dist_extra(dist_sym_from(d, 0)) <= 13,
{
    lemma_small_weights();
    lemma_dist_sym_from(d, 0);
    let j = dist_sym_from(d, 0);
    if j < 29 {
        lemma_distance_ranges(j);
    } else {
        assert(dist_base(29int) == 24577) by {
            assert(29int % 2 == 1);
            assert(dist_extra(29int) == 13);
            assert(weight(13) == 8192);
            assert((2 + 1) * 8192 + 1 == 24577);
        }
    }
}

fn fixed_lit_code_of(sym: u16) -> (r: (u32, u8))
    requires
        sym < 288,
    ensures
        r.0 as nat == fixed_lit_code(sym as int).0,
        r.1 as nat == fixed_lit_code(sym as int).1,
        7 <= r.1 <= 9,
{
    if sym < 144 {
        (48 + sym as u32, 8)
    } else if sym < 256 {
        (400 + sym as u32 - 144, 9)
    } else if sym < 280 {
        (sym as u32 - 256, 7)
    } else {
        (192 + sym as u32 - 280, 8)
    }
}

fn write_symbol(w: &mut BitWriter, sym: u16)
    requires
        old(w).wf(),
        sym < 288,
        old(w)@.len() + 9 <= usize::MAX,
    ensures
        final(w).wf(),
        final(w)@ == old(w)@ + lit_bits(sym as int),
{
    let (code, len) = fixed_lit_code_of(sym);
    w.write_code(code, len);
}

/// The length symbol, less 257, of a match length.
fn length_symbol(l: u16) -> (r: u16)
    requires
        MIN_MATCH <= l <= MAX_MATCH,
    ensures
        r as int == len_sym_from(l as int, 0),
        r <= 28,
        length_base(r as int) <= l,
{
    let mut i: u16 = 0;
    while i < 28 && length_params(i + 1).0 <= l as u32
        invariant
            i <= 28,
            len_sym_from(l as int, 0) == len_sym_from(l as int, i as int),
            length_base(i as int) <= l,
        decreases 28 - i,
    {
        i = i + 1;
    }
    i
}

/// The distance symbol of a match distance.
fn distance_symbol(d: u16) -> (r: u16)
    requires
        1 <= d,
    ensures
        r as int == dist_sym_from(d as int, 0),
        r <= 29,
        dist_base(r as int) <= d,
{
    let mut j: u16 = 0;
    while j < 29 && dist_params(j + 1).0 <= d as u32
        invariant
            j <= 29,
            dist_sym_from(d as int, 0) == dist_sym_from(d as int, j as int),
            dist_base(j as int) <= d,
        decreases 29 - j,
    {
        j = j + 1;
    }
    j
}

fn write_token(w: &mut BitWriter, t: Token)
    requires
        old(w).wf(),
        old(w)@.len() + 40 <= usize::MAX,
        t matches Token::Match(l, d) ==> MIN_MATCH <= l <= MAX_MATCH && 1 <= d,
    ensures
        final(w).wf(),
        final(w)@ == old(w)@ + token_bits(t),
        final(w)@.len() <= old(w)@.len() + 40,
{
    match t {
        Token::Literal(b) => {
            write_symbol(w, b as u16);
            proof {
                reveal(token_bits);
            }
        },
        Token::Match(l, d) => {
            let i = length_symbol(l);
            let (lbase, lextra) = length_params(i);
            let j = distance_symbol(d);
            let (dbase, dextra) = dist_params(j);
            write_symbol(w, 257 + i);
            w.write_bits(l as u32 - lbase, lextra);
            w.write_code(j as u32, 5);
            w.write_bits(d as u32 - dbase, dextra);
            proof {
                reveal(token_bits);
            }
            assert(w@ =~= old(w)@ + token_bits(t));
        },
    }
}

/// The tokens as one final fixed-Huffman block.
#[verifier::spinoff_prover]
fn write_fixed_block(ts: &Vec<Token>) -> (r: Vec<u8>)
    requires
        ts@.len() <= usize::MAX / 64,
        tokens_ok(ts@),
    ensures
        packs(r@, fixed_stream_bits(ts@)),
{
    let mut w = BitWriter::new();
    w.write_bit(1);
    w.write_bit(1);
    w.write_bit(0);
    proof {
        reveal(tokens_bits);
        assert(tokens_bits(ts@.subrange(0, 0)) == Seq::<u8>::empty());
    }
    assert(w@ =~= seq![1u8, 1u8, 0u8] + tokens_bits(ts@.subrange(0, 0)));
    let mut i: usize = 0;
    while i < ts.len()
        invariant
            w.wf(),
            i <= ts@.len() <= usize::MAX / 64,
            tokens_ok(ts@),
            w@ == seq![1u8, 1u8, 0u8] + tokens_bits(ts@.subrange(0, i as int)),
            w@.len() <= 3 + 40 * i,
        decreases ts@.len() - i,
    {
        let t = ts[i];
        assert(ts@[i as int] == t);
        let ghost before = w@;
        write_token(&mut w, t);
        proof {
            let s1 = ts@.subrange(0, i + 1);
            assert(s1.drop_last() =~= ts@.subrange(0, i as int));
            assert(s1.last() == t);
            reveal_with_fuel(tokens_bits, 1);
            assert(tokens_bits(s1) == tokens_bits(ts@.subrange(0, i as int)) + token_bits(t));
            assert(w@ =~= seq![1u8, 1u8, 0u8] + tokens_bits(s1));
        }
        i = i + 1;
    }
    write_symbol(&mut w, 256);
    assert(ts@.subrange(0, ts@.len() as int) =~= ts@);
    w.finish()
}

proof fn lemma_tokens_bits_step(ts: Seq<Token>, k: int)
    requires
        0 <= k < ts.len(),
    ensures
        tokens_bits(ts.subrange(0, k + 1)) == tokens_bits(ts.subrange(0, k)) + token_bits(ts[k]),
{
    let s1 = ts.subrange(0, k + 1);
    assert(s1.drop_last() =~= ts.subrange(0, k));
    assert(s1.last() == ts[k]);
    reveal_with_fuel(tokens_bits, 1);
}

/// The bits of the first `k` tokens begin the bits of the first `m`.
proof fn lemma_tokens_bits_prefix(ts: Seq<Token>, k: int, m: int)
    requires
        0 <= k <= m <= ts.len(),
    ensures
        tokens_bits(ts.subrange(0, k)).len() <= tokens_bits(ts.subrange(0, m)).len(),
        tokens_bits(ts.subrange(0, m)).subrange(0, tokens_bits(ts.subrange(0, k)).len() as int)
            == tokens_bits(ts.subrange(0, k)),
    decreases m - k,
{
    if k < m {
        lemma_tokens_bits_prefix(ts, k, m - 1);
        lemma_tokens_bits_step(ts, m - 1);
        let a = tokens_bits(ts.subrange(0, k));
        let b = tokens_bits(ts.subrange(0, m - 1));
        assert((b + token_bits(ts[m - 1])).subrange(0, a.len() as int) =~= b.subrange(
            0,
            a.len() as int,
        ));
    } else {
        let a = tokens_bits(ts.subrange(0, k));
        assert(a.subrange(0, a.len() as int) =~= a);
    }
}

proof fn lemma_expand_step(ts: Seq<Token>, k: int)
    requires
        0 <= k < ts.len(),
    ensures
        expand(ts.subrange(0, k + 1)) == match ts[k] {
            Token::Literal(b) => expand(ts.subrange(0, k)).push(b),
            Token::Match(l, d) => expand(ts.subrange(0, k)) + back_ref(
                expand(ts.subrange(0, k)),
                d as int,
                l as nat,
            ),
        },
{
    let s1 = ts.subrange(0, k + 1);
    assert(s1.drop_last() =~= ts.subrange(0, k));
    assert(s1.last() == ts[k]);
}

proof fn lemma_small_mod(v: nat, w: nat)
    requires
        v < w,
    ensures
        v % w == v,
{
    vstd::arithmetic::div_mod::lemma_small_mod(v, w);
}

/// Decoding the symbols of a fixed-Huffman block from the `k`-th token on.
proof fn lemma_fixed_symbols(ts: Seq<Token>, bytes: Seq<u8>, k: int)
    requires
        tokens_ok(ts),
        packs(bytes, fixed_stream_bits(ts)),
        0 <= k <= ts.len(),
    ensures
        huffman_symbols(
            fixed_lit_entries(),
            fixed_dist_entries(),
            bytes,
            3 + tokens_bits(ts.subrange(0, k)).len() as int,
            expand(ts.subrange(0, k)),
        ) == Ok::<(int, Seq<u8>), DeflateError>((3 + tokens_bits(ts).len() as int + 7, expand(ts))),
    decreases ts.len() - k,
{
    let e = fixed_lit_entries();
    let dd = fixed_dist_entries();
    let bits = fixed_stream_bits(ts);
    let tb = tokens_bits(ts);
    let n = ts.len() as int;
    assert(ts.subrange(0, n) =~= ts);
    let pk: int = 3 + tokens_bits(ts.subrange(0, k)).len() as int;
    let out = expand(ts.subrange(0, k));
    assert(bytes.len() * 8 >= bits.len());
    assert forall|i: int| 0 <= i < bits.len() implies #[trigger] bit_at(bytes, i) == bits[i] by {}
    lemma_huffman_symbols_step(e, dd, bytes, pk, out);
    lemma_tokens_bits_prefix(ts, k, n);
    if k == n {
        // The end-of-block codeword.
        lemma_small_weights();
        assert(fixed_lit_code(256) == (0nat, 7nat));
        assert forall|j: int| 0 <= j < 7 implies #[trigger] bit_at(bytes, pk + j) == nth_bit(
            0,
            (7 - 1 - j) as nat,
        ) by {
            assert(bits[pk + j] == lit_bits(256)[j]);
        }
        lemma_fixed_lit_symbol(bytes, pk, 256);
    } else {
        let t = ts[k];
        lemma_tokens_bits_step(ts, k);
        lemma_tokens_bits_prefix(ts, k + 1, n);
        lemma_expand_step(ts, k);
        let tk = token_bits(t);
        let pk1: int = 3 + tokens_bits(ts.subrange(0, k + 1)).len() as int;
        assert(pk1 == pk + tk.len());
        assert forall|j: int| 0 <= j < tk.len() implies #[trigger] bit_at(bytes, pk + j) == tk[j] by {
            let pre = tokens_bits(ts.subrange(0, k + 1));
            assert(pre[pk - 3 + j] == tk[j]);
            assert(tb[pk - 3 + j] == pre[pk - 3 + j]);
            assert(bits[pk + j] == tb[pk - 3 + j]);
        }
        lemma_fixed_symbols(ts, bytes, k + 1);
        reveal(token_bits);
        match t {
            Token::Literal(b) => {
                let v = fixed_lit_code(b as int).0;
                let len = fixed_lit_code(b as int).1;
                assert(tk == msb_bits(v, len));
                assert forall|j: int| 0 <= j < len implies #[trigger] bit_at(bytes, pk + j) == nth_bit(
                    v,
                    (len - 1 - j) as nat,
                ) by {
                    assert(bit_at(bytes, pk + j) == tk[j]);
                }
                lemma_fixed_lit_symbol(bytes, pk, b as int);
            },
            Token::Match(l, d) => {
                assert(match ts[k] {
                    Token::Literal(_) => true,
                    Token::Match(l, d) => MIN_MATCH <= l <= MAX_MATCH && 1 <= d <= WINDOW_SIZE && d
                        <= expand(ts.subrange(0, k)).len(),
                });
                lemma_length_code(l as int);
                lemma_distance_code(d as int);
                let i = len_sym_from(l as int, 0);
                let jj = dist_sym_from(d as int, 0);
                let s1 = lit_bits(257 + i);
                let lv = (l - length_base(i)) as nat;
                let le = length_extra(i);
                let s2 = lsb_bits(lv, le);
                let s3 = msb_bits(jj as nat, 5);
                let dv = (d - dist_base(jj)) as nat;
                let de = dist_extra(jj);
                let s4 = lsb_bits(dv, de);
                assert(tk == s1 + s2 + s3 + s4);
                let l1 = fixed_lit_code(257 + i).1;
                let a1: int = pk + l1;
                let a2: int = a1 + le;
                let a3: int = a2 + 5;
                let a4: int = a3 + de;
                assert(a4 == pk1);
                assert forall|j: int| 0 <= j < l1 implies #[trigger] bit_at(bytes, pk + j) == nth_bit(
                    fixed_lit_code(257 + i).0,
                    (l1 - 1 - j) as nat,
                ) by {
                    assert(bit_at(bytes, pk + j) == tk[j]);
                    assert(tk[j] == s1[j]);
                }
                lemma_fixed_lit_symbol(bytes, pk, 257 + i);
                assert forall|j: int| 0 <= j < le implies #[trigger] bit_at(bytes, a1 + j) as nat == (lv
                    / weight(j as nat)) % 2 by {
                    assert(bit_at(bytes, pk + (l1 + j)) == tk[l1 + j]);
                    assert(tk[l1 + j] == s2[j]);
                }
                lemma_bits_value_of(bytes, a1, lv, le);
                lemma_small_mod(lv, weight(le));
                assert forall|j: int| 0 <= j < 5 implies #[trigger] bit_at(bytes, a2 + j) == nth_bit(
                    jj as nat,
                    (5 - 1 - j) as nat,
                ) by {
                    assert(bit_at(bytes, pk + (l1 + le + j)) == tk[l1 + le + j]);
                    assert(tk[l1 + le + j] == s3[j]);
                }
                lemma_fixed_dist_symbol(bytes, a2, jj);
                assert forall|j: int| 0 <= j < de implies #[trigger] bit_at(bytes, a3 + j) as nat == (dv
                    / weight(j as nat)) % 2 by {
                    assert(bit_at(bytes, pk + (l1 + le + 5 + j)) == tk[l1 + le + 5 + j]);
                    assert(tk[l1 + le + 5 + j] == s4[j]);
                }
                lemma_bits_value_of(bytes, a3, dv, de);
                lemma_small_mod(dv, weight(de));
                assert(length_distance(dd, bytes, a1, 257 + i) == Ok::<(int, int, int), DeflateError>(
                    (l as int, d as int, a4),
                ));
            },
        }
    }
}

/// A final fixed-Huffman block of valid tokens inflates to the bytes the
/// tokens stand for.
pub proof fn lemma_fixed_round_trip(ts: Seq<Token>, bytes: Seq<u8>)
    requires
        tokens_ok(ts),
        packs(bytes, fixed_stream_bits(ts)),
    ensures
        inflate(bytes) == Ok::<Seq<u8>, DeflateError>(expand(ts)),
{
    let bits = fixed_stream_bits(ts);
    let hdr = seq![1u8, 1u8, 0u8];
    assert(bits == hdr + tokens_bits(ts) + lit_bits(256));
    assert(bits[0] == 1u8 && bits[1] == 1u8 && bits[2] == 0u8) by {
        assert(bits[0] == hdr[0] && bits[1] == hdr[1] && bits[2] == hdr[2]);
    }
    assert forall|i: int| 0 <= i < bits.len() implies #[trigger] bit_at(bytes, i) == bits[i] by {}
    lemma_blocks_step(bytes, 0, Seq::empty());
    lemma_bits_value_one(bytes, 0);
    lemma_small_weights();
    assert forall|j: int| 0 <= j < 2 implies #[trigger] bit_at(bytes, 1 + j) as nat == (1nat / weight(
        j as nat,
    )) % 2 by {
        assert(bit_at(bytes, 1 + j) == bits[1 + j]);
        if j == 0 {
            assert(1nat / 1 == 1) by (nonlinear_arith);
        } else {
            assert(1nat / 2 == 0) by (nonlinear_arith);
        }
    }
    lemma_bits_value_of(bytes, 1, 1, 2);
    lemma_fixed_codes();
    assert(ts.subrange(0, 0) =~= Seq::<Token>::empty());
    reveal_with_fuel(tokens_bits, 1);
    lemma_fixed_symbols(ts, bytes, 0);
}

/// The bytes of one final fixed-Huffman block over the greedy parse of `data`.
pub open spec fn fixed_encoding(data: Seq<u8>) -> Seq<u8> {
    choose|b: Seq<u8>| packs(b, fixed_stream_bits(greedy_tokens(data)))
}

/// Every output the encoder may give for `data` (its stored blocks, or a
/// fixed-Huffman block over any valid parse of `data`) decompresses to `data`.
pub proof fn lemma_encoder_round_trip(data: Seq<u8>, ts: Seq<Token>, bytes: Seq<u8>)
    requires
        bytes == stored_encoding(data, 0) || (expand(ts) == data && tokens_ok(ts) && packs(
            bytes,
            fixed_stream_bits(ts),
        )),
    ensures
        inflate(bytes) == Ok::<Seq<u8>, DeflateError>(data),
{
    if bytes == stored_encoding(data, 0) {
        lemma_stored_round_trip(data);
    } else {
        lemma_fixed_round_trip(ts, bytes);
    }
}

/// An encoder of one byte sequence into a raw DEFLATE stream.
#[derive(Debug)]
pub struct Encoder {
    compression: Compression,
    data: Vec<u8>,
}

impl Encoder {
    /// The bytes to compress.
    pub closed spec fn input(&self) -> Seq<u8> {
        self.data@
    }

    pub closed spec fn level(&self) -> u8 {
        self.compression.0
    }

    pub fn new(data_source: Vec<u8>, compression: Compression) -> (r: Self)
        ensures
            r.input() == data_source@,
            r.level() == compression.0,
    {
        Encoder { compression, data: data_source }
    }

    /// Encodes the input. At level 0 (and for inputs too large to count their
    /// bits) the output is stored blocks; at other levels it is one final
    /// fixed-Huffman block over the greedy LZ77 parse of the whole window.
    pub fn encode(&self) -> (r: Result<Vec<u8>, DeflateError>)
        ensures
            r is Ok,
            inflate(r->Ok_0@) == Ok::<Seq<u8>, DeflateError>(self.input()),
            self.level() == 0 || self.input().len() > usize::MAX / 64 ==> {
                &&& r->Ok_0@ == stored_encoding(self.input(), 0)
                &&& inflate(r->Ok_0@) == Ok::<Seq<u8>, DeflateError>(self.input())
            },
            self.level() != 0 && self.input().len() <= usize::MAX / 64 ==> {
                &&& r->Ok_0@ == fixed_encoding(self.input())
                &&& packs(r->Ok_0@, fixed_stream_bits(greedy_tokens(self.input())))
            },
    {
        if self.compression.0 == 0 || self.data.len() > usize::MAX / 64 {
            Ok(self.encode_stored())
        } else {
            let tokens = lz77_tokens(self.data.as_slice());
            proof {
                lemma_tokens_len(tokens@);
            }
            let out = write_fixed_block(&tokens);
            proof {
                lemma_fixed_round_trip(tokens@, out@);
                let bits = fixed_stream_bits(greedy_tokens(self.data@));
                assert(packs(out@, bits));
                let c = choose|b: Seq<u8>| packs(b, bits);
                lemma_packs_unique(out@, c, bits);
            }
            Ok(out)
        }
    }

    fn encode_stored(&self) -> (r: Vec<u8>)
        ensures
            r@ == stored_encoding(self.input(), 0),
            inflate(r@) == Ok::<Seq<u8>, DeflateError>(self.input()),
    {
        let ghost data = self.data@;
        let n = self.data.len();
        let mut out: Vec<u8> = Vec::new();
        let mut start: usize = 0;
        let mut done = false;
        while !done
            invariant
                data == self.data@,
                n == data.len(),
                start <= n,
                !done ==> out@ + stored_encoding(data, start as int) == stored_encoding(data, 0),
                done ==> out@ == stored_encoding(data, 0),
            decreases
                if done {
                    0int
                } else {
                    1int
                },
                n - start,
        {
            let c: usize = if n - start > MAX_STORED_LEN {
                MAX_STORED_LEN
            } else {
                n - start
            };
            let fin = start + c == n;
            let ghost before = out@;
            out.push(if fin {
                1u8
            } else {
                0u8
            });
            out.push((c % 256) as u8);
            out.push((c / 256) as u8);
            out.push((255 - c % 256) as u8);
            out.push((255 - c / 256) as u8);
            let mut i: usize = start;
            while i < start + c
                invariant
                    start <= i <= start + c <= n,
                    n == data.len(),
                    data == self.data@,
                    out@ == before + stored_block_bytes(data, start as int).subrange(
                        0,
                        5 + i - start,
                    ),
                    stored_block_bytes(data, start as int).len() == 5 + c,
                decreases start + c - i,
            {
                out.push(self.data[i]);
                i = i + 1;
                assert(out@ =~= before + stored_block_bytes(data, start as int).subrange(
                    0,
                    5 + i - start,
                ));
            }
            let ghost blk = stored_block_bytes(data, start as int);
            assert(blk.subrange(0, blk.len() as int) =~= blk);
            if fin {
                assert(stored_encoding(data, start as int) == blk);
                done = true;
            } else {
                assert(stored_encoding(data, start as int) == blk + stored_encoding(
                    data,
                    (start + c) as int,
                ));
                assert(out@ + stored_encoding(data, (start + c) as int) =~= before + (blk
                    + stored_encoding(data, (start + c) as int)));
            }
            start = start + c;
        }
        proof {
            lemma_stored_round_trip(data);
        }
        out
    }
}

} // verus!
