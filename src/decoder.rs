use crate::bit_reader::{bits_value, lemma_bits_value_bound, lemma_weight_mono, weight, BitIter};
use crate::byte_window::{
    back_ref, keep_last, lemma_back_ref_suffix, lemma_keep_last_concat, lemma_keep_last_push,
    lemma_keep_last_suffix, ByteWindow, WINDOW_SIZE,
};
use crate::canonical_code::CanonicalCode;
use crate::error::DeflateError;
use crate::fixed_code::{fixed_dist_entries, fixed_lit_entries, lemma_fixed_codes};
use crate::inflate_spec::{
    block_body, blocks, clen_lengths, clen_order, code_lengths, code_of, dist_base, dist_code_of,
    dist_extra,
    dynamic_codes, fixed_dist_lengths, fixed_lit_lengths, huffman_symbols, inflate,
    lemma_blocks_step, lemma_code_lengths_step, lemma_huffman_symbols_step, length_base,
    length_distance, length_extra, stored_block, stored_bytes,
};
use vstd::prelude::*;

verus! {

/// `2^n` for small `n`.
pub(crate) fn weight_u32(n: u8) -> (r: u32)
    requires
        n <= 16,
    ensures
        r == weight(n as nat),
{
    let mut r: u32 = 1;
    let mut i: u8 = 0;
    proof {
        reveal_with_fuel(weight, 17);
    }
    while i < n
        invariant
            i <= n <= 16,
            r == weight(i as nat),
            weight(16) == 0x1_0000,
        decreases n - i,
    {
        proof {
            lemma_weight_mono((i + 1) as nat, 16);
        }
        r = r * 2;
        i = i + 1;
    }
    r
}

/// Base length and extra-bit count of length symbol `257 + i`.
pub(crate) fn length_params(i: u16) -> (r: (u32, u8))
    requires
        i <= 28,
    ensures
        r.0 == length_base(i as int),
        r.1 == length_extra(i as int),
        r.0 <= 258,
        r.1 <= 5,
{
    if i < 8 {
        (i as u32 + 3, 0)
    } else if i == 28 {
        (258, 0)
    } else {
        let extra = ((i - 4) / 4) as u8;
        let w = weight_u32(extra);
        proof {
            lemma_weight_mono(extra as nat, 5);
            reveal_with_fuel(weight, 6);
        }
        let m = (4 + (i % 4)) as u32;
        assert(m * w <= 7 * 32) by (nonlinear_arith)
            requires
                m <= 7,
                w <= 32,
        ;
        (m * w + 3, extra)
    }
}

/// Base distance and extra-bit count of distance symbol `d`.
pub(crate) fn dist_params(d: u16) -> (r: (u32, u8))
    requires
        d <= 29,
    ensures
        r.0 == dist_base(d as int),
        r.1 == dist_extra(d as int),
        1 <= r.0 <= 24577,
        r.1 <= 13,
{
    if d < 4 {
        (d as u32 + 1, 0)
    } else {
        let extra = (d / 2 - 1) as u8;
        let w = weight_u32(extra);
        proof {
            lemma_weight_mono(extra as nat, 13);
            reveal_with_fuel(weight, 14);
        }
        let m = (2 + (d % 2)) as u32;
        assert(m * w <= 3 * 8192) by (nonlinear_arith)
            requires
                m <= 3,
                w <= 8192,
        ;
        (m * w + 1, extra)
    }
}

/// Reads what follows a length symbol: its extra bits, a distance symbol and
/// the distance's extra bits.
fn read_length_distance(dist: &CanonicalCode, input: &mut BitIter, sym: u16) -> (r: Result<
    (usize, usize),
    DeflateError,
>)
    requires
        dist.wf(),
        old(input).wf(),
        257 <= sym,
    ensures
        final(input).wf(),
        final(input).bytes() == old(input).bytes(),
        final(input).pos() >= old(input).pos(),
        match length_distance(dist.entries(), old(input).bytes(), old(input).pos(), sym as int) {
            Ok((len, d, q)) => {
                &&& r is Ok
                &&& r->Ok_0.0 as int == len
                &&& r->Ok_0.1 as int == d
                &&& d >= 1
                &&& final(input).pos() == q
            },
            Err(e) => r == Err::<(usize, usize), DeflateError>(e),
        },
{
    let ghost data = input.bytes();
    let ghost p = input.pos();
    if sym > 285 {
        Err(DeflateError::InvalidSymbol)
    } else {
        let (lbase, lextra) = length_params(sym - 257);
        let lres = input.read_uint(lextra);
        match lres {
            Err(e) => Err(e),
            Ok(lbits) => {
                proof {
                    lemma_bits_value_bound(data, p, lextra as nat);
                    lemma_weight_mono(lextra as nat, 5);
                    reveal_with_fuel(weight, 6);
                }
                let dres = dist.decode_next_symbol(input);
                match dres {
                    Err(e) => Err(e),
                    Ok(dsym) => {
                        if dsym > 29 {
                            Err(DeflateError::InvalidSymbol)
                        } else {
                            let (dbase, dextra) = dist_params(dsym);
                            let ghost q2 = input.pos();
                            let eres = input.read_uint(dextra);
                            match eres {
                                Err(e) => Err(e),
                                Ok(dbits) => {
                                    proof {
                                        lemma_bits_value_bound(data, q2, dextra as nat);
                                        lemma_weight_mono(dextra as nat, 13);
                                        reveal_with_fuel(weight, 14);
                                    }
                                    Ok(((lbase + lbits) as usize, (dbase + dbits) as usize))
                                },
                            }
                        }
                    },
                }
            },
        }
    }
}

/// Decodes the symbols of one Huffman-coded block, through its end-of-block
/// symbol, into `out` and the window.
fn decode_symbols(
    lit: &CanonicalCode,
    dist: &CanonicalCode,
    input: &mut BitIter,
    window: &mut ByteWindow,
    out: &mut Vec<u8>,
) -> (r: Result<(), DeflateError>)
    requires
        lit.wf(),
        dist.wf(),
        old(input).wf(),
        old(window).wf(),
        old(window)@ == keep_last(old(out)@, WINDOW_SIZE as int),
    ensures
        final(input).wf(),
        final(window).wf(),
        final(input).bytes() == old(input).bytes(),
        final(input).pos() >= old(input).pos(),
        match huffman_symbols(
            lit.entries(),
            dist.entries(),
            old(input).bytes(),
            old(input).pos(),
            old(out)@,
        ) {
            Ok((q, o)) => {
                &&& r is Ok
                &&& final(input).pos() == q
                &&& final(out)@ == o
                &&& final(window)@ == keep_last(o, WINDOW_SIZE as int)
            },
            Err(e) => r == Err::<(), DeflateError>(e),
        },
{
    let ghost data = input.bytes();
    let ghost p0 = input.pos();
    let ghost goal = huffman_symbols(lit.entries(), dist.entries(), data, p0, out@);
    let mut result: Result<(), DeflateError> = Ok(());
    let mut done = false;
    while !done
        invariant
            lit.wf(),
            dist.wf(),
            input.wf(),
            window.wf(),
            input.bytes() == data,
            input.pos() >= p0,
            goal == huffman_symbols(lit.entries(), dist.entries(), data, p0, old(out)@),
            !done ==> window@ == keep_last(out@, WINDOW_SIZE as int),
            !done ==> result is Ok,
            !done ==> goal == huffman_symbols(
                lit.entries(),
                dist.entries(),
                data,
                input.pos(),
                out@,
            ),
            done ==> match goal {
                Ok((q, o)) => {
                    &&& result is Ok
                    &&& input.pos() == q
                    &&& out@ == o
                    &&& window@ == keep_last(o, WINDOW_SIZE as int)
                },
                Err(e) => result == Err::<(), DeflateError>(e),
            },
        decreases
            if done {
                0int
            } else {
                1int
            },
            data.len() * 8 - input.pos(),
    {
        let ghost p = input.pos();
        let ghost o = out@;
        proof {
            input.lemma_pos_in_range();
            lemma_huffman_symbols_step(lit.entries(), dist.entries(), data, p, o);
        }
        match lit.decode_next_symbol(input) {
            Err(e) => {
                result = Err(e);
                done = true;
            },
            Ok(sym) => {
                proof {
                    input.lemma_pos_in_range();
                }
                if sym < 256 {
                    let b = sym as u8;
                    out.push(b);
                    window.append(b);
                    proof {
                        lemma_keep_last_push(o, b);
                    }
                } else if sym == 256 {
                    done = true;
                } else {
                    match read_length_distance(dist, input, sym) {
                        Err(e) => {
                            result = Err(e);
                            done = true;
                        },
                        Ok((len, d)) => {
                            proof {
                                lemma_keep_last_suffix(o);
                                input.lemma_pos_in_range();
                            }
                            let ghost w0 = window@;
                            match window.copy(d, len, out) {
                                Err(e) => {
                                    result = Err(e);
                                    done = true;
                                },
                                Ok(()) => {
                                    proof {
                                        lemma_back_ref_suffix(o, w0, d as int, len as nat);
                                        lemma_keep_last_concat(o, back_ref(o, d as int, len as nat));
                                    }
                                },
                            }
                        },
                    }
                }
            },
        }
    }
    result
}

/// Copies a stored block's bytes into `out` and the window.
fn decode_stored(input: &mut BitIter, window: &mut ByteWindow, out: &mut Vec<u8>) -> (r: Result<
    (),
    DeflateError,
>)
    requires
        old(input).wf(),
        old(window).wf(),
        old(window)@ == keep_last(old(out)@, WINDOW_SIZE as int),
    ensures
        final(input).wf(),
        final(window).wf(),
        final(input).bytes() == old(input).bytes(),
        final(input).pos() >= old(input).pos(),
        match stored_block(old(input).bytes(), old(input).pos(), old(out)@) {
            Ok((q, o)) => {
                &&& r is Ok
                &&& final(input).pos() == q
                &&& final(out)@ == o
                &&& final(window)@ == keep_last(o, WINDOW_SIZE as int)
            },
            Err(e) => r == Err::<(), DeflateError>(e),
        },
{
    let ghost data = input.bytes();
    let ghost o0 = out@;
    input.align_to_byte();
    let ghost a = input.pos();
    assert(a % 8 == 0);
    proof {
        input.lemma_pos_in_range();
    }
    let lres = input.read_uint(16);
    match lres {
        Err(e) => Err(e),
        Ok(len) => {
            let nres = input.read_uint(16);
            match nres {
                Err(e) => Err(e),
                Ok(nlen) => {
                    proof {
                        lemma_bits_value_bound(data, a, 16);
                        lemma_bits_value_bound(data, a + 16, 16);
                        reveal_with_fuel(weight, 17);
                        assert(input.pos() == a + 32);
                        assert((a + 32) % 8 == 0);
                        assert(len as int == bits_value(data, a, 16));
                    }
                    if nlen != 65535 - len {
                        Err(DeflateError::ChecksumMismatch)
                    } else if input.bytes_left() < len as usize {
                        Err(DeflateError::EndOfStream)
                    } else {
                        let ghost q = input.pos();
                        let mut i: u32 = 0;
                        while i < len
                            invariant
                                input.wf(),
                                window.wf(),
                                input.bytes() == data,
                                q == a + 32,
                                i <= len,
                                q + 8 * len <= data.len() * 8,
                                input.pos() == q + 8 * i,
                                out@ == o0 + stored_bytes(data, q, i as nat),
                                window@ == keep_last(out@, WINDOW_SIZE as int),
                                weight(8) == 256,
                            decreases len - i,
                        {
                            let b = input.read_known(8);
                            proof {
                                lemma_bits_value_bound(data, q + 8 * i, 8);
                            }
                            let ghost before = out@;
                            out.push(b as u8);
                            window.append(b as u8);
                            proof {
                                lemma_keep_last_push(before, b as u8);
                                assert(stored_bytes(data, q, (i + 1) as nat) =~= stored_bytes(
                                    data,
                                    q,
                                    i as nat,
                                ).push(b as u8));
                                assert(out@ =~= o0 + stored_bytes(data, q, (i + 1) as nat));
                            }
                            i = i + 1;
                        }
                        Ok(())
                    }
                },
            }
        },
    }
}

/// Reads the `hclen` 3-bit lengths of the code-length code into their
/// permuted places.
fn read_clen_lengths(input: &mut BitIter, hclen: usize) -> (r: Vec<u8>)
    requires
        old(input).wf(),
        hclen <= 19,
        old(input).pos() + 3 * hclen <= old(input).bit_len(),
    ensures
        final(input).wf(),
        final(input).bytes() == old(input).bytes(),
        final(input).pos() == old(input).pos() + 3 * hclen,
        r@ == clen_lengths(old(input).bytes(), old(input).pos(), hclen as nat),
        r@.len() == 19,
        forall|j: int| 0 <= j < 19 ==> r@[j] <= 7,
{
    let ghost data = input.bytes();
    let ghost p = input.pos();
    let order: [usize; 19] = [16, 17, 18, 0, 8, 7, 9, 6, 10, 5, 11, 4, 12, 3, 13, 2, 14, 1, 15];
    assert(order@ =~= clen_order().map_values(|v: int| v as usize));
    let mut v: Vec<u8> = Vec::new();
    while v.len() < 19
        invariant
            v@.len() <= 19,
            forall|j: int| 0 <= j < v@.len() ==> v@[j] == 0,
        decreases 19 - v@.len(),
    {
        v.push(0);
    }
    assert(v@ =~= clen_lengths(data, p, 0));
    let mut i: usize = 0;
    while i < hclen
        invariant
            input.wf(),
            input.bytes() == data,
            i <= hclen <= 19,
            p + 3 * hclen <= data.len() * 8,
            input.pos() == p + 3 * i,
            v@ == clen_lengths(data, p, i as nat),
            v@.len() == 19,
            forall|j: int| 0 <= j < 19 ==> v@[j] <= 7,
            order@ == clen_order().map_values(|v: int| v as usize),
        decreases hclen - i,
    {
        let x = input.read_known(3);
        proof {
            lemma_bits_value_bound(data, p + 3 * i, 3);
            reveal_with_fuel(weight, 4);
        }
        v.set(order[i], x as u8);
        i = i + 1;
    }
    v
}

/// Decodes `total` code lengths with the code-length code `cl`, expanding
/// the repeat symbols 16, 17 and 18.
fn read_code_lengths(cl: &CanonicalCode, input: &mut BitIter, total: usize) -> (r: Result<
    Vec<u8>,
    DeflateError,
>)
    requires
        cl.wf(),
        old(input).wf(),
        total <= 320,
    ensures
        final(input).wf(),
        final(input).bytes() == old(input).bytes(),
        final(input).pos() >= old(input).pos(),
        match code_lengths(cl.entries(), old(input).bytes(), old(input).pos(), total as nat, Seq::empty()) {
            Ok((q, lens)) => {
                &&& r is Ok
                &&& r->Ok_0@ == lens
                &&& final(input).pos() == q
                &&& lens.len() == total
                &&& forall|j: int| 0 <= j < lens.len() ==> lens[j] <= 15
            },
            Err(e) => r == Err::<Vec<u8>, DeflateError>(e),
        },
{
    let ghost data = input.bytes();
    let ghost p0 = input.pos();
    let ghost goal = code_lengths(cl.entries(), data, p0, total as nat, Seq::empty());
    let mut lengths: Vec<u8> = Vec::new();
    let mut result: Result<(), DeflateError> = Ok(());
    let mut done = false;
    while !done
        invariant
            cl.wf(),
            input.wf(),
            input.bytes() == data,
            input.pos() >= p0,
            total <= 320,
            goal == code_lengths(cl.entries(), data, p0, total as nat, Seq::empty()),
            lengths@.len() <= total,
            forall|j: int| 0 <= j < lengths@.len() ==> lengths@[j] <= 15,
            !done ==> result is Ok,
            !done ==> goal == code_lengths(cl.entries(), data, input.pos(), total as nat, lengths@),
            done ==> match goal {
                Ok((q, lens)) => {
                    &&& result is Ok
                    &&& lengths@ == lens
                    &&& input.pos() == q
                    &&& lens.len() == total
                },
                Err(e) => result == Err::<(), DeflateError>(e),
            },
        decreases
            if done {
                0int
            } else {
                1int
            },
            data.len() * 8 - input.pos(),
    {
        let ghost q = input.pos();
        let ghost acc = lengths@;
        proof {
            input.lemma_pos_in_range();
            lemma_code_lengths_step(cl.entries(), data, q, total as nat, acc);
        }
        if lengths.len() >= total {
            done = true;
        } else {
            match cl.decode_next_symbol(input) {
                Err(e) => {
                    result = Err(e);
                    done = true;
                },
                Ok(sym) => {
                    proof {
                        input.lemma_pos_in_range();
                    }
                    if sym < 16 {
                        lengths.push(sym as u8);
                    } else if sym > 18 {
                        result = Err(DeflateError::InvalidSymbol);
                        done = true;
                    } else if sym == 16 && lengths.len() == 0 {
                        result = Err(DeflateError::InvalidSymbol);
                        done = true;
                    } else {
                        let nb: u8 = if sym == 16 {
                            2
                        } else if sym == 17 {
                            3
                        } else {
                            7
                        };
                        let base: usize = if sym == 16 {
                            3
                        } else if sym == 17 {
                            3
                        } else {
                            11
                        };
                        let v: u8 = if sym == 16 {
                            lengths[lengths.len() - 1]
                        } else {
                            0
                        };
                        let ghost q1 = input.pos();
                        match input.read_uint(nb) {
                            Err(e) => {
                                result = Err(e);
                                done = true;
                            },
                            Ok(x) => {
                                proof {
                                    lemma_bits_value_bound(data, q1, nb as nat);
                                    reveal_with_fuel(weight, 8);
                                }
                                let rep = base + x as usize;
                                if lengths.len() + rep > total {
                                    result = Err(DeflateError::InvalidSymbol);
                                    done = true;
                                } else {
                                    let mut j: usize = 0;
                                    while j < rep
                                        invariant
                                            j <= rep,
                                            acc.len() + rep <= total,
                                            v <= 15,
                                            lengths@ == acc + Seq::new(j as nat, |k: int| v),
                                            forall|k: int| 0 <= k < acc.len() ==> acc[k] <= 15,
                                        decreases rep - j,
                                    {
                                        lengths.push(v);
                                        j = j + 1;
                                        assert(lengths@ =~= acc + Seq::new(j as nat, |k: int| v));
                                    }
                                    assert forall|k: int| 0 <= k < lengths@.len() implies lengths@[k]
                                        <= 15 by {
                                        if k >= acc.len() {
                                            assert(lengths@[k] == v);
                                        }
                                    }
                                }
                            },
                        }
                    }
                },
            }
        }
    }
    match result {
        Ok(()) => Ok(lengths),
        Err(e) => Err(e),
    }
}

/// `lens[from..to]` as a vector of its own.
fn sub_lengths(lens: &Vec<u8>, from: usize, to: usize) -> (r: Vec<u8>)
    requires
        from <= to <= lens@.len(),
    ensures
        r@ == lens@.subrange(from as int, to as int),
{
    let mut r: Vec<u8> = Vec::new();
    let mut i: usize = from;
    while i < to
        invariant
            from <= i <= to <= lens@.len(),
            r@ == lens@.subrange(from as int, i as int),
        decreases to - i,
    {
        r.push(lens[i]);
        i = i + 1;
        assert(r@ =~= lens@.subrange(from as int, i as int));
    }
    r
}

/// Builds the code of a code-length array, exactly as `code_of` describes it.
fn build_code(lens: &Vec<u8>) -> (r: Result<CanonicalCode, DeflateError>)
    requires
        lens@.len() <= 65536,
        forall|j: int| 0 <= j < lens@.len() ==> lens@[j] <= 15,
    ensures
        match code_of(lens@) {
            Ok(entries) => r is Ok && r->Ok_0.wf() && r->Ok_0.entries() == entries,
            Err(e) => r == Err::<CanonicalCode, DeflateError>(e),
        },
{
    CanonicalCode::try_new(lens.as_slice())
}

/// Builds the distance code of a code-length array, exactly as `dist_code_of` describes it.
fn build_distance_code(lens: &Vec<u8>) -> (r: Result<CanonicalCode, DeflateError>)
    requires
        lens@.len() <= 65536,
        forall|j: int| 0 <= j < lens@.len() ==> lens@[j] <= 15,
    ensures
        match dist_code_of(lens@) {
            Ok(entries) => r is Ok && r->Ok_0.wf() && r->Ok_0.entries() == entries,
            Err(e) => r == Err::<CanonicalCode, DeflateError>(e),
        },
{
    CanonicalCode::try_new_distance(lens.as_slice())
}

/// The literal/length and distance codes of fixed-Huffman blocks.
fn fixed_codes() -> (r: Result<(CanonicalCode, CanonicalCode), DeflateError>)
    ensures
        match code_of(fixed_lit_lengths()) {
            Err(e) => r == Err::<(CanonicalCode, CanonicalCode), DeflateError>(e),
            Ok(lit) => match code_of(fixed_dist_lengths()) {
                Err(e) => r == Err::<(CanonicalCode, CanonicalCode), DeflateError>(e),
                Ok(dist) => {
                    &&& r is Ok
                    &&& r->Ok_0.0.wf()
                    &&& r->Ok_0.1.wf()
                    &&& r->Ok_0.0.entries() == lit
                    &&& r->Ok_0.1.entries() == dist
                },
            },
        },
{
    let mut lit: Vec<u8> = Vec::new();
    while lit.len() < 288
        invariant
            lit@.len() <= 288,
            lit@ == fixed_lit_lengths().subrange(0, lit@.len() as int),
        decreases 288 - lit@.len(),
    {
        let i = lit.len();
        let l: u8 = if i < 144 {
            8
        } else if i < 256 {
            9
        } else if i < 280 {
            7
        } else {
            8
        };
        lit.push(l);
        assert(lit@ =~= fixed_lit_lengths().subrange(0, lit@.len() as int));
    }
    let mut dist: Vec<u8> = Vec::new();
    while dist.len() < 32
        invariant
            dist@.len() <= 32,
            dist@ == fixed_dist_lengths().subrange(0, dist@.len() as int),
        decreases 32 - dist@.len(),
    {
        dist.push(5);
        assert(dist@ =~= fixed_dist_lengths().subrange(0, dist@.len() as int));
    }
    assert(lit@ =~= fixed_lit_lengths());
    assert(dist@ =~= fixed_dist_lengths());
    match build_code(&lit) {
        Err(e) => Err(e),
        Ok(l) => match build_code(&dist) {
            Err(e) => Err(e),
            Ok(d) => Ok((l, d)),
        },
    }
}

/// Reads a dynamic block's header and builds the two codes it describes.
fn read_dynamic_codes(input: &mut BitIter) -> (r: Result<(CanonicalCode, CanonicalCode), DeflateError>)
    requires
        old(input).wf(),
    ensures
        final(input).wf(),
        final(input).bytes() == old(input).bytes(),
        final(input).pos() >= old(input).pos(),
        match dynamic_codes(old(input).bytes(), old(input).pos()) {
            Ok((q, lit, dist)) => {
                &&& r is Ok
                &&& final(input).pos() == q
                &&& r->Ok_0.0.wf()
                &&& r->Ok_0.1.wf()
                &&& r->Ok_0.0.entries() == lit
                &&& r->Ok_0.1.entries() == dist
            },
            Err(e) => r == Err::<(CanonicalCode, CanonicalCode), DeflateError>(e),
        },
{
    let ghost data = input.bytes();
    let ghost p = input.pos();
    if !input.has_bits(14) {
        Err(DeflateError::EndOfStream)
    } else {
        let a = input.read_known(5);
        let b = input.read_known(5);
        let c = input.read_known(4);
        proof {
            lemma_bits_value_bound(data, p, 5);
            lemma_bits_value_bound(data, p + 5, 5);
            lemma_bits_value_bound(data, p + 10, 4);
            reveal_with_fuel(weight, 6);
        }
        let hlit = a as usize + 257;
        let hdist = b as usize + 1;
        let hclen = c as usize + 4;
        if hlit > 286 || hdist > 30 {
            Err(DeflateError::InvalidSymbol)
        } else if !input.has_bits(3 * hclen) {
            Err(DeflateError::EndOfStream)
        } else {
            let cl_lens = read_clen_lengths(input, hclen);
            match build_code(&cl_lens) {
                Err(e) => Err(e),
                Ok(cl) => {
                    let total = hlit + hdist;
                    match read_code_lengths(&cl, input, total) {
                        Err(e) => Err(e),
                        Ok(lens) => {
                            let lit_lens = sub_lengths(&lens, 0, hlit);
                            let dist_lens = sub_lengths(&lens, hlit, total);
                            match build_code(&lit_lens) {
                                Err(e) => Err(e),
                                Ok(lit) => match build_distance_code(&dist_lens) {
                                    Err(e) => Err(e),
                                    Ok(dist) => Ok((lit, dist)),
                                },
                            }
                        },
                    }
                },
            }
        }
    }
}

/// A decoder of one raw DEFLATE stream.
pub struct Decoder {
    data: Vec<u8>,
    byte_window: ByteWindow,
}

impl Decoder {
    /// The compressed bytes.
    pub closed spec fn input(&self) -> Seq<u8> {
        self.data@
    }

    pub closed spec fn wf(&self) -> bool {
        self.byte_window.wf()
    }

    pub fn new(data_source: Vec<u8>) -> (r: Self)
        ensures
            r.wf(),
            r.input() == data_source@,
    {
        Decoder { data: data_source, byte_window: ByteWindow::new() }
    }

    /// Decompresses the whole stream, block after block, until the block
    /// marked final; the window starts empty and carries over between blocks,
    /// and the fixed codes are built at most once.
    pub fn decode(&mut self) -> (r: Result<Vec<u8>, DeflateError>)
        requires
            old(self).wf(),
        ensures
            final(self).wf(),
            final(self).input() == old(self).input(),
            match inflate(old(self).input()) {
                Ok(o) => r is Ok && r->Ok_0@ == o,
                Err(e) => r == Err::<Vec<u8>, DeflateError>(e),
            },
    {
        let ghost data = self.data@;
        let copy = self.data.clone();
        assert(copy@ =~= data);
        let mut input = BitIter::new(copy);
        let mut window = ByteWindow::new();
        let mut out: Vec<u8> = Vec::new();
        let ghost goal = inflate(data);
        let mut result: Result<(), DeflateError> = Ok(());
        let mut done = false;
        let mut fixed: Option<(CanonicalCode, CanonicalCode)> = None;
        proof {
            lemma_fixed_codes();
        }
        while !done
            invariant
                code_of(fixed_lit_lengths()) == Ok::<Seq<(int, int)>, DeflateError>(fixed_lit_entries()),
                code_of(fixed_dist_lengths()) == Ok::<Seq<(int, int)>, DeflateError>(
                    fixed_dist_entries(),
                ),
                fixed matches Some(c) ==> {
                    &&& c.0.wf()
                    &&& c.1.wf()
                    &&& c.0.entries() == fixed_lit_entries()
                    &&& c.1.entries() == fixed_dist_entries()
                },
                input.wf(),
                window.wf(),
                input.bytes() == data,
                goal == inflate(data),
                !done ==> result is Ok,
                !done ==> window@ == keep_last(out@, WINDOW_SIZE as int),
                !done ==> goal == blocks(data, input.pos(), out@),
                done ==> match goal {
                    Ok(o) => result is Ok && out@ == o,
                    Err(e) => result == Err::<(), DeflateError>(e),
                },
            decreases
                if done {
                    0int
                } else {
                    1int
                },
                data.len() * 8 - input.pos(),
        {
            let ghost p = input.pos();
            let ghost o = out@;
            proof {
                input.lemma_pos_in_range();
                lemma_blocks_step(data, p, o);
            }
            if !input.has_bits(3) {
                result = Err(DeflateError::EndOfStream);
                done = true;
            } else {
                let is_final = input.read_known(1);
                let btype = input.read_known(2);
                let ghost body = block_body(data, p + 3, btype as nat, o);
                let step: Result<(), DeflateError> = if btype == 0 {
                    decode_stored(&mut input, &mut window, &mut out)
                } else if btype == 1 {
                    let codes = match fixed {
                        Some(c) => Ok(c),
                        None => fixed_codes(),
                    };
                    fixed = None;
                    match codes {
                        Err(e) => Err(e),
                        Ok((lit, dist)) => {
                            let r = decode_symbols(&lit, &dist, &mut input, &mut window, &mut out);
                            fixed = Some((lit, dist));
                            r
                        },
                    }
                } else if btype == 2 {
                    match read_dynamic_codes(&mut input) {
                        Err(e) => Err(e),
                        Ok((lit, dist)) => decode_symbols(&lit, &dist, &mut input, &mut window, &mut out),
                    }
                } else {
                    Err(DeflateError::UnsupportedBlockType)
                };
                proof {
                    input.lemma_pos_in_range();
                }
                match step {
                    Err(e) => {
                        result = Err(e);
                        done = true;
                    },
                    Ok(()) => {
                        if is_final == 1 {
                            done = true;
                        }
                    },
                }
            }
        }
        self.byte_window = window;
        match result {
            Ok(()) => Ok(out),
            Err(e) => Err(e),
        }
    }
}

} // verus!
