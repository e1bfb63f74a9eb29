use crate::bit_reader::{align_up, bits_value, weight};
use crate::byte_window::{back_ref, WINDOW_SIZE};
use crate::canonical_code::{
    canon_entries, huff_decode, over_subscribed, sparse_distance_code, under_subscribed,
};
use crate::error::DeflateError;
use vstd::prelude::*;

verus! {

/// The code a code-length array describes, or the reason it describes none.
pub open spec fn code_of(lengths: Seq<u8>) -> Result<Seq<(int, int)>, DeflateError> {
    if over_subscribed(lengths) {
        Err(DeflateError::OverSubscribedCode)
    } else if under_subscribed(lengths) {
        Err(DeflateError::UnderSubscribedCode)
    } else {
        Ok(canon_entries(lengths))
    }
}

/// The distance code a code-length array describes: as `code_of`, except
/// that no codeword at all, or a single one-bit codeword, is allowed.
pub open spec fn dist_code_of(lengths: Seq<u8>) -> Result<Seq<(int, int)>, DeflateError> {
    if over_subscribed(lengths) {
        Err(DeflateError::OverSubscribedCode)
    } else if under_subscribed(lengths) && !sparse_distance_code(lengths) {
        Err(DeflateError::UnderSubscribedCode)
    } else {
        Ok(canon_entries(lengths))
    }
}

/// Extra bits that follow length symbol `257 + i`.
pub open spec fn length_extra(i: int) -> nat {
    if i < 8 || i == 28 {
        0
    } else {
        ((i - 4) / 4) as nat
    }
}

/// The shortest length that length symbol `257 + i` stands for.
pub open spec fn length_base(i: int) -> nat {
    if i < 8 {
        (i + 3) as nat
    } else if i == 28 {
        258
    } else {
        ((4 + i % 4) * weight(length_extra(i)) + 3) as nat
    }
}

/// Extra bits that follow distance symbol `d`.
pub open spec fn dist_extra(d: int) -> nat {
    if d < 4 {
        0
    } else {
        (d / 2 - 1) as nat
    }
}

/// The shortest distance that distance symbol `d` stands for.
pub open spec fn dist_base(d: int) -> nat {
    if d < 4 {
        (d + 1) as nat
    } else {
        ((2 + d % 2) * weight(dist_extra(d)) + 1) as nat
    }
}

/// The code lengths of the fixed literal/length code.
pub open spec fn fixed_lit_lengths() -> Seq<u8> {
    Seq::new(
        288,
        |i: int|
            if i < 144 {
                8u8
            } else if i < 256 {
                9u8
            } else if i < 280 {
                7u8
            } else {
                8u8
            },
    )
}

/// The code lengths of the fixed distance code.
pub open spec fn fixed_dist_lengths() -> Seq<u8> {
    Seq::new(32, |i: int| 5u8)
}

/// The order in which the code-length code's lengths are sent.
pub open spec fn clen_order() -> Seq<int> {
    seq![16, 17, 18, 0, 8, 7, 9, 6, 10, 5, 11, 4, 12, 3, 13, 2, 14, 1, 15]
}

pub open spec fn bit_len(data: Seq<u8>) -> int {
    data.len() * 8int
}

/// `n` bytes of a stored block, the first at bit `q`.
pub open spec fn stored_bytes(data: Seq<u8>, q: int, n: nat) -> Seq<u8> {
    Seq::new(n, |i: int| bits_value(data, q + 8 * i, 8) as u8)
}

/// A stored block whose header ended at bit `p`: the position after it and
/// the output with its bytes added.
pub open spec fn stored_block(data: Seq<u8>, p: int, out: Seq<u8>) -> Result<
    (int, Seq<u8>),
    DeflateError,
> {
    let a = align_up(p);
    if a + 16 > bit_len(data) {
        Err(DeflateError::EndOfStream)
    } else if a + 32 > bit_len(data) {
        Err(DeflateError::EndOfStream)
    } else {
        let len = bits_value(data, a, 16);
        let nlen = bits_value(data, a + 16, 16);
        if nlen != 65535 - len {
            Err(DeflateError::ChecksumMismatch)
        } else if a + 32 + 8 * len > bit_len(data) {
            Err(DeflateError::EndOfStream)
        } else {
            Ok((a + 32 + 8 * len, out + stored_bytes(data, a + 32, len)))
        }
    }
}

/// After length symbol `sym` at bit `q`: the length, the distance, and the
/// position after the distance's extra bits.
pub open spec fn length_distance(
    dist: Seq<(int, int)>,
    data: Seq<u8>,
    q: int,
    sym: int,
) -> Result<(int, int, int), DeflateError> {
    if sym > 285 {
        Err(DeflateError::InvalidSymbol)
    } else {
        let i = sym - 257;
        let le = length_extra(i);
        if q + le > bit_len(data) {
            Err(DeflateError::EndOfStream)
        } else {
            let len = length_base(i) + bits_value(data, q, le);
            match huff_decode(dist, data, q + le) {
                Err(e) => Err(e),
                Ok((ds, q2)) => if ds > 29 {
                    Err(DeflateError::InvalidSymbol)
                } else if q2 + dist_extra(ds) > bit_len(data) {
                    Err(DeflateError::EndOfStream)
                } else {
                    Ok(
                        (
                            len as int,
                            (dist_base(ds) + bits_value(data, q2, dist_extra(ds))) as int,
                            q2 + dist_extra(ds),
                        ),
                    )
                },
            }
        }
    }
}

/// The symbols of a Huffman-coded block from bit `p` on, up to its end-of-block
/// symbol: the position after it and the output with the block's bytes added.
#[verifier::opaque]
pub open spec fn huffman_symbols(
    lit: Seq<(int, int)>,
    dist: Seq<(int, int)>,
    data: Seq<u8>,
    p: int,
    out: Seq<u8>,
) -> Result<(int, Seq<u8>), DeflateError>
    decreases bit_len(data) - p,
{
    match huff_decode(lit, data, p) {
        Err(e) => Err(e),
        Ok((sym, q)) => if q <= p || q > bit_len(data) {
            Err(DeflateError::InvalidCode)
        } else if sym < 256 {
            huffman_symbols(lit, dist, data, q, out.push(sym as u8))
        } else if sym == 256 {
            Ok((q, out))
        } else {
            match length_distance(dist, data, q, sym) {
                Err(e) => Err(e),
                Ok((len, d, q2)) => if d > out.len() || d > WINDOW_SIZE {
                    Err(DeflateError::InvalidBackReference)
                } else if q2 <= p || q2 > bit_len(data) {
                    Err(DeflateError::InvalidCode)
                } else {
                    huffman_symbols(lit, dist, data, q2, out + back_ref(out, d, len as nat))
                },
            }
        }
    }
}

/// One step of `huffman_symbols`: what the first symbol at `p` leads to.
pub proof fn lemma_huffman_symbols_step(
    lit: Seq<(int, int)>,
    dist: Seq<(int, int)>,
    data: Seq<u8>,
    p: int,
    out: Seq<u8>,
)
    ensures
        huffman_symbols(lit, dist, data, p, out) == match huff_decode(lit, data, p) {
            Err(e) => Err(e),
            Ok((sym, q)) => if q <= p || q > bit_len(data) {
                Err(DeflateError::InvalidCode)
            } else if sym < 256 {
                huffman_symbols(lit, dist, data, q, out.push(sym as u8))
            } else if sym == 256 {
                Ok((q, out))
            } else {
                match length_distance(dist, data, q, sym) {
                    Err(e) => Err(e),
                    Ok((len, d, q2)) => if d > out.len() || d > WINDOW_SIZE {
                        Err(DeflateError::InvalidBackReference)
                    } else if q2 <= p || q2 > bit_len(data) {
                        Err(DeflateError::InvalidCode)
                    } else {
                        huffman_symbols(lit, dist, data, q2, out + back_ref(out, d, len as nat))
                    },
                }
            }
        },
{
    reveal(huffman_symbols);
}

/// The code-length code's lengths, as the first `n` 3-bit fields from bit `q` give them.
pub open spec fn clen_lengths(data: Seq<u8>, q: int, n: nat) -> Seq<u8>
    decreases n,
{
    if n == 0 {
        Seq::new(19, |i: int| 0u8)
    } else {
        clen_lengths(data, q, (n - 1) as nat).update(
            clen_order()[n - 1],
            bits_value(data, q + 3 * (n - 1), 3) as u8,
        )
    }
}

/// Decoding code lengths with the code-length code `cl` from bit `q` on,
/// after `acc`, until `total` lengths are known.
#[verifier::opaque]
pub open spec fn code_lengths(
    cl: Seq<(int, int)>,
    data: Seq<u8>,
    q: int,
    total: nat,
    acc: Seq<u8>,
) -> Result<(int, Seq<u8>), DeflateError>
    decreases bit_len(data) - q,
{
    if acc.len() >= total {
        Ok((q, acc))
    } else {
        match huff_decode(cl, data, q) {
            Err(e) => Err(e),
            Ok((sym, q1)) => if q1 <= q || q1 > bit_len(data) {
                Err(DeflateError::InvalidCode)
            } else if sym < 16 {
                code_lengths(cl, data, q1, total, acc.push(sym as u8))
            } else if sym > 18 {
                Err(DeflateError::InvalidSymbol)
            } else if sym == 16 && acc.len() == 0 {
                Err(DeflateError::InvalidSymbol)
            } else {
                let nb: nat = if sym == 16 {
                    2
                } else if sym == 17 {
                    3
                } else {
                    7
                };
                let base: nat = if sym == 16 {
                    3
                } else if sym == 17 {
                    3
                } else {
                    11
                };
                let v: u8 = if sym == 16 {
                    acc.last()
                } else {
                    0
                };
                if q1 + nb > bit_len(data) {
                    Err(DeflateError::EndOfStream)
                } else {
                    let rep = base + bits_value(data, q1, nb);
                    if acc.len() + rep > total {
                        Err(DeflateError::InvalidSymbol)
                    } else {
                        code_lengths(
                            cl,
                            data,
                            q1 + nb,
                            total,
                            acc + Seq::new(rep, |i: int| v),
                        )
                    }
                }
            }
        }
    }
}

/// The header of a dynamic block from bit `p` on: the position after it and
/// the literal/length and distance codes it describes.
pub open spec fn dynamic_codes(data: Seq<u8>, p: int) -> Result<
    (int, Seq<(int, int)>, Seq<(int, int)>),
    DeflateError,
> {
    if p + 14 > bit_len(data) {
        Err(DeflateError::EndOfStream)
    } else {
        let hlit = bits_value(data, p, 5) + 257;
        let hdist = bits_value(data, p + 5, 5) + 1;
        let hclen = bits_value(data, p + 10, 4) + 4;
        if hlit > 286 || hdist > 30 {
            Err(DeflateError::InvalidSymbol)
        } else if p + 14 + 3 * hclen > bit_len(data) {
            Err(DeflateError::EndOfStream)
        } else {
            match code_of(clen_lengths(data, p + 14, hclen)) {
                Err(e) => Err(e),
                Ok(cl) => match code_lengths(
                    cl,
                    data,
                    p + 14 + 3 * hclen,
                    hlit + hdist,
                    Seq::empty(),
                ) {
                    Err(e) => Err(e),
                    Ok((q, lens)) => match code_of(lens.subrange(0, hlit as int)) {
                        Err(e) => Err(e),
                        Ok(lit) => match dist_code_of(lens.subrange(hlit as int, lens.len() as int)) {
                            Err(e) => Err(e),
                            Ok(dist) => Ok((q, lit, dist)),
                        },
                    },
                },
            }
        }
    }
}

/// One block whose 3-bit header ends at bit `p`, of type `btype`.
pub open spec fn block_body(data: Seq<u8>, p: int, btype: nat, out: Seq<u8>) -> Result<
    (int, Seq<u8>),
    DeflateError,
> {
    if btype == 0 {
        stored_block(data, p, out)
    } else if btype == 1 {
        match code_of(fixed_lit_lengths()) {
            Err(e) => Err(e),
            Ok(lit) => match code_of(fixed_dist_lengths()) {
                Err(e) => Err(e),
                Ok(dist) => huffman_symbols(lit, dist, data, p, out),
            },
        }
    } else if btype == 2 {
        match dynamic_codes(data, p) {
            Err(e) => Err(e),
            Ok((q, lit, dist)) => huffman_symbols(lit, dist, data, q, out),
        }
    } else {
        Err(DeflateError::UnsupportedBlockType)
    }
}

/// The blocks from bit `p` on, up to and including the one marked final.
#[verifier::opaque]
pub open spec fn blocks(data: Seq<u8>, p: int, out: Seq<u8>) -> Result<Seq<u8>, DeflateError>
    decreases bit_len(data) - p,
{
    if p + 3 > bit_len(data) {
        Err(DeflateError::EndOfStream)
    } else {
        let is_final = bits_value(data, p, 1);
        let btype = bits_value(data, p + 1, 2);
        match block_body(data, p + 3, btype, out) {
            Err(e) => Err(e),
            Ok((q, out2)) => if is_final == 1 {
                Ok(out2)
            } else if q <= p || q > bit_len(data) {
                Err(DeflateError::InvalidCode)
            } else {
                blocks(data, q, out2)
            },
        }
    }
}

/// One step of `code_lengths`.
pub proof fn lemma_code_lengths_step(
    cl: Seq<(int, int)>,
    data: Seq<u8>,
    q: int,
    total: nat,
    acc: Seq<u8>,
)
    ensures
        code_lengths(cl, data, q, total, acc) == if acc.len() >= total {
            Ok((q, acc))
        } else {
            match huff_decode(cl, data, q) {
                Err(e) => Err(e),
                Ok((sym, q1)) => if q1 <= q || q1 > bit_len(data) {
                    Err(DeflateError::InvalidCode)
                } else if sym < 16 {
                    code_lengths(cl, data, q1, total, acc.push(sym as u8))
                } else if sym > 18 {
                    Err(DeflateError::InvalidSymbol)
                } else if sym == 16 && acc.len() == 0 {
                    Err(DeflateError::InvalidSymbol)
                } else {
                    let nb: nat = if sym == 16 {
                        2
                    } else if sym == 17 {
                        3
                    } else {
                        7
                    };
                    let base: nat = if sym == 16 {
                        3
                    } else if sym == 17 {
                        3
                    } else {
                        11
                    };
                    let v: u8 = if sym == 16 {
                        acc.last()
                    } else {
                        0
                    };
                    if q1 + nb > bit_len(data) {
                        Err(DeflateError::EndOfStream)
                    } else {
                        let rep = base + bits_value(data, q1, nb);
                        if acc.len() + rep > total {
                            Err(DeflateError::InvalidSymbol)
                        } else {
                            code_lengths(
                                cl,
                                data,
                                q1 + nb,
                                total,
                                acc + Seq::new(rep, |i: int| v),
                            )
                        }
                    }
                }
            }
        },
{
    reveal(code_lengths);
}

/// One step of `blocks`.
pub proof fn lemma_blocks_step(data: Seq<u8>, p: int, out: Seq<u8>)
    ensures
        blocks(data, p, out) == if p + 3 > bit_len(data) {
            Err(DeflateError::EndOfStream)
        } else {
            match block_body(data, p + 3, bits_value(data, p + 1, 2), out) {
                Err(e) => Err(e),
                Ok((q, out2)) => if bits_value(data, p, 1) == 1 {
                    Ok(out2)
                } else if q <= p || q > bit_len(data) {
                    Err(DeflateError::InvalidCode)
                } else {
                    blocks(data, q, out2)
                },
            }
        },
{
    reveal(blocks);
}

/// What a raw DEFLATE stream decompresses to.
pub open spec fn inflate(data: Seq<u8>) -> Result<Seq<u8>, DeflateError> {
    blocks(data, 0, Seq::empty())
}

/// A dynamic block that declares more literal/length codes than 286, or
/// more distance codes than 30, is refused with `InvalidSymbol` before any
/// table is built, wherever in the stream it starts and whatever came before.
pub proof fn lemma_oversized_alphabets_rejected(data: Seq<u8>, p: int, out: Seq<u8>)
    requires
        0 <= p,
        p + 17 <= bit_len(data),
        bits_value(data, p + 1, 2) == 2,
        bits_value(data, p + 3, 5) + 257 > 286 || bits_value(data, p + 8, 5) + 1 > 30,
    ensures
        blocks(data, p, out) == Err::<Seq<u8>, DeflateError>(DeflateError::InvalidSymbol),
{
    lemma_blocks_step(data, p, out);
    assert(dynamic_codes(data, p + 3) == Err::<(int, Seq<(int, int)>, Seq<(int, int)>), DeflateError>(
        DeflateError::InvalidSymbol,
    ));
}

} // verus!
