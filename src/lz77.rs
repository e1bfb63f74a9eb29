use crate::byte_window::{back_ref, lemma_back_ref_len, WINDOW_SIZE};
use vstd::prelude::*;

verus! {

/// The shortest back-reference worth emitting.
pub const MIN_MATCH: usize = 3;

/// The longest back-reference the format can express.
pub const MAX_MATCH: usize = 258;

/// One LZ77 step: a literal byte, or a copy of `length` bytes from `distance` back.
#[derive(Debug, Clone, Copy, PartialEq, Eq, Structural)]
pub enum Token {
    Literal(u8),
    Match(u16, u16),
}

/// The bytes a token sequence stands for.
pub open spec fn expand(ts: Seq<Token>) -> Seq<u8>
    decreases ts.len(),
{
    if ts.len() == 0 {
        Seq::empty()
    } else {
        let prev = expand(ts.drop_last());
        match ts.last() {
            Token::Literal(b) => prev.push(b),
            Token::Match(l, d) => prev + back_ref(prev, d as int, l as nat),
        }
    }
}

/// Every copy has a length of 3 to 258 and reaches no further back than the
/// bytes before it, nor than the window.
pub open spec fn tokens_ok(ts: Seq<Token>) -> bool {
    forall|i: int|
        0 <= i < ts.len() ==> match #[trigger] ts[i] {
            Token::Literal(_) => true,
            Token::Match(l, d) => MIN_MATCH <= l <= MAX_MATCH && 1 <= d <= WINDOW_SIZE && d
                <= expand(ts.subrange(0, i)).len(),
        }
}

/// How many bytes from `pos` on repeat the bytes `d` places before them, up to `max`.
pub open spec fn run_matches(data: Seq<u8>, pos: int, d: int, len: int) -> bool {
    forall|k: int| 0 <= k < len ==> #[trigger] data[pos + k] == data[pos + k - d]
}

/// A copy that the data repeats produces exactly that data.
pub proof fn lemma_back_ref_of_run(data: Seq<u8>, pos: int, d: int, len: nat)
    requires
        1 <= d <= pos,
        pos + len <= data.len(),
        run_matches(data, pos, d, len as int),
    ensures
        back_ref(data.subrange(0, pos), d, len) == data.subrange(pos, pos + len),
    decreases len,
{
    if len > 0 {
        let h = data.subrange(0, pos);
        lemma_back_ref_of_run(data, pos, d, (len - 1) as nat);
        let prev = back_ref(h, d, (len - 1) as nat);
        lemma_back_ref_len(h, d, (len - 1) as nat);
        assert(h + prev =~= data.subrange(0, pos + len - 1));
        assert(data[pos + len - 1] == data[pos + len - 1 - d]);
        assert(data.subrange(pos, pos + len) =~= prev.push(data[pos + len - 1 - d]));
    }
}

/// The length of the match at `pos` against distance `d`, counting on from `k`:
/// bytes equal to the ones `d` places before them, at most `MAX_MATCH`.
pub open spec fn match_len_from(data: Seq<u8>, pos: int, d: int, k: int) -> int
    decreases MAX_MATCH - k,
{
    if 0 <= k < MAX_MATCH && pos + k < data.len() && data[pos + k] == data[pos + k - d] {
        match_len_from(data, pos, d, k + 1)
    } else {
        k
    }
}

/// The length of the match at `pos` against distance `d`.
pub open spec fn match_len(data: Seq<u8>, pos: int, d: int) -> int {
    match_len_from(data, pos, d, 0)
}

/// The best match at `pos` over distances `1..=dmax`: the longest of at
/// least `MIN_MATCH`, the nearest among equally long ones; `(0, 0)` if none.
pub open spec fn best_match(data: Seq<u8>, pos: int, dmax: int) -> (int, int)
    decreases dmax,
{
    if dmax <= 0 {
        (0, 0)
    } else {
        let prev = best_match(data, pos, dmax - 1);
        let l = match_len(data, pos, dmax);
        if l >= MIN_MATCH && l > prev.0 {
            (l, dmax)
        } else {
            prev
        }
    }
}

/// The distances a match at `pos` may use.
pub open spec fn reach(pos: int) -> int {
    if pos < WINDOW_SIZE {
        pos
    } else {
        WINDOW_SIZE as int
    }
}

/// Greedy parsing from `pos`: the best match over the whole window where one
/// reaches `MIN_MATCH`, else a literal.
pub open spec fn greedy_from(data: Seq<u8>, pos: int) -> Seq<Token>
    decreases data.len() - pos,
{
    if pos < 0 || pos >= data.len() {
        Seq::empty()
    } else {
        let m = best_match(data, pos, reach(pos));
        if m.0 >= MIN_MATCH && pos + m.0 <= data.len() {
            seq![Token::Match(m.0 as u16, m.1 as u16)] + greedy_from(data, pos + m.0)
        } else {
            seq![Token::Literal(data[pos])] + greedy_from(data, pos + 1)
        }
    }
}

/// The greedy parse of `data`.
pub open spec fn greedy_tokens(data: Seq<u8>) -> Seq<Token> {
    greedy_from(data, 0)
}

proof fn lemma_match_len_bounds(data: Seq<u8>, pos: int, d: int, k: int)
    requires
        0 <= k <= MAX_MATCH,
        0 <= pos,
        pos + k <= data.len(),
        run_matches(data, pos, d, k),
    ensures
        k <= match_len_from(data, pos, d, k) <= MAX_MATCH,
        pos + match_len_from(data, pos, d, k) <= data.len(),
        run_matches(data, pos, d, match_len_from(data, pos, d, k)),
    decreases MAX_MATCH - k,
{
    if k < MAX_MATCH && pos + k < data.len() && data[pos + k] == data[pos + k - d] {
        assert(run_matches(data, pos, d, k + 1)) by {
            assert forall|j: int| 0 <= j < k + 1 implies #[trigger] data[pos + j] == data[pos + j - d] by {
                if j < k {
                    assert(data[pos + j] == data[pos + j - d]);
                }
            }
        }
        lemma_match_len_bounds(data, pos, d, k + 1);
    }
}

/// A 15-bit hash of the three bytes at `p`.
pub open spec fn hash_at(data: Seq<u8>, p: int) -> int {
    (data[p] * 1024 + data[p + 1] * 32 + data[p + 2]) % 32768
}

fn hash3(data: &[u8], p: usize) -> (r: usize)
    requires
        p + 3 <= data@.len(),
    ensures
        r == hash_at(data@, p as int),
        r < 32768,
{
    (data[p] as usize * 1024 + data[p + 1] as usize * 32 + data[p + 2] as usize) % 32768
}

/// Ends a hash chain.
pub const NONE: usize = usize::MAX;

/// Position `q` starts three bytes whose hash is `h`.
pub open spec fn hashed(data: Seq<u8>, q: int, h: int) -> bool {
    q + 3 <= data.len() && hash_at(data, q) == h
}

/// The last position before `m` whose three bytes hash to `h`, or `NONE`.
pub open spec fn last_with_hash(data: Seq<u8>, h: int, m: int) -> int
    decreases m,
{
    if m <= 0 {
        NONE as int
    } else if hashed(data, m - 1, h) {
        m - 1
    } else {
        last_with_hash(data, h, m - 1)
    }
}

/// Hash chains over the positions before `ins`: `head[h]` is the last such
/// position with hash `h`, `prev[q]` the last one before `q` with `q`'s hash.
pub open spec fn chains_ok(data: Seq<u8>, head: Seq<usize>, prev: Seq<usize>, ins: int) -> bool {
    &&& head.len() == 32768
    &&& prev.len() == data.len()
    &&& forall|h: int| 0 <= h < 32768 ==> #[trigger] head[h] as int == last_with_hash(data, h, ins)
    &&& forall|q: int|
        0 <= q < ins && q + 3 <= data.len() ==> #[trigger] prev[q] as int == last_with_hash(
            data,
            hash_at(data, q),
            q,
        )
}

proof fn lemma_last_with_hash(data: Seq<u8>, h: int, m: int)
    requires
        0 <= m < NONE,
    ensures
        last_with_hash(data, h, m) == NONE || (0 <= last_with_hash(data, h, m) < m && hashed(
            data,
            last_with_hash(data, h, m),
            h,
        )),
        forall|q: int|
            (if last_with_hash(data, h, m) == NONE {
                0
            } else {
                last_with_hash(data, h, m) + 1
            }) <= q < m ==> !#[trigger] hashed(data, q, h),
    decreases m,
{
    if m > 0 && !hashed(data, m - 1, h) {
        lemma_last_with_hash(data, h, m - 1);
        assert(last_with_hash(data, h, m) == last_with_hash(data, h, m - 1));
    }
}

/// A match of `MIN_MATCH` or more starts with the same three bytes, hence the same hash.
proof fn lemma_match_hash(data: Seq<u8>, pos: int, q: int)
    requires
        0 <= q < pos,
        pos + 3 <= data.len(),
        match_len(data, pos, pos - q) >= MIN_MATCH,
    ensures
        hashed(data, q, hash_at(data, pos)),
{
    lemma_match_len_bounds(data, pos, pos - q, 0);
    let k = match_len(data, pos, pos - q);
    assert(data[pos + 0] == data[pos + 0 - (pos - q)]);
    assert(data[pos + 1] == data[pos + 1 - (pos - q)]);
    assert(data[pos + 2] == data[pos + 2 - (pos - q)]);
}

/// Distances whose matches stay short leave the best match as it was.
proof fn lemma_best_skip(data: Seq<u8>, pos: int, a: int, b: int)
    requires
        0 <= a <= b,
        forall|d: int| a < d <= b ==> #[trigger] match_len(data, pos, d) < MIN_MATCH,
    ensures
        best_match(data, pos, b) == best_match(data, pos, a),
    decreases b - a,
{
    if a < b {
        lemma_best_skip(data, pos, a, b - 1);
    }
}

/// A best match of the greatest length stays the best.
proof fn lemma_best_full(data: Seq<u8>, pos: int, a: int, b: int)
    requires
        0 <= a <= b,
        0 <= pos <= data.len(),
        best_match(data, pos, a).0 == MAX_MATCH,
    ensures
        best_match(data, pos, b) == best_match(data, pos, a),
    decreases b - a,
{
    if a < b {
        lemma_best_full(data, pos, a, b - 1);
        if pos <= b {
        }
        assert(match_len(data, pos, b) <= MAX_MATCH) by {
            if pos + 0 <= data.len() {
                assert(run_matches(data, pos, b, 0));
                lemma_match_len_bounds(data, pos, b, 0);
            }
        }
    }
}

proof fn lemma_best_valid(data: Seq<u8>, pos: int, dmax: int)
    requires
        0 <= dmax <= pos,
        pos <= data.len(),
    ensures
        best_match(data, pos, dmax).0 == 0 || (MIN_MATCH <= best_match(data, pos, dmax).0
            <= MAX_MATCH && 1 <= best_match(data, pos, dmax).1 <= dmax && pos + best_match(
            data,
            pos,
            dmax,
        ).0 <= data.len() && run_matches(
            data,
            pos,
            best_match(data, pos, dmax).1,
            best_match(data, pos, dmax).0,
        ) && best_match(data, pos, dmax).0 == match_len(data, pos, best_match(data, pos, dmax).1)),
    decreases dmax,
{
    if dmax > 0 {
        lemma_best_valid(data, pos, dmax - 1);
        assert(run_matches(data, pos, dmax, 0));
        lemma_match_len_bounds(data, pos, dmax, 0);
    }
}

fn insert_pos(data: &[u8], head: &mut Vec<usize>, prev: &mut Vec<usize>, p: usize)
    requires
        chains_ok(data@, old(head)@, old(prev)@, p as int),
        p < data@.len(),
    ensures
        chains_ok(data@, final(head)@, final(prev)@, p + 1),
{
    if data.len() - p >= 3 {
        let h = hash3(data, p);
        let last = head[h];
        prev.set(p, last);
        head.set(h, p);
        assert forall|h2: int| 0 <= h2 < 32768 implies #[trigger] head@[h2] as int == last_with_hash(
            data@,
            h2,
            p + 1,
        ) by {
            if h2 != h {
                assert(old(head)@[h2] == head@[h2]);
            }
        }
        assert forall|q: int| 0 <= q < p + 1 && q + 3 <= data@.len() implies #[trigger] prev@[q] as int
            == last_with_hash(data@, hash_at(data@, q), q) by {
            if q != p {
                assert(old(prev)@[q] == prev@[q]);
            }
        }
    } else {
        assert forall|h2: int| 0 <= h2 < 32768 implies #[trigger] head@[h2] as int == last_with_hash(
            data@,
            h2,
            p + 1,
        ) by {
            assert(!hashed(data@, p as int, h2));
        }
    }
}

/// How far the bytes at `pos` repeat those at `cand`, up to `MAX_MATCH`.
fn match_length(data: &[u8], cand: usize, pos: usize) -> (r: usize)
    requires
        cand < pos < data@.len(),
    ensures
        r == match_len(data@, pos as int, pos - cand),
{
    let mut k: usize = 0;
    while k < MAX_MATCH && k < data.len() - pos && data[pos + k] == data[cand + k]
        invariant
            cand < pos < data@.len(),
            k <= MAX_MATCH,
            match_len(data@, pos as int, pos - cand) == match_len_from(
                data@,
                pos as int,
                pos - cand,
                k as int,
            ),
        decreases MAX_MATCH - k,
    {
        k = k + 1;
    }
    k
}

/// The best match at `pos` over the whole window, by walking the hash chain
/// of its first three bytes from the nearest position back.
fn longest_match(data: &[u8], head: &Vec<usize>, prev: &Vec<usize>, pos: usize) -> (r: (
    usize,
    usize,
))
    requires
        chains_ok(data@, head@, prev@, pos as int),
        pos < data@.len(),
    ensures
        r.0 as int == best_match(data@, pos as int, reach(pos as int)).0,
        r.1 as int == best_match(data@, pos as int, reach(pos as int)).1,
{
    let ghost d = data@;
    let ghost p = pos as int;
    if data.len() - pos < 3 {
        proof {
            assert forall|dd: int| 0 < dd <= reach(p) implies #[trigger] match_len(d, p, dd)
                < MIN_MATCH by {
                assert(run_matches(d, p, dd, 0));
                lemma_match_len_bounds(d, p, dd, 0);
            }
            lemma_best_skip(d, p, 0, reach(p));
        }
        return (0, 0);
    }
    let h = hash3(data, pos);
    let mut cand = head[h];
    proof {
        lemma_last_with_hash(d, h as int, p);
    }
    let ghost mut lim: int = p;
    let mut best_len: usize = 0;
    let mut best_dist: usize = 0;
    let mut full = false;
    while !full && cand != NONE && pos - cand <= WINDOW_SIZE
        invariant
            chains_ok(d, head@, prev@, p),
            d == data@,
            p == pos,
            pos + 3 <= d.len(),
            h == hash_at(d, p),
            0 <= lim <= p,
            p < NONE,
            p - lim <= WINDOW_SIZE,
            !full ==> cand as int == last_with_hash(d, h as int, lim),
            !full ==> cand == NONE || cand < lim,
            !full && cand != NONE ==> hashed(d, cand as int, h as int),
            !full ==> best_len as int == best_match(d, p, p - lim).0,
            !full ==> best_dist as int == best_match(d, p, p - lim).1,
            full ==> best_len as int == best_match(d, p, reach(p)).0,
            full ==> best_dist as int == best_match(d, p, reach(p)).1,
        decreases lim, if full { 0int } else { 1int },
    {
        proof {
            lemma_last_with_hash(d, h as int, lim);
            assert forall|dd: int| p - lim < dd < p - cand implies #[trigger] match_len(d, p, dd)
                < MIN_MATCH by {
                if match_len(d, p, dd) >= MIN_MATCH {
                    lemma_match_hash(d, p, p - dd);
                }
            }
            lemma_best_skip(d, p, p - lim, p - cand - 1);
            lemma_best_valid(d, p, p - cand - 1);
        }
        let len = match_length(data, cand, pos);
        if len >= MIN_MATCH && len > best_len {
            best_len = len;
            best_dist = pos - cand;
        }
        proof {
            lim = cand as int;
        }
        if best_len == MAX_MATCH {
            proof {
                lemma_best_full(d, p, p - lim, reach(p));
            }
            full = true;
        } else {
            let ghost old_cand = cand as int;
            assert(prev@[old_cand] as int == last_with_hash(d, hash_at(d, old_cand), old_cand));
            cand = prev[cand];
            proof {
                lemma_last_with_hash(d, h as int, lim);
            }
        }
    }
    if !full {
        proof {
            lemma_last_with_hash(d, h as int, lim);
            assert forall|dd: int| p - lim < dd <= reach(p) implies #[trigger] match_len(d, p, dd)
                < MIN_MATCH by {
                if match_len(d, p, dd) >= MIN_MATCH {
                    lemma_match_hash(d, p, p - dd);
                }
            }
            lemma_best_skip(d, p, p - lim, reach(p));
        }
    }
    (best_len, best_dist)
}

/// Greedy LZ77 parsing over the whole window: at each position the longest
/// match (the nearest among equally long ones) if it reaches `MIN_MATCH`,
/// else a literal.
pub fn lz77_tokens(data: &[u8]) -> (r: Vec<Token>)
    ensures
        r@ == greedy_tokens(data@),
        expand(r@) == data@,
        tokens_ok(r@),
{
    let n = data.len();
    let ghost d = data@;
    let mut head: Vec<usize> = Vec::new();
    while head.len() < 32768
        invariant
            head@.len() <= 32768,
            forall|h: int| 0 <= h < head@.len() ==> #[trigger] head@[h] == NONE,
        decreases 32768 - head@.len(),
    {
        head.push(NONE);
    }
    let mut prev: Vec<usize> = Vec::new();
    while prev.len() < n
        invariant
            prev@.len() <= n,
            n == data@.len(),
        decreases n - prev@.len(),
    {
        prev.push(NONE);
    }
    let mut tokens: Vec<Token> = Vec::new();
    let mut pos: usize = 0;
    assert(data@.subrange(0, 0) =~= Seq::<u8>::empty());
    assert(tokens@ + greedy_from(d, 0) =~= greedy_from(d, 0));
    while pos < n
        invariant
            n == data@.len(),
            d == data@,
            pos <= n,
            chains_ok(d, head@, prev@, pos as int),
            expand(tokens@) == data@.subrange(0, pos as int),
            tokens_ok(tokens@),
            tokens@ + greedy_from(d, pos as int) == greedy_from(d, 0),
        decreases n - pos,
    {
        let (len, dist) = longest_match(data, &head, &prev, pos);
        proof {
            lemma_best_valid(d, pos as int, reach(pos as int));
        }
        let ghost before = tokens@;
        if len >= MIN_MATCH {
            proof {
                lemma_back_ref_of_run(data@, pos as int, dist as int, len as nat);
            }
            tokens.push(Token::Match(len as u16, dist as u16));
            proof {
                assert(tokens@.drop_last() =~= before);
                assert(data@.subrange(0, pos as int) + data@.subrange(pos as int, pos + len) =~= data@.subrange(0, pos + len));
                assert forall|i: int| 0 <= i < tokens@.len() implies match #[trigger] tokens@[i] {
                    Token::Literal(_) => true,
                    Token::Match(l, d) => MIN_MATCH <= l <= MAX_MATCH && 1 <= d <= WINDOW_SIZE && d
                        <= expand(tokens@.subrange(0, i)).len(),
                } by {
                    if i < before.len() {
                        assert(tokens@.subrange(0, i) =~= before.subrange(0, i));
                        assert(before[i] == tokens@[i]);
                    } else {
                        assert(tokens@.subrange(0, i) =~= before);
                    }
                }
                assert(tokens@ + greedy_from(d, pos + len) =~= before + greedy_from(d, pos as int));
            }
            let end = pos + len;
            while pos < end
                invariant
                    n == data@.len(),
                    d == data@,
                    pos <= end <= n,
                    chains_ok(d, head@, prev@, pos as int),
                decreases end - pos,
            {
                insert_pos(data, &mut head, &mut prev, pos);
                pos = pos + 1;
            }
        } else {
            tokens.push(Token::Literal(data[pos]));
            proof {
                assert(tokens@.drop_last() =~= before);
                assert(data@.subrange(0, pos as int).push(data@[pos as int]) =~= data@.subrange(0, pos + 1));
                assert forall|i: int| 0 <= i < tokens@.len() implies match #[trigger] tokens@[i] {
                    Token::Literal(_) => true,
                    Token::Match(l, d) => MIN_MATCH <= l <= MAX_MATCH && 1 <= d <= WINDOW_SIZE && d
                        <= expand(tokens@.subrange(0, i)).len(),
                } by {
                    if i < before.len() {
                        assert(tokens@.subrange(0, i) =~= before.subrange(0, i));
                        assert(before[i] == tokens@[i]);
                    }
                }
                assert(tokens@ + greedy_from(d, pos + 1) =~= before + greedy_from(d, pos as int));
            }
            insert_pos(data, &mut head, &mut prev, pos);
            pos = pos + 1;
        }
    }
    assert(data@.subrange(0, n as int) =~= data@);
    assert(greedy_from(d, n as int) == Seq::<Token>::empty());
    assert(tokens@ + Seq::<Token>::empty() =~= tokens@);
    tokens
}

} // verus!
