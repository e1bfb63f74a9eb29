use crate::error::DeflateError;
use vstd::prelude::*;

verus! {

/// The largest back-reference distance of the format, and the window's capacity.
pub const WINDOW_SIZE: usize = 32768;

/// The last `cap` items of `s`, or all of `s` when it is shorter.
pub open spec fn keep_last(s: Seq<u8>, cap: int) -> Seq<u8> {
    if s.len() <= cap {
        s
    } else {
        s.subrange(s.len() - cap, s.len() as int)
    }
}

/// The `n` bytes that a back-reference of distance `d` produces after
/// history `h`: each one repeats the byte `d` places before it, so a copy
/// longer than `d` repeats what it has itself just produced.
pub open spec fn back_ref(h: Seq<u8>, d: int, n: nat) -> Seq<u8>
    decreases n,
{
    if n == 0 {
        Seq::empty()
    } else {
        let prev = back_ref(h, d, (n - 1) as nat);
        prev.push((h + prev)[h.len() + n - 1 - d])
    }
}

pub proof fn lemma_back_ref_len(h: Seq<u8>, d: int, n: nat)
    ensures
        back_ref(h, d, n).len() == n,
    decreases n,
{
    if n > 0 {
        lemma_back_ref_len(h, d, (n - 1) as nat);
    }
}

pub open spec fn wrap(x: int) -> int {
    if x < WINDOW_SIZE {
        x
    } else {
        x - WINDOW_SIZE
    }
}

/// A circular buffer holding the most recent `WINDOW_SIZE` output bytes.
pub struct ByteWindow {
    written: usize,
    index: usize,
    data: Vec<u8>,
    start: Ghost<int>,
    history: Ghost<Seq<u8>>,
}

impl View for ByteWindow {
    type V = Seq<u8>;

    /// The bytes the window remembers, oldest first.
    closed spec fn view(&self) -> Seq<u8> {
        self.history@
    }
}

impl ByteWindow {
    pub closed spec fn wf(&self) -> bool {
        &&& self.data@.len() == WINDOW_SIZE
        &&& self.written == self.history@.len()
        &&& self.written <= WINDOW_SIZE
        &&& 0 <= self.start@ < WINDOW_SIZE
        &&& self.index == wrap(self.start@ + self.written)
        &&& self.index < WINDOW_SIZE
        &&& forall|j: int|
            0 <= j < self.written ==> #[trigger] self.history@[j] == self.data@[wrap(
                self.start@ + j,
            )]
    }

    pub fn new() -> (r: Self)
        ensures
            r.wf(),
            r@ == Seq::<u8>::empty(),
    {
        let mut data: Vec<u8> = Vec::new();
        while data.len() < WINDOW_SIZE
            invariant
                data@.len() <= WINDOW_SIZE,
            decreases WINDOW_SIZE - data@.len(),
        {
            data.push(0);
        }
        ByteWindow {
            written: 0,
            index: 0,
            data,
            start: Ghost(0),
            history: Ghost(Seq::empty()),
        }
    }

    /// Records one output byte, forgetting the oldest once the window is full.
    pub fn append(&mut self, byte: u8)
        requires
            old(self).wf(),
        ensures
            final(self).wf(),
            final(self)@ == keep_last(old(self)@.push(byte), WINDOW_SIZE as int),
    {
        let ghost h = self.history@;
        let ghost s = self.start@;
        let i = self.index;
        self.data.set(i, byte);
        self.index = if i + 1 == WINDOW_SIZE {
            0
        } else {
            i + 1
        };
        if self.written < WINDOW_SIZE {
            self.written = self.written + 1;
            self.history = Ghost(h.push(byte));
            assert forall|j: int| 0 <= j < self.written implies #[trigger] self.history@[j]
                == self.data@[wrap(self.start@ + j)] by {
                if j < h.len() {
                    assert(h[j] == old(self).data@[wrap(s + j)]);
                }
            }
        } else {
            self.start = Ghost(wrap(s + 1));
            self.history = Ghost(h.subrange(1, h.len() as int).push(byte));
            assert forall|j: int| 0 <= j < self.written implies #[trigger] self.history@[j]
                == self.data@[wrap(self.start@ + j)] by {
                if j < WINDOW_SIZE - 1 {
                    assert(h[j + 1] == old(self).data@[wrap(s + j + 1)]);
                }
            }
            assert(self.history@ =~= keep_last(h.push(byte), WINDOW_SIZE as int));
        }
    }

    /// Resolves a back-reference: appends to `out`, and to the window, the
    /// `length` bytes that start `distance` bytes back. A distance of zero, or
    /// one beyond what the window remembers, is refused and changes nothing.
    pub fn copy(&mut self, distance: usize, length: usize, out: &mut Vec<u8>) -> (r: Result<
        (),
        DeflateError,
    >)
        requires
            old(self).wf(),
        ensures
            final(self).wf(),
            distance < 1 || distance > old(self)@.len() ==> {
                &&& r == Err::<(), DeflateError>(DeflateError::InvalidBackReference)
                &&& final(self)@ == old(self)@
                &&& final(out)@ == old(out)@
            },
            1 <= distance <= old(self)@.len() ==> {
                &&& r == Ok::<(), DeflateError>(())
                &&& final(out)@ == old(out)@ + back_ref(old(self)@, distance as int, length as nat)
                &&& final(self)@ == keep_last(
                    old(self)@ + back_ref(old(self)@, distance as int, length as nat),
                    WINDOW_SIZE as int,
                )
            },
    {
        if distance < 1 || distance > self.written {
            return Err(DeflateError::InvalidBackReference);
        }
        let ghost h0 = self@;
        let ghost o0 = out@;
        let mut i: usize = 0;
        while i < length
            invariant
                self.wf(),
                1 <= distance <= h0.len(),
                h0.len() <= WINDOW_SIZE,
                i <= length,
                self@ == keep_last(h0 + back_ref(h0, distance as int, i as nat), WINDOW_SIZE as int),
                out@ == o0 + back_ref(h0, distance as int, i as nat),
            decreases length - i,
        {
            let ghost prev = back_ref(h0, distance as int, i as nat);
            proof {
                lemma_back_ref_len(h0, distance as int, i as nat);
            }
            let read_index = if self.index >= distance {
                self.index - distance
            } else {
                self.index + WINDOW_SIZE - distance
            };
            let ghost k = self.written - distance;
            assert(read_index == wrap(self.start@ + k));
            let byte = self.data[read_index];
            assert(byte == self@[k]);
            assert(self@[k] == (h0 + prev)[h0.len() + i - distance]);
            out.push(byte);
            self.append(byte);
            proof {
                let next = back_ref(h0, distance as int, (i + 1) as nat);
                assert(next == prev.push(byte));
                assert(h0 + next =~= (h0 + prev).push(byte));
                lemma_keep_last_push(h0 + prev, byte);
                assert(out@ =~= o0 + next);
            }
            i = i + 1;
        }
        Ok(())
    }
}

/// A back-reference reads only the last `d` bytes of its history.
pub proof fn lemma_back_ref_suffix(h: Seq<u8>, s: Seq<u8>, d: int, n: nat)
    requires
        s.len() <= h.len(),
        s == h.subrange(h.len() - s.len(), h.len() as int),
        1 <= d <= s.len(),
    ensures
        back_ref(s, d, n) == back_ref(h, d, n),
    decreases n,
{
    if n > 0 {
        lemma_back_ref_suffix(h, s, d, (n - 1) as nat);
        let prev = back_ref(h, d, (n - 1) as nat);
        lemma_back_ref_len(h, d, (n - 1) as nat);
        let k = n - 1 - d;
        if k < 0 {
            assert((s + prev)[s.len() + k] == s[s.len() + k]);
            assert((h + prev)[h.len() + k] == h[h.len() + k]);
        } else {
            assert((s + prev)[s.len() + k] == prev[k]);
            assert((h + prev)[h.len() + k] == prev[k]);
        }
    }
}

pub proof fn lemma_keep_last_concat(s: Seq<u8>, t: Seq<u8>)
    ensures
        keep_last(keep_last(s, WINDOW_SIZE as int) + t, WINDOW_SIZE as int) == keep_last(
            s + t,
            WINDOW_SIZE as int,
        ),
{
    let c = WINDOW_SIZE as int;
    if s.len() > c {
        assert(keep_last(keep_last(s, c) + t, c) =~= keep_last(s + t, c));
    }
}

/// What a window remembers of an output: its last bytes, up to the capacity.
pub proof fn lemma_keep_last_suffix(s: Seq<u8>)
    ensures
        keep_last(s, WINDOW_SIZE as int).len() <= s.len(),
        keep_last(s, WINDOW_SIZE as int).len() <= WINDOW_SIZE,
        keep_last(s, WINDOW_SIZE as int).len() == s.len() || keep_last(s, WINDOW_SIZE as int).len()
            == WINDOW_SIZE,
        keep_last(s, WINDOW_SIZE as int) == s.subrange(
            s.len() - keep_last(s, WINDOW_SIZE as int).len(),
            s.len() as int,
        ),
{
    if s.len() <= WINDOW_SIZE {
        assert(s == s.subrange(0, s.len() as int));
    }
}

pub proof fn lemma_keep_last_push(s: Seq<u8>, b: u8)
    ensures
        keep_last(keep_last(s, WINDOW_SIZE as int).push(b), WINDOW_SIZE as int) == keep_last(
            s.push(b),
            WINDOW_SIZE as int,
        ),
{
    let c = WINDOW_SIZE as int;
    if s.len() > c {
        assert(keep_last(keep_last(s, c).push(b), c) =~= keep_last(s.push(b), c));
    } else if s.len() == c {
        assert(keep_last(keep_last(s, c).push(b), c) =~= keep_last(s.push(b), c));
    }
}

} // verus!
