//! Fixed-capacity byte ring buffer: the backpressure point between log
//! producers and the transport drain loop.
//!
//! Writes are non-blocking and best-effort: a write accepts as many bytes
//! as fit and reports the count, so a producer that must never suspend can
//! always call it. A single low-level write stays inside the contiguous
//! region before the internal wrap point, so it may accept only a prefix
//! even though free space remains past the wrap; an immediate retry picks
//! up the remainder. Reads remove bytes in first-in first-out order.

use vstd::prelude::*;

verus! {

/// The smaller of two naturals.
pub open spec fn min_nat(a: nat, b: nat) -> nat {
    if a < b {
        a
    } else {
        b
    }
}

/// How many bytes of a pending write a buffer with `free` free bytes accepts.
pub open spec fn accepted_len(pending: nat, free: nat) -> nat {
    min_nat(pending, free)
}

/// Buffered bytes after a best-effort write of `w` into a buffer of
/// capacity `cap` currently holding `c`: the longest prefix of `w` that
/// fits is appended, the rest is discarded.
pub open spec fn buffer_after_write(c: Seq<u8>, cap: nat, w: Seq<u8>) -> Seq<u8>
    recommends
        c.len() <= cap,
{
    c + w.take(accepted_len(w.len(), (cap - c.len()) as nat) as int)
}

/// Bytes a read of at most `n` bytes returns: the first `min(n, len)`
/// buffered bytes.
pub open spec fn read_prefix(c: Seq<u8>, n: nat) -> Seq<u8> {
    c.take(min_nat(n, c.len()) as int)
}

/// Buffered bytes left after a read of at most `n` bytes.
pub open spec fn buffer_after_read(c: Seq<u8>, n: nat) -> Seq<u8> {
    c.skip(min_nat(n, c.len()) as int)
}

/// Position of logical offset `i` in the backing storage of a buffer whose
/// oldest byte sits at `start`, for `start < cap` and `i < cap`.
pub open spec fn wrap_index(start: int, i: int, cap: int) -> int {
    if start + i < cap {
        start + i
    } else {
        start + i - cap
    }
}

/// Concatenation of a sequence of byte chunks.
pub open spec fn concat_all(ws: Seq<Seq<u8>>) -> Seq<u8>
    decreases ws.len(),
{
    if ws.len() == 0 {
        Seq::empty()
    } else {
        ws[0] + concat_all(ws.skip(1))
    }
}

/// Total byte count of a sequence of chunks.
pub open spec fn total_len(ws: Seq<Seq<u8>>) -> nat
    decreases ws.len(),
{
    if ws.len() == 0 {
        0
    } else {
        ws[0].len() + total_len(ws.skip(1))
    }
}

/// Buffered bytes after a sequence of best-effort writes.
pub open spec fn apply_writes(c: Seq<u8>, cap: nat, ws: Seq<Seq<u8>>) -> Seq<u8>
    decreases ws.len(),
{
    if ws.len() == 0 {
        c
    } else {
        apply_writes(buffer_after_write(c, cap, ws[0]), cap, ws.skip(1))
    }
}

/// The prefixes that a sequence of best-effort writes actually accepts.
pub open spec fn accepted_parts(c: Seq<u8>, cap: nat, ws: Seq<Seq<u8>>) -> Seq<Seq<u8>>
    decreases ws.len(),
{
    if ws.len() == 0 {
        Seq::empty()
    } else {
        seq![ws[0].take(accepted_len(ws[0].len(), (cap - c.len()) as nat) as int)]
            + accepted_parts(buffer_after_write(c, cap, ws[0]), cap, ws.skip(1))
    }
}

/// Round-trip law: after any sequence of best-effort writes, the buffer
/// holds exactly the prior contents followed by the concatenation of the
/// accepted prefixes. Bytes beyond free space are discarded; every
/// accepted byte is kept, in the order it was written.
pub proof fn lemma_writes_round_trip(c: Seq<u8>, cap: nat, ws: Seq<Seq<u8>>)
    requires
        c.len() <= cap,
    ensures
        apply_writes(c, cap, ws) == c + concat_all(accepted_parts(c, cap, ws)),
    decreases ws.len(),
{
    if ws.len() == 0 {
        assert(apply_writes(c, cap, ws) =~= c + concat_all(accepted_parts(c, cap, ws)));
    } else {
        let a0 = accepted_len(ws[0].len(), (cap - c.len()) as nat) as int;
        let p0 = ws[0].take(a0);
        let c1 = buffer_after_write(c, cap, ws[0]);
        assert(c1.len() <= cap);
        lemma_writes_round_trip(c1, cap, ws.skip(1));
        let parts1 = accepted_parts(c1, cap, ws.skip(1));
        let parts = accepted_parts(c, cap, ws);
        assert(parts[0] == p0);
        assert(parts.skip(1) =~= parts1);
        assert(concat_all(parts) == p0 + concat_all(parts1));
        assert(apply_writes(c, cap, ws) =~= c + concat_all(parts));
    }
}

/// When the pending writes fit in the free space in total, nothing is
/// discarded: every write is accepted whole and the buffer ends up holding
/// all the written bytes, in order.
pub proof fn lemma_writes_within_capacity_all_buffered(c: Seq<u8>, cap: nat, ws: Seq<Seq<u8>>)
    requires
        c.len() + total_len(ws) <= cap,
    ensures
        accepted_parts(c, cap, ws) == ws,
        apply_writes(c, cap, ws) == c + concat_all(ws),
    decreases ws.len(),
{
    if ws.len() == 0 {
        assert(accepted_parts(c, cap, ws) =~~= ws);
        assert(apply_writes(c, cap, ws) =~= c + concat_all(ws));
    } else {
        let a0 = accepted_len(ws[0].len(), (cap - c.len()) as nat) as int;
        assert(a0 == ws[0].len());
        assert(ws[0].take(a0) =~= ws[0]);
        let c1 = buffer_after_write(c, cap, ws[0]);
        assert(c1 =~= c + ws[0]);
        lemma_writes_within_capacity_all_buffered(c1, cap, ws.skip(1));
        assert(accepted_parts(c, cap, ws) =~~= ws);
        assert(apply_writes(c, cap, ws) =~= c + concat_all(ws));
    }
}

/// A write to a full buffer accepts nothing: the count is zero and the
/// contents are unchanged.
pub proof fn lemma_write_to_full_buffer(c: Seq<u8>, cap: nat, w: Seq<u8>)
    requires
        c.len() == cap,
    ensures
        accepted_len(w.len(), (cap - c.len()) as nat) == 0,
        buffer_after_write(c, cap, w) == c,
{
    assert(buffer_after_write(c, cap, w) =~= c);
}

/// A write larger than the free space is accepted only partially — the
/// count falls short of the request — and leaves the buffer completely
/// full.
pub proof fn lemma_oversized_write_fills_buffer(c: Seq<u8>, cap: nat, w: Seq<u8>)
    requires
        c.len() <= cap,
        w.len() > cap - c.len(),
    ensures
        accepted_len(w.len(), (cap - c.len()) as nat) < w.len(),
        buffer_after_write(c, cap, w).len() == cap,
        buffer_after_write(c, cap, w) == c + w.take((cap - c.len()) as int),
{
}

/// After a partial write, retrying with the unaccepted remainder delivers
/// it in full as soon as enough bytes have been drained to make room.
pub proof fn lemma_retry_delivers_remainder(c: Seq<u8>, cap: nat, w: Seq<u8>, k: nat)
    requires
        c.len() <= cap,
        ({
            let a = accepted_len(w.len(), (cap - c.len()) as nat);
            let c2 = buffer_after_read(buffer_after_write(c, cap, w), k);
            w.len() - a <= cap - c2.len()
        }),
    ensures
        ({
            let a = accepted_len(w.len(), (cap - c.len()) as nat);
            let c2 = buffer_after_read(buffer_after_write(c, cap, w), k);
            buffer_after_write(c2, cap, w.skip(a as int)) == c2 + w.skip(a as int)
        }),
{
    let a = accepted_len(w.len(), (cap - c.len()) as nat);
    let c2 = buffer_after_read(buffer_after_write(c, cap, w), k);
    let rem = w.skip(a as int);
    assert(accepted_len(rem.len(), (cap - c2.len()) as nat) == rem.len());
    assert(rem.take(rem.len() as int) =~= rem);
    assert(buffer_after_write(c2, cap, rem) =~= c2 + rem);
}

/// Fixed-capacity circular byte queue. Capacity is chosen at construction
/// and never changes; the view is the sequence of unread bytes, oldest
/// first.
pub struct RingBuffer {
    storage: Vec<u8>,
    start: usize,
    count: usize,
}

impl View for RingBuffer {
    type V = Seq<u8>;

    closed spec fn view(&self) -> Seq<u8> {
        Seq::new(
            self.count as nat,
            |i: int| self.storage@[wrap_index(self.start as int, i, self.storage@.len() as int)],
        )
    }
}

impl RingBuffer {
    /// Total capacity in bytes, fixed at construction.
    pub closed spec fn spec_capacity(self) -> nat {
        self.storage@.len()
    }

    /// Internal consistency: non-zero storage, read position inside the
    /// storage, and no more unread bytes than the storage holds.
    pub closed spec fn wf(self) -> bool {
        &&& self.storage@.len() > 0
        &&& (self.start as int) < self.storage@.len()
        &&& (self.count as int) <= self.storage@.len()
    }

    /// Free space: capacity minus the number of unread bytes.
    pub open spec fn free_space(self) -> nat
        recommends
            self.wf(),
    {
        (self.spec_capacity() - self@.len()) as nat
    }

    /// Length of the contiguous free region a single low-level write can
    /// fill: bounded both by the free space and by the distance from the
    /// write position to the end of the storage.
    pub closed spec fn contiguous_free(self) -> nat {
        min_nat(
            self.free_space(),
            (self.storage@.len() - wrap_index(
                self.start as int,
                self.count as int,
                self.storage@.len() as int,
            )) as nat,
        )
    }

    /// The buffer invariant: a consistent buffer never holds more unread
    /// bytes than its capacity.
    pub proof fn lemma_buffered_within_capacity(self)
        requires
            self.wf(),
        ensures
            self@.len() <= self.spec_capacity(),
    {
    }

    /// Create an empty ring buffer of the given capacity.
    pub fn new(capacity: usize) -> (r: RingBuffer)
        requires
            capacity >= 1,
        ensures
            r.wf(),
            r.spec_capacity() == capacity,
            r@ == Seq::<u8>::empty(),
    {
        let mut storage: Vec<u8> = Vec::new();
        let mut i: usize = 0;
        while i < capacity
            invariant
                i <= capacity,
                storage@.len() == i,
            decreases capacity - i,
        {
            storage.push(0);
            i = i + 1;
        }
        let r = RingBuffer { storage, start: 0, count: 0 };
        proof {
            assert(r@ =~= Seq::<u8>::empty());
        }
        r
    }

    /// Number of unread bytes.
    pub fn len(&self) -> (n: usize)
        requires
            self.wf(),
        ensures
            n as nat == self@.len(),
    {
        self.count
    }

    /// True when no unread byte is buffered.
    pub fn is_empty(&self) -> (b: bool)
        requires
            self.wf(),
        ensures
            b == (self@.len() == 0),
    {
        self.count == 0
    }

    /// Total capacity in bytes.
    pub fn capacity(&self) -> (c: usize)
        requires
            self.wf(),
        ensures
            c as nat == self.spec_capacity(),
    {
        self.storage.len()
    }

    /// Free space in bytes.
    pub fn free_len(&self) -> (n: usize)
        requires
            self.wf(),
        ensures
            n as nat == self.free_space(),
    {
        self.storage.len() - self.count
    }

    /// Non-blocking single write: appends as many bytes of `data` as fit in
    /// the contiguous free region before the wrap point and returns the
    /// count. When the count falls short of `data.len()`, the free region
    /// left behind is contiguous, so an immediate retry with the remainder
    /// accepts everything that still fits.
    pub fn try_write(&mut self, data: &[u8]) -> (n: usize)
        requires
            old(self).wf(),
        ensures
            final(self).wf(),
            final(self).spec_capacity() == old(self).spec_capacity(),
            n as nat == min_nat(data@.len(), old(self).contiguous_free()),
            n as nat <= old(self).free_space(),
            final(self)@ == old(self)@ + data@.take(n as int),
            n < data@.len() ==> final(self).contiguous_free() == final(self).free_space(),
            data@.len() > 0 && old(self).free_space() > 0 ==> n > 0,
    {
        let cap = self.storage.len();
        let free = cap - self.count;
        let wi = if self.start >= free {
            self.start - free
        } else {
            self.start + self.count
        };
        proof {
            assert(wi as int == wrap_index(
                self.start as int,
                self.count as int,
                cap as int,
            ));
        }
        let contiguous = cap - wi;
        let avail = if free < contiguous {
            free
        } else {
            contiguous
        };
        let n = if data.len() < avail {
            data.len()
        } else {
            avail
        };
        let ghost start0 = self.start as int;
        let ghost count0 = self.count as int;
        let ghost storage0 = self.storage@;
        let mut k: usize = 0;
        while k < n
            invariant
                k <= n,
                n <= data@.len(),
                self.start as int == start0,
                self.count as int == count0,
                self.storage@.len() == cap as int,
                start0 < cap as int,
                count0 <= cap as int,
                wi as int == wrap_index(start0, count0, cap as int),
                n as int + wi as int <= cap as int,
                n as int + count0 <= cap as int,
                forall|j: int| 0 <= j < k ==> self.storage@[wi as int + j] == data@[j],
                forall|p: int|
                    0 <= p < cap as int && !(wi as int <= p < wi as int + k) ==> self.storage@[p]
                        == storage0[p],
            decreases n - k,
        {
            self.storage[wi + k] = data[k];
            k = k + 1;
        }
        self.count = self.count + n;
        proof {
            let capi = cap as int;
            let ni = n as int;
            let wii = wi as int;
            assert forall|i: int| 0 <= i < count0 implies self@[i] == old(self)@[i] by {
                let p = wrap_index(start0, i, capi);
                if wii <= p < wii + ni {
                    let q = p - wii;
                    assert(wrap_index(start0, count0 + q, capi) == wii + q);
                    assert(wrap_index(start0, i, capi) == wrap_index(start0, count0 + q, capi));
                    assert(i == count0 + q);
                }
                assert(self.storage@[p] == storage0[p]);
            };
            assert forall|i: int| count0 <= i < count0 + ni implies self@[i] == data@[i - count0] by {
                let q = i - count0;
                assert(wrap_index(start0, count0 + q, capi) == wii + q);
                assert(self.storage@[wii + q] == data@[q]);
            };
            assert(self@ =~= old(self)@ + data@.take(ni));
        }
        n
    }

    /// Best-effort write: two single writes back to back, so that a prefix
    /// cut short at the wrap point is followed up at once. Accepts exactly
    /// as many bytes as the buffer has free, regardless of where the wrap
    /// point currently lies.
    pub fn write_best_effort(&mut self, data: &[u8]) -> (n: usize)
        requires
            old(self).wf(),
        ensures
            final(self).wf(),
            final(self).spec_capacity() == old(self).spec_capacity(),
            n as nat == accepted_len(data@.len(), old(self).free_space()),
            final(self)@ == buffer_after_write(old(self)@, old(self).spec_capacity(), data@),
    {
        let first = self.try_write(data);
        if first < data.len() {
            let rest = data.split_at(first).1;
            let second = self.try_write(rest);
            proof {
                let f = first as int;
                let s = second as int;
                assert(rest@ =~= data@.skip(f));
                assert(data@.take(f) + rest@.take(s) =~= data@.take(f + s));
                assert(self@ =~= buffer_after_write(
                    old(self)@,
                    old(self).spec_capacity(),
                    data@,
                ));
            }
            first + second
        } else {
            first
        }
    }

    /// Non-suspending read: removes and returns the oldest
    /// `min(max, len)` buffered bytes, in the order they were written.
    pub fn try_read(&mut self, max: usize) -> (out: Vec<u8>)
        requires
            old(self).wf(),
        ensures
            final(self).wf(),
            final(self).spec_capacity() == old(self).spec_capacity(),
            out@ == read_prefix(old(self)@, max as nat),
            final(self)@ == buffer_after_read(old(self)@, max as nat),
    {
        let cap = self.storage.len();
        let n = if max < self.count {
            max
        } else {
            self.count
        };
        let ghost start0 = self.start as int;
        let ghost count0 = self.count as int;
        let ghost storage0 = self.storage@;
        let mut out: Vec<u8> = Vec::new();
        let mut k: usize = 0;
        while k < n
            invariant
                k <= n,
                n <= count0,
                self.start as int == start0,
                self.count as int == count0,
                self.storage@ == storage0,
                storage0.len() == cap as int,
                start0 < cap as int,
                count0 <= cap as int,
                out@.len() == k,
                forall|j: int|
                    0 <= j < k ==> out@[j] == storage0[wrap_index(start0, j, cap as int)],
            decreases n - k,
        {
            let idx = if self.start >= cap - k {
                self.start - (cap - k)
            } else {
                self.start + k
            };
            proof {
                assert(idx as int == wrap_index(start0, k as int, cap as int));
            }
            out.push(self.storage[idx]);
            k = k + 1;
        }
        self.start = if self.start >= cap - n {
            self.start - (cap - n)
        } else {
            self.start + n
        };
        self.count = self.count - n;
        proof {
            let capi = cap as int;
            let ni = n as int;
            assert(self.start as int == wrap_index(start0, ni, capi));
            assert forall|i: int| 0 <= i < count0 - ni implies self@[i] == old(self)@[ni + i] by {
                assert(wrap_index(wrap_index(start0, ni, capi), i, capi) == wrap_index(
                    start0,
                    ni + i,
                    capi,
                ));
            };
            assert(out@ =~= read_prefix(old(self)@, max as nat));
            assert(self@ =~= buffer_after_read(old(self)@, max as nat));
        }
        out
    }
}

} // verus!
