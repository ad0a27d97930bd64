//! Uploads through a staging ring, and readback.
//!
//! The ring is one host-visible buffer. Data is copied in, a copy command is recorded, and the
//! space is reused only after the submission that copied out of it has completed on the timeline.
//! Uploads larger than a quarter of the ring are split, so any size fits. When the ring is full,
//! the pending batch is submitted and the oldest in-flight batch is waited for: back-pressure,
//! never overwriting data the GPU has not read yet.
use crate::gpu::bytes::{lemma_sums_grow, sum};
use crate::gpu::timeline::{done, law_done_items_come_first, ordered};
use std::collections::VecDeque;
use vstd::arithmetic::div_mod::{
    lemma_fundamental_div_mod, lemma_fundamental_div_mod_converse, lemma_mod_bound,
};
use vstd::prelude::*;

verus! {

/// 16 MiB.
pub const DEFAULT_RING_BYTES: u64 = 16777216;

#[derive(Clone, Copy, Debug, PartialEq, Eq, Structural)]
pub struct UploadStats {
    pub bytes: u64,
    pub copies: u64,
    pub batches: u64,
    /// Times the ring was full and the host waited for the GPU.
    pub stalls: u64,
}

impl UploadStats {
    pub open spec fn zero() -> UploadStats {
        UploadStats { bytes: 0, copies: 0, batches: 0, stalls: 0 }
    }
}

impl Default for UploadStats {
    fn default() -> (r: UploadStats)
        ensures
            r == UploadStats::zero(),
    {
        UploadStats { bytes: 0, copies: 0, batches: 0, stalls: 0 }
    }
}

/// The space of a staging ring. Positions only grow; position `p` is byte `p % cap` of the ring.
pub struct Ring {
    cap: u64,
    head: u64,
    tail: u64,
    spans: VecDeque<(u64, u64)>,
    pending: bool,
    stats: UploadStats,
}

/// The ring's state: positions from `tail` to `head` are in use, `spans` are the batches in flight
/// (timeline value, position where the batch ends), and `pending` says that a batch is being
/// recorded.
pub struct RingView {
    pub cap: u64,
    pub head: u64,
    pub tail: u64,
    pub spans: Seq<(u64, u64)>,
    pub pending: bool,
}

/// The largest part an upload is split into.
pub open spec fn chunk_of(cap: u64) -> u64 {
    if cap / 4 > 1 {
        cap / 4
    } else {
        1
    }
}

impl RingView {
    pub open spec fn wf(self) -> bool {
        &&& self.cap > 0
        &&& self.tail <= self.head <= self.tail + self.cap
        &&& ordered(self.spans)
        &&& forall|i: int| 0 <= i < self.spans.len() ==> self.tail <= (#[trigger] self.spans[i]).1 <= self.head
        &&& forall|i: int, j: int| 0 <= i <= j < self.spans.len() ==> (#[trigger] self.spans[i]).1 <= (#[trigger] self.spans[j]).1
    }

    /// After the batches up to `completed` are known to be done.
    pub open spec fn retired(self, completed: u64) -> RingView {
        let n = done(self.spans, completed);
        let rest = self.spans.skip(n as int);
        let freed = if n > 0 {
            self.spans[n - 1].1
        } else {
            self.tail
        };
        RingView {
            spans: rest,
            tail: if rest.len() == 0 && !self.pending {
                self.head
            } else {
                freed
            },
            ..self
        }
    }

    /// Bytes left unused so that `n` bytes do not run past the ring's end.
    pub open spec fn skip_for(self, n: u64) -> int {
        let pos = self.head % self.cap;
        if pos + n > self.cap {
            self.cap - pos
        } else {
            0
        }
    }

    /// `n` contiguous bytes are free.
    pub open spec fn has_room(self, n: u64) -> bool {
        self.cap - (self.head - self.tail) >= self.skip_for(n) + n
    }

    pub open spec fn reserved(self, n: u64) -> RingView {
        RingView { head: (self.head + self.skip_for(n) + n) as u64, ..self }
    }

    /// Where the next `n` bytes go.
    pub open spec fn place(self, n: u64) -> int {
        (self.head + self.skip_for(n)) % (self.cap as int)
    }

    /// Ring byte `b` holds data that may not have been read yet.
    pub open spec fn busy(self, b: int) -> bool {
        exists|p: int| #[trigger] in_use(self, p) && p % (self.cap as int) == b
    }
}

pub open spec fn in_use(v: RingView, p: int) -> bool {
    v.tail <= p < v.head
}

/// A reservation lies within the ring and on no byte that is in use.
pub proof fn law_reservations_hit_no_data_in_use(v: RingView, n: u64)
    requires
        v.wf(),
        n <= v.cap,
        v.has_room(n),
    ensures
        0 <= v.place(n),
        v.place(n) + n <= v.cap,
        forall|b: int| v.place(n) <= b < v.place(n) + n ==> !#[trigger] v.busy(b),
{
    let cap = v.cap as int;
    let start = v.head + v.skip_for(n);
    let at = v.place(n);
    lemma_mod_bound(v.head as int, cap);
    lemma_fundamental_div_mod(v.head as int, cap);
    let q = v.head as int / cap;
    let pos = v.head as int % cap;
    if pos + n > cap {
        assert(start == (q + 1) * cap + 0) by (nonlinear_arith)
            requires
                v.head as int == cap * q + pos,
                start == v.head + (cap - pos),
        ;
        lemma_fundamental_div_mod_converse(start, cap, q + 1, 0);
    }
    assert forall|b: int| at <= b < at + n implies !#[trigger] v.busy(b) by {
        if v.busy(b) {
            let p = choose|p: int| #[trigger] in_use(v, p) && p % cap == b;
            let y = start + (b - at);
            lemma_fundamental_div_mod(start, cap);
            let s = start / cap;
            assert(y == s * cap + b) by (nonlinear_arith)
                requires
                    start == cap * s + at,
                    y == start + (b - at),
            ;
            lemma_fundamental_div_mod_converse(y, cap, s, b);
            lemma_fundamental_div_mod(p, cap);
            let t = p / cap;
            assert(0 < y - p < cap);
            assert(y - p == cap * (s - t)) by (nonlinear_arith)
                requires
                    y == s * cap + b,
                    p == cap * t + b,
            ;
            assert(false) by (nonlinear_arith)
                requires
                    0 < y - p < cap,
                    y - p == cap * (s - t),
            ;
        }
    }
}

/// A ring with nothing in use has room for a part of an upload.
pub proof fn law_empty_ring_has_room(v: RingView, n: u64)
    requires
        v.wf(),
        v.head == v.tail,
        n <= chunk_of(v.cap),
    ensures
        v.has_room(n),
{
    lemma_mod_bound(v.head as int, v.cap as int);
}

/// The batches in flight keep their bytes: retiring frees only what a completed batch used.
pub proof fn law_retiring_keeps_running_batches(v: RingView, completed: u64, i: int)
    requires
        v.wf(),
        0 < i < v.spans.len(),
        v.spans[i].0 > completed,
    ensures
        v.retired(completed).wf(),
        v.retired(completed).tail <= v.spans[i - 1].1 || v.spans[i - 1].0 <= completed,
        v.retired(completed).tail <= v.spans[i].1,
        v.retired(completed).head == v.head,
{
    lemma_retired(v, completed);
    law_done_items_come_first(v.spans, completed);
}

proof fn lemma_retired(v: RingView, completed: u64)
    requires
        v.wf(),
    ensures
        v.retired(completed).wf(),
        done(v.spans, completed) <= v.spans.len(),
        v.tail <= v.retired(completed).tail,
{
    law_done_items_come_first(v.spans, completed);
    let n = done(v.spans, completed) as int;
    let w = v.retired(completed);
    assert forall|i: int, j: int| 0 <= i <= j < w.spans.len() implies (#[trigger] w.spans[i]).0 <= (#[trigger] w.spans[j]).0 && w.spans[i].1
        <= w.spans[j].1 by {
        assert(w.spans[i] == v.spans[i + n] && w.spans[j] == v.spans[j + n]);
    }
    assert forall|i: int| 0 <= i < w.spans.len() implies w.tail <= (#[trigger] w.spans[i]).1 <= w.head by {
        assert(w.spans[i] == v.spans[i + n]);
        if n > 0 {
            assert(v.spans[n - 1].1 <= v.spans[i + n].1);
        }
    }
}

/// What an attempt to reserve came to.
#[derive(Clone, Copy, Debug, PartialEq, Eq, Structural)]
pub enum Reservation {
    /// The ring offset.
    At(u64),
    /// Submit what is pending, then wait for the oldest batch.
    Full,
}

impl View for Ring {
    type V = RingView;

    closed spec fn view(&self) -> RingView {
        RingView { cap: self.cap, head: self.head, tail: self.tail, spans: self.spans@, pending: self.pending }
    }
}

impl Ring {
    pub closed spec fn spec_stats(&self) -> UploadStats {
        self.stats
    }

    pub fn new(cap: u64) -> (r: Ring)
        requires
            cap > 0,
        ensures
            r@.wf(),
            r@ == (RingView { cap, head: 0, tail: 0, spans: Seq::empty(), pending: false }),
            r.spec_stats() == UploadStats::zero(),
    {
        Ring {
            cap,
            head: 0,
            tail: 0,
            spans: VecDeque::new(),
            pending: false,
            stats: UploadStats { bytes: 0, copies: 0, batches: 0, stalls: 0 },
        }
    }

    pub fn stats(&self) -> (r: UploadStats)
        ensures
            r == self.spec_stats(),
    {
        self.stats
    }

    /// Whether a batch is being recorded.
    pub fn is_pending(&self) -> (r: bool)
        ensures
            r == self@.pending,
    {
        self.pending
    }

    /// The largest part an upload is split into.
    pub fn chunk(&self) -> (r: u64)
        ensures
            r == chunk_of(self@.cap),
    {
        if self.cap / 4 > 1 {
            self.cap / 4
        } else {
            1
        }
    }

    /// The timeline value of the oldest batch in flight.
    pub fn oldest(&self) -> (r: Option<u64>)
        ensures
            r == if self@.spans.len() > 0 {
                Some(self@.spans[0].0)
            } else {
                None::<u64>
            },
    {
        if self.spans.len() > 0 {
            Some(self.spans[0].0)
        } else {
            None
        }
    }

    fn retire(&mut self, completed: u64)
        requires
            old(self)@.wf(),
        ensures
            final(self)@ == old(self)@.retired(completed),
            final(self)@.wf(),
            final(self).spec_stats() == old(self).spec_stats(),
    {
        let ghost v = self@;
        let ghost all = v.spans;
        let ghost mut n: int = 0;
        proof {
            law_done_items_come_first(all, completed);
            assert(all.skip(0) =~= all);
        }
        while self.spans.len() > 0 && self.spans[0].0 <= completed
            invariant
                0 <= n <= done(all, completed) <= all.len(),
                all == v.spans,
                self@.spans == all.skip(n),
                forall|i: int| 0 <= i < all.len() ==> ((#[trigger] all[i]).0 <= completed <==> i < done(all, completed)),
                self@ == (RingView {
                    spans: self@.spans,
                    tail: if n > 0 {
                        all[n - 1].1
                    } else {
                        v.tail
                    },
                    ..v
                }),
                self.stats == old(self).stats,
            decreases self@.spans.len(),
        {
            assert(self@.spans[0] == all[n]);
            self.tail = self.spans[0].1;
            let _ = self.spans.pop_front();
            proof {
                n = n + 1;
            }
            assert(self.spans@ =~= all.skip(n));
        }
        proof {
            if n < all.len() {
                assert(self@.spans[0] == all[n]);
            }
            assert(n == done(all, completed));
        }
        if self.spans.len() == 0 && !self.pending {
            self.tail = self.head;
        }
        proof {
            lemma_retired(v, completed);
        }
    }

    /// Reserves `n` contiguous ring bytes, once the batches up to `completed` are done. A full ring
    /// always has a batch to wait for.
    pub fn reserve(&mut self, completed: u64, n: u64) -> (r: Reservation)
        requires
            old(self)@.wf(),
            n <= chunk_of(old(self)@.cap),
            old(self)@.head + old(self)@.cap <= u64::MAX,
        ensures
            final(self)@.wf(),
            final(self).spec_stats() == old(self).spec_stats(),
            ({
                let v = old(self)@.retired(completed);
                match r {
                    Reservation::At(at) => v.has_room(n) && at == v.place(n) && final(self)@ == v.reserved(n),
                    Reservation::Full => !v.has_room(n) && final(self)@ == v && (v.pending || v.spans.len() > 0),
                }
            }),
    {
        self.retire(completed);
        let ghost v = self@;
        let pos: u64 = self.head % self.cap;
        let skip: u64 = if n > self.cap - pos {
            self.cap - pos
        } else {
            0
        };
        let room: u64 = self.cap - (self.head - self.tail);
        if room >= skip && room - skip >= n {
            self.head = self.head + skip;
            let at: u64 = self.head % self.cap;
            self.head = self.head + n;
            Reservation::At(at)
        } else {
            proof {
                if !v.pending && v.spans.len() == 0 {
                    law_empty_ring_has_room(v, n);
                }
            }
            Reservation::Full
        }
    }

    /// A copy of `n` bytes out of the ring was recorded.
    pub fn recorded(&mut self, n: u64)
        requires
            old(self)@.wf(),
            old(self).spec_stats().copies < u64::MAX,
            old(self).spec_stats().bytes + n <= u64::MAX,
        ensures
            final(self)@.wf(),
            final(self)@ == (RingView { pending: true, ..old(self)@ }),
            final(self).spec_stats() == (UploadStats {
                copies: (old(self).spec_stats().copies + 1) as u64,
                bytes: (old(self).spec_stats().bytes + n) as u64,
                ..old(self).spec_stats()
            }),
    {
        self.pending = true;
        self.stats.copies = self.stats.copies + 1;
        self.stats.bytes = self.stats.bytes + n;
    }

    /// The pending batch was handed over for submission, which may fail.
    pub fn taken(&mut self)
        requires
            old(self)@.wf(),
        ensures
            final(self)@.wf(),
            final(self)@ == (RingView { pending: false, ..old(self)@ }),
            final(self).spec_stats() == old(self).spec_stats(),
    {
        self.pending = false;
    }

    /// The batch that was taken will signal `value`.
    pub fn submitted(&mut self, value: u64)
        requires
            old(self)@.wf(),
            old(self)@.spans.len() > 0 ==> old(self)@.spans.last().0 <= value,
            old(self).spec_stats().batches < u64::MAX,
        ensures
            final(self)@.wf(),
            final(self)@ == (RingView { spans: old(self)@.spans.push((value, old(self)@.head)), ..old(self)@ }),
            final(self).spec_stats() == (UploadStats {
                batches: (old(self).spec_stats().batches + 1) as u64,
                ..old(self).spec_stats()
            }),
    {
        let ghost was = self@;
        self.spans.push_back((value, self.head));
        self.stats.batches = self.stats.batches + 1;
        proof {
            let now = self@.spans;
            assert forall|i: int, j: int| 0 <= i <= j < now.len() implies (#[trigger] now[i]).0 <= (#[trigger] now[j]).0 && now[i].1 <= now[j].1 by {
                if j == was.spans.len() && i < j {
                    assert(was.spans[i].0 <= was.spans[j - 1].0);
                }
            }
        }
    }

    /// The host waited for the GPU.
    pub fn stalled(&mut self)
        requires
            old(self)@.wf(),
            old(self).spec_stats().stalls < u64::MAX,
        ensures
            final(self)@ == old(self)@,
            final(self).spec_stats() == (UploadStats { stalls: (old(self).spec_stats().stalls + 1) as u64, ..old(self).spec_stats() }),
    {
        self.stats.stalls = self.stats.stalls + 1;
    }
}

/// Part `i` of `len` bytes split by `chunk`: where it starts, and its length.
pub open spec fn part(len: int, chunk: int, i: int) -> (int, int) {
    (
        i * chunk,
        if len - i * chunk < chunk {
            len - i * chunk
        } else {
            chunk
        },
    )
}

/// How many parts `len` bytes are split into.
pub open spec fn part_count(len: int, chunk: int) -> int {
    (len + chunk - 1) / chunk
}

/// The parts follow one another without a gap, none is empty or longer than `chunk`, and they end
/// where the bytes end.
pub proof fn law_parts_tile_the_bytes(len: int, chunk: int)
    requires
        len >= 0,
        chunk > 0,
    ensures
        forall|i: int| 0 <= i < part_count(len, chunk) ==> 0 < (#[trigger] part(len, chunk, i)).1 <= chunk,
        forall|i: int| 0 <= i < part_count(len, chunk) - 1 ==> (#[trigger] part(len, chunk, i)).0 + part(len, chunk, i).1 == part(len, chunk, i + 1).0,
        len > 0 ==> part_count(len, chunk) > 0 && part(len, chunk, part_count(len, chunk) - 1).0 + part(len, chunk, part_count(len, chunk) - 1).1
            == len,
        len == 0 ==> part_count(len, chunk) == 0,
        len > 0 ==> part(len, chunk, 0).0 == 0,
{
    let n = part_count(len, chunk);
    lemma_fundamental_div_mod(len + chunk - 1, chunk);
    lemma_mod_bound(len + chunk - 1, chunk);
    assert(len <= n * chunk < len + chunk) by (nonlinear_arith)
        requires
            len + chunk - 1 == chunk * n + (len + chunk - 1) % chunk,
            0 <= (len + chunk - 1) % chunk < chunk,
    ;
    assert forall|i: int| 0 <= i < n implies 0 < (#[trigger] part(len, chunk, i)).1 <= chunk by {
        assert(i * chunk < len) by (nonlinear_arith)
            requires
                i <= n - 1,
                n * chunk < len + chunk,
                chunk > 0,
        ;
    }
    assert forall|i: int| 0 <= i < n - 1 implies (#[trigger] part(len, chunk, i)).0 + part(len, chunk, i).1 == part(len, chunk, i + 1).0 by {
        assert((i + 1) * chunk < len) by (nonlinear_arith)
            requires
                i + 1 <= n - 1,
                n * chunk < len + chunk,
                chunk > 0,
        ;
        assert((i + 1) * chunk == i * chunk + chunk) by (nonlinear_arith);
    }
    if len > 0 {
        assert(n > 0) by (nonlinear_arith)
            requires
                len <= n * chunk,
                len > 0,
                chunk > 0,
        ;
        assert((n - 1) * chunk == n * chunk - chunk) by (nonlinear_arith);
    } else {
        assert(n == 0) by (nonlinear_arith)
            requires
                0 <= n * chunk < chunk,
                chunk > 0,
        ;
    }
}

/// The parts of an upload: where each starts, and its length.
pub fn parts(len: usize, chunk: usize) -> (r: Vec<(usize, usize)>)
    requires
        chunk > 0,
    ensures
        r@.len() == part_count(len as int, chunk as int),
        forall|i: int|
            0 <= i < r@.len() ==> ((#[trigger] r@[i]).0 as int, r@[i].1 as int) == part(len as int, chunk as int, i),
{
    let ghost n = part_count(len as int, chunk as int);
    proof {
        law_parts_tile_the_bytes(len as int, chunk as int);
    }
    let mut out: Vec<(usize, usize)> = Vec::new();
    let mut at: usize = 0;
    assert(0 * (chunk as int) == 0) by (nonlinear_arith);
    while at < len
        invariant
            chunk > 0,
            at <= len,
            n == part_count(len as int, chunk as int),
            out@.len() <= n,
            at < len ==> at == out@.len() * chunk && out@.len() < n,
            at == len ==> out@.len() == n,
            forall|i: int|
                0 <= i < out@.len() ==> ((#[trigger] out@[i]).0 as int, out@[i].1 as int) == part(len as int, chunk as int, i),
        decreases len - at,
    {
        let size: usize = if len - at < chunk {
            len - at
        } else {
            chunk
        };
        let ghost k = out@.len() as int;
        proof {
            law_parts_tile_the_bytes(len as int, chunk as int);
            assert(part(len as int, chunk as int, k) == (at as int, size as int));
            if k < n - 1 {
                assert(part(len as int, chunk as int, k).0 + part(len as int, chunk as int, k).1 == part(len as int, chunk as int, k + 1).0);
                assert(part(len as int, chunk as int, k + 1).1 > 0);
            }
        }
        out.push((at, size));
        at += size;
    }
    out
}

/// Where each range of a readback starts in the buffer that takes them all, and how many bytes
/// they take together.
pub fn readback_starts(lens: &[u64]) -> (r: (Vec<u64>, u64))
    requires
        sum(lens@, lens@.len()) <= u64::MAX,
    ensures
        r.0@.len() == lens@.len(),
        forall|i: int| 0 <= i < lens@.len() ==> #[trigger] r.0@[i] == sum(lens@, i as nat),
        r.1 == sum(lens@, lens@.len()),
{
    let mut out: Vec<u64> = Vec::new();
    let mut at: u64 = 0;
    let mut i: usize = 0;
    while i < lens.len()
        invariant
            i <= lens@.len(),
            out@.len() == i,
            at == sum(lens@, i as nat),
            sum(lens@, lens@.len()) <= u64::MAX,
            forall|j: int| 0 <= j < i ==> #[trigger] out@[j] == sum(lens@, j as nat),
        decreases lens@.len() - i,
    {
        proof {
            lemma_sums_grow(lens@, (i + 1) as nat, lens@.len());
        }
        out.push(at);
        at = at + lens[i];
        i += 1;
    }
    (out, at)
}

/// The bytes of each range of a readback.
pub fn split_readback(bytes: &[u8], lens: &[u64]) -> (r: Vec<Vec<u8>>)
    requires
        sum(lens@, lens@.len()) <= bytes@.len(),
    ensures
        r@.len() == lens@.len(),
        forall|i: int|
            0 <= i < lens@.len() ==> (#[trigger] r@[i])@ == bytes@.subrange(sum(lens@, i as nat), sum(lens@, (i + 1) as nat)),
{
    let total: usize = bytes.len();
    let mut out: Vec<Vec<u8>> = Vec::new();
    let mut at: usize = 0;
    let mut i: usize = 0;
    while i < lens.len()
        invariant
            i <= lens@.len(),
            out@.len() == i,
            at == sum(lens@, i as nat),
            sum(lens@, lens@.len()) <= total == bytes@.len(),
            forall|j: int|
                0 <= j < i ==> (#[trigger] out@[j])@ == bytes@.subrange(sum(lens@, j as nat), sum(lens@, (j + 1) as nat)),
        decreases lens@.len() - i,
    {
        proof {
            lemma_sums_grow(lens@, i as nat, (i + 1) as nat);
            lemma_sums_grow(lens@, (i + 1) as nat, lens@.len());
        }
        let len: usize = lens[i] as usize;
        let part = vstd::slice::slice_to_vec(vstd::slice::slice_subrange(bytes, at, at + len));
        out.push(part);
        at = at + len;
        i += 1;
    }
    out
}

/// An upload is split into quarters of the ring, rounded down, and never into nothing.
pub proof fn law_parts_are_a_quarter_of_the_ring(cap: u64)
    ensures
        chunk_of(cap) >= 1,
        cap >= 4 ==> 4 * chunk_of(cap) <= cap < 4 * chunk_of(cap) + 4,
{
}

/// A reservation takes its bytes where the ring stands, or at its start where they would run past its end, and takes
/// them into use.
pub proof fn law_reservations_are_in_use(v: RingView, n: u64, b: int)
    requires
        v.wf(),
        n <= v.cap,
        v.has_room(n),
        v.head + v.cap + n <= u64::MAX,
        v.place(n) <= b < v.place(n) + n,
    ensures
        v.reserved(n).busy(b),
        v.reserved(n).tail == v.tail && v.reserved(n).spans == v.spans,
        v.head % v.cap + n <= v.cap ==> v.place(n) == v.head % v.cap && v.reserved(n).head == v.head + n,
        v.head % v.cap + n > v.cap ==> v.place(n) == 0 && v.reserved(n).head == v.head + (v.cap - v.head % v.cap) + n,
{
    let c = v.cap as int;
    let pos = v.head as int % c;
    let start = v.head + v.skip_for(n);
    vstd::arithmetic::div_mod::lemma_mod_bound(v.head as int, c);
    vstd::arithmetic::div_mod::lemma_fundamental_div_mod(v.head as int, c);
    let q = v.head as int / c;
    if pos + n > c {
        assert(c * (q + 1) == c * q + c) by (nonlinear_arith);
        assert(start == c * (q + 1));
        vstd::arithmetic::div_mod::lemma_mod_multiples_basic(q + 1, c);
        assert(c * (q + 1) == (q + 1) * c) by (nonlinear_arith);
        lemma_offset_mod(q + 1, c, b);
        assert(in_use(v.reserved(n), c * (q + 1) + b));
    } else {
        assert(start == c * q + pos);
        lemma_offset_mod(q, c, b);
        assert(in_use(v.reserved(n), c * q + b));
    }
}

proof fn lemma_offset_mod(q: int, c: int, b: int)
    requires
        0 <= b < c,
    ensures
        (c * q + b) % c == b,
{
    vstd::arithmetic::div_mod::lemma_mod_multiples_vanish(q, b, c);
    vstd::arithmetic::div_mod::lemma_small_mod(b as nat, c as nat);
}

/// There is room exactly when the bytes fit in front of the ring's end or else at its start, without reaching what is
/// in use.
pub proof fn law_room_is_told_exactly(v: RingView, n: u64)
    requires
        v.wf(),
        n <= v.cap,
    ensures
        ({
            let free = v.cap - (v.head - v.tail);
            let to_end = v.cap - v.head % v.cap;
            v.has_room(n) <==> if n <= to_end {
                n <= free
            } else {
                to_end + n <= free
            }
        }),
{
}

/// Retiring frees the bytes up to the end of the last batch that is done, and all of them where no batch is left and
/// none is being filled.
pub proof fn law_retiring_frees_what_is_done(v: RingView, completed: u64)
    requires
        v.wf(),
    ensures
        ({
            let all = forall|i: int| 0 <= i < v.spans.len() ==> (#[trigger] v.spans[i]).0 <= completed;
            let r = v.retired(completed);
            &&& r.head == v.head && r.cap == v.cap && r.pending == v.pending
            &&& all ==> r.spans.len() == 0
            &&& all && !v.pending ==> r.tail == v.head
            &&& all && v.pending && v.spans.len() > 0 ==> r.tail == v.spans.last().1
            &&& v.pending && v.spans.len() == 0 ==> r.tail == v.tail
        }),
        forall|i: int|
            0 <= i < v.spans.len() && (#[trigger] v.spans[i]).0 > completed && (i == 0 || v.spans[i - 1].0 <= completed) ==> v.retired(completed).spans
                == v.spans.skip(i) && v.retired(completed).tail == if i == 0 {
                v.tail
            } else {
                v.spans[i - 1].1
            },
{
    law_done_items_come_first(v.spans, completed);
    let n = done(v.spans, completed);
    assert forall|i: int|
        0 <= i < v.spans.len() && (#[trigger] v.spans[i]).0 > completed && (i == 0 || v.spans[i - 1].0 <= completed) implies v.retired(completed).spans
        == v.spans.skip(i) && v.retired(completed).tail == if i == 0 {
        v.tail
    } else {
        v.spans[i - 1].1
    } by {
        if i > 0 {
            assert(v.spans[i - 1].0 <= completed);
        }
        assert(n == i);
    }
    if forall|i: int| 0 <= i < v.spans.len() ==> (#[trigger] v.spans[i]).0 <= completed {
        if n < v.spans.len() {
            assert(v.spans[n as int].0 <= completed);
        }
    }
}

} // verus!
