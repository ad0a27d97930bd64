//! Timestamps per pass: which queries a frame slot owns, and how long a pass took in ticks.
use vstd::arithmetic::div_mod::{lemma_mod_multiples_vanish, lemma_small_mod, lemma_sub_mod_noop};
use vstd::arithmetic::power2::{lemma2_to64, lemma2_to64_rest, lemma_pow2_adds, lemma_pow2_pos, pow2};
use vstd::bits::{lemma_u64_low_bits_mask_is_mod, lemma_u64_pow2_no_overflow, lemma_u64_shl_is_mul};
use vstd::prelude::*;

verus! {

/// How far a counter of `bits` valid bits counts before it starts again.
pub open spec fn period(bits: u32) -> int {
    pow2(
        if bits >= 64 {
            64
        } else {
            bits as nat
        },
    ) as int
}

/// The mask of a counter's valid bits.
pub fn valid_mask(bits: u32) -> (r: u64)
    ensures
        r == period(bits) - 1,
{
    proof {
        lemma2_to64();
        lemma2_to64_rest();
    }
    if bits >= 64 {
        u64::MAX
    } else {
        let shift: u64 = bits as u64;
        proof {
            lemma_u64_pow2_no_overflow(shift as nat);
            lemma_pow2_pos(shift as nat);
            assert(1 * pow2(shift as nat) == pow2(shift as nat));
            lemma_u64_shl_is_mul(1, shift);
        }
        (1u64 << shift) - 1
    }
}

proof fn lemma_mask(w: u64, bits: u32, mask: u64)
    requires
        mask == period(bits) - 1,
    ensures
        w & mask == w as int % period(bits),
{
    lemma2_to64();
    lemma2_to64_rest();
    if bits >= 64 {
        assert(w & 0xffff_ffff_ffff_ffff == w) by (bit_vector);
        lemma_small_mod(w as nat, pow2(64));
    } else {
        lemma_u64_low_bits_mask_is_mod(w, bits as nat);
        lemma_u64_pow2_no_overflow(bits as nat);
    }
}

/// The ticks from one stamp to the next, counted modulo the counter's period.
pub fn ticks(begin: u64, end: u64, bits: u32) -> (r: u64)
    ensures
        r == (end - begin) % period(bits),
{
    let mask: u64 = valid_mask(bits);
    let a: u64 = begin & mask;
    let b: u64 = end & mask;
    let d: u64 = b.wrapping_sub(a);
    let r: u64 = d & mask;
    proof {
        let m = period(bits);
        lemma_mask(begin, bits, mask);
        lemma_mask(end, bits, mask);
        lemma_mask(d, bits, mask);
        lemma2_to64();
        lemma2_to64_rest();
        lemma_pow2_pos(
            if bits >= 64 {
                64
            } else {
                bits as nat
            },
        );
        lemma_sub_mod_noop(end as int, begin as int, m);
        if b < a {
            let k = 18446744073709551616int;
            assert(d == b - a + k);
            let n: nat = if bits >= 64 {
                0
            } else {
                (64 - bits) as nat
            };
            lemma_pow2_adds(
                if bits >= 64 {
                    64
                } else {
                    bits as nat
                },
                n,
            );
            assert(k == m * pow2(n));
            lemma_mod_multiples_vanish(pow2(n) as int, b - a, m);
        }
    }
    r
}

/// A pass that lasted less than one period of the counter is timed exactly, though the counter
/// started again meanwhile.
pub proof fn law_ticks_survive_a_wrap(begin: u64, end: u64, bits: u32, start: int, elapsed: int)
    requires
        0 <= start,
        0 <= elapsed < period(bits),
        begin == start % period(bits),
        end == (start + elapsed) % period(bits),
    ensures
        (end - begin) % period(bits) == elapsed,
{
    let m = period(bits);
    lemma_pow2_pos(
        if bits >= 64 {
            64
        } else {
            bits as nat
        },
    );
    lemma_sub_mod_noop(start + elapsed, start, m);
    lemma_small_mod(elapsed as nat, m as nat);
}

/// The timestamp queries of some frame slots, two for each pass of each slot.
pub struct GpuTimer {
    slots: u32,
    passes: u32,
    /// Slot has been written by a submitted frame.
    written: Vec<bool>,
    bits: u32,
}

impl GpuTimer {
    pub closed spec fn spec_slots(&self) -> u32 {
        self.slots
    }

    pub closed spec fn spec_passes(&self) -> u32 {
        self.passes
    }

    pub closed spec fn spec_bits(&self) -> u32 {
        self.bits
    }

    pub closed spec fn spec_written(&self) -> Seq<bool> {
        self.written@
    }

    pub open spec fn wf(&self) -> bool {
        &&& self.spec_slots() * self.spec_passes() * 2 <= u32::MAX
        &&& self.spec_passes() * 2 <= u32::MAX
        &&& self.spec_written().len() == self.spec_slots()
    }

    /// The first query of a slot.
    pub open spec fn first(&self, slot: u32) -> int {
        slot * self.spec_passes() * 2
    }

    pub fn new(slots: u32, passes: u32, bits: u32) -> (r: GpuTimer)
        requires
            slots * passes * 2 <= u32::MAX,
            passes * 2 <= u32::MAX,
        ensures
            r.wf(),
            r.spec_slots() == slots,
            r.spec_passes() == passes,
            r.spec_bits() == bits,
            r.spec_written() == Seq::new(slots as nat, |i: int| false),
    {
        let mut written: Vec<bool> = Vec::new();
        let mut i: u32 = 0;
        while i < slots
            invariant
                i <= slots,
                written@ == Seq::new(i as nat, |k: int| false),
            decreases slots - i,
        {
            written.push(false);
            i += 1;
        }
        GpuTimer { slots, passes, written, bits }
    }

    /// The size of the query pool.
    pub fn queries(&self) -> (r: u32)
        requires
            self.wf(),
        ensures
            r == self.spec_slots() * self.spec_passes() * 2,
    {
        assert(self.slots * self.passes <= u32::MAX);
        self.slots * self.passes * 2
    }

    fn base(&self, slot: u32) -> (r: u32)
        requires
            self.wf(),
            slot < self.spec_slots(),
        ensures
            r == self.first(slot),
            r + 2 * self.spec_passes() <= self.spec_slots() * self.spec_passes() * 2,
    {
        assert(slot * self.passes + self.passes <= self.slots * self.passes) by (nonlinear_arith)
            requires
                slot < self.slots,
        ;
        slot * self.passes * 2
    }

    /// Marks the slot as written and returns the queries to reset: the first, and how many. Once per
    /// frame, before the slot's first pass.
    pub fn reset(&mut self, slot: u32) -> (r: (u32, u32))
        requires
            old(self).wf(),
            slot < old(self).spec_slots(),
        ensures
            final(self).wf(),
            r.0 == old(self).first(slot),
            r.1 == 2 * old(self).spec_passes(),
            final(self).spec_written() == old(self).spec_written().update(slot as int, true),
            final(self).spec_slots() == old(self).spec_slots(),
            final(self).spec_passes() == old(self).spec_passes(),
            final(self).spec_bits() == old(self).spec_bits(),
    {
        self.written.set(slot as usize, true);
        (self.base(slot), self.passes * 2)
    }

    /// The query that begins pass `pass`.
    pub fn begin_pass(&self, slot: u32, pass: u32) -> (r: u32)
        requires
            self.wf(),
            slot < self.spec_slots(),
            pass < self.spec_passes(),
        ensures
            r == self.first(slot) + 2 * pass,
            r < self.spec_slots() * self.spec_passes() * 2,
    {
        self.base(slot) + 2 * pass
    }

    /// The query that ends pass `pass`.
    pub fn end_pass(&self, slot: u32, pass: u32) -> (r: u32)
        requires
            self.wf(),
            slot < self.spec_slots(),
            pass < self.spec_passes(),
        ensures
            r == self.first(slot) + 2 * pass + 1,
            r < self.spec_slots() * self.spec_passes() * 2,
    {
        self.base(slot) + 2 * pass + 1
    }

    /// Where the slot's stamps stand, the first query and how many, or `None` if the slot has not been
    /// written yet.
    pub fn stamps(&self, slot: u32) -> (r: Option<(u32, u32)>)
        requires
            self.wf(),
            slot < self.spec_slots(),
        ensures
            match r {
                Some((first, n)) => self.spec_written()[slot as int] && first == self.first(slot) && n == 2 * self.spec_passes(),
                None => !self.spec_written()[slot as int],
            },
    {
        if self.written[slot as usize] {
            Some((self.base(slot), self.passes * 2))
        } else {
            None
        }
    }

    /// Every pass's duration in ticks, of a slot's stamps.
    pub fn durations(&self, stamps: &[u64]) -> (r: Vec<u64>)
        requires
            self.wf(),
            stamps@.len() == 2 * self.spec_passes(),
        ensures
            r@.len() == self.spec_passes(),
            forall|p: int|
                0 <= p < r@.len() ==> #[trigger] r@[p] == (stamps@[2 * p + 1] - stamps@[2 * p]) % period(self.spec_bits()),
    {
        let n: usize = stamps.len() / 2;
        let mut out: Vec<u64> = Vec::new();
        let mut i: usize = 0;
        while i < n
            invariant
                stamps@.len() == 2 * n,
                stamps@.len() <= usize::MAX,
                i <= n,
                out@.len() == i,
                forall|p: int| 0 <= p < i ==> #[trigger] out@[p] == (stamps@[2 * p + 1] - stamps@[2 * p]) % period(self.spec_bits()),
            decreases n - i,
        {
            out.push(ticks(stamps[2 * i], stamps[2 * i + 1], self.bits));
            i += 1;
        }
        out
    }
}

/// No two stamps of a timer share a query.
pub proof fn law_queries_stay_apart(t: &GpuTimer, s1: u32, p1: u32, s2: u32, p2: u32)
    requires
        t.wf(),
        s1 < t.spec_slots(),
        s2 < t.spec_slots(),
        p1 < t.spec_passes(),
        p2 < t.spec_passes(),
        s1 != s2 || p1 != p2,
    ensures
        t.first(s1) + 2 * p1 != t.first(s2) + 2 * p2,
        t.first(s1) + 2 * p1 + 1 != t.first(s2) + 2 * p2 + 1,
        t.first(s1) + 2 * p1 != t.first(s2) + 2 * p2 + 1,
{
    let n = t.spec_passes() as int;
    if s1 < s2 {
        assert(s1 * n + n <= s2 * n) by (nonlinear_arith)
            requires
                s1 < s2,
                n >= 0,
        ;
    } else if s2 < s1 {
        assert(s2 * n + n <= s1 * n) by (nonlinear_arith)
            requires
                s2 < s1,
                n >= 0,
        ;
    }
}

/// The slots take the queries in turn from the first on, two for each pass, and stay within those that were made.
pub proof fn law_slots_take_queries_in_turn(t: &GpuTimer, slot: u32, pass: u32)
    requires
        t.wf(),
        slot < t.spec_slots(),
        pass < t.spec_passes(),
    ensures
        t.first(0) == 0,
        slot + 1 < t.spec_slots() ==> t.first((slot + 1) as u32) == t.first(slot) + 2 * t.spec_passes(),
        0 <= t.first(slot) + 2 * pass,
        t.first(slot) + 2 * pass + 1 < 2 * (t.spec_slots() * t.spec_passes()),
{
    let (s, p, n) = (slot as int, t.spec_passes() as int, t.spec_slots() as int);
    assert((s + 1) * p == s * p + p) by (nonlinear_arith);
    assert((s + 1) * p <= n * p) by (nonlinear_arith)
        requires
            s + 1 <= n,
            p >= 0,
    ;
    assert(s * p >= 0) by (nonlinear_arith)
        requires
            s >= 0,
            p >= 0,
    ;
    assert(0 * p == 0);
}

/// Every valid bit doubles how far a counter counts, up to 64 of them.
pub proof fn law_every_bit_doubles_the_period(bits: u32)
    ensures
        period(0) == 1,
        bits < 64 ==> period((bits + 1) as u32) == 2 * period(bits),
        bits >= 64 ==> period(bits) == 0x1_0000_0000 * 0x1_0000_0000,
{
    lemma2_to64();
    lemma2_to64_rest();
    if bits < 64 {
        lemma_pow2_adds(1, bits as nat);
    } else {
        lemma_pow2_adds(32, 32);
    }
}

} // verus!
