//! Little-endian words in byte images, and rounding to alignments.
use vstd::arithmetic::power2::pow2;
use vstd::prelude::*;

verus! {

pub open spec fn le16(x: u16) -> Seq<u8> {
    seq![(x % 256) as u8, (x / 256) as u8]
}

pub open spec fn le32(x: u32) -> Seq<u8> {
    seq![(x % 256) as u8, (x / 256 % 256) as u8, (x / 65536 % 256) as u8, (x / 16777216) as u8]
}

pub open spec fn le64(x: u64) -> Seq<u8> {
    le32((x % 4294967296) as u32) + le32((x / 4294967296) as u32)
}

/// The number that four bytes hold.
pub open spec fn of_le32(b: Seq<u8>) -> int {
    b[0] + 256 * b[1] + 65536 * b[2] + 16777216 * b[3]
}

/// Reading gives back what was written.
pub proof fn law_le32_round_trips(x: u32)
    ensures
        le32(x).len() == 4,
        of_le32(le32(x)) == x,
{
}

pub fn push_u16(out: &mut Vec<u8>, x: u16)
    ensures
        final(out)@ == old(out)@ + le16(x),
{
    out.push((x % 256) as u8);
    out.push((x / 256) as u8);
    assert(out@ =~= old(out)@ + le16(x));
}

pub fn push_u32(out: &mut Vec<u8>, x: u32)
    ensures
        final(out)@ == old(out)@ + le32(x),
{
    out.push((x % 256) as u8);
    out.push((x / 256 % 256) as u8);
    out.push((x / 65536 % 256) as u8);
    out.push((x / 16777216) as u8);
    assert(out@ =~= old(out)@ + le32(x));
}

pub fn push_u64(out: &mut Vec<u8>, x: u64)
    ensures
        final(out)@ == old(out)@ + le64(x),
{
    push_u32(out, (x % 4294967296) as u32);
    push_u32(out, (x / 4294967296) as u32);
    assert(out@ =~= old(out)@ + le64(x));
}

/// Fills with zeros up to `end` bytes.
pub fn pad_to(out: &mut Vec<u8>, end: usize)
    requires
        old(out)@.len() <= end,
    ensures
        final(out)@ == padded(old(out)@, end as nat),
{
    let ghost before = out@;
    while out.len() < end
        invariant
            before.len() <= out@.len() <= end,
            out@ =~= before + Seq::new((out@.len() - before.len()) as nat, |i: int| 0u8),
        decreases end - out@.len(),
    {
        out.push(0);
    }
    assert(out@ =~= padded(before, end as nat));
}

/// `s`, then zeros up to `end` bytes.
pub open spec fn padded(s: Seq<u8>, end: nat) -> Seq<u8> {
    s + Seq::new((end - s.len()) as nat, |i: int| 0u8)
}

/// The word at byte `o`.
pub fn u32_at(b: &[u8], o: usize) -> (r: u32)
    requires
        o + 4 <= b@.len(),
    ensures
        r == of_le32(b@.subrange(o as int, o + 4)),
{
    let (b0, b1, b2, b3) = (b[o] as u32, b[o + 1] as u32, b[o + 2] as u32, b[o + 3] as u32);
    b0 + 256 * b1 + 65536 * b2 + 16777216 * b3
}

/// The word of two bytes at byte `o`.
pub fn u16_at(b: &[u8], o: usize) -> (r: u16)
    requires
        o + 2 <= b@.len(),
    ensures
        r == b@[o as int] + 256 * b@[o + 1],
{
    let (b0, b1) = (b[o] as u16, b[o + 1] as u16);
    b0 + 256 * b1
}

/// `a` is a power of two.
pub open spec fn power_of_two(a: int) -> bool {
    exists|n: nat| a == #[trigger] pow2(n)
}

/// The least multiple of `a` that is at least `x`.
pub open spec fn round_up(x: int, a: int) -> int {
    (x + a - 1) / a * a
}

pub proof fn lemma_round_up(x: int, a: int)
    requires
        a > 0,
        x >= 0,
    ensures
        round_up(x, a) % a == 0,
        x <= round_up(x, a) < x + a,
        x % a == 0 ==> round_up(x, a) == x,
{
    let q = (x + a - 1) / a;
    let r = (x + a - 1) % a;
    vstd::arithmetic::div_mod::lemma_fundamental_div_mod(x + a - 1, a);
    vstd::arithmetic::div_mod::lemma_mod_pos_bound(x + a - 1, a);
    assert(q * a == a * q) by (nonlinear_arith);
    vstd::arithmetic::div_mod::lemma_mod_multiples_basic(q, a);
    if x % a == 0 {
        vstd::arithmetic::div_mod::lemma_fundamental_div_mod(x, a);
        let p = x / a;
        assert(x + a - 1 == a * p + (a - 1));
        vstd::arithmetic::div_mod::lemma_fundamental_div_mod_converse(x + a - 1, a, p, a - 1);
        assert(q == p);
    }
}

pub fn align_up(x: u64, a: u64) -> (r: u64)
    requires
        a > 0,
        x + a - 1 <= u64::MAX,
    ensures
        r == round_up(x as int, a as int),
{
    proof {
        lemma_round_up(x as int, a as int);
    }
    (x + (a - 1)) / a * a
}

/// The least multiple of `a` at or above `x`.
pub fn next_multiple(x: u64, a: u64) -> (r: u64)
    requires
        a > 0,
        round_up(x as int, a as int) <= u64::MAX,
    ensures
        r == round_up(x as int, a as int),
{
    proof {
        lemma_round_up(x as int, a as int);
    }
    let over: u64 = x % a;
    if over == 0 {
        x
    } else {
        proof {
            let (xi, ai) = (x as int, a as int);
            vstd::arithmetic::div_mod::lemma_fundamental_div_mod(xi, ai);
            let q = xi / ai;
            assert(xi + ai - 1 == (q + 1) * ai + (over - 1)) by (nonlinear_arith)
                requires
                    xi == ai * q + over,
            ;
            vstd::arithmetic::div_mod::lemma_fundamental_div_mod_converse(xi + ai - 1, ai, q + 1, over - 1);
            assert((q + 1) * ai == xi + (ai - over)) by (nonlinear_arith)
                requires
                    xi == ai * q + over,
            ;
        }
        x + (a - over)
    }
}

/// The sum of the first `n` numbers.
pub open spec fn sum(s: Seq<u64>, n: nat) -> int
    decreases n,
{
    if n == 0 {
        0
    } else {
        sum(s, (n - 1) as nat) + s[n - 1]
    }
}

pub proof fn lemma_sums_grow(s: Seq<u64>, i: nat, j: nat)
    requires
        i <= j <= s.len(),
    ensures
        0 <= sum(s, i) <= sum(s, j),
    decreases j,
{
    if i < j {
        lemma_sums_grow(s, i, (j - 1) as nat);
    } else if i > 0 {
        lemma_sums_grow(s, (i - 1) as nat, (i - 1) as nat);
    }
}

pub fn total(s: &[u64]) -> (r: u64)
    requires
        sum(s@, s@.len()) <= u64::MAX,
    ensures
        r == sum(s@, s@.len()),
{
    let mut at: u64 = 0;
    let mut i: usize = 0;
    while i < s.len()
        invariant
            i <= s@.len(),
            at == sum(s@, i as nat),
            sum(s@, s@.len()) <= u64::MAX,
        decreases s@.len() - i,
    {
        proof {
            lemma_sums_grow(s@, (i + 1) as nat, s@.len());
        }
        at = at + s[i];
        i += 1;
    }
    at
}

/// How many groups of `g` cover `n`.
pub open spec fn group_count(n: int, g: int) -> int {
    (n + g - 1) / g
}

/// How many groups of `g` cover `n`.
pub fn groups_of(n: u32, g: u32) -> (r: u32)
    requires
        0 < g,
    ensures
        r == group_count(n as int, g as int),
{
    let r: u64 = (n as u64 + (g as u64 - 1)) / (g as u64);
    proof {
        let (ni, gi) = (n as int, g as int);
        vstd::arithmetic::div_mod::lemma_fundamental_div_mod(ni + gi - 1, gi);
        vstd::arithmetic::div_mod::lemma_mod_bound(ni + gi - 1, gi);
        let q = (ni + gi - 1) / gi;
        assert(q <= ni) by (nonlinear_arith)
            requires
                ni + gi - 1 == gi * q + (ni + gi - 1) % gi,
                (ni + gi - 1) % gi >= 0,
                gi >= 1,
                ni >= 0,
                q >= 0 || q < 0,
        ;
    }
    r as u32
}

/// A number is that of its bytes as digits to the base 256, low first, and four bytes hold the number of those digits.
pub proof fn law_bytes_are_digits_low_first(x: u16, y: u32, b: Seq<u8>)
    ensures
        le16(x).len() == 2 && x == le16(x)[0] + 256 * le16(x)[1],
        le32(y).len() == 4 && y == le32(y)[0] + 256 * (le32(y)[1] + 256 * (le32(y)[2] + 256 * le32(y)[3])),
        of_le32(b) == b[0] + 256 * (b[1] + 256 * (b[2] + 256 * b[3])),
{
    lemma_digits(y);
}

proof fn lemma_digits(y: u32)
    ensures
        le32(y).len() == 4,
        y == le32(y)[0] + 256 * le32(y)[1] + 65536 * le32(y)[2] + 16777216 * le32(y)[3],
{
}

proof fn lemma_two_words(a: Seq<u8>, b: Seq<u8>)
    requires
        a.len() == 4,
        b.len() == 4,
    ensures
        (a + b).len() == 8,
        (a + b)[0] == a[0] && (a + b)[1] == a[1] && (a + b)[2] == a[2] && (a + b)[3] == a[3],
        (a + b)[4] == b[0] && (a + b)[5] == b[1] && (a + b)[6] == b[2] && (a + b)[7] == b[3],
{
}

/// The same holds of eight bytes: four of the low word, then four of the high one.
pub proof fn law_eight_bytes_are_two_words(z: u64)
    ensures
        le64(z).len() == 8,
        ({
            let b = le64(z);
            let low = b[0] + 256 * b[1] + 65536 * b[2] + 16777216 * b[3];
            let high = b[4] + 256 * b[5] + 65536 * b[6] + 16777216 * b[7];
            z == low + 0x1_0000_0000 * high
        }),
{
    let (lo, hi) = ((z % 4294967296) as u32, (z / 4294967296) as u32);
    lemma_digits(lo);
    lemma_digits(hi);
    lemma_two_words(le32(lo), le32(hi));
    assert(z == lo + 0x1_0000_0000 * hi);
}

/// The groups of `g` cover `n`, and one fewer would not.
pub proof fn law_groups_are_the_fewest_that_cover(n: int, g: int)
    requires
        n >= 0,
        g > 0,
    ensures
        group_count(n, g) * g >= n,
        n > 0 ==> (group_count(n, g) - 1) * g < n,
        n == 0 ==> group_count(n, g) == 0,
{
    lemma_round_up(n, g);
    let r = group_count(n, g);
    assert((r - 1) * g == r * g - g) by (nonlinear_arith);
    if n == 0 {
        vstd::arithmetic::div_mod::lemma_basic_div(g - 1, g);
    }
}

/// Padding keeps what there is and adds zeros up to the end.
pub proof fn law_padding_adds_zeros(s: Seq<u8>, end: nat, i: int)
    requires
        s.len() <= end,
    ensures
        padded(s, end).len() == end,
        padded(s, end).take(s.len() as int) == s,
        s.len() <= i < end ==> padded(s, end)[i] == 0,
{
    assert(padded(s, end).take(s.len() as int) =~= s);
}

/// Sums go item by item, and add up over two lists.
pub proof fn law_sums_add_up(s: Seq<u64>, t: Seq<u64>)
    ensures
        sum(s + t, (s + t).len()) == sum(s, s.len()) + sum(t, t.len()),
        s.len() == 1 ==> sum(s, 1) == s[0],
    decreases t.len(),
{
    reveal_with_fuel(sum, 2);
    if t.len() > 0 {
        let (u, last) = (t.drop_last(), t.last());
        law_sums_add_up(s, u);
        assert((s + t).drop_last() =~= s + u);
        lemma_same_sums(s + t, s + u, (s + u).len());
        lemma_same_sums(t, u, u.len());
    } else {
        assert(s + t =~= s);
    }
}

proof fn lemma_same_sums(a: Seq<u64>, b: Seq<u64>, n: nat)
    requires
        n <= a.len(),
        n <= b.len(),
        forall|i: int| 0 <= i < n ==> a[i] == b[i],
    ensures
        sum(a, n) == sum(b, n),
    decreases n,
{
    if n > 0 {
        lemma_same_sums(a, b, (n - 1) as nat);
    }
}

} // verus!
