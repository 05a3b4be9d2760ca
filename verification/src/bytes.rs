//! Byte strings read as big-endian unsigned numbers.

use vstd::prelude::*;

verus! {

/// The unsigned value of `s`, most significant byte first.
pub open spec fn be_value(s: Seq<u8>) -> nat
    decreases s.len(),
{
    if s.len() == 0 {
        0
    } else {
        be_value(s.drop_last()) * 256 + s.last() as nat
    }
}

/// The digits of `n` in base 256, most significant first, without leading zeros
/// (empty for zero).
pub open spec fn be_digits(n: nat) -> Seq<u8>
    decreases n,
{
    if n == 0 {
        Seq::empty()
    } else {
        be_digits(n / 256).push((n % 256) as u8)
    }
}

/// The `width` big-endian bytes of `n` modulo 256^`width`.
pub open spec fn be_fixed(width: nat, n: nat) -> Seq<u8>
    decreases width,
{
    if width == 0 {
        Seq::empty()
    } else {
        be_fixed((width - 1) as nat, n / 256).push((n % 256) as u8)
    }
}

/// The `width` big-endian bytes of `n` modulo 256^`width`.
pub fn be_fixed_bytes(n: u128, width: usize) -> (r: Vec<u8>)
    ensures
        r@ == be_fixed(width as nat, n as nat),
{
    let mut le: Vec<u8> = Vec::new();
    let mut x = n;
    let mut k: usize = 0;
    while k < width
        invariant
            k <= width,
            be_fixed(width as nat, n as nat) == be_fixed((width - k) as nat, x as nat) + le@.reverse(),
        decreases width - k,
    {
        let ghost before = le@;
        assert(be_fixed((width - k) as nat, x as nat) == be_fixed((width - k - 1) as nat, (x / 256) as nat).push((x % 256) as u8));
        le.push((x % 256) as u8);
        assert(le@.reverse() =~= seq![(x % 256) as u8] + before.reverse());
        assert(be_fixed((width - k - 1) as nat, (x / 256) as nat).push((x % 256) as u8) + before.reverse()
            =~= be_fixed((width - k - 1) as nat, (x / 256) as nat) + le@.reverse());
        x = x / 256;
        k = k + 1;
    }
    assert(be_fixed(0, x as nat) + le@.reverse() =~= le@.reverse());
    reversed(&le)
}

/// The shortest big-endian encoding of `n`: a single zero byte for zero.
pub open spec fn be_min(n: nat) -> Seq<u8> {
    if n == 0 {
        seq![0u8]
    } else {
        be_digits(n)
    }
}

/// `n` zero bytes.
pub open spec fn zeros(n: nat) -> Seq<u8> {
    Seq::new(n, |i: int| 0u8)
}

/// `m` brought to exactly `width` bytes: its last `width` bytes when it is
/// longer, left-padded with zeros when it is shorter.
pub open spec fn fit(m: Seq<u8>, width: nat) -> Seq<u8> {
    if m.len() > width {
        m.subrange(m.len() - width, m.len() as int)
    } else {
        zeros((width - m.len()) as nat) + m
    }
}

/// 256 to the power `n`.
pub open spec fn pow256(n: nat) -> nat
    decreases n,
{
    if n == 0 {
        1
    } else {
        256 * pow256((n - 1) as nat)
    }
}

pub proof fn lemma_pow256_positive(n: nat)
    ensures
        pow256(n) >= 1,
    decreases n,
{
    if n > 0 {
        lemma_pow256_positive((n - 1) as nat);
    }
}

/// A big-endian value is below 256 to the power of its length.
pub proof fn lemma_be_value_bound(s: Seq<u8>)
    ensures
        be_value(s) < pow256(s.len()),
    decreases s.len(),
{
    if s.len() > 0 {
        let d = s.drop_last();
        lemma_be_value_bound(d);
        let x = be_value(d);
        let p = pow256(d.len());
        let l = s.last() as nat;
        assert(x * 256 + l < 256 * p) by (nonlinear_arith)
            requires
                x < p,
                l < 256,
        ;
    }
}

/// The value of at most sixteen big-endian bytes.
pub fn be_u128(s: &[u8]) -> (r: u128)
    requires
        s@.len() <= 16,
    ensures
        r == be_value(s@),
{
    let mut acc: u128 = 0;
    let mut k: usize = 0;
    while k < s.len()
        invariant
            k <= s@.len() <= 16,
            acc == be_value(s@.subrange(0, k as int)),
        decreases s@.len() - k,
    {
        let ghost t = s@.subrange(0, k as int + 1);
        assert(t.drop_last() =~= s@.subrange(0, k as int));
        proof {
            lemma_be_value_bound(s@.subrange(0, k as int));
            assert(pow256(k as nat) <= pow256(15)) by {
                lemma_pow256_monotone(k as nat, 15);
            }
            assert(pow256(15) == 0x1_0000_0000_0000_0000_0000_0000_0000_00) by {
                reveal_with_fuel(pow256, 16);
            }
        }
        acc = acc * 256 + s[k] as u128;
        k = k + 1;
    }
    assert(s@.subrange(0, k as int) =~= s@);
    acc
}

pub proof fn lemma_pow256_monotone(a: nat, b: nat)
    requires
        a <= b,
    ensures
        pow256(a) <= pow256(b),
    decreases b,
{
    if a < b {
        lemma_pow256_monotone(a, (b - 1) as nat);
        lemma_pow256_positive((b - 1) as nat);
    }
}

/// The value of a concatenation: the first part shifted past the second.
pub proof fn lemma_be_value_append(a: Seq<u8>, b: Seq<u8>)
    ensures
        be_value(a + b) == be_value(a) * pow256(b.len()) + be_value(b),
    decreases b.len(),
{
    if b.len() == 0 {
        assert(a + b =~= a);
        assert(pow256(0) == 1);
        assert(be_value(b) == 0);
        assert(be_value(a) * 1 == be_value(a));
    } else {
        let b2 = b.drop_last();
        lemma_be_value_append(a, b2);
        assert((a + b).drop_last() =~= a + b2);
        assert((a + b).last() == b.last());
        let x = be_value(a);
        let p = pow256(b2.len());
        let y = be_value(b2);
        let l = b.last() as nat;
        assert(be_value(a + b) == be_value(a + b2) * 256 + l);
        assert(be_value(b) == y * 256 + l);
        assert(pow256(b.len()) == 256 * p);
        assert((x * p + y) * 256 + l == x * (256 * p) + (y * 256 + l)) by (nonlinear_arith);
        assert(be_value(a + b) == x * pow256(b.len()) + be_value(b));
    }
}

/// Leading zero bytes do not change a value.
pub proof fn lemma_be_value_zeros(n: nat, m: Seq<u8>)
    ensures
        be_value(zeros(n) + m) == be_value(m),
        be_value(zeros(n)) == 0,
    decreases n,
{
    if n > 0 {
        lemma_be_value_zeros((n - 1) as nat, Seq::empty());
        assert(zeros(n).drop_last() =~= zeros((n - 1) as nat));
        assert(zeros((n - 1) as nat) + Seq::<u8>::empty() =~= zeros((n - 1) as nat));
        assert(zeros(n).last() == 0);
        assert(be_value(zeros(n)) == be_value(zeros((n - 1) as nat)) * 256 + 0);
    } else {
        assert(zeros(0) =~= Seq::<u8>::empty());
    }
    lemma_be_value_append(zeros(n), m);
    assert(0 * pow256(m.len()) == 0);
}

/// The base-256 digits of `n` encode `n`.
pub proof fn lemma_be_digits_value(n: nat)
    ensures
        be_value(be_digits(n)) == n,
    decreases n,
{
    if n > 0 {
        lemma_be_digits_value(n / 256);
        assert(be_digits(n).drop_last() =~= be_digits(n / 256));
    }
}

/// Decoding the shortest encoding of a number gives the number back.
pub proof fn law_be_min_roundtrip(n: nat)
    ensures
        be_value(be_min(n)) == n,
        be_min(n).len() >= 1,
{
    if n == 0 {
        assert(seq![0u8].drop_last() =~= Seq::<u8>::empty());
        assert(be_value(seq![0u8]) == be_value(Seq::<u8>::empty()) * 256 + 0);
    } else {
        lemma_be_digits_value(n);
        assert(be_digits(n).len() >= 1);
    }
}

/// Bringing a big-endian number to `width` bytes keeps its value modulo
/// 256^`width`.
pub proof fn law_fit_value(m: Seq<u8>, width: nat)
    ensures
        fit(m, width).len() == width,
        be_value(fit(m, width)) == be_value(m) % pow256(width),
{
    lemma_pow256_positive(width);
    if m.len() > width {
        let k = m.len() - width;
        let hi = m.subrange(0, k);
        let lo = m.subrange(k, m.len() as int);
        assert(hi + lo =~= m);
        lemma_be_value_append(hi, lo);
        lemma_be_value_bound(lo);
        let p = pow256(width);
        let h = be_value(hi);
        let l = be_value(lo);
        assert((h * p + l) % p == l) by (nonlinear_arith)
            requires
                0 <= l < p,
                h >= 0,
        ;
    } else {
        lemma_be_value_zeros((width - m.len()) as nat, m);
        lemma_be_value_bound(m);
        lemma_pow256_monotone(m.len(), width);
        assert(be_value(m) % pow256(width) == be_value(m)) by (nonlinear_arith)
            requires
                be_value(m) < pow256(width),
        ;
    }
}

/// The `width` bytes of `be_fixed` encode `n` modulo 256^`width`.
pub proof fn law_be_fixed_value(width: nat, n: nat)
    ensures
        be_fixed(width, n).len() == width,
        be_value(be_fixed(width, n)) == n % pow256(width),
    decreases width,
{
    if width > 0 {
        law_be_fixed_value((width - 1) as nat, n / 256);
        assert(be_fixed(width, n).drop_last() =~= be_fixed((width - 1) as nat, n / 256));
        let p = pow256((width - 1) as nat);
        lemma_pow256_positive((width - 1) as nat);
        vstd::arithmetic::div_mod::lemma_mod_breakdown(n as int, 256, p as int);
    }
}

/// The 32-bit word whose big-endian bytes are `s[i..i + 4]`.
pub open spec fn be_word(s: Seq<u8>, i: int) -> u32 {
    (s[i] as nat * 0x1000000 + s[i + 1] as nat * 0x10000 + s[i + 2] as nat * 0x100 + s[i
        + 3] as nat) as u32
}

/// Reads the big-endian word at `s[i..i + 4]`.
pub fn read_be_word(s: &[u8], i: usize) -> (w: u32)
    requires
        i + 4 <= s@.len(),
    ensures
        w == be_word(s@, i as int),
{
    (s[i] as u32) * 0x1000000 + (s[i + 1] as u32) * 0x10000 + (s[i + 2] as u32) * 0x100 + (s[i
        + 3] as u32)
}

/// A copy of `s[start..end]`.
pub fn copy_range(s: &[u8], start: usize, end: usize) -> (r: Vec<u8>)
    requires
        start <= end <= s@.len(),
    ensures
        r@ == s@.subrange(start as int, end as int),
{
    let mut r: Vec<u8> = Vec::new();
    let mut k = start;
    while k < end
        invariant
            start <= k <= end <= s@.len(),
            r@ == s@.subrange(start as int, k as int),
        decreases end - k,
    {
        r.push(s[k]);
        k = k + 1;
    }
    r
}

/// `n` zero bytes.
pub fn zero_bytes(n: usize) -> (r: Vec<u8>)
    ensures
        r@ == zeros(n as nat),
{
    let mut r: Vec<u8> = Vec::new();
    let mut k: usize = 0;
    while k < n
        invariant
            k <= n,
            r@ == zeros(k as nat),
        decreases n - k,
    {
        r.push(0);
        k = k + 1;
        assert(r@ =~= zeros(k as nat));
    }
    r
}

/// Appends all of `tail` to `v`.
pub fn extend_bytes(v: &mut Vec<u8>, tail: &[u8])
    ensures
        final(v)@ == old(v)@ + tail@,
{
    let ghost start = v@;
    let mut k: usize = 0;
    while k < tail.len()
        invariant
            k <= tail@.len(),
            v@ == start + tail@.subrange(0, k as int),
        decreases tail@.len() - k,
    {
        v.push(tail[k]);
        k = k + 1;
        assert(v@ =~= start + tail@.subrange(0, k as int));
    }
    assert(tail@.subrange(0, k as int) =~= tail@);
}

/// The bytes of `s` in reverse order.
pub fn reversed(s: &[u8]) -> (r: Vec<u8>)
    ensures
        r@ == s@.reverse(),
{
    let mut r: Vec<u8> = Vec::new();
    let mut k: usize = s.len();
    while k > 0
        invariant
            k <= s@.len(),
            r@ == s@.subrange(k as int, s@.len() as int).reverse(),
        decreases k,
    {
        k = k - 1;
        r.push(s[k]);
        assert(r@ =~= s@.subrange(k as int, s@.len() as int).reverse());
    }
    assert(s@.subrange(0, s@.len() as int) =~= s@);
    r
}

/// `m` brought to exactly `width` bytes (see [`fit`]).
pub fn fit_bytes(m: &[u8], width: usize) -> (r: Vec<u8>)
    ensures
        r@ == fit(m@, width as nat),
{
    if m.len() > width {
        copy_range(m, m.len() - width, m.len())
    } else {
        let mut r = zero_bytes(width - m.len());
        extend_bytes(&mut r, m);
        r
    }
}

} // verus!
