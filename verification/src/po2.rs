//! Powers of two, shifts and bit reversal.

use vstd::arithmetic::div_mod::*;
use vstd::arithmetic::mul::*;
use vstd::arithmetic::power2::*;
use vstd::bits::*;
use vstd::prelude::*;

verus! {

/// `2^k`.
pub open spec fn p2(k: nat) -> int {
    pow2(k) as int
}

/// `n` is a power of two.
pub open spec fn is_po2(n: int) -> bool {
    exists|k: nat| #[trigger] p2(k) == n
}

/// `2^0 = 1` and `2^(k+1) = 2 * 2^k > 0`.
pub proof fn lemma_p2(k: nat)
    ensures
        p2(0) == 1,
        p2(k) > 0,
        p2(k + 1) == 2 * p2(k),
{
    lemma2_to64();
    lemma_pow2_pos(k);
    lemma_pow2_unfold(k + 1);
}

/// `2^(a + b) = 2^a * 2^b`.
pub proof fn lemma_p2_adds(a: nat, b: nat)
    ensures
        p2(a + b) == p2(a) * p2(b),
        p2(a) > 0,
        p2(b) > 0,
{
    lemma_pow2_adds(a, b);
    lemma_pow2_pos(a);
    lemma_pow2_pos(b);
}

/// `2^a < 2^b` exactly when `a < b`.
pub proof fn lemma_p2_mono(a: nat, b: nat)
    ensures
        a < b ==> p2(a) < p2(b),
        a <= b ==> p2(a) <= p2(b),
        p2(a) < p2(b) ==> a < b,
        p2(a) <= p2(b) ==> a <= b,
        p2(a) == p2(b) ==> a == b,
{
    if a < b {
        lemma_pow2_strictly_increases(a, b);
    }
    if b < a {
        lemma_pow2_strictly_increases(b, a);
    }
}

/// Quotient and remainder of `q * d + r`.
pub proof fn lemma_split(q: int, d: int, r: int)
    requires
        0 <= r < d,
    ensures
        (q * d + r) / d == q,
        (q * d + r) % d == r,
{
    lemma_fundamental_div_mod_converse(q * d + r, d, q, r);
}

/// Every integer is its quotient times the divisor plus its remainder.
pub proof fn lemma_join(u: int, d: int)
    requires
        d > 0,
    ensures
        u == (u / d) * d + u % d,
        0 <= u % d < d,
        u >= 0 ==> u / d >= 0,
{
    lemma_fundamental_div_mod(u, d);
    lemma_mul_is_commutative(u / d, d);
    if u >= 0 {
        lemma_div_pos_is_pos(u, d);
    }
}

/// `q * d + r < n * d` for `q < n` and `r < d`.
pub proof fn lemma_within(q: int, n: int, d: int, r: int)
    requires
        0 <= q < n,
        0 <= r < d,
    ensures
        0 <= q * d,
        0 <= q * d + r < n * d,
        q * d + d <= n * d,
{
    assert(0 <= q * d && q * d + d <= n * d) by (nonlinear_arith)
        requires
            0 <= q < n,
            0 < d,
    ;
}

/// A quotient by `d` of something below `n * d` is below `n`.
pub proof fn lemma_quotient_below(u: int, n: int, d: int)
    requires
        0 <= u < n * d,
        d > 0,
    ensures
        0 <= u / d < n,
{
    lemma_join(u, d);
    assert(u / d < n) by (nonlinear_arith)
        requires
            u == (u / d) * d + u % d,
            0 <= u % d,
            u < n * d,
            d > 0,
    ;
}

/// The largest `k` with `2^k <= x`, and 0 for `x <= 1`.
pub open spec fn flog(x: int) -> nat
    decreases x,
{
    if x < 2 {
        0
    } else {
        flog(x / 2) + 1
    }
}

/// What [`flog`] is.
pub proof fn lemma_flog(x: int)
    requires
        x >= 1,
    ensures
        p2(flog(x)) <= x < p2(flog(x) + 1),
    decreases x,
{
    lemma_p2(0);
    if x >= 2 {
        lemma_flog(x / 2);
        lemma_p2(flog(x / 2));
        lemma_p2(flog(x / 2) + 1);
    } else {
        lemma_p2(1);
    }
}

/// [`flog`] is the only such `k`.
pub proof fn lemma_flog_unique(x: int, k: nat)
    requires
        p2(k) <= x < p2(k + 1),
    ensures
        flog(x) == k,
{
    lemma_p2(k);
    lemma_flog(x);
    lemma_p2_mono(k, flog(x) + 1);
    lemma_p2_mono(flog(x), k + 1);
}

/// The low `l` bits of `i` in reverse order.
pub open spec fn rev(l: nat, i: int) -> int
    decreases l,
{
    if l == 0 {
        0
    } else {
        (i % 2) * p2((l - 1) as nat) + rev((l - 1) as nat, i / 2)
    }
}

/// A reversal is below `2^l`.
pub proof fn lemma_rev_range(l: nat, i: int)
    ensures
        0 <= rev(l, i) < p2(l),
    decreases l,
{
    lemma_p2(0);
    if l > 0 {
        let h = (l - 1) as nat;
        lemma_rev_range(h, i / 2);
        lemma_p2(h);
        lemma_within(i % 2, 2, p2(h), rev(h, i / 2));
    }
}

/// Reversing peels off the lowest bit as the highest one.
pub proof fn lemma_rev_low(l: nat, i: int)
    ensures
        rev(l + 1, 2 * i) == rev(l, i),
        rev(l + 1, 2 * i + 1) == p2(l) + rev(l, i),
{
    lemma_split(i, 2, 0);
    lemma_split(i, 2, 1);
}

/// Reversing takes the highest bit to the lowest place.
pub proof fn lemma_rev_high(l: nat, b: int, r: int)
    requires
        0 <= b < 2,
        0 <= r < p2(l),
    ensures
        rev(l + 1, b * p2(l) + r) == 2 * rev(l, r) + b,
    decreases l,
{
    lemma_p2(0);
    let x = b * p2(l) + r;
    if l == 0 {
        assert(x == b) by (nonlinear_arith)
            requires
                x == b * p2(l) + r,
                p2(l) == 1,
                r == 0,
        ;
        assert(rev(0, x / 2) == 0);
        assert((b % 2) * 1 == b);
    } else {
        let h = (l - 1) as nat;
        lemma_p2(h);
        assert(x == 2 * (b * p2(h)) + r) by (nonlinear_arith)
            requires
                x == b * p2(l) + r,
                p2(l) == 2 * p2(h),
        ;
        assert(x % 2 == r % 2 && x / 2 == b * p2(h) + r / 2);
        lemma_rev_high(h, b, r / 2);
        assert(rev(l + 1, x) == (x % 2) * p2(l) + rev(l, x / 2));
        assert(rev(l, r) == (r % 2) * p2(h) + rev(h, r / 2));
        assert((r % 2) * p2(l) == 2 * ((r % 2) * p2(h))) by (nonlinear_arith)
            requires
                p2(l) == 2 * p2(h),
        ;
    }
}

/// Bit reversal is its own inverse.
pub proof fn lemma_rev_involutive(l: nat, i: int)
    requires
        0 <= i < p2(l),
    ensures
        rev(l, rev(l, i)) == i,
    decreases l,
{
    lemma_p2(0);
    if l > 0 {
        let h = (l - 1) as nat;
        lemma_p2(h);
        lemma_rev_involutive(h, i / 2);
        lemma_rev_range(h, i / 2);
        lemma_rev_high(h, i % 2, rev(h, i / 2));
    }
}

/// The sequence whose entry `i` is entry `rev(l, i)` of `x`.
pub open spec fn bit_reversed<T>(l: nat, x: Seq<T>) -> Seq<T> {
    Seq::new(pow2(l), |i: int| x[rev(l, i)])
}

/// Applying the bit-reversal permutation twice gives the sequence back.
pub proof fn law_bit_reversal_is_involutive<T>(l: nat, x: Seq<T>)
    requires
        x.len() == p2(l),
    ensures
        bit_reversed(l, bit_reversed(l, x)) == x,
{
    assert forall|i: int| 0 <= i < x.len() implies bit_reversed(l, bit_reversed(l, x))[i]
        == x[i] by {
        lemma_rev_range(l, i);
        lemma_rev_involutive(l, i);
    }
    assert(bit_reversed(l, bit_reversed(l, x)) =~= x);
}

/// A power of two that fits in a `usize` has an exponent below its width.
pub proof fn lemma_exponent_fits(k: nat, bound: int)
    requires
        p2(k) <= bound <= usize::MAX,
    ensures
        k < usize::BITS,
{
    if k >= usize::BITS {
        lemma_usize_pow2_no_overflow((usize::BITS - 1) as nat);
        lemma2_to64();
        lemma2_to64_rest();
        lemma_p2_mono(usize::BITS as nat, k);
    }
}

/// `2^k` as a `usize`.
#[inline]
pub fn pow2_usize(k: u32) -> (r: usize)
    requires
        k < usize::BITS,
    ensures
        r == p2(k as nat),
        r > 0,
{
    proof {
        lemma_usize_pow2_no_overflow(k as nat);
        lemma_usize_shl_is_mul(1, k as usize);
    }
    1usize << k
}

/// `2^k` as a `u32`.
#[inline]
pub fn pow2_u32(k: u32) -> (r: u32)
    requires
        k < 32,
    ensures
        r == p2(k as nat),
        r > 0,
{
    proof {
        lemma_u32_pow2_no_overflow(k as nat);
        lemma_u32_shl_is_mul(1, k);
    }
    1u32 << k
}

/// `2^k` as a `u64`.
#[inline]
pub fn pow2_u64(k: u32) -> (r: u64)
    requires
        k < 64,
    ensures
        r == p2(k as nat),
        r > 0,
{
    proof {
        lemma_u64_pow2_no_overflow(k as nat);
        lemma_u64_shl_is_mul(1, k as u64);
    }
    1u64 << k
}

/// `x / 2^k` by a shift.
#[inline]
pub fn shr_usize(x: usize, k: u32) -> (r: usize)
    requires
        k < usize::BITS,
    ensures
        r == x as int / p2(k as nat),
        r <= x,
{
    proof {
        lemma_usize_shr_is_div(x, k as usize);
        lemma_p2(k as nat);
        lemma_div_nonincreasing(x as int, p2(k as nat));
    }
    x >> k
}

/// `x / 2^k` by a shift.
#[inline]
pub fn shr_u32(x: u32, k: u32) -> (r: u32)
    requires
        k < 32,
    ensures
        r == x as int / p2(k as nat),
        r <= x,
{
    proof {
        lemma_u32_shr_is_div(x, k);
        lemma_p2(k as nat);
        lemma_div_nonincreasing(x as int, p2(k as nat));
    }
    x >> k
}

/// `x mod 2^k` by a mask.
#[inline]
pub fn low_usize(x: usize, k: u32) -> (r: usize)
    requires
        k < usize::BITS,
    ensures
        r == x as int % p2(k as nat),
        r < p2(k as nat),
        r <= x,
{
    let d = pow2_usize(k);
    proof {
        lemma_usize_pow2_no_overflow(k as nat);
        lemma_usize_low_bits_mask_is_mod(x, k as nat);
        lemma_mod_decreases(x as nat, pow2(k as nat));
    }
    x & (d - 1)
}

/// `x mod 2^k` by a mask.
#[inline]
pub fn low_u32(x: u32, k: u32) -> (r: u32)
    requires
        k < 32,
    ensures
        r == x as int % p2(k as nat),
        r < p2(k as nat),
        r <= x,
{
    let d = pow2_u32(k);
    proof {
        lemma_u32_pow2_no_overflow(k as nat);
        lemma_u32_low_bits_mask_is_mod(x, k as nat);
        lemma_mod_decreases(x as nat, pow2(k as nat));
    }
    x & (d - 1)
}

/// The largest `k` with `2^k <= x`.
pub fn floor_log2(x: usize) -> (r: u32)
    requires
        x > 0,
    ensures
        p2(r as nat) <= x < p2((r + 1) as nat),
        r == flog(x as int),
        r < usize::BITS,
{
    let mut k: u32 = 0;
    let mut y: usize = x;
    proof {
        lemma_p2(0);
    }
    while y > 1
        invariant
            y >= 1,
            y == x as int / p2(k as nat),
            k < usize::BITS,
            p2(k as nat) <= x,
        decreases y,
    {
        proof {
            lemma_p2(k as nat);
            let d = p2(k as nat);
            lemma_div_denominator(x as int, d, 2);
            lemma_mul_is_commutative(d, 2);
            lemma_join(x as int, 2 * d);
            assert(p2((k + 1) as nat) <= x) by (nonlinear_arith)
                requires
                    x == (x as int / (2 * d)) * (2 * d) + x as int % (2 * d),
                    x as int / (2 * d) >= 1,
                    x as int % (2 * d) >= 0,
                    d > 0,
                    p2((k + 1) as nat) == 2 * d,
            ;
            lemma_exponent_fits((k + 1) as nat, x as int);
        }
        y = y / 2;
        k = k + 1;
    }
    proof {
        lemma_p2(k as nat);
        lemma_join(x as int, p2(k as nat));
        assert((x as int / p2(k as nat)) * p2(k as nat) == p2(k as nat));
        lemma_flog_unique(x as int, k as nat);
    }
    k
}

/// The low `l` bits of `i` in reverse order.
pub fn reverse_low_bits(i: usize, l: u32) -> (r: usize)
    requires
        l < usize::BITS,
    ensures
        r == rev(l as nat, i as int),
{
    let mut k: u32 = l;
    let mut rest: usize = i;
    let mut acc: usize = 0;
    proof {
        lemma_rev_range(l as nat, i as int);
        lemma_usize_pow2_no_overflow(l as nat);
    }
    while k > 0
        invariant
            k <= l < usize::BITS,
            acc + rev(k as nat, rest as int) == rev(l as nat, i as int),
            rev(l as nat, i as int) < p2(l as nat) < usize::MAX,
        decreases k,
    {
        proof {
            lemma_rev_range((k - 1) as nat, rest as int / 2);
            assert(rev(k as nat, rest as int) == (rest as int % 2) * p2((k - 1) as nat) + rev(
                (k - 1) as nat,
                rest as int / 2,
            ));
            assert(0 * p2((k - 1) as nat) == 0);
            assert(1 * p2((k - 1) as nat) == p2((k - 1) as nat));
        }
        if rest % 2 == 1 {
            acc = acc + pow2_usize(k - 1);
        }
        rest = rest / 2;
        k = k - 1;
    }
    acc
}

/// Powers of two are what they are called, and `flog` is the exponent of the
/// largest one that is not above `x`.
pub proof fn law_logarithm(x: int, k: nat)
    ensures
        p2(k) == pow2(k),
        x >= 1 ==> pow2(flog(x)) <= x < 2 * pow2(flog(x)),
        x < 1 ==> flog(x) == 0,
{
    if x >= 1 {
        lemma_flog(x);
        lemma_p2(flog(x));
    }
}

/// Bit `j` of the reversed number is bit `l - 1 - j` of the number.
pub proof fn law_reversal_mirrors_bits(l: nat, i: int, j: nat)
    requires
        0 <= i,
        j < l,
    ensures
        0 <= rev(l, i) < pow2(l),
        (rev(l, i) / pow2(j) as int) % 2 == (i / pow2((l - 1 - j) as nat) as int) % 2,
    decreases l,
{
    lemma_rev_range(l, i);
    let h = (l - 1) as nat;
    let r = rev(h, i / 2);
    lemma_rev_range(h, i / 2);
    lemma_p2(0);
    if j == h {
        lemma_split(i % 2, p2(h), r);
        assert(i / 1 == i);
    } else {
        // The top bit is a multiple of 2^(j + 1).
        let t = (h - j - 1) as nat;
        lemma_p2(t);
        lemma_p2_adds((t + 1) as nat, j);
        assert((t + 1) as nat + j == h);
        let a = (i % 2) * (2 * p2(t));
        assert((i % 2) * p2(h) + r == a * p2(j) + r) by (nonlinear_arith)
            requires
                p2(h) == 2 * p2(t) * p2(j),
                a == (i % 2) * (2 * p2(t)),
        ;
        lemma_shifted_quotient(a, p2(j), r);
        assert((a + r / p2(j)) % 2 == (r / p2(j)) % 2) by {
            assert(a == 2 * ((i % 2) * p2(t))) by (nonlinear_arith)
                requires
                    a == (i % 2) * (2 * p2(t)),
            ;
        }
        law_reversal_mirrors_bits(h, i / 2, j);
        // i / 2 / 2^(t) is i / 2^(t + 1).
        lemma_div_denominator(i, 2, p2(t));
        assert((h - 1 - j) as nat == t);
        assert(2 * p2(t) == p2((l - 1 - j) as nat));
    }
}

/// `(a * d + r) / d = a + r / d`.
proof fn lemma_shifted_quotient(a: int, d: int, r: int)
    requires
        d > 0,
    ensures
        (a * d + r) / d == a + r / d,
{
    lemma_join(r, d);
    assert(a * d + r == (a + r / d) * d + r % d) by (nonlinear_arith)
        requires
            r == (r / d) * d + r % d,
    ;
    lemma_split(a + r / d, d, r % d);
}

/// Numbers of `l` bits with the same bits are the same.
proof fn lemma_same_bits(l: nat, x: int, y: int)
    requires
        0 <= x < p2(l),
        0 <= y < p2(l),
        forall|j: nat|
            j < l ==> (x / #[trigger] pow2(j) as int) % 2 == (y / pow2(j) as int) % 2,
    ensures
        x == y,
    decreases l,
{
    lemma_p2(0);
    if l > 0 {
        let h = (l - 1) as nat;
        lemma_p2(h);
        assert(pow2(0) == 1);
        assert(x / 1 == x && y / 1 == y);
        assert(x % 2 == y % 2);
        assert forall|j: nat| j < h implies (x / 2 / #[trigger] pow2(j) as int) % 2 == (y / 2
            / pow2(j) as int) % 2 by {
            lemma_p2(j);
            lemma_div_denominator(x, 2, p2(j));
            lemma_div_denominator(y, 2, p2(j));
            assert(pow2(j + 1) == 2 * pow2(j));
        }
        lemma_same_bits(h, x / 2, y / 2);
    }
}

/// Bit reversal puts at `k` what stood at the index with `k`'s bits in
/// reverse.
pub proof fn law_bit_reversed_entry<T>(l: nat, x: Seq<T>, j: int, k: int)
    requires
        0 <= j < pow2(l),
        0 <= k < pow2(l),
        forall|t: nat|
            t < l ==> (j / #[trigger] pow2(t) as int) % 2 == (k / pow2((l - 1 - t) as nat) as int)
                % 2,
    ensures
        bit_reversed(l, x).len() == pow2(l),
        bit_reversed(l, x)[k] == x[j],
{
    assert forall|t: nat| t < l implies (j / #[trigger] pow2(t) as int) % 2 == (rev(l, k)
        / pow2(t) as int) % 2 by {
        law_reversal_mirrors_bits(l, k, t);
    }
    lemma_rev_range(l, k);
    lemma_same_bits(l, j, rev(l, k));
}

} // verus!
