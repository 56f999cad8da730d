//! Generic 31-bit Montgomery field.
//!
//! An element is stored as `x * 2^32 mod p`. The free `monty_*` functions
//! work on such raw `u32` values; [`MontyField`] wraps one raw value and
//! overloads the operators with the same functions.

use core::marker::PhantomData;

use vstd::arithmetic::div_mod::*;
use vstd::arithmetic::mul::*;
use vstd::arithmetic::power2::*;
use vstd::bits::*;
use vstd::prelude::*;

use crate::zmod;

verus! {

/// Compile-time description of a 31-bit Montgomery prime field.
///
/// Implement on a zero-sized marker type to define a new field; pair with
/// [`MontyField<Self>`] for elements. The constants must be mutually
/// consistent: [`consistent`](MontyParameters::consistent) is the proof
/// that they are.
pub trait MontyParameters: Copy + Clone + Default + Send + Sync + 'static {
    /// The prime modulus `p`, with `p < 2^31` (so `2p < 2^32`).
    const PRIME: u32;

    /// `-p^{-1} mod 2^32` (additive form).
    const MU: u32;

    /// `R^2 mod p` where `R = 2^32`. Used to lift canonical to Montgomery.
    const R2: u32;

    /// `R mod p`: the Montgomery form of one.
    const MONT_ONE: u32;

    /// 2-adicity: `s` such that `2^s | p - 1` and `2^(s+1)` does not.
    const TWO_ADICITY: u32;

    /// Entry `k` is a primitive `2^k`-th root of unity in canonical
    /// (non-Montgomery) form, for `k` in `0..=TWO_ADICITY`. Entry 0 is `1`;
    /// the entries above `TWO_ADICITY` are unused.
    const TWO_ADIC_GENERATORS: [u32; 32];

    /// The constants fit together: `MU` and `R2` belong to `PRIME`, each
    /// generator squares to the one before it down to `-1` and `1`, and
    /// `2^(p-1) = 1` as Fermat's theorem has it.
    proof fn consistent()
        ensures
            2 < Self::PRIME < 0x8000_0000,
            (Self::MU * Self::PRIME + 1) % 0x1_0000_0000 == 0,
            Self::R2 == 0x1_0000_0000_0000_0000int % (Self::PRIME as int),
            Self::MONT_ONE == 0x1_0000_0000int % (Self::PRIME as int),
            1 <= Self::TWO_ADICITY < 31,
            (Self::PRIME - 1) % (pow2(Self::TWO_ADICITY as nat) as int) == 0,
            (Self::PRIME - 1) % (pow2((Self::TWO_ADICITY + 1) as nat) as int) != 0,
            Self::TWO_ADIC_GENERATORS@[0] == 1,
            Self::TWO_ADIC_GENERATORS@[1] == Self::PRIME - 1,
            forall|k: int|
                0 <= k <= Self::TWO_ADICITY ==> #[trigger] Self::TWO_ADIC_GENERATORS@[k]
                    < Self::PRIME,
            forall|k: int|
                1 <= k <= Self::TWO_ADICITY ==> #[trigger] zmod::times(
                    Self::PRIME as int,
                    Self::TWO_ADIC_GENERATORS@[k] as int,
                    Self::TWO_ADIC_GENERATORS@[k] as int,
                ) == Self::TWO_ADIC_GENERATORS@[k - 1],
            zmod::power(Self::PRIME as int, 2, (Self::PRIME - 1) as nat) == 1,
    ;
}

/// The Montgomery radix `R = 2^32`.
pub open spec fn radix() -> int {
    0x1_0000_0000
}

/// The inverse of `R` modulo `p`.
pub open spec fn radix_inv<P: MontyParameters>() -> int {
    (P::MU * P::PRIME + 1) / radix()
}

/// The field element that a raw Montgomery value stands for, as the
/// canonical integer in `[0, p)`: `raw * R^{-1} mod p`.
pub open spec fn from_mont<P: MontyParameters>(raw: int) -> int {
    (raw * radix_inv::<P>()) % (P::PRIME as int)
}

/// The raw Montgomery value of a canonical integer: `x * R mod p`.
pub open spec fn to_mont<P: MontyParameters>(x: int) -> int {
    (x * radix()) % (P::PRIME as int)
}

/// `R * R^{-1} = 1`.
pub proof fn lemma_radix_inv<P: MontyParameters>()
    ensures
        (radix() * radix_inv::<P>()) % (P::PRIME as int) == 1,
        radix() * radix_inv::<P>() == P::MU * P::PRIME + 1,
        2 < P::PRIME < 0x8000_0000,
{
    P::consistent();
    let p = P::PRIME as int;
    let t = P::MU * P::PRIME + 1;
    lemma_fundamental_div_mod(t, radix());
    zmod::lemma_same_residue(p, t, 1, P::MU as int);
    zmod::lemma_reduced(p, 1);
}

/// Conversion to Montgomery form and back is the identity on residues.
pub proof fn lemma_round_trip<P: MontyParameters>(x: int)
    ensures
        from_mont::<P>(to_mont::<P>(x)) == x % (P::PRIME as int),
        to_mont::<P>(from_mont::<P>(x)) == x % (P::PRIME as int),
        0 <= to_mont::<P>(x) < P::PRIME,
        0 <= from_mont::<P>(x) < P::PRIME,
{
    lemma_radix_inv::<P>();
    let p = P::PRIME as int;
    let ri = radix_inv::<P>();
    zmod::lemma_times_absorbs(p, x * radix(), ri);
    zmod::lemma_times_absorbs(p, x * ri, radix());
    lemma_mul_is_associative(x, radix(), ri);
    lemma_mul_is_associative(x, ri, radix());
    lemma_mul_is_commutative(radix(), ri);
    zmod::lemma_times_absorbs(p, x, radix() * ri);
}

/// Two reduced raw values that stand for the same element are equal.
pub proof fn lemma_from_mont_injective<P: MontyParameters>(a: int, b: int)
    requires
        0 <= a < P::PRIME,
        0 <= b < P::PRIME,
        from_mont::<P>(a) == from_mont::<P>(b),
    ensures
        a == b,
{
    lemma_round_trip::<P>(a);
    lemma_round_trip::<P>(b);
    zmod::lemma_reduced(P::PRIME as int, a);
    zmod::lemma_reduced(P::PRIME as int, b);
}

/// `from_mont` carries raw sums, differences and Montgomery products to
/// sums, differences and products of residues.
pub proof fn lemma_from_mont_hom<P: MontyParameters>(a: int, b: int)
    ensures
        from_mont::<P>(zmod::plus(P::PRIME as int, a, b)) == zmod::plus(
            P::PRIME as int,
            from_mont::<P>(a),
            from_mont::<P>(b),
        ),
        from_mont::<P>(zmod::minus(P::PRIME as int, a, b)) == zmod::minus(
            P::PRIME as int,
            from_mont::<P>(a),
            from_mont::<P>(b),
        ),
        from_mont::<P>(from_mont::<P>(a * b)) == zmod::times(
            P::PRIME as int,
            from_mont::<P>(a),
            from_mont::<P>(b),
        ),
{
    lemma_radix_inv::<P>();
    let p = P::PRIME as int;
    let ri = radix_inv::<P>();
    zmod::lemma_times_absorbs(p, a + b, ri);
    zmod::lemma_times_absorbs(p, a - b, ri);
    zmod::lemma_plus_absorbs(p, a * ri, b * ri);
    zmod::lemma_minus_absorbs(p, a * ri, b * ri);
    lemma_mul_is_distributive_add_other_way(ri, a, b);
    lemma_mul_is_distributive_sub_other_way(ri, a, b);
    zmod::lemma_times_absorbs(p, a * b * ri, ri);
    zmod::lemma_times_absorbs(p, a * ri, b * ri);
    assert((a * b * ri) * ri == (a * ri) * (b * ri)) by (nonlinear_arith);
}

/// `(a * b) >> 32`, the high half of a 32-bit multiply.
#[inline]
pub fn mul_hi_u32(a: u32, b: u32) -> (r: u32)
    ensures
        r == (a * b) / radix(),
{
    proof {
        assert(a * b <= 0xffff_ffff * 0xffff_ffff) by (nonlinear_arith)
            requires
                0 <= a <= 0xffff_ffff,
                0 <= b <= 0xffff_ffff,
        ;
    }
    let t: u64 = (a as u64) * (b as u64);
    proof {
        lemma2_to64();
        lemma_u64_shr_is_div(t, 32);
        lemma_div_is_ordered(t as int, 0xffff_ffffint * 0xffff_ffffint, radix());
    }
    (t >> 32) as u32
}

/// `(a + b) mod p` on raw Montgomery values.
#[inline]
pub fn monty_add<P: MontyParameters>(a: u32, b: u32) -> (r: u32)
    requires
        a < P::PRIME,
        b < P::PRIME,
    ensures
        r < P::PRIME,
        r == zmod::plus(P::PRIME as int, a as int, b as int),
        from_mont::<P>(r as int) == zmod::plus(
            P::PRIME as int,
            from_mont::<P>(a as int),
            from_mont::<P>(b as int),
        ),
{
    proof {
        P::consistent();
        lemma_from_mont_hom::<P>(a as int, b as int);
        if a + b >= P::PRIME {
            zmod::lemma_same_residue(P::PRIME as int, a + b, a + b - P::PRIME, 1);
            zmod::lemma_reduced(P::PRIME as int, a + b - P::PRIME);
        } else {
            zmod::lemma_reduced(P::PRIME as int, a + b);
        }
    }
    let s: u32 = a + b;
    if s >= P::PRIME {
        s - P::PRIME
    } else {
        s
    }
}

/// `(a - b) mod p` on raw Montgomery values.
#[inline]
pub fn monty_sub<P: MontyParameters>(a: u32, b: u32) -> (r: u32)
    requires
        a < P::PRIME,
        b < P::PRIME,
    ensures
        r < P::PRIME,
        r == zmod::minus(P::PRIME as int, a as int, b as int),
        from_mont::<P>(r as int) == zmod::minus(
            P::PRIME as int,
            from_mont::<P>(a as int),
            from_mont::<P>(b as int),
        ),
{
    proof {
        P::consistent();
        lemma_from_mont_hom::<P>(a as int, b as int);
        if a >= b {
            zmod::lemma_reduced(P::PRIME as int, a - b);
        } else {
            zmod::lemma_same_residue(P::PRIME as int, a - b, a + P::PRIME - b, -1);
            zmod::lemma_reduced(P::PRIME as int, a + P::PRIME - b);
        }
    }
    if a >= b {
        a - b
    } else {
        (a + P::PRIME) - b
    }
}

/// `-a mod p` on a raw Montgomery value.
#[inline]
pub fn monty_neg<P: MontyParameters>(a: u32) -> (r: u32)
    requires
        a < P::PRIME,
    ensures
        r < P::PRIME,
        r == zmod::minus(P::PRIME as int, 0, a as int),
        from_mont::<P>(r as int) == zmod::minus(P::PRIME as int, 0, from_mont::<P>(a as int)),
{
    proof {
        P::consistent();
        lemma_from_mont_hom::<P>(0, a as int);
        assert(from_mont::<P>(0) == 0) by {
            lemma_mul_basics(radix_inv::<P>());
            lemma_small_mod(0, P::PRIME as nat);
        }
        if a == 0 {
            zmod::lemma_reduced(P::PRIME as int, 0);
        } else {
            zmod::lemma_same_residue(P::PRIME as int, 0 - a, P::PRIME - a, -1);
            zmod::lemma_reduced(P::PRIME as int, P::PRIME - a);
        }
    }
    let neg: u32 = P::PRIME - a;
    if neg >= P::PRIME {
        neg - P::PRIME
    } else {
        neg
    }
}

/// Montgomery multiplication: `(a * b * R^{-1}) mod p`.
///
/// Forms the full 64-bit product as `(hi, lo)` and reduces it with
/// [`monty_reduce_split`].
#[inline]
pub fn monty_mul<P: MontyParameters>(a: u32, b: u32) -> (r: u32)
    requires
        a < P::PRIME,
        b < P::PRIME,
    ensures
        r < P::PRIME,
        r == from_mont::<P>(a * b),
        from_mont::<P>(r as int) == zmod::times(
            P::PRIME as int,
            from_mont::<P>(a as int),
            from_mont::<P>(b as int),
        ),
{
    let lo: u32 = a.wrapping_mul(b);
    let hi: u32 = mul_hi_u32(a, b);
    proof {
        P::consistent();
        lemma_from_mont_hom::<P>(a as int, b as int);
        lemma_fundamental_div_mod(a * b, radix());
        assert(a * b < P::PRIME * radix()) by (nonlinear_arith)
            requires
                0 <= a < P::PRIME,
                0 <= b < P::PRIME,
                P::PRIME < radix(),
        ;
        lemma_multiply_divide_lt(a * b, radix(), P::PRIME as int);
    }
    monty_reduce_split::<P>(hi, lo)
}

/// Montgomery reduction of the 64-bit value `hi * 2^32 + lo`.
///
/// Returns `(hi * 2^32 + lo) * R^{-1} mod p` in `[0, p)`.
#[inline]
pub fn monty_reduce_split<P: MontyParameters>(hi: u32, lo: u32) -> (r: u32)
    requires
        hi < P::PRIME,
    ensures
        r < P::PRIME,
        r == from_mont::<P>(hi * radix() + lo),
{
    // t such that lo + t * p = 0 (mod 2^32), via the additive MU.
    let t: u32 = lo.wrapping_mul(P::MU);
    // High half of t * p.
    let u_hi: u32 = mul_hi_u32(t, P::PRIME);
    // Branchless carry: lo + (-lo mod 2^32) is 0 if lo == 0 and 2^32
    // otherwise, so the top bit of lo | -lo is the carry bit.
    let neg_lo: u32 = 0u32.wrapping_sub(lo);
    let carry: u32 = (lo | neg_lo) >> 31;
    proof {
        assert(neg_lo == if lo == 0 { 0int } else { radix() - lo });
        assert(carry == if lo == 0 { 0u32 } else { 1u32 }) by (bit_vector)
            requires
                carry == (lo | neg_lo) >> 31,
                lo == 0 ==> neg_lo == 0,
                lo != 0 ==> neg_lo == 0x1_0000_0000 - lo,
        ;
        lemma_reduction::<P>(hi as int, lo as int, t as int, u_hi as int, carry as int);
    }
    // The sum is in [0, 2p) and 2p < 2^32, so one subtraction suffices.
    let result: u32 = hi + u_hi + carry;
    if result >= P::PRIME {
        result - P::PRIME
    } else {
        result
    }
}

/// The algebra of one Montgomery reduction: `hi + u_hi + carry` is exactly
/// `(T + t * p) / R` for `T = hi * R + lo`.
proof fn lemma_reduction<P: MontyParameters>(hi: int, lo: int, t: int, u_hi: int, carry: int)
    requires
        0 <= hi < P::PRIME,
        0 <= lo < radix(),
        t == (lo * P::MU) % radix(),
        u_hi == (t * P::PRIME) / radix(),
        carry == if lo == 0 {
            0int
        } else {
            1
        },
    ensures
        0 <= hi + u_hi + carry < 2 * P::PRIME,
        2 * P::PRIME < radix(),
        from_mont::<P>(hi * radix() + lo) == if hi + u_hi + carry >= P::PRIME {
            hi + u_hi + carry - P::PRIME
        } else {
            hi + u_hi + carry
        },
{
    lemma_radix_inv::<P>();
    let p = P::PRIME as int;
    let r = radix();
    let ri = radix_inv::<P>();
    let tp = t * p;
    // lo + t * p is a multiple of R.
    P::consistent();
    assert((lo + tp) % r == 0) by {
        zmod::lemma_times_absorbs(r, lo * P::MU, p);
        zmod::lemma_plus_absorbs(r, lo, tp);
        zmod::lemma_plus_absorbs(r, lo, (lo * P::MU) * p);
        assert(lo + (lo * P::MU) * p == lo * (P::MU * P::PRIME + 1)) by (nonlinear_arith)
            requires
                p == P::PRIME,
        ;
        zmod::lemma_times_absorbs(r, lo, P::MU * P::PRIME + 1);
    }
    lemma_fundamental_div_mod(tp, r);
    lemma_mod_bound(tp, r);
    let low = tp % r;
    assert((lo + low) % r == 0) by {
        zmod::lemma_plus_absorbs(r, lo, tp);
    }
    assert(lo + low == carry * r) by {
        lemma_fundamental_div_mod(lo + low, r);
        assert(0 <= (lo + low) / r < 2) by {
            lemma_div_is_ordered(0, lo + low, r);
            lemma_div_is_ordered(lo + low, 2 * r - 1, r);
        }
        if lo == 0 {
            lemma_small_mod(low as nat, r as nat);
        }
    }
    let q = hi + u_hi + carry;
    let big = hi * r + lo;
    assert(q * r == big + tp) by (nonlinear_arith)
        requires
            q == hi + u_hi + carry,
            big == hi * r + lo,
            tp == r * u_hi + low,
            lo + low == carry * r,
    ;
    assert(0 <= q < 2 * p) by {
        lemma_mod_bound(lo * P::MU, r);
        assert(0 <= tp && big + tp < 2 * p * r) by (nonlinear_arith)
            requires
                0 <= hi <= p - 1,
                0 <= lo < r,
                0 <= t <= r - 1,
                tp == t * p,
                big == hi * r + lo,
                p > 0,
        ;
        assert(0 <= q < 2 * p) by (nonlinear_arith)
            requires
                q * r == big + tp,
                0 <= big,
                0 <= tp,
                big + tp < 2 * p * r,
                r > 0,
        ;
    }
    assert(from_mont::<P>(big) == q % p) by {
        // q = q * R * R^{-1} = (T + t * p) * R^{-1} = T * R^{-1} (mod p)
        assert(q * (r * ri) == big * ri + (t * ri) * p) by (nonlinear_arith)
            requires
                q * r == big + tp,
                tp == t * p,
        ;
        zmod::lemma_same_residue(p, big * ri + (t * ri) * p, big * ri, t * ri);
        zmod::lemma_times_absorbs(p, q, r * ri);
    }
    if q >= p {
        zmod::lemma_same_residue(p, q, q - p, 1);
        zmod::lemma_reduced(p, q - p);
    } else {
        zmod::lemma_reduced(p, q);
    }
}

/// A field element of the prime field defined by `P`.
///
/// One `u32` in Montgomery form (`x * 2^32 mod p`, in `[0, p)`). Build from
/// a canonical integer with [`from_canonical`](Self::from_canonical) and
/// read it back with [`to_canonical`](Self::to_canonical).
#[derive(Debug, Eq, Hash, PartialEq, Default)]
pub struct MontyField<P: MontyParameters> {
    raw: u32,
    _p: PhantomData<P>,
}

impl<P: MontyParameters> Copy for MontyField<P> {

}

impl<P: MontyParameters> Clone for MontyField<P> {
    fn clone(&self) -> (r: Self)
        ensures
            r == *self,
    {
        *self
    }
}

impl<P: MontyParameters> MontyField<P> {
    /// The stored Montgomery value.
    pub closed spec fn mont(self) -> u32 {
        self.raw
    }

    /// The stored value is reduced.
    pub open spec fn wf(self) -> bool {
        self.mont() < P::PRIME
    }

    /// The canonical integer in `[0, p)` that this element stands for.
    pub open spec fn val(self) -> int {
        from_mont::<P>(self.mont() as int)
    }

    /// The element that stands for the residue of `x`.
    pub closed spec fn of_val(x: int) -> Self {
        MontyField { raw: to_mont::<P>(x) as u32, _p: PhantomData }
    }

    /// Every reduced element is the element of its own value, and `of_val`
    /// has the value it was made from.
    pub proof fn lemma_of_val(a: Self, x: int)
        requires
            a.wf(),
        ensures
            Self::of_val(a.val()) == a,
            Self::of_val(x).wf(),
            Self::of_val(x).val() == x % (P::PRIME as int),
    {
        P::consistent();
        lemma_round_trip::<P>(a.raw as int);
        lemma_round_trip::<P>(x);
        zmod::lemma_reduced(P::PRIME as int, a.raw as int);
    }

    /// The additive identity.
    pub fn zero() -> (r: Self)
        ensures
            r.wf(),
            r.mont() == 0,
            r.val() == 0,
            r == Self::of_val(0),
    {
        proof {
            P::consistent();
            lemma_mul_basics(radix_inv::<P>());
            lemma_small_mod(0, P::PRIME as nat);
        }
        MontyField { raw: 0, _p: PhantomData }
    }

    /// Wrap an already-Montgomery-form `u32` directly.
    pub fn from_raw(raw: u32) -> (r: Self)
        ensures
            r.mont() == raw,
    {
        MontyField { raw, _p: PhantomData }
    }

    /// Construct from a canonical (non-Montgomery) `u32`. Reduces `mod p`.
    pub fn from_canonical(x: u32) -> (r: Self)
        ensures
            r.wf(),
            r.val() == x % P::PRIME,
            r == Self::of_val(x as int),
    {
        proof {
            P::consistent();
            let p = P::PRIME as int;
            let v = (x % P::PRIME) as int;
            // v * R^2 * R^{-1} = v * R (mod p)
            assert(from_mont::<P>(v * P::R2) == to_mont::<P>(x as int)) by {
                lemma_radix_inv::<P>();
                let r = radix();
                let ri = radix_inv::<P>();
                zmod::lemma_times_absorbs(p, v, r * r);
                zmod::lemma_times_absorbs(p, v * P::R2, ri);
                zmod::lemma_times_absorbs(p, v * (r * r), ri);
                assert(v * (r * r) * ri == (v * r) * (r * ri)) by (nonlinear_arith);
                zmod::lemma_times_absorbs(p, v * r, r * ri);
                zmod::lemma_times_absorbs(p, x as int, r);
            }
            lemma_round_trip::<P>(x as int);
        }
        MontyField { raw: monty_mul::<P>(x % P::PRIME, P::R2), _p: PhantomData }
    }

    /// Inverse of [`from_canonical`](Self::from_canonical): the canonical
    /// `u32` representative in `[0, p)`.
    pub fn to_canonical(self) -> (r: u32)
        requires
            self.wf(),
        ensures
            r == self.val(),
            r < P::PRIME,
    {
        proof {
            P::consistent();
        }
        // The reduction of (0, raw) is raw * R^{-1} mod p.
        monty_reduce_split::<P>(0, self.raw)
    }

    /// The underlying Montgomery-form `u32`.
    pub fn raw(self) -> (r: u32)
        ensures
            r == self.mont(),
    {
        self.raw
    }
}

impl<P: MontyParameters> vstd::std_specs::ops::AddSpecImpl for MontyField<P> {
    open spec fn obeys_add_spec() -> bool {
        true
    }

    open spec fn add_req(self, rhs: Self) -> bool {
        self.wf() && rhs.wf()
    }

    open spec fn add_spec(self, rhs: Self) -> Self {
        Self::of_val(zmod::plus(P::PRIME as int, self.val(), rhs.val()))
    }
}

impl<P: MontyParameters> core::ops::Add for MontyField<P> {
    type Output = Self;

    fn add(self, rhs: Self) -> (r: Self)
        ensures
            r.wf(),
            r.val() == zmod::plus(P::PRIME as int, self.val(), rhs.val()),
    {
        let r = MontyField { raw: monty_add::<P>(self.raw, rhs.raw), _p: PhantomData };
        proof {
            Self::lemma_of_val(r, 0);
        }
        r
    }
}

impl<P: MontyParameters> vstd::std_specs::ops::SubSpecImpl for MontyField<P> {
    open spec fn obeys_sub_spec() -> bool {
        true
    }

    open spec fn sub_req(self, rhs: Self) -> bool {
        self.wf() && rhs.wf()
    }

    open spec fn sub_spec(self, rhs: Self) -> Self {
        Self::of_val(zmod::minus(P::PRIME as int, self.val(), rhs.val()))
    }
}

impl<P: MontyParameters> core::ops::Sub for MontyField<P> {
    type Output = Self;

    fn sub(self, rhs: Self) -> (r: Self)
        ensures
            r.wf(),
            r.val() == zmod::minus(P::PRIME as int, self.val(), rhs.val()),
    {
        let r = MontyField { raw: monty_sub::<P>(self.raw, rhs.raw), _p: PhantomData };
        proof {
            Self::lemma_of_val(r, 0);
        }
        r
    }
}

impl<P: MontyParameters> vstd::std_specs::ops::MulSpecImpl for MontyField<P> {
    open spec fn obeys_mul_spec() -> bool {
        true
    }

    open spec fn mul_req(self, rhs: Self) -> bool {
        self.wf() && rhs.wf()
    }

    open spec fn mul_spec(self, rhs: Self) -> Self {
        Self::of_val(zmod::times(P::PRIME as int, self.val(), rhs.val()))
    }
}

impl<P: MontyParameters> core::ops::Mul for MontyField<P> {
    type Output = Self;

    fn mul(self, rhs: Self) -> (r: Self)
        ensures
            r.wf(),
            r.val() == zmod::times(P::PRIME as int, self.val(), rhs.val()),
    {
        let r = MontyField { raw: monty_mul::<P>(self.raw, rhs.raw), _p: PhantomData };
        proof {
            Self::lemma_of_val(r, 0);
        }
        r
    }
}

impl<P: MontyParameters> vstd::std_specs::ops::NegSpecImpl for MontyField<P> {
    open spec fn obeys_neg_spec() -> bool {
        true
    }

    open spec fn neg_req(self) -> bool {
        self.wf()
    }

    open spec fn neg_spec(self) -> Self {
        Self::of_val(zmod::minus(P::PRIME as int, 0, self.val()))
    }
}

impl<P: MontyParameters> core::ops::Neg for MontyField<P> {
    type Output = Self;

    fn neg(self) -> (r: Self)
        ensures
            r.wf(),
            r.val() == zmod::minus(P::PRIME as int, 0, self.val()),
    {
        let r = MontyField { raw: monty_neg::<P>(self.raw), _p: PhantomData };
        proof {
            Self::lemma_of_val(r, 0);
        }
        r
    }
}

/// Montgomery form: a word stands for the residue that times `2^32` is the
/// word, and the word that stands for a residue is the residue times `2^32`.
pub proof fn law_montgomery_form<P: MontyParameters>(raw: int, x: int)
    ensures
        radix() == 0x1_0000_0000,
        0 <= from_mont::<P>(raw) < P::PRIME,
        (from_mont::<P>(raw) * 0x1_0000_0000) % (P::PRIME as int) == raw % (P::PRIME as int),
        0 <= to_mont::<P>(x) < P::PRIME,
        to_mont::<P>(x) == (x * 0x1_0000_0000) % (P::PRIME as int),
        from_mont::<P>(to_mont::<P>(x)) == x % (P::PRIME as int),
{
    lemma_round_trip::<P>(raw);
    lemma_round_trip::<P>(x);
}

/// An element's word is its value in Montgomery form.
pub proof fn law_element_form<P: MontyParameters>(a: MontyField<P>)
    requires
        a.mont() < P::PRIME,
    ensures
        a.wf(),
        0 <= a.val() < P::PRIME,
        a.mont() == (a.val() * 0x1_0000_0000) % (P::PRIME as int),
{
    lemma_round_trip::<P>(a.mont() as int);
    zmod::lemma_reduced(P::PRIME as int, a.mont() as int);
}

} // verus!
