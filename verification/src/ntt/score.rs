//! Scores of plans, in binary64 arithmetic.
//!
//! A score is a binary64 (IEEE 754 double precision) number, and every step
//! of computing it rounds to the nearest such number, ties to even. Here
//! numbers are integers in units of `2^-83`: the smallest summand of a
//! score, `2 / z` for a `z` below `2^32`, is above `2^-31`, so 53 bits of it
//! reach down to `2^-83` and no further.
//!
//! A score is handed out as its bit pattern. Patterns of numbers that are
//! not negative are in the order of the numbers.

use vstd::arithmetic::div_mod::*;
use vstd::arithmetic::power2::*;
use vstd::prelude::*;

use crate::po2;

use super::plan::PassConfig;

verus! {

/// `2^52`, the smallest mantissa.
pub const MIN_MANTISSA: u64 = 0x10_0000_0000_0000;

/// The bit pattern of infinity.
pub const INFINITY: u64 = 0x7FF0_0000_0000_0000;

// ---------------------------------------------------------------------------
// Rounding.
// ---------------------------------------------------------------------------

/// One.
pub open spec fn one() -> int {
    po2::p2(83)
}

/// The multiple of `unit` nearest to `num`, ties to even, counted in units.
pub open spec fn half_even(num: int, unit: int) -> int {
    let q = num / unit;
    let r = num % unit;
    if 2 * r < unit || (2 * r == unit && q % 2 == 0) {
        q
    } else {
        q + 1
    }
}

/// How many bits `x` has beyond 53.
pub open spec fn spare_bits(x: int) -> nat {
    if po2::flog(x) < 52 {
        0
    } else {
        (po2::flog(x) - 52) as nat
    }
}

/// `num / den` rounded to 53 significant bits.
pub open spec fn nearest(num: int, den: int) -> int {
    let e = spare_bits(num / den);
    if num <= 0 {
        0
    } else {
        half_even(num, den * po2::p2(e)) * po2::p2(e)
    }
}

/// `v` has at most 53 significant bits.
pub open spec fn representable(v: int) -> bool {
    v == 0 || exists|m: int, e: nat| #[trigger] is_scaled(v, m, e)
}

/// `v = m * 2^e`, with a mantissa of 53 bits.
pub open spec fn is_scaled(v: int, m: int, e: nat) -> bool {
    MIN_MANTISSA <= m < 2 * MIN_MANTISSA && v == m * po2::p2(e)
}

/// The bit pattern of a number: the biased exponent, and the mantissa
/// without its leading bit.
pub open spec fn bits_of(v: int) -> int {
    let e = spare_bits(v);
    if v <= 0 {
        0
    } else {
        (e + 992) * MIN_MANTISSA + v / po2::p2(e) - MIN_MANTISSA
    }
}

/// The smallest mantissa is `2^52`.
proof fn lemma_min_mantissa()
    ensures
        po2::p2(52) == MIN_MANTISSA,
        po2::p2(53) == 2 * MIN_MANTISSA,
        po2::p2(10) == 1024,
{
    lemma2_to64();
    lemma2_to64_rest();
}

/// Rounding does not depend on the unit.
proof fn lemma_half_even_scales(num: int, unit: int, k: int)
    requires
        num >= 0,
        unit > 0,
        k > 0,
    ensures
        (num * k) / (unit * k) == num / unit,
        half_even(num * k, unit * k) == half_even(num, unit),
{
    let q = num / unit;
    let r = num % unit;
    po2::lemma_join(num, unit);
    assert(num * k == q * (unit * k) + r * k && 0 <= r * k < unit * k) by (nonlinear_arith)
        requires
            num == q * unit + r,
            0 <= r < unit,
            k > 0,
    ;
    po2::lemma_split(q, unit * k, r * k);
    assert(2 * (r * k) < unit * k <==> 2 * r < unit) by (nonlinear_arith)
        requires
            k > 0,
    ;
    assert(2 * (r * k) == unit * k <==> 2 * r == unit) by (nonlinear_arith)
        requires
            k > 0,
    ;
}

/// The exponent at which a quotient has 53 bits.
proof fn lemma_nearest(num: int, den: int, e: nat)
    requires
        den > 0,
        MIN_MANTISSA <= num / (den * po2::p2(e)) < 2 * MIN_MANTISSA,
    ensures
        num > 0,
        nearest(num, den) == half_even(num, den * po2::p2(e)) * po2::p2(e),
{
    let pe = po2::p2(e);
    po2::lemma_p2(e);
    let unit = den * pe;
    assert(unit > 0) by (nonlinear_arith)
        requires
            den > 0,
            pe > 0,
            unit == den * pe,
    ;
    po2::lemma_join(num, unit);
    let q = num / unit;
    assert(num > 0) by (nonlinear_arith)
        requires
            q >= 1,
            unit > 0,
            num >= q * unit,
    ;
    // num / den / 2^e is the same as num / (den * 2^e).
    lemma_div_denominator(num, den, pe);
    let t = num / den;
    lemma_div_pos_is_pos(num, den);
    po2::lemma_join(t, pe);
    lemma_min_mantissa();
    po2::lemma_p2_adds(52, e);
    po2::lemma_p2_adds(53, e);
    assert(po2::p2(52 + e) <= t < po2::p2(53 + e)) by (nonlinear_arith)
        requires
            t == q * pe + t % pe,
            0 <= t % pe < pe,
            MIN_MANTISSA <= q < 2 * MIN_MANTISSA,
            po2::p2(52 + e) == MIN_MANTISSA * pe,
            po2::p2(53 + e) == 2 * MIN_MANTISSA * pe,
            pe > 0,
    ;
    assert((52 + e + 1) as nat == 53 + e);
    po2::lemma_flog_unique(t, 52 + e);
}

/// A number that is in range rounds to itself.
proof fn lemma_nearest_exact(v: int)
    requires
        v == 0 || exists|m: int, e: nat| #[trigger] is_scaled(v, m, e),
    ensures
        nearest(v, 1) == v,
{
    if v != 0 {
        let (m, e) = choose|m: int, e: nat| #[trigger] is_scaled(v, m, e);
        let pe = po2::p2(e);
        po2::lemma_p2(e);
        po2::lemma_split(m, pe, 0);
        assert(1 * pe == pe);
        lemma_nearest(v, 1, e);
    }
}

/// A multiple of `2^t` with few enough bits is representable.
proof fn lemma_multiple_is_exact(c: int, t: nat)
    requires
        0 <= c < 2 * MIN_MANTISSA,
        t >= 52,
    ensures
        nearest(c * po2::p2(t), 1) == c * po2::p2(t),
        representable(c * po2::p2(t)),
{
    let v = c * po2::p2(t);
    po2::lemma_p2(t);
    if c == 0 {
        assert(v == 0);
    } else {
        // 2^f <= c < 2^(f + 1), so c * 2^(52 - f) has 53 bits.
        let f = po2::flog(c);
        po2::lemma_flog(c);
        lemma_min_mantissa();
        po2::lemma_p2_mono(f, 53);
        let up = (52 - f) as nat;
        let e = (t - up) as nat;
        po2::lemma_p2_adds(up, e);
        po2::lemma_p2_adds(f, up);
        po2::lemma_p2_adds(f + 1, up);
        assert(up + e == t && f + up == 52 && f + 1 + up == 53);
        let m = c * po2::p2(up);
        assert(MIN_MANTISSA <= m < 2 * MIN_MANTISSA) by (nonlinear_arith)
            requires
                po2::p2(f) <= c < po2::p2(f + 1),
                po2::p2(f) * po2::p2(up) == MIN_MANTISSA,
                po2::p2(f + 1) * po2::p2(up) == 2 * MIN_MANTISSA,
                po2::p2(up) > 0,
                m == c * po2::p2(up),
        ;
        assert(v == m * po2::p2(e)) by (nonlinear_arith)
            requires
                v == c * po2::p2(t),
                po2::p2(t) == po2::p2(up) * po2::p2(e),
                m == c * po2::p2(up),
        ;
        assert(is_scaled(v, m, e));
        lemma_nearest_exact(v);
    }
}

/// Bit patterns are in the order of the numbers.
pub proof fn law_patterns_order_as_numbers(a: int, b: int)
    requires
        representable(a),
        representable(b),
    ensures
        a < b <==> bits_of(a) < bits_of(b),
        a == b <==> bits_of(a) == bits_of(b),
        a < po2::p2(1107) ==> bits_of(a) < INFINITY,
{
    lemma_pattern(a);
    lemma_pattern(b);
    if a != 0 && b != 0 {
        let (m, e) = choose|m: int, e: nat| #[trigger] is_scaled(a, m, e);
        let (n, f) = choose|m: int, e: nat| #[trigger] is_scaled(b, m, e);
        lemma_pattern_at(a, m, e);
        lemma_pattern_at(b, n, f);
        if e == f {
            po2::lemma_p2(e);
            assert((m < n <==> a < b) && (m == n <==> a == b)) by (nonlinear_arith)
                requires
                    a == m * po2::p2(e),
                    b == n * po2::p2(e),
                    po2::p2(e) > 0,
            ;
        } else if e < f {
            lemma_smaller_exponent(m, e, n, f);
        } else {
            lemma_smaller_exponent(n, f, m, e);
        }
    }
    if a != 0 && a < po2::p2(1107) {
        let (m, e) = choose|m: int, e: nat| #[trigger] is_scaled(a, m, e);
        lemma_pattern_at(a, m, e);
        po2::lemma_p2(e);
        lemma_min_mantissa();
        po2::lemma_p2_adds(52, e);
        assert(po2::p2(52 + e) <= a) by (nonlinear_arith)
            requires
                po2::p2(52 + e) == MIN_MANTISSA * po2::p2(e),
                a == m * po2::p2(e),
                m >= MIN_MANTISSA,
                po2::p2(e) > 0,
        ;
        po2::lemma_p2_mono(52 + e, 1107);
    }
}

/// A number with a smaller exponent is smaller.
proof fn lemma_smaller_exponent(m: int, e: nat, n: int, f: nat)
    requires
        MIN_MANTISSA <= m < 2 * MIN_MANTISSA,
        MIN_MANTISSA <= n < 2 * MIN_MANTISSA,
        e < f,
    ensures
        m * po2::p2(e) < n * po2::p2(f),
{
    po2::lemma_p2(e);
    po2::lemma_p2_mono(e + 1, f);
    assert(m * po2::p2(e) < n * po2::p2(f)) by (nonlinear_arith)
        requires
            m < 2 * n,
            n > 0,
            2 * po2::p2(e) <= po2::p2(f),
            po2::p2(e) > 0,
    ;
}

/// The pattern of a number from its mantissa and exponent.
proof fn lemma_pattern_at(v: int, m: int, e: nat)
    requires
        is_scaled(v, m, e),
    ensures
        v > 0,
        bits_of(v) == (e + 991) * MIN_MANTISSA + m,
{
    let pe = po2::p2(e);
    po2::lemma_p2(e);
    lemma_min_mantissa();
    po2::lemma_p2_adds(52, e);
    po2::lemma_p2_adds(53, e);
    assert(po2::p2(52 + e) <= v < po2::p2(53 + e)) by (nonlinear_arith)
        requires
            v == m * pe,
            MIN_MANTISSA <= m < 2 * MIN_MANTISSA,
            po2::p2(52 + e) == MIN_MANTISSA * pe,
            po2::p2(53 + e) == 2 * MIN_MANTISSA * pe,
            pe > 0,
    ;
    po2::lemma_p2(52 + e);
    assert((52 + e + 1) as nat == 53 + e);
    po2::lemma_flog_unique(v, 52 + e);
    po2::lemma_split(m, pe, 0);
}

/// The pattern of zero is zero, and that of any other number is not.
proof fn lemma_pattern(v: int)
    requires
        representable(v),
    ensures
        v >= 0,
        v == 0 ==> bits_of(v) == 0,
        v != 0 ==> bits_of(v) > 0,
{
    if v != 0 {
        let (m, e) = choose|m: int, e: nat| #[trigger] is_scaled(v, m, e);
        lemma_pattern_at(v, m, e);
    }
}

/// Rounding goes up to the next power of two at most.
proof fn lemma_at_most(num: int, den: int)
    requires
        den > 0,
        num / den >= MIN_MANTISSA,
    ensures
        nearest(num, den) <= po2::p2(po2::flog(num / den) + 1),
{
    let t = num / den;
    let f = po2::flog(t);
    po2::lemma_flog(t);
    lemma_min_mantissa();
    po2::lemma_p2_mono(52, f + 1);
    let e = (f - 52) as nat;
    let pe = po2::p2(e);
    po2::lemma_p2(e);
    po2::lemma_p2_adds(52, e);
    po2::lemma_p2_adds(53, e);
    assert(52 + e == f && 53 + e == f + 1);
    po2::lemma_quotient_below(t, 2 * MIN_MANTISSA, pe);
    po2::lemma_join(t, pe);
    assert(t / pe >= MIN_MANTISSA) by (nonlinear_arith)
        requires
            t == (t / pe) * pe + t % pe,
            t % pe < pe,
            t >= MIN_MANTISSA * pe,
            pe > 0,
    ;
    po2::lemma_join(num, den);
    assert(num >= 0) by (nonlinear_arith)
        requires
            num == t * den + num % den,
            num % den >= 0,
            t >= 0,
            den > 0,
    ;
    lemma_div_denominator(num, den, pe);
    lemma_nearest(num, den, e);
    let q = half_even(num, den * pe);
    assert(q * pe <= 2 * MIN_MANTISSA * pe) by (nonlinear_arith)
        requires
            q <= 2 * MIN_MANTISSA,
            pe > 0,
    ;
}

/// Rounding stays below a power of two.
proof fn lemma_below(x: int, k: nat)
    requires
        MIN_MANTISSA <= x <= po2::p2(k),
    ensures
        nearest(x, 1) <= po2::p2(k),
{
    lemma_min_mantissa();
    po2::lemma_p2_mono(52, k);
    if x == po2::p2(k) {
        let e = (k - 52) as nat;
        po2::lemma_p2_adds(52, e);
        assert(is_scaled(x, MIN_MANTISSA as int, e));
        lemma_nearest_exact(x);
    } else {
        assert(x / 1 == x);
        lemma_at_most(x, 1);
        po2::lemma_flog(x);
        po2::lemma_p2_mono(po2::flog(x), k);
        po2::lemma_p2_mono(po2::flog(x) + 1, k);
    }
}

/// What is at most `2^68`, but for less than 64 ones, rounds to at most
/// `2^68`.
proof fn lemma_capped(x: int)
    requires
        MIN_MANTISSA <= x < po2::p2(151) + po2::p2(89),
    ensures
        nearest(x, 1) <= po2::p2(151),
{
    lemma_min_mantissa();
    if x >= po2::p2(151) {
        let pe = po2::p2(99);
        po2::lemma_p2_adds(52, 99);
        po2::lemma_p2_adds(10, 89);
        po2::lemma_split(MIN_MANTISSA as int, pe, x - po2::p2(151));
        assert(1 * pe == pe);
        lemma_nearest(x, 1, 99);
    } else {
        lemma_below(x, 151);
    }
}

// ---------------------------------------------------------------------------
// Numbers.
// ---------------------------------------------------------------------------

/// A number of up to 53 significant bits: `mantissa * 2^exponent`.
#[derive(Debug, Copy, Clone)]
struct Rounded {
    mantissa: u64,
    exponent: u32,
}

impl Rounded {
    /// The mantissa has 53 bits, or the number is zero.
    spec fn wf(self) -> bool {
        ||| self.mantissa == 0 && self.exponent == 0
        ||| MIN_MANTISSA <= self.mantissa < 2 * MIN_MANTISSA && self.exponent <= 99
    }

    /// The number.
    spec fn value(self) -> int {
        self.mantissa * po2::p2(self.exponent as nat)
    }

    /// `num / den * 2^exponent`, rounded.
    fn round(num: u128, den: u128, exponent: u32) -> (r: Self)
        requires
            den > 0,
            num <= 0x100_0000_0000_0000_0000_0000_0000_0000,
            num as int / den as int >= MIN_MANTISSA,
            exponent <= 99,
            nearest(num * po2::p2(exponent as nat), den as int) <= po2::p2(151),
        ensures
            r.wf(),
            r.mantissa > 0,
            r.value() == nearest(num * po2::p2(exponent as nat), den as int),
    {
        let most: u128 = 2 * MIN_MANTISSA as u128;
        let mut unit: u128 = den;
        let mut shift: u32 = 0;
        proof {
            po2::lemma_p2(0);
            po2::lemma_join(num as int, den as int);
            let q = num as int / den as int;
            assert(den <= num) by (nonlinear_arith)
                requires
                    num >= q * den,
                    q >= 1,
                    den > 0,
            ;
        }
        while num / unit >= most
            invariant
                den > 0,
                most == 2 * MIN_MANTISSA,
                num <= 0x100_0000_0000_0000_0000_0000_0000_0000,
                unit == den * po2::p2(shift as nat),
                0 < unit <= num,
                num as int / unit as int >= MIN_MANTISSA,
                shift < 1000,
            decreases num - unit,
        {
            proof {
                po2::lemma_p2(shift as nat);
                lemma_div_denominator(num as int, unit as int, 2);
                po2::lemma_join(num as int, unit as int);
                po2::lemma_join(num as int, unit as int * 2);
                let q = num as int / unit as int;
                assert(2 * unit <= num) by (nonlinear_arith)
                    requires
                        num >= q * unit,
                        q >= 2,
                        unit > 0,
                ;
                assert(den * (2 * po2::p2(shift as nat)) == 2 * unit) by (nonlinear_arith)
                    requires
                        unit == den * po2::p2(shift as nat),
                ;
                assert(po2::p2((shift + 1) as nat) <= 2 * unit) by (nonlinear_arith)
                    requires
                        po2::p2((shift + 1) as nat) == 2 * po2::p2(shift as nat),
                        unit == den * po2::p2(shift as nat),
                        den >= 1,
                        po2::p2(shift as nat) > 0,
                ;
                lemma_p2_120();
                po2::lemma_p2_mono((shift + 1) as nat, 120);
            }
            unit = unit * 2;
            shift = shift + 1;
        }
        let down = num / unit;
        let rest = num % unit;
        let ghost k = po2::p2(exponent as nat);
        let ghost e = (shift + exponent) as nat;
        proof {
            po2::lemma_join(num as int, unit as int);
            po2::lemma_p2_adds(shift as nat, exponent as nat);
            lemma_half_even_scales(num as int, unit as int, k);
            assert(unit * k == den * po2::p2(e)) by (nonlinear_arith)
                requires
                    unit == den * po2::p2(shift as nat),
                    po2::p2(e) == po2::p2(shift as nat) * k,
            ;
            lemma_nearest(num * k, den as int, e);
        }
        let up: bool = rest > unit - rest || (rest == unit - rest && down % 2 == 1);
        let mantissa: u64 = if up {
            down as u64 + 1
        } else {
            down as u64
        };
        assert(mantissa == half_even(num as int, unit as int));
        proof {
            lemma_min_mantissa();
            po2::lemma_p2(e);
            po2::lemma_p2_adds(52, e);
            assert(po2::p2(52 + e) <= mantissa * po2::p2(e)) by (nonlinear_arith)
                requires
                    po2::p2(52 + e) == MIN_MANTISSA * po2::p2(e),
                    mantissa >= MIN_MANTISSA,
                    po2::p2(e) > 0,
            ;
            po2::lemma_p2_mono(52 + e, 151);
            if mantissa == 2 * MIN_MANTISSA {
                po2::lemma_p2_adds(53, e);
                po2::lemma_p2_mono(53 + e, 151);
                assert(mantissa * po2::p2(e) == MIN_MANTISSA * po2::p2(e + 1)) by (
                nonlinear_arith)
                    requires
                        mantissa == 2 * MIN_MANTISSA,
                        po2::p2(e + 1) == 2 * po2::p2(e),
                ;
            }
        }
        if mantissa == 2 * MIN_MANTISSA {
            Rounded { mantissa: MIN_MANTISSA, exponent: shift + exponent + 1 }
        } else {
            Rounded { mantissa, exponent: shift + exponent }
        }
    }

    /// The bit pattern.
    fn bits(self) -> (r: u64)
        requires
            self.wf(),
        ensures
            r == bits_of(self.value()),
            r < INFINITY,
    {
        if self.mantissa == 0 {
            assert(0 * po2::p2(self.exponent as nat) == 0);
            return 0;
        }
        proof {
            assert(is_scaled(self.value(), self.mantissa as int, self.exponent as nat));
            lemma_pattern_at(self.value(), self.mantissa as int, self.exponent as nat);
        }
        (self.exponent as u64 + 991) * MIN_MANTISSA + self.mantissa
    }

    /// The integer `n`.
    fn of_int(n: u64) -> (r: Self)
        ensures
            r.wf(),
            r.value() == nearest(n * one(), 1),
            r.value() <= po2::p2(147),
            n > 0 ==> r.mantissa > 0,
    {
        if n == 0 {
            assert(0 * po2::p2(0) == 0);
            proof {
                po2::lemma_p2(147);
            }
            return Rounded { mantissa: 0, exponent: 0 };
        }
        let num: u128 = n as u128 * 0x20_0000_0000_0000;
        proof {
            lemma_min_mantissa();
            lemma2_to64();
            po2::lemma_p2_adds(53, 30);
            po2::lemma_p2_adds(64, 83);
            let k = po2::p2(30);
            assert(num * k == n * one()) by (nonlinear_arith)
                requires
                    num == n * po2::p2(53),
                    one() == po2::p2(53) * k,
            ;
            assert(MIN_MANTISSA <= n * one() <= po2::p2(147)) by (nonlinear_arith)
                requires
                    1 <= n <= po2::p2(64),
                    one() == po2::p2(53) * k,
                    po2::p2(53) >= MIN_MANTISSA,
                    k >= 1,
                    po2::p2(147) == po2::p2(64) * one(),
            ;
            lemma_below(n * one(), 147);
            po2::lemma_p2_mono(147, 151);
            assert(num as int / 1 == num);
        }
        Self::round(num, 1, 30)
    }

    /// Ten times the number.
    fn times_ten(self) -> (r: Self)
        requires
            self.wf(),
            self.value() <= po2::p2(147),
        ensures
            r.wf(),
            r.value() == nearest(10 * self.value(), 1),
            r.value() <= po2::p2(151),
            self.mantissa > 0 ==> r.mantissa > 0,
    {
        if self.mantissa == 0 {
            assert(0 * po2::p2(self.exponent as nat) == 0);
            proof {
                po2::lemma_p2(151);
            }
            return self;
        }
        let num: u128 = self.mantissa as u128 * 10;
        proof {
            let k = po2::p2(self.exponent as nat);
            po2::lemma_p2(self.exponent as nat);
            assert(num * k == 10 * self.value()) by (nonlinear_arith)
                requires
                    num == self.mantissa * 10,
                    self.value() == self.mantissa * k,
            ;
            assert(self.value() >= MIN_MANTISSA) by (nonlinear_arith)
                requires
                    self.value() == self.mantissa * k,
                    self.mantissa >= MIN_MANTISSA,
                    k >= 1,
            ;
            po2::lemma_p2_adds(4, 147);
            lemma2_to64();
            assert(po2::p2(4) == 16);
            lemma_below(10 * self.value(), 151);
            assert(num as int / 1 == num);
        }
        Self::round(num, 1, self.exponent)
    }

    /// `2 / z`.
    fn two_over(z: u32) -> (r: Self)
        requires
            z > 0,
        ensures
            r.wf(),
            r.mantissa > 0,
            r.value() == nearest(2 * one(), z as int),
            r.value() <= po2::p2(86),
    {
        // 2^84, which is two ones.
        let num: u128 = 0x10_0000_0000_0000_0000_0000;
        proof {
            lemma_min_mantissa();
            lemma2_to64();
            po2::lemma_p2_adds(52, 32);
            po2::lemma_p2(83);
            assert(num == po2::p2(84));
            let t = num as int / z as int;
            lemma_div_is_ordered_by_denominator(num as int, z as int, 0x1_0000_0000);
            assert(num as int / 0x1_0000_0000 == MIN_MANTISSA);
            lemma_div_nonincreasing(num as int, z as int);
            lemma_at_most(num as int, z as int);
            po2::lemma_flog(t);
            po2::lemma_p2_mono(po2::flog(t), 84);
            po2::lemma_p2_mono(po2::flog(t) + 1, 86);
            po2::lemma_p2_mono(86, 151);
            assert(num * po2::p2(0) == num);
        }
        Self::round(num, z as u128, 0)
    }

    /// The sum of two numbers, the first of which is not zero.
    fn plus(self, other: Self) -> (r: Self)
        requires
            self.wf(),
            self.mantissa > 0,
            other.wf(),
            self.value() + other.value() < po2::p2(151) + po2::p2(89),
        ensures
            r.wf(),
            r.mantissa > 0,
            r.value() == nearest(self.value() + other.value(), 1),
            r.value() <= po2::p2(151),
    {
        proof {
            lemma_at_least(self);
            if other.mantissa == 0 {
                assert(0 * po2::p2(other.exponent as nat) == 0);
                assert(is_scaled(self.value(), self.mantissa as int, self.exponent as nat));
                lemma_nearest_exact(self.value());
            } else {
                lemma_at_least(other);
            }
            lemma_capped(self.value() + other.value());
        }
        if other.mantissa == 0 {
            self
        } else if self.exponent >= other.exponent {
            Self::plus_smaller(self, other)
        } else {
            Self::plus_smaller(other, self)
        }
    }

    /// The sum of two numbers, neither of which is zero.
    fn plus_smaller(high: Self, low: Self) -> (r: Self)
        requires
            high.wf(),
            high.mantissa > 0,
            low.wf(),
            low.mantissa > 0,
            high.exponent >= low.exponent,
            nearest(high.value() + low.value(), 1) <= po2::p2(151),
        ensures
            r.wf(),
            r.mantissa > 0,
            r.value() == nearest(high.value() + low.value(), 1),
    {
        let gap: u32 = high.exponent - low.exponent;
        let ghost pl = po2::p2(low.exponent as nat);
        let ghost ph = po2::p2(high.exponent as nat);
        let ghost pg = po2::p2(gap as nat);
        proof {
            lemma_min_mantissa();
            po2::lemma_p2_adds(gap as nat, low.exponent as nat);
        }
        if gap > 60 {
            // The lower number is less than half of the last bit.
            proof {
                lemma2_to64_rest();
                po2::lemma_p2_mono(60, gap as nat);
                assert(0 <= low.value() && 2 * low.value() < ph) by (nonlinear_arith)
                    requires
                        low.value() == low.mantissa * pl,
                        low.mantissa < 0x20_0000_0000_0000,
                        ph == pg * pl,
                        pg >= 0x1000_0000_0000_0000,
                        pl > 0,
                ;
                po2::lemma_split(high.mantissa as int, ph, low.value());
                assert(1 * ph == ph);
                lemma_nearest(high.value() + low.value(), 1, high.exponent as nat);
            }
            return high;
        }
        let scale: u128 = po2::pow2_u64(gap) as u128;
        proof {
            lemma2_to64_rest();
            po2::lemma_p2_mono(gap as nat, 60);
            assert(high.mantissa * scale <= 0x20_0000_0000_0000 * 0x1000_0000_0000_0000)
                by (nonlinear_arith)
                requires
                    high.mantissa <= 0x20_0000_0000_0000,
                    0 <= scale <= 0x1000_0000_0000_0000,
            ;
            assert(0 <= high.mantissa * scale) by (nonlinear_arith);
        }
        let num: u128 = high.mantissa as u128 * scale + low.mantissa as u128;
        proof {
            assert(num * pl == high.value() + low.value()) by (nonlinear_arith)
                requires
                    num == high.mantissa * pg + low.mantissa,
                    high.value() == high.mantissa * ph,
                    low.value() == low.mantissa * pl,
                    ph == pg * pl,
            ;
            assert(num as int / 1 == num);
        }
        Self::round(num, 1, low.exponent)
    }
}

/// A number that is not zero is at least `2^52` units.
proof fn lemma_at_least(x: Rounded)
    requires
        x.wf(),
        x.mantissa > 0,
    ensures
        x.value() >= MIN_MANTISSA,
{
    po2::lemma_p2(x.exponent as nat);
    assert(x.value() >= MIN_MANTISSA) by (nonlinear_arith)
        requires
            x.value() == x.mantissa * po2::p2(x.exponent as nat),
            x.mantissa >= MIN_MANTISSA,
            po2::p2(x.exponent as nat) >= 1,
    ;
}

/// `2^120`.
proof fn lemma_p2_120()
    ensures
        po2::p2(120) == 0x100_0000_0000_0000_0000_0000_0000_0000,
{
    lemma2_to64();
    lemma2_to64_rest();
    po2::lemma_p2_adds(60, 60);
    assert(0x1000_0000_0000_0000int * 0x1000_0000_0000_0000int
        == 0x100_0000_0000_0000_0000_0000_0000_0000int);
}

// ---------------------------------------------------------------------------
// Scores.
// ---------------------------------------------------------------------------

/// How far a pass is from 1024 threads, as a power of two.
pub open spec fn latency(p: PassConfig) -> int {
    if p.log_wg < 10 {
        10 - p.log_wg
    } else {
        0
    }
}

/// What `n` passes cost as such: each is a full round trip through memory.
pub open spec fn start_score(n: int) -> int {
    nearest(10 * nearest(n * one(), 1), 1)
}

/// The score with a pass added: a low `z_count` coalesces poorly, a low
/// `log_wg` hides less latency.
pub open spec fn with_pass(score: int, p: PassConfig) -> int {
    nearest(
        nearest(score + nearest(2 * one(), p.z_count as int), 1) + 5 * latency(p) * one(),
        1,
    )
}

/// The score after the first `k` passes.
pub open spec fn score_after(passes: Seq<PassConfig>, k: int) -> int
    decreases k,
{
    if k <= 0 {
        start_score(passes.len() as int)
    } else {
        with_pass(score_after(passes, k - 1), passes[k - 1])
    }
}

/// The bit pattern of the score of a plan's passes. It is infinite if a
/// `z_count` is zero.
pub open spec fn score_of(passes: Seq<PassConfig>) -> int {
    if exists|i: int| 0 <= i < passes.len() && (#[trigger] passes[i]).z_count == 0 {
        INFINITY as int
    } else {
        bits_of(score_after(passes, passes.len() as int))
    }
}

/// The score of some passes.
pub(crate) fn score_passes(passes: &Vec<PassConfig>) -> (r: u64)
    ensures
        r == score_of(passes@),
        r <= INFINITY,
        r == INFINITY <==> exists|i: int|
            0 <= i < passes@.len() && (#[trigger] passes@[i]).z_count == 0,
{
    let k = passes.len();
    let mut score = Rounded::of_int(k as u64).times_ten();
    let mut i: usize = 0;
    while i < k
        invariant
            i <= k,
            k == passes@.len(),
            forall|j: int| 0 <= j < i ==> (#[trigger] passes@[j]).z_count > 0,
            score.wf(),
            k > 0 ==> score.mantissa > 0,
            score.value() == score_after(passes@, i as int),
            score.value() <= po2::p2(151),
        decreases k - i,
    {
        let p = passes[i];
        if p.z_count == 0 {
            assert(passes@[i as int].z_count == 0);
            return INFINITY;
        }
        // Penalize low z_count (coalescing).
        let coalescing = Rounded::two_over(p.z_count);
        proof {
            po2::lemma_p2_mono(86, 89);
        }
        score = score.plus(coalescing);
        // Penalize low log_wg (latency hiding).
        let distance: u32 = 10u32.saturating_sub(p.log_wg);
        let waiting = Rounded::of_int(5 * distance as u64);
        proof {
            lemma_multiple_is_exact(5 * latency(p), 83);
            lemma2_to64();
            po2::lemma_p2_adds(6, 83);
            po2::lemma_p2(83);
            assert(waiting.value() < po2::p2(89)) by (nonlinear_arith)
                requires
                    waiting.value() == 5 * latency(p) * po2::p2(83),
                    0 <= latency(p) <= 10,
                    po2::p2(89) == 64 * po2::p2(83),
                    po2::p2(83) > 0,
            ;
        }
        score = score.plus(waiting);
        i = i + 1;
    }
    score.bits()
}

/// The cost of a pass before rounding.
pub open spec fn pass_score(p: PassConfig) -> int {
    10 * one() + (2 * one()) / (p.z_count as int) + 5 * latency(p) * one()
}

/// The cost of the first `k` passes before rounding.
pub open spec fn passes_score(passes: Seq<PassConfig>, k: int) -> int
    decreases k,
{
    if k <= 0 {
        0
    } else {
        passes_score(passes, k - 1) + pass_score(passes[k - 1])
    }
}

/// A plan whose `z_count`s are powers of two, as in every valid plan, and
/// that has no more than 65536 passes.
pub open spec fn adds_up(passes: Seq<PassConfig>) -> bool {
    &&& passes.len() <= 0x1_0000
    &&& forall|i: int|
        0 <= i < passes.len() ==> po2::is_po2((#[trigger] passes[i]).z_count as int)
}

/// What the cost penalizes: a small workgroup, chunks that coalesce badly,
/// and every pass.
pub proof fn law_score_penalties(p: PassConfig, q: PassConfig)
    requires
        po2::is_po2(p.z_count as int),
        po2::is_po2(q.z_count as int),
    ensures
        p.z_count == q.z_count && q.log_wg < p.log_wg && q.log_wg < 10 ==> pass_score(p)
            < pass_score(q),
        p.log_wg == q.log_wg && q.z_count < p.z_count ==> pass_score(p) < pass_score(q),
        pass_score(p) > 10 * one(),
{
    let a = lemma_coalescing(p.z_count);
    let b = lemma_coalescing(q.z_count);
    po2::lemma_p2(83);
    if q.z_count < p.z_count {
        po2::lemma_p2_mono(b, a);
        po2::lemma_p2_mono((84 - a) as nat, (84 - b) as nat);
    }
    if q.log_wg < p.log_wg && q.log_wg < 10 {
        assert(5 * latency(p) * one() < 5 * latency(q) * one()) by (nonlinear_arith)
            requires
                latency(p) < latency(q),
                one() > 0,
        ;
    }
    assert(5 * latency(p) * one() >= 0) by (nonlinear_arith)
        requires
            latency(p) >= 0,
            one() > 0,
    ;
}

/// A power of two `z = 2^e` divides two ones evenly.
proof fn lemma_coalescing(z: u32) -> (e: nat)
    requires
        po2::is_po2(z as int),
    ensures
        po2::p2(e) == z,
        e <= 31,
        (2 * one()) / (z as int) == po2::p2((84 - e) as nat) > 0,
        nearest(2 * one(), z as int) == po2::p2((84 - e) as nat),
        po2::p2((84 - e) as nat) == po2::p2((31 - e) as nat) * po2::p2(53),
{
    let e = choose|e: nat| #[trigger] po2::p2(e) == z;
    lemma2_to64();
    po2::lemma_p2_mono(32, e);
    po2::lemma_p2(83);
    po2::lemma_p2_adds((84 - e) as nat, e);
    assert((84 - e) as nat + e == 84);
    po2::lemma_split(po2::p2((84 - e) as nat), z as int, 0);
    let up = (32 - e) as nat;
    lemma_min_mantissa();
    po2::lemma_p2_adds(e, up);
    po2::lemma_p2_adds(52, 32);
    po2::lemma_p2_adds(52, up);
    assert(e + up == 32 && 52 + up == (84 - e) as nat);
    po2::lemma_split(MIN_MANTISSA as int, po2::p2(32), 0);
    lemma_nearest(2 * one(), z as int, up);
    po2::lemma_p2_adds((31 - e) as nat, 53);
    assert((31 - e) as nat + 53 == (84 - e) as nat);
    e
}

/// No rounding takes place: the score is a multiple of `2^-30` of few enough
/// bits.
proof fn lemma_exact_after(passes: Seq<PassConfig>, k: int) -> (c: int)
    requires
        adds_up(passes),
        0 <= k <= passes.len(),
    ensures
        score_after(passes, k) == passes_score(passes, k) + 10 * (passes.len() - k) * one(),
        score_after(passes, k) == c * po2::p2(53),
        0 <= c <= (10 * passes.len() + 52 * k) * 0x4000_0000,
    decreases k,
{
    let n = passes.len() as int;
    lemma2_to64();
    lemma_min_mantissa();
    po2::lemma_p2_adds(30, 53);
    let g = 0x4000_0000int;
    assert(one() == g * po2::p2(53));
    if k == 0 {
        let c = 10 * n * g;
        lemma_multiple_is_exact(n * g, 53);
        lemma_multiple_is_exact(c, 53);
        let u = po2::p2(53);
        assert(n * one() == n * g * u && 10 * (n * g * u) == c * u && 10 * n * one() == c * u)
            by (nonlinear_arith)
            requires
                one() == g * u,
                c == 10 * n * g,
        ;
        c
    } else {
        let p = passes[k - 1];
        let b = lemma_exact_after(passes, k - 1);
        let e = lemma_coalescing(p.z_count);
        let u = po2::p2(53);
        let z = po2::p2((31 - e) as nat);
        po2::lemma_p2_mono((31 - e) as nat, 31);
        let l = 5 * latency(p);
        let c = b + z + l * g;
        lemma_multiple_is_exact(b + z, 53);
        lemma_multiple_is_exact(c, 53);
        assert(b * u + z * u == (b + z) * u && (b + z) * u + l * one() == c * u)
            by (nonlinear_arith)
            requires
                one() == g * u,
                c == b + z + l * g,
        ;
        assert(10 * (n - (k - 1)) * one() == 10 * (n - k) * one() + 10 * one())
            by (nonlinear_arith);
        c
    }
}

/// The score of a plan that adds up is the sum of what its passes cost,
/// without any rounding.
pub proof fn law_score_is_exact(passes: Seq<PassConfig>)
    requires
        adds_up(passes),
    ensures
        score_after(passes, passes.len() as int) == passes_score(passes, passes.len() as int),
        representable(score_after(passes, passes.len() as int)),
        score_of(passes) == bits_of(passes_score(passes, passes.len() as int)),
{
    let n = passes.len() as int;
    let c = lemma_exact_after(passes, n);
    assert(10 * (n - n) * one() == 0) by (nonlinear_arith);
    lemma_multiple_is_exact(c, 53);
    assert forall|i: int| 0 <= i < n implies (#[trigger] passes[i]).z_count != 0 by {
        let e = lemma_coalescing(passes[i].z_count);
        po2::lemma_p2(e);
    }
}

/// Comparing the scores of plans that add up is comparing what they cost.
pub proof fn law_scores_compare_as_costs(a: Seq<PassConfig>, b: Seq<PassConfig>)
    requires
        adds_up(a),
        adds_up(b),
    ensures
        score_of(a) < score_of(b) <==> passes_score(a, a.len() as int) < passes_score(
            b,
            b.len() as int,
        ),
{
    law_score_is_exact(a);
    law_score_is_exact(b);
    law_patterns_order_as_numbers(
        score_after(a, a.len() as int),
        score_after(b, b.len() as int),
    );
}

/// Rounding goes to the nearest number with 53 bits: the quotient lies
/// between `2^52` and `2^53` units, the result is a whole number of units no
/// more than half of one away, and an even one if it is half of one away.
pub proof fn law_rounds_to_nearest(num: int, den: int)
    requires
        den > 0,
        num >= 0x10_0000_0000_0000 * den,
    ensures
        exists|c: int, e: nat|
            {
                let unit = #[trigger] (den * pow2(e));
                let v = nearest(num, den);
                &&& v == #[trigger] (c * pow2(e))
                &&& 0x10_0000_0000_0000 * unit <= num < 0x20_0000_0000_0000 * unit
                &&& -unit <= 2 * (v * den - num) <= unit
                &&& (2 * (v * den - num) == unit || 2 * (v * den - num) == -unit) ==> c % 2 == 0
            },
{
    let t = num / den;
    po2::lemma_join(num, den);
    lemma_min_mantissa();
    assert(t >= MIN_MANTISSA) by (nonlinear_arith)
        requires
            num == t * den + num % den,
            num % den < den,
            num >= MIN_MANTISSA * den,
            den > 0,
    ;
    assert(num > 0) by (nonlinear_arith)
        requires
            num >= 0x10_0000_0000_0000 * den,
            den > 0,
    ;
    po2::lemma_flog(t);
    let f = po2::flog(t);
    if f < 52 {
        po2::lemma_p2_mono((f + 1) as nat, 52);
    }
    let e = (f - 52) as nat;
    let pe = po2::p2(e);
    po2::lemma_p2(e);
    po2::lemma_p2_adds(52, e);
    po2::lemma_p2_adds(53, e);
    assert(52 + e == f && 53 + e == f + 1);
    let unit = den * pe;
    let c = half_even(num, unit);
    let v = c * pe;
    assert(unit > 0) by (nonlinear_arith)
        requires
            den > 0,
            pe > 0,
            unit == den * pe,
    ;
    assert(MIN_MANTISSA * unit <= num < 2 * MIN_MANTISSA * unit) by (nonlinear_arith)
        requires
            num == t * den + num % den,
            0 <= num % den < den,
            MIN_MANTISSA * pe <= t < 2 * MIN_MANTISSA * pe,
            unit == den * pe,
            den > 0,
    ;
    po2::lemma_join(num, unit);
    let q = num / unit;
    let r = num % unit;
    assert(v * den == c * unit && (q + 1) * unit == q * unit + unit) by (nonlinear_arith)
        requires
            v == c * pe,
            unit == den * pe,
    ;
    assert(nearest(num, den) == v);
    assert(den * pow2(e) == unit && c * pow2(e) == v);
}

/// The bit pattern of `m * 2^e` in units of `2^-83`: above 52 bits the
/// exponent, biased so that one has 1023, and below them the mantissa
/// without its leading bit.
pub proof fn law_bit_pattern(m: int, e: nat)
    requires
        0x10_0000_0000_0000 <= m < 0x20_0000_0000_0000,
    ensures
        bits_of(m * pow2(e)) == (e + 992) * 0x10_0000_0000_0000 + (m
            - 0x10_0000_0000_0000),
        bits_of(pow2(83) as int) == 1023 * 0x10_0000_0000_0000,
        bits_of(0) == 0,
{
    lemma_pattern_at(m * po2::p2(e), m, e);
    lemma_min_mantissa();
    po2::lemma_p2_adds(52, 31);
    lemma_pattern_at(po2::p2(83), 0x10_0000_0000_0000, 31);
}

/// A score, step by step, in units of `2^-83`: ten for each pass to start
/// with, then for each pass in turn two over its chunks and five for each
/// halving of the workgroup below 1024 threads, each step rounded. A pass
/// without chunks makes it infinite.
pub proof fn law_score_steps(passes: Seq<PassConfig>, k: int)
    requires
        0 <= k < passes.len(),
    ensures
        score_after(passes, 0) == nearest(10 * nearest(passes.len() as int * pow2(83), 1), 1),
        passes[k].log_wg >= 10 ==> score_after(passes, k + 1) == nearest(
            nearest(
                score_after(passes, k) + nearest(2 * pow2(83) as int, passes[k].z_count as int),
                1,
            ),
            1,
        ),
        passes[k].log_wg < 10 ==> score_after(passes, k + 1) == nearest(
            nearest(
                score_after(passes, k) + nearest(2 * pow2(83) as int, passes[k].z_count as int),
                1,
            ) + 5 * (10 - passes[k].log_wg) * pow2(83),
            1,
        ),
        passes[k].z_count == 0 ==> score_of(passes) == 0x7FF0_0000_0000_0000,
        (forall|i: int| 0 <= i < passes.len() ==> (#[trigger] passes[i]).z_count > 0) ==> score_of(
            passes,
        ) == bits_of(score_after(passes, passes.len() as int)),
{
    if passes[k].log_wg >= 10 {
        assert(5 * 0 * one() == 0) by (nonlinear_arith);
    }
}

/// What a pass costs, where nothing is rounded: ten, two over its chunks,
/// and five for each halving of the workgroup below 1024 threads, in units
/// of `2^-83`.
pub proof fn law_cost_of_pass(passes: Seq<PassConfig>, p: PassConfig)
    requires
        p.z_count > 0,
    ensures
        passes_score(Seq::empty(), 0) == 0,
        passes_score(passes.push(p), (passes.len() + 1) as int) == passes_score(
            passes,
            passes.len() as int,
        ) + 10 * pow2(83) + (2 * pow2(83)) as int / p.z_count as int + (if p.log_wg < 10 {
            5 * (10 - p.log_wg) * pow2(83)
        } else {
            0
        }),
{
    lemma_same_cost(passes, passes.push(p), passes.len() as int);
    assert(passes.push(p)[passes.len() as int] == p);
    if p.log_wg >= 10 {
        assert(5 * 0 * one() == 0) by (nonlinear_arith);
    }
}

/// Only the first `k` passes matter to the cost of `k`.
proof fn lemma_same_cost(a: Seq<PassConfig>, b: Seq<PassConfig>, k: int)
    requires
        k <= a.len(),
        k <= b.len(),
        forall|i: int| 0 <= i < k ==> #[trigger] a[i] == b[i],
    ensures
        passes_score(a, k) == passes_score(b, k),
    decreases k,
{
    if k > 0 {
        lemma_same_cost(a, b, k - 1);
        assert(a[k - 1] == b[k - 1]);
    }
}

} // verus!
