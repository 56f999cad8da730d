//! Arithmetic modulo a positive integer `m`.
//!
//! Residues are plain integers in `[0, m)`. The operations here are the
//! model that the field types and the transforms are specified against.

use vstd::arithmetic::div_mod::*;
use vstd::arithmetic::mul::*;
use vstd::arithmetic::power::*;
use vstd::prelude::*;

verus! {

/// `(a + b) mod m`.
pub open spec fn plus(m: int, a: int, b: int) -> int {
    (a + b) % m
}

/// `(a - b) mod m`.
pub open spec fn minus(m: int, a: int, b: int) -> int {
    (a - b) % m
}

/// `(a * b) mod m`.
pub open spec fn times(m: int, a: int, b: int) -> int {
    (a * b) % m
}

/// `b^e mod m`.
pub open spec fn power(m: int, b: int, e: nat) -> int {
    pow(b, e) % m
}

/// `x` is a reduced residue.
pub open spec fn reduced(m: int, x: int) -> bool {
    0 <= x < m
}

/// Reducing an operand first does not change a reduced sum.
pub proof fn lemma_plus_absorbs(m: int, a: int, b: int)
    requires
        m > 0,
    ensures
        (a % m + b) % m == (a + b) % m,
        (a + b % m) % m == (a + b) % m,
        (a % m + b % m) % m == (a + b) % m,
{
    lemma_add_mod_noop(a, b, m);
    lemma_add_mod_noop_right(a, b, m);
    lemma_add_mod_noop_right(b, a, m);
}

/// Reducing an operand first does not change a reduced difference.
pub proof fn lemma_minus_absorbs(m: int, a: int, b: int)
    requires
        m > 0,
    ensures
        (a % m - b) % m == (a - b) % m,
        (a - b % m) % m == (a - b) % m,
        (a % m - b % m) % m == (a - b) % m,
{
    lemma_sub_mod_noop(a, b, m);
    lemma_sub_mod_noop_right(a, b, m);
    lemma_add_mod_noop_right(-b, a, m);
}

/// Reducing an operand first does not change a reduced product.
pub proof fn lemma_times_absorbs(m: int, a: int, b: int)
    requires
        m > 0,
    ensures
        (a % m * b) % m == (a * b) % m,
        (a * (b % m)) % m == (a * b) % m,
        (a % m * (b % m)) % m == (a * b) % m,
{
    lemma_mul_mod_noop_general(a, b, m);
}

/// Two integers that differ by a multiple of `m` have the same residue.
pub proof fn lemma_same_residue(m: int, x: int, y: int, k: int)
    requires
        m > 0,
        x == y + k * m,
    ensures
        x % m == y % m,
{
    lemma_mod_multiples_vanish(k, y, m);
    lemma_mul_is_commutative(k, m);
}

/// A reduced residue is its own residue.
pub proof fn lemma_reduced(m: int, x: int)
    requires
        reduced(m, x),
    ensures
        x % m == x,
{
    lemma_small_mod(x as nat, m as nat);
}

/// The result of every operation is reduced.
pub proof fn lemma_closed(m: int, a: int, b: int)
    requires
        m > 0,
    ensures
        reduced(m, plus(m, a, b)),
        reduced(m, minus(m, a, b)),
        reduced(m, times(m, a, b)),
{
}

/// Addition is associative.
pub proof fn lemma_plus_assoc(m: int, a: int, b: int, c: int)
    requires
        m > 0,
    ensures
        plus(m, plus(m, a, b), c) == plus(m, a, plus(m, b, c)),
        plus(m, plus(m, a, b), c) == (a + b + c) % m,
{
    lemma_plus_absorbs(m, a + b, c);
    lemma_plus_absorbs(m, a, b + c);
}

/// Multiplication is associative.
pub proof fn lemma_times_assoc(m: int, a: int, b: int, c: int)
    requires
        m > 0,
    ensures
        times(m, times(m, a, b), c) == times(m, a, times(m, b, c)),
        times(m, times(m, a, b), c) == (a * b * c) % m,
{
    lemma_times_absorbs(m, a * b, c);
    lemma_times_absorbs(m, a, b * c);
    lemma_mul_is_associative(a, b, c);
}

/// Multiplication is commutative.
pub proof fn lemma_times_comm(m: int, a: int, b: int)
    ensures
        times(m, a, b) == times(m, b, a),
{
    lemma_mul_is_commutative(a, b);
}

/// Multiplication distributes over addition and subtraction.
pub proof fn lemma_times_distributes(m: int, a: int, b: int, c: int)
    requires
        m > 0,
    ensures
        times(m, a, plus(m, b, c)) == plus(m, times(m, a, b), times(m, a, c)),
        times(m, a, minus(m, b, c)) == minus(m, times(m, a, b), times(m, a, c)),
{
    lemma_times_absorbs(m, a, b + c);
    lemma_times_absorbs(m, a, b - c);
    lemma_plus_absorbs(m, a * b, a * c);
    lemma_minus_absorbs(m, a * b, a * c);
    lemma_mul_is_distributive_add(a, b, c);
    lemma_mul_is_distributive_sub(a, b, c);
}

/// `b^0 = 1` and `b^1 = b`.
pub proof fn lemma_power_base(m: int, b: int)
    requires
        m > 1,
    ensures
        power(m, b, 0) == 1,
        power(m, b, 1) == b % m,
{
    lemma_pow0(b);
    lemma_pow1(b);
    lemma_small_mod(1, m as nat);
}

/// `b^(e + f) = b^e * b^f`.
pub proof fn lemma_power_adds(m: int, b: int, e: nat, f: nat)
    requires
        m > 0,
    ensures
        power(m, b, e + f) == times(m, power(m, b, e), power(m, b, f)),
{
    lemma_pow_adds(b, e, f);
    lemma_times_absorbs(m, pow(b, e), pow(b, f));
}

/// `b^(e * f) = (b^e)^f`.
pub proof fn lemma_power_multiplies(m: int, b: int, e: nat, f: nat)
    requires
        m > 0,
    ensures
        power(m, b, e * f) == power(m, power(m, b, e), f),
{
    lemma_pow_multiplies(b, e, f);
    lemma_pow_mod_noop(pow(b, e), f, m);
}

/// `(b mod m)^e = b^e`.
pub proof fn lemma_power_absorbs(m: int, b: int, e: nat)
    requires
        m > 0,
    ensures
        power(m, b % m, e) == power(m, b, e),
{
    lemma_pow_mod_noop(b, e, m);
}

/// `b^(e + 1) = b^e * b`.
pub proof fn lemma_power_step(m: int, b: int, e: nat)
    requires
        m > 1,
    ensures
        power(m, b, e + 1) == times(m, power(m, b, e), b),
{
    lemma_power_adds(m, b, e, 1);
    lemma_power_base(m, b);
    lemma_times_absorbs(m, power(m, b, e), b);
}

/// One squaring step of the exponent: from `b^e = x` to `b^(2e) = x^2`.
pub proof fn lemma_power_doubles(m: int, b: int, e: nat, x: int, y: int)
    requires
        m > 0,
        power(m, b, e) == x,
        (x * x) % m == y,
    ensures
        power(m, b, 2 * e) == y,
{
    lemma_power_adds(m, b, e, e);
}

/// `1^e = 1`.
pub proof fn lemma_power_of_one(m: int, e: nat)
    requires
        m > 1,
    ensures
        power(m, 1, e) == 1,
{
    lemma1_pow(e);
    lemma_small_mod(1, m as nat);
}

/// `(a * b)^e = a^e * b^e`.
pub proof fn lemma_power_distributes(m: int, a: int, b: int, e: nat)
    requires
        m > 0,
    ensures
        power(m, times(m, a, b), e) == times(m, power(m, a, e), power(m, b, e)),
{
    lemma_pow_distributes(a, b, e);
    lemma_pow_mod_noop(a * b, e, m);
    lemma_times_absorbs(m, pow(a, e), pow(b, e));
}

/// Sums, differences, products and powers are the residues of those of the
/// integers.
pub proof fn law_residues(m: int, a: int, b: int, e: nat)
    requires
        m > 0,
    ensures
        0 <= plus(m, a, b) < m,
        0 <= minus(m, a, b) < m,
        0 <= times(m, a, b) < m,
        0 <= power(m, a, e) < m,
        (a + b - plus(m, a, b)) % m == 0,
        (a - b - minus(m, a, b)) % m == 0,
        (a * b - times(m, a, b)) % m == 0,
        (pow(a, e) - power(m, a, e)) % m == 0,
{
    lemma_excess(m, a + b);
    lemma_excess(m, a - b);
    lemma_excess(m, a * b);
    lemma_excess(m, pow(a, e));
}

/// A number exceeds its residue by a multiple of the modulus.
proof fn lemma_excess(m: int, x: int)
    requires
        m > 0,
    ensures
        0 <= x % m < m,
        (x - x % m) % m == 0,
{
    lemma_fundamental_div_mod(x, m);
    lemma_mod_multiples_basic(x / m, m);
    lemma_mul_is_commutative(x / m, m);
}

} // verus!
