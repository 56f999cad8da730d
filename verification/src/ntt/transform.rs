//! What the transforms compute, and why the butterfly stages compute it.
//!
//! [`ntt`] and [`intt`] are the transforms as polynomial evaluation. A
//! transform of `2^l` points runs as `l` butterfly stages: [`dit`] applies
//! ascending-stride decimation-in-time stages, [`dif`] the
//! descending-stride decimation-in-frequency ones. The theorems below tie
//! the stages to the transforms and the two transforms to each other.

use vstd::arithmetic::div_mod::*;
use vstd::arithmetic::mul::*;
use vstd::arithmetic::power::*;
use vstd::arithmetic::power2::*;
use vstd::prelude::*;

use crate::po2;
use crate::poly;
use crate::zmod;

verus! {

/// `w` is a primitive `2^l`-th root of unity: its `2^(l-1)`-th power is `-1`.
pub open spec fn is_root(m: int, w: int, l: nat) -> bool {
    &&& m > 2
    &&& zmod::reduced(m, w)
    &&& l >= 1
    &&& zmod::power(m, w, pow2((l - 1) as nat)) == m - 1
}

/// The forward transform: from bit-reversed coefficients to the values of
/// the polynomial at `w^0, w^1, ...` in natural order.
pub open spec fn ntt(m: int, w: int, l: nat, x: Seq<int>) -> Seq<int> {
    Seq::new(
        pow2(l),
        |k: int| poly::eval(m, po2::bit_reversed(l, x), zmod::power(m, w, k as nat)),
    )
}

/// The inverse transform: from values in natural order to bit-reversed
/// coefficients. `wi` is the inverse root and `ni` the inverse of `2^l`.
pub open spec fn intt(m: int, wi: int, ni: int, l: nat, y: Seq<int>) -> Seq<int> {
    Seq::new(
        pow2(l),
        |u: int|
            zmod::times(m, ni, poly::eval(m, y, zmod::power(m, wi, po2::rev(l, u) as nat))),
    )
}

/// Entry `u` after the decimation-in-time stage of stride `2^t`.
pub open spec fn dit_at(m: int, w: int, l: nat, x: Seq<int>, t: nat, u: int) -> int {
    let d = po2::p2(t);
    let tw = zmod::power(m, w, ((u % d) * po2::p2((l - 1 - t) as nat)) as nat);
    if (u / d) % 2 == 0 {
        zmod::plus(m, x[u], zmod::times(m, tw, x[u + d]))
    } else {
        zmod::minus(m, x[u - d], zmod::times(m, tw, x[u]))
    }
}

/// One decimation-in-time stage.
pub open spec fn dit_stage(m: int, w: int, l: nat, x: Seq<int>, t: nat) -> Seq<int> {
    Seq::new(pow2(l), |u: int| dit_at(m, w, l, x, t, u))
}

/// The decimation-in-time stages `from..to`.
pub open spec fn dit(m: int, w: int, l: nat, x: Seq<int>, from: nat, to: nat) -> Seq<int>
    decreases to,
{
    if to <= from {
        x
    } else {
        dit_stage(m, w, l, dit(m, w, l, x, from, (to - 1) as nat), (to - 1) as nat)
    }
}

/// Entry `u` after the decimation-in-frequency stage of stride
/// `2^(l-1-t)`.
pub open spec fn dif_at(m: int, w: int, l: nat, x: Seq<int>, t: nat, u: int) -> int {
    let d = po2::p2((l - 1 - t) as nat);
    let tw = zmod::power(m, w, ((u % d) * po2::p2(t)) as nat);
    if (u / d) % 2 == 0 {
        zmod::plus(m, x[u], x[u + d])
    } else {
        zmod::times(m, zmod::minus(m, x[u - d], x[u]), tw)
    }
}

/// One decimation-in-frequency stage.
pub open spec fn dif_stage(m: int, w: int, l: nat, x: Seq<int>, t: nat) -> Seq<int> {
    Seq::new(pow2(l), |u: int| dif_at(m, w, l, x, t, u))
}

/// The decimation-in-frequency stages `from..to`.
pub open spec fn dif(m: int, w: int, l: nat, x: Seq<int>, from: nat, to: nat) -> Seq<int>
    decreases to,
{
    if to <= from {
        x
    } else {
        dif_stage(m, w, l, dif(m, w, l, x, from, (to - 1) as nat), (to - 1) as nat)
    }
}

/// Every stage result has `2^l` reduced entries.
pub proof fn lemma_dit_shape(m: int, w: int, l: nat, x: Seq<int>, from: nat, to: nat)
    requires
        m > 0,
        x.len() == po2::p2(l),
        poly::all_reduced(m, x),
    ensures
        dit(m, w, l, x, from, to).len() == po2::p2(l),
        poly::all_reduced(m, dit(m, w, l, x, from, to)),
    decreases to,
{
    if to > from {
        lemma_dit_shape(m, w, l, x, from, (to - 1) as nat);
    }
}

/// Every stage result has `2^l` reduced entries.
pub proof fn lemma_dif_shape(m: int, w: int, l: nat, x: Seq<int>, from: nat, to: nat)
    requires
        m > 0,
        x.len() == po2::p2(l),
        poly::all_reduced(m, x),
    ensures
        dif(m, w, l, x, from, to).len() == po2::p2(l),
        poly::all_reduced(m, dif(m, w, l, x, from, to)),
    decreases to,
{
    if to > from {
        lemma_dif_shape(m, w, l, x, from, (to - 1) as nat);
    }
}

/// Stages compose.
pub proof fn lemma_dit_compose(m: int, w: int, l: nat, x: Seq<int>, a: nat, b: nat, c: nat)
    requires
        a <= b <= c,
    ensures
        dit(m, w, l, dit(m, w, l, x, a, b), b, c) == dit(m, w, l, x, a, c),
    decreases c,
{
    if c > b {
        lemma_dit_compose(m, w, l, x, a, b, (c - 1) as nat);
    }
}

/// Stages compose.
pub proof fn lemma_dif_compose(m: int, w: int, l: nat, x: Seq<int>, a: nat, b: nat, c: nat)
    requires
        a <= b <= c,
    ensures
        dif(m, w, l, dif(m, w, l, x, a, b), b, c) == dif(m, w, l, x, a, c),
    decreases c,
{
    if c > b {
        lemma_dif_compose(m, w, l, x, a, b, (c - 1) as nat);
    }
}

// ---------------------------------------------------------------------------
// Powers of the root.
// ---------------------------------------------------------------------------

/// `(x * (m - 1)) mod m = (-x) mod m`.
pub proof fn lemma_minus_one(m: int, x: int)
    requires
        m > 0,
    ensures
        (x * (m - 1)) % m == (-x) % m,
        ((m - 1) * x) % m == (-x) % m,
{
    assert(x * (m - 1) == -x + x * m && (m - 1) * x == x * (m - 1)) by (nonlinear_arith);
    zmod::lemma_same_residue(m, x * (m - 1), -x, x);
}

/// `w^(j * 2^l) = 1` and `w^(j * 2^l + 2^(l-1)) = -1`.
pub proof fn lemma_root_powers(m: int, w: int, l: nat, j: nat)
    requires
        is_root(m, w, l),
    ensures
        zmod::power(m, w, j * pow2(l)) == 1,
        zmod::power(m, w, j * pow2(l) + pow2((l - 1) as nat)) == m - 1,
{
    let h = pow2((l - 1) as nat);
    po2::lemma_p2((l - 1) as nat);
    zmod::lemma_power_adds(m, w, h, h);
    assert(zmod::power(m, w, pow2(l)) == 1) by {
        lemma_minus_one(m, m - 1);
        zmod::lemma_same_residue(m, -(m - 1), 1, -1);
        zmod::lemma_reduced(m, 1);
    }
    zmod::lemma_power_multiplies(m, w, pow2(l), j);
    lemma_mul_is_commutative(j as int, pow2(l) as int);
    zmod::lemma_power_of_one(m, j);
    zmod::lemma_power_adds(m, w, j * pow2(l), h);
    zmod::lemma_reduced(m, m - 1);
    assert(1 * (m - 1) == m - 1);
}

// ---------------------------------------------------------------------------
// Decimation in time evaluates the polynomial.
// ---------------------------------------------------------------------------

/// The value at `z` of the polynomial whose `2^t` coefficients stand in
/// bit-reversed order from `x[off]` on.
pub open spec fn eval_reversed(m: int, x: Seq<int>, off: int, t: nat, z: int) -> int
    decreases t,
{
    if t == 0 {
        x[off]
    } else {
        let h = (t - 1) as nat;
        let zz = zmod::times(m, z, z);
        zmod::plus(
            m,
            eval_reversed(m, x, off, h, zz),
            zmod::times(m, z, eval_reversed(m, x, off + po2::p2(h), h, zz)),
        )
    }
}

/// After `t` stages, block `b` of `2^t` entries holds the values of its own
/// bit-reversed polynomial at the powers of `w^(2^(l-t))`.
proof fn lemma_dit_block(m: int, w: int, l: nat, x: Seq<int>, t: nat, b: int, k: int)
    requires
        is_root(m, w, l),
        x.len() == po2::p2(l),
        t <= l,
        0 <= b < po2::p2((l - t) as nat),
        0 <= k < po2::p2(t),
    ensures
        dit(m, w, l, x, 0, t)[b * po2::p2(t) + k] == eval_reversed(
            m,
            x,
            b * po2::p2(t),
            t,
            zmod::power(m, w, (k * po2::p2((l - t) as nat)) as nat),
        ),
    decreases t,
{
    po2::lemma_p2(0);
    if t == 0 {
        assert(b * po2::p2(t) + k == b * po2::p2(t)) by {
            assert(k == 0);
        }
    } else {
        let h = (t - 1) as nat;
        let d = po2::p2(h);
        let s = po2::p2((l - t) as nat);
        po2::lemma_p2(h);
        po2::lemma_p2((l - t) as nat);
        assert((l - t) as nat + 1 == (l - h) as nat);
        let off = b * po2::p2(t);
        assert(off == (2 * b) * d && off + d == (2 * b + 1) * d) by (nonlinear_arith)
            requires
                off == b * po2::p2(t),
                po2::p2(t) == 2 * d,
        ;
        let prev = dit(m, w, l, x, 0, h);
        let u = off + k;
        po2::lemma_within(b, s, po2::p2(t), k);
        po2::lemma_p2_adds(t, (l - t) as nat);
        assert(s * po2::p2(t) == po2::p2(l)) by {
            assert(t + (l - t) as nat == l);
            lemma_mul_is_commutative(s, po2::p2(t));
        }
        assert(0 <= u < po2::p2(l));
        assert(dit(m, w, l, x, 0, t)[u] == dit_at(m, w, l, prev, h, u));
        let kk = if k < d {
            k
        } else {
            k - d
        };
        lemma_dit_block(m, w, l, x, h, 2 * b, kk);
        lemma_dit_block(m, w, l, x, h, 2 * b + 1, kk);
        // The twiddle exponent and the two points.
        let e = (kk * s) as nat;
        assert(kk * s >= 0) by (nonlinear_arith)
            requires
                kk >= 0,
                s > 0,
        ;
        let tw = zmod::power(m, w, e);
        assert((l - 1 - h) as nat == (l - t) as nat);
        let zz = zmod::power(m, w, (kk * (2 * s)) as nat);
        assert(kk * (2 * s) == kk * s + kk * s) by (nonlinear_arith);
        zmod::lemma_power_adds(m, w, e, e);
        let ev = eval_reversed(m, x, off, h, zz);
        let od = eval_reversed(m, x, off + d, h, zz);
        let z = zmod::power(m, w, (k * s) as nat);
        if k < d {
            po2::lemma_split(2 * b, d, k);
            assert(z == tw);
            assert(prev[u] == ev);
            assert(prev[u + d] == od);
        } else {
            po2::lemma_split(2 * b + 1, d, kk);
            assert(prev[u - d] == ev);
            assert(prev[u] == od);
            // z = w^(kk s) w^(d s) = -tw
            assert(d * s == po2::p2((l - 1) as nat)) by {
                po2::lemma_p2_adds(h, (l - t) as nat);
                assert(h + (l - t) as nat == (l - 1) as nat);
            }
            assert(k * s == kk * s + d * s) by (nonlinear_arith)
                requires
                    k == kk + d,
            ;
            zmod::lemma_power_adds(m, w, e, pow2((l - 1) as nat));
            assert(z == zmod::times(m, tw, m - 1));
            assert(zmod::times(m, z, z) == zz) by {
                zmod::lemma_times_absorbs(m, tw * (m - 1), tw * (m - 1));
                assert((tw * (m - 1)) * (tw * (m - 1)) == tw * tw + (tw * tw * (m - 2)) * m)
                    by (nonlinear_arith);
                zmod::lemma_same_residue(
                    m,
                    (tw * (m - 1)) * (tw * (m - 1)),
                    tw * tw,
                    tw * tw * (m - 2),
                );
            }
            assert(zmod::plus(m, ev, zmod::times(m, z, od)) == zmod::minus(
                m,
                ev,
                zmod::times(m, tw, od),
            )) by {
                zmod::lemma_times_absorbs(m, tw * (m - 1), od);
                assert((tw * (m - 1)) * od == (tw * od) * (m - 1)) by (nonlinear_arith);
                lemma_minus_one(m, tw * od);
                zmod::lemma_plus_absorbs(m, ev, -(tw * od));
                zmod::lemma_minus_absorbs(m, ev, tw * od);
            }
        }
    }
}

/// [`eval_reversed`] is evaluation after undoing the bit reversal.
proof fn lemma_eval_reversed(m: int, x: Seq<int>, off: int, t: nat, z: int)
    requires
        m > 1,
        poly::all_reduced(m, x),
        0 <= off,
        off + po2::p2(t) <= x.len(),
    ensures
        eval_reversed(m, x, off, t, z) == poly::eval(
            m,
            Seq::new(pow2(t), |i: int| x[off + po2::rev(t, i)]),
            z,
        ),
    decreases t,
{
    let a = Seq::new(pow2(t), |i: int| x[off + po2::rev(t, i)]);
    po2::lemma_p2(0);
    if t == 0 {
        assert(a.len() == 1);
        assert(a.drop_first() =~= Seq::<int>::empty());
        assert(z * 0 == 0) by (nonlinear_arith);
        zmod::lemma_reduced(m, 0);
        assert(poly::eval(m, a.drop_first(), z) == 0);
        assert(a[0] == x[off]);
        zmod::lemma_reduced(m, x[off]);
    } else {
        let h = (t - 1) as nat;
        po2::lemma_p2(h);
        let zz = zmod::times(m, z, z);
        lemma_eval_reversed(m, x, off, h, zz);
        lemma_eval_reversed(m, x, off + po2::p2(h), h, zz);
        poly::lemma_eval_even_odd(m, a, z);
        let lo = Seq::new(pow2(h), |i: int| x[off + po2::rev(h, i)]);
        let hi = Seq::new(pow2(h), |i: int| x[off + po2::p2(h) + po2::rev(h, i)]);
        assert(poly::evens(a) =~= lo) by {
            assert forall|i: int| 0 <= i < lo.len() implies poly::evens(a)[i] == lo[i] by {
                po2::lemma_rev_low(h, i);
            }
        }
        assert(poly::odds(a) =~= hi) by {
            assert forall|i: int| 0 <= i < hi.len() implies poly::odds(a)[i] == hi[i] by {
                po2::lemma_rev_low(h, i);
            }
        }
    }
}

/// All `l` decimation-in-time stages compute the forward transform.
pub proof fn theorem_dit_is_ntt(m: int, w: int, l: nat, x: Seq<int>)
    requires
        is_root(m, w, l),
        x.len() == po2::p2(l),
        poly::all_reduced(m, x),
    ensures
        dit(m, w, l, x, 0, l) == ntt(m, w, l, x),
{
    lemma_dit_shape(m, w, l, x, 0, l);
    assert forall|k: int| 0 <= k < po2::p2(l) implies dit(m, w, l, x, 0, l)[k] == ntt(
        m,
        w,
        l,
        x,
    )[k] by {
        po2::lemma_p2(0);
        lemma_dit_block(m, w, l, x, l, 0, k);
        assert(k * po2::p2(0) == k && 0 * po2::p2(l) + k == k);
        lemma_eval_reversed(m, x, 0, l, zmod::power(m, w, k as nat));
        assert(Seq::new(pow2(l), |i: int| x[0 + po2::rev(l, i)]) =~= po2::bit_reversed(l, x));
    }
    assert(dit(m, w, l, x, 0, l) =~= ntt(m, w, l, x));
}

// ---------------------------------------------------------------------------
// Decimation in frequency evaluates at bit-reversed points.
// ---------------------------------------------------------------------------

/// Block `b` of `s` entries.
pub open spec fn block(y: Seq<int>, s: int, b: int) -> Seq<int> {
    Seq::new(s as nat, |i: int| y[b * s + i])
}

/// After `t` stages, block `b` of `2^(l-t)` entries holds the coefficients
/// of a polynomial whose values at the powers of `w^(2^t)` are values of
/// the unsplit one, shifted by `w^rev(t, b)`.
proof fn lemma_dif_block(m: int, w: int, l: nat, y: Seq<int>, t: nat, b: int, j: nat)
    requires
        is_root(m, w, l),
        y.len() == po2::p2(l),
        t <= l,
        0 <= b < po2::p2(t),
    ensures
        poly::eval(
            m,
            block(dif(m, w, l, y, 0, t), po2::p2((l - t) as nat), b),
            zmod::power(m, w, j * pow2(t)),
        ) == poly::eval(
            m,
            y,
            zmod::power(m, w, (j * pow2(t) + po2::rev(t, b)) as nat),
        ),
    decreases t,
{
    po2::lemma_p2(0);
    po2::lemma_rev_range(t, b);
    if t == 0 {
        assert(block(y, po2::p2(l), 0) =~= y);
    } else {
        let h = (t - 1) as nat;
        let s = po2::p2((l - t) as nat);
        po2::lemma_p2(h);
        po2::lemma_p2((l - t) as nat);
        assert((l - t) as nat + 1 == (l - h) as nat);
        let c = b / 2;
        let e = b % 2;
        let parent = dif(m, w, l, y, 0, h);
        let whole = block(parent, 2 * s, c);
        let lo = Seq::new(s as nat, |i: int| parent[c * (2 * s) + i]);
        let hi = Seq::new(s as nat, |i: int| parent[c * (2 * s) + s + i]);
        assert(whole =~= lo + hi);
        let child = block(dif(m, w, l, y, 0, t), s, b);
        let g = zmod::power(m, w, pow2(h));
        assert(pow2(t) * s == po2::p2(l)) by {
            po2::lemma_p2_adds(t, (l - t) as nat);
            assert(t + (l - t) as nat == l);
        }
        assert(pow2(h) * s == po2::p2((l - 1) as nat)) by {
            po2::lemma_p2_adds(h, (l - t) as nat);
            assert(h + (l - t) as nat == (l - 1) as nat);
        }
        assert forall|i: int| 0 <= i < s implies #[trigger] child[i] == (if e == 0 {
            zmod::plus(m, lo[i], hi[i])
        } else {
            zmod::times(m, zmod::minus(m, lo[i], hi[i]), zmod::power(m, g, i as nat))
        }) by {
            let u = b * s + i;
            po2::lemma_split(b, s, i);
            po2::lemma_within(b, po2::p2(t), s, i);
            assert(child[i] == dif_at(m, w, l, parent, h, u));
            assert(b * s == c * (2 * s) + e * s) by (nonlinear_arith)
                requires
                    b == 2 * c + e,
            ;
            assert(0 * s == 0 && 1 * s == s);
            zmod::lemma_power_multiplies(m, w, pow2(h), i as nat);
            lemma_mul_is_commutative(i, po2::p2(h));
        }
        let ez = zmod::power(m, w, j * pow2(t));
        if e == 0 {
            assert(child =~= poly::sum(m, lo, hi));
            poly::lemma_eval_sum(m, lo, hi, ez);
            poly::lemma_eval_concat(m, lo, hi, ez);
            // ez^s = w^(j 2^l) = 1
            zmod::lemma_power_multiplies(m, w, j * pow2(t), s as nat);
            assert(j * pow2(t) * s == j * pow2(l)) by (nonlinear_arith)
                requires
                    pow2(t) * s == pow2(l),
            ;
            lemma_root_powers(m, w, l, j);
            let eh = poly::eval(m, hi, ez);
            poly::lemma_eval_reduced(m, hi, ez);
            assert(1 * eh == eh);
            zmod::lemma_reduced(m, eh);
            lemma_dif_block(m, w, l, y, h, c, 2 * j);
            assert((2 * j) * pow2(h) == j * pow2(t)) by (nonlinear_arith)
                requires
                    pow2(t) == 2 * pow2(h),
            ;
            po2::lemma_rev_low(h, c);
        } else {
            let d = poly::difference(m, lo, hi);
            assert(child =~= poly::twist(m, g, d));
            poly::lemma_eval_twist(m, g, d, ez);
            let n = (2 * j + 1) * pow2(h);
            assert(pow2(h) + j * pow2(t) == n) by (nonlinear_arith)
                requires
                    pow2(t) == 2 * pow2(h),
                    n == (2 * j + 1) * pow2(h),
            ;
            zmod::lemma_power_adds(m, w, pow2(h), j * pow2(t));
            let z1 = zmod::power(m, w, n);
            poly::lemma_eval_sum(m, lo, hi, z1);
            poly::lemma_eval_concat(m, lo, hi, z1);
            // z1^s = w^(j 2^l + 2^(l-1)) = -1
            zmod::lemma_power_multiplies(m, w, n, s as nat);
            assert(n * s == j * pow2(l) + pow2((l - 1) as nat)) by (nonlinear_arith)
                requires
                    n == pow2(h) + j * pow2(t),
                    pow2(t) * s == pow2(l),
                    pow2(h) * s == pow2((l - 1) as nat),
            ;
            lemma_root_powers(m, w, l, j);
            let el = poly::eval(m, lo, z1);
            let eh = poly::eval(m, hi, z1);
            lemma_minus_one(m, eh);
            zmod::lemma_plus_absorbs(m, el, -eh);
            lemma_dif_block(m, w, l, y, h, c, 2 * j + 1);
            po2::lemma_rev_low(h, c);
        }
    }
}

/// All `l` decimation-in-frequency stages evaluate the polynomial at the
/// bit-reversed powers of `w`.
pub proof fn theorem_dif_evaluates(m: int, w: int, l: nat, y: Seq<int>, u: int)
    requires
        is_root(m, w, l),
        y.len() == po2::p2(l),
        poly::all_reduced(m, y),
        0 <= u < po2::p2(l),
    ensures
        dif(m, w, l, y, 0, l)[u] == poly::eval(
            m,
            y,
            zmod::power(m, w, po2::rev(l, u) as nat),
        ),
{
    po2::lemma_p2(0);
    lemma_dif_block(m, w, l, y, l, u, 0);
    lemma_dif_shape(m, w, l, y, 0, l);
    po2::lemma_rev_range(l, u);
    let z = zmod::power(m, w, 0 * pow2(l));
    let bl = block(dif(m, w, l, y, 0, l), 1, u);
    assert(bl[0] == dif(m, w, l, y, 0, l)[u]);
    assert(bl.drop_first() =~= Seq::<int>::empty());
    assert(poly::eval(m, bl.drop_first(), z) == 0);
    assert(z * 0 == 0) by (nonlinear_arith);
    zmod::lemma_reduced(m, 0);
    zmod::lemma_reduced(m, bl[0]);
}

/// Scaling by `ni` and then all `l` decimation-in-frequency stages with the
/// inverse root compute the inverse transform.
pub proof fn theorem_dif_is_intt(m: int, wi: int, ni: int, l: nat, y: Seq<int>)
    requires
        is_root(m, wi, l),
        y.len() == po2::p2(l),
    ensures
        dif(m, wi, l, poly::scale(m, ni, y), 0, l) == intt(m, wi, ni, l, y),
{
    let sy = poly::scale(m, ni, y);
    lemma_dif_shape(m, wi, l, sy, 0, l);
    assert forall|u: int| 0 <= u < po2::p2(l) implies dif(m, wi, l, sy, 0, l)[u] == intt(
        m,
        wi,
        ni,
        l,
        y,
    )[u] by {
        theorem_dif_evaluates(m, wi, l, sy, u);
        poly::lemma_eval_scale(m, ni, y, zmod::power(m, wi, po2::rev(l, u) as nat));
    }
    assert(dif(m, wi, l, sy, 0, l) =~= intt(m, wi, ni, l, y));
}

// ---------------------------------------------------------------------------
// The two transforms undo each other.
// ---------------------------------------------------------------------------

/// A partner index stays in range.
proof fn lemma_partner(l: nat, t: nat, u: int)
    requires
        t < l,
        0 <= u < po2::p2(l),
    ensures
        (u / po2::p2(t)) % 2 == 0 ==> {
            &&& u + po2::p2(t) < po2::p2(l)
            &&& (u + po2::p2(t)) / po2::p2(t) == u / po2::p2(t) + 1
            &&& (u + po2::p2(t)) % po2::p2(t) == u % po2::p2(t)
        },
        (u / po2::p2(t)) % 2 != 0 ==> {
            &&& 0 <= u - po2::p2(t)
            &&& (u - po2::p2(t)) / po2::p2(t) == u / po2::p2(t) - 1
            &&& (u - po2::p2(t)) % po2::p2(t) == u % po2::p2(t)
        },
{
    let d = po2::p2(t);
    po2::lemma_p2(t);
    po2::lemma_join(u, d);
    let q = u / d;
    let r = u % d;
    let n = po2::p2((l - t) as nat);
    po2::lemma_p2_adds(t, (l - t) as nat);
    assert(t + (l - t) as nat == l);
    lemma_mul_is_commutative(n, d);
    po2::lemma_quotient_below(u, n, d);
    assert((q + 1) * d == q * d + d && (q - 1) * d == q * d - d) by (nonlinear_arith);
    po2::lemma_split(q + 1, d, r);
    po2::lemma_split(q - 1, d, r);
    if q % 2 == 0 {
        // n is even, so q + 1 < n.
        po2::lemma_p2((l - t - 1) as nat);
        assert((l - t - 1) as nat + 1 == (l - t) as nat);
        assert(q + 1 < n);
        po2::lemma_within(q + 1, n, d, r);
    } else {
        po2::lemma_within(q - 1, n, d, r);
    }
}

/// A decimation-in-frequency stage undoes the decimation-in-time stage of
/// the same stride, up to a factor of two.
proof fn lemma_stage_undoes(m: int, w: int, wi: int, l: nat, x: Seq<int>, c: int, t: nat)
    requires
        m > 1,
        zmod::times(m, w, wi) == 1,
        t < l,
        x.len() == po2::p2(l),
    ensures
        dif_stage(m, wi, l, poly::scale(m, c, dit_stage(m, w, l, x, t)), (l - 1 - t) as nat)
            == poly::scale(m, 2 * c, x),
        dit_stage(m, w, l, poly::scale(m, c, dif_stage(m, wi, l, x, (l - 1 - t) as nat)), t)
            == poly::scale(m, 2 * c, x),
{
    let d = po2::p2(t);
    let tt = (l - 1 - t) as nat;
    assert((l - 1 - tt) as nat == t);
    po2::lemma_p2(t);
    po2::lemma_p2(tt);
    let f = dit_stage(m, w, l, x, t);
    let sf = poly::scale(m, c, f);
    let g = dif_stage(m, wi, l, x, tt);
    let sg = poly::scale(m, c, g);
    assert forall|u: int| 0 <= u < po2::p2(l) implies dif_at(m, wi, l, sf, tt, u) == zmod::times(
        m,
        2 * c,
        x[u],
    ) && dit_at(m, w, l, sg, t, u) == zmod::times(m, 2 * c, x[u]) by {
        lemma_partner(l, t, u);
        assert((u % d) * po2::p2(tt) >= 0) by (nonlinear_arith)
            requires
                u % d >= 0,
                po2::p2(tt) > 0,
        ;
        let e = ((u % d) * po2::p2(tt)) as nat;
        let tw = zmod::power(m, w, e);
        let ti = zmod::power(m, wi, e);
        assert(zmod::times(m, tw, ti) == 1) by {
            zmod::lemma_power_distributes(m, w, wi, e);
            zmod::lemma_power_of_one(m, e);
        }
        if (u / d) % 2 == 0 {
            let v = u + d;
            lemma_butterfly_inverse(m, c, x[u], x[v], tw, ti);
        } else {
            let v = u - d;
            lemma_butterfly_inverse(m, c, x[v], x[u], tw, ti);
        }
    }
    assert(dif_stage(m, wi, l, sf, tt) =~= poly::scale(m, 2 * c, x));
    assert(dit_stage(m, w, l, sg, t) =~= poly::scale(m, 2 * c, x));
}

/// The two butterflies undo each other, up to a factor of two.
proof fn lemma_butterfly_inverse(m: int, c: int, a: int, b: int, tw: int, ti: int)
    requires
        m > 1,
        zmod::times(m, tw, ti) == 1,
    ensures
        ({
            let lo = zmod::times(m, c, zmod::plus(m, a, zmod::times(m, tw, b)));
            let hi = zmod::times(m, c, zmod::minus(m, a, zmod::times(m, tw, b)));
            &&& zmod::plus(m, lo, hi) == zmod::times(m, 2 * c, a)
            &&& zmod::times(m, zmod::minus(m, lo, hi), ti) == zmod::times(m, 2 * c, b)
        }),
        ({
            let lo = zmod::times(m, c, zmod::plus(m, a, b));
            let hi = zmod::times(m, c, zmod::times(m, zmod::minus(m, a, b), ti));
            &&& zmod::plus(m, lo, zmod::times(m, tw, hi)) == zmod::times(m, 2 * c, a)
            &&& zmod::minus(m, lo, zmod::times(m, tw, hi)) == zmod::times(m, 2 * c, b)
        }),
{
    // tw * ti = 1 + q m
    let q = (tw * ti) / m;
    lemma_fundamental_div_mod(tw * ti, m);
    {
        let t = tw * b;
        zmod::lemma_plus_absorbs(m, a, t);
        zmod::lemma_minus_absorbs(m, a, t);
        zmod::lemma_times_absorbs(m, c, a + t);
        zmod::lemma_times_absorbs(m, c, a - t);
        let lo = c * (a + t);
        let hi = c * (a - t);
        zmod::lemma_plus_absorbs(m, lo, hi);
        zmod::lemma_minus_absorbs(m, lo, hi);
        assert(lo + hi == (2 * c) * a && lo - hi == (2 * c) * t) by (nonlinear_arith)
            requires
                lo == c * (a + t),
                hi == c * (a - t),
        ;
        zmod::lemma_times_absorbs(m, lo - hi, ti);
        assert((lo - hi) * ti == (2 * c) * b + ((2 * c) * b * q) * m) by (nonlinear_arith)
            requires
                lo - hi == (2 * c) * t,
                t == tw * b,
                tw * ti == m * q + 1,
        ;
        zmod::lemma_same_residue(m, (lo - hi) * ti, (2 * c) * b, (2 * c) * b * q);
    }
    {
        let s = a - b;
        zmod::lemma_times_absorbs(m, c, a + b);
        zmod::lemma_times_absorbs(m, s, ti);
        zmod::lemma_times_absorbs(m, c, s * ti);
        let lo = c * (a + b);
        let hi = c * (s * ti);
        zmod::lemma_times_absorbs(m, tw, hi);
        zmod::lemma_plus_absorbs(m, lo, tw * hi);
        zmod::lemma_minus_absorbs(m, lo, tw * hi);
        assert(tw * hi == c * s + (c * s * q) * m) by (nonlinear_arith)
            requires
                hi == c * (s * ti),
                tw * ti == m * q + 1,
        ;
        assert(lo + tw * hi == (2 * c) * a + (c * s * q) * m && lo - tw * hi == (2 * c) * b + (-(c
            * s * q)) * m) by (nonlinear_arith)
            requires
                lo == c * (a + b),
                s == a - b,
                tw * hi == c * s + (c * s * q) * m,
        ;
        zmod::lemma_same_residue(m, lo + tw * hi, (2 * c) * a, c * s * q);
        zmod::lemma_same_residue(m, lo - tw * hi, (2 * c) * b, -(c * s * q));
    }
}

/// Scaling by a residue is scaling by any integer of that residue, and
/// scaling by one keeps reduced entries.
proof fn lemma_scale_residue(m: int, c: int, x: Seq<int>)
    requires
        m > 1,
    ensures
        poly::scale(m, c % m, x) == poly::scale(m, c, x),
        poly::all_reduced(m, x) ==> poly::scale(m, 1, x) == x,
{
    assert forall|i: int| 0 <= i < x.len() implies zmod::times(m, c % m, x[i]) == zmod::times(
        m,
        c,
        x[i],
    ) by {
        zmod::lemma_times_absorbs(m, c, x[i]);
    }
    assert(poly::scale(m, c % m, x) =~= poly::scale(m, c, x));
    if poly::all_reduced(m, x) {
        assert forall|i: int| 0 <= i < x.len() implies zmod::times(m, 1, x[i]) == x[i] by {
            assert(1 * x[i] == x[i]);
            zmod::lemma_reduced(m, x[i]);
        }
        assert(poly::scale(m, 1, x) =~= x);
    }
}

/// Running `k` inverse stages after all forward stages leaves the first
/// `l - k` forward stages, times `2^k`.
proof fn lemma_unwind_dit(m: int, w: int, wi: int, c: int, l: nat, x: Seq<int>, k: nat)
    requires
        m > 1,
        zmod::times(m, w, wi) == 1,
        k <= l,
        x.len() == po2::p2(l),
        poly::all_reduced(m, x),
    ensures
        dif(m, wi, l, poly::scale(m, c, dit(m, w, l, x, 0, l)), 0, k) == poly::scale(
            m,
            po2::p2(k) * c,
            dit(m, w, l, x, 0, (l - k) as nat),
        ),
    decreases k,
{
    po2::lemma_p2(0);
    if k == 0 {
        assert(1 * c == c);
    } else {
        let h = (k - 1) as nat;
        lemma_unwind_dit(m, w, wi, c, l, x, h);
        let t = (l - k) as nat;
        let prev = dit(m, w, l, x, 0, t);
        lemma_dit_shape(m, w, l, x, 0, t);
        assert((l - h) as nat == t + 1);
        assert(dit(m, w, l, x, 0, t + 1) == dit_stage(m, w, l, prev, t));
        lemma_stage_undoes(m, w, wi, l, prev, po2::p2(h) * c, t);
        assert((l - 1 - t) as nat == h);
        po2::lemma_p2(h);
        assert(2 * (po2::p2(h) * c) == po2::p2(k) * c) by (nonlinear_arith)
            requires
                po2::p2(k) == 2 * po2::p2(h),
        ;
    }
}

/// Running `k` forward stages after all inverse stages leaves the first
/// `l - k` inverse stages, times `2^k`.
proof fn lemma_unwind_dif(m: int, w: int, wi: int, l: nat, y: Seq<int>, k: nat)
    requires
        m > 1,
        zmod::times(m, w, wi) == 1,
        k <= l,
        y.len() == po2::p2(l),
        poly::all_reduced(m, y),
    ensures
        dit(m, w, l, dif(m, wi, l, y, 0, l), 0, k) == poly::scale(
            m,
            po2::p2(k),
            dif(m, wi, l, y, 0, (l - k) as nat),
        ),
    decreases k,
{
    po2::lemma_p2(0);
    lemma_dif_shape(m, wi, l, y, 0, l);
    if k == 0 {
        lemma_scale_residue(m, 1, dif(m, wi, l, y, 0, l));
    } else {
        let h = (k - 1) as nat;
        lemma_unwind_dif(m, w, wi, l, y, h);
        let t = (l - k) as nat;
        let prev = dif(m, wi, l, y, 0, t);
        lemma_dif_shape(m, wi, l, y, 0, t);
        assert((l - h) as nat == t + 1);
        assert(dif(m, wi, l, y, 0, t + 1) == dif_stage(m, wi, l, prev, t));
        assert((l - 1 - h) as nat == t);
        lemma_stage_undoes(m, w, wi, l, prev, po2::p2(h), h);
        po2::lemma_p2(h);
    }
}

/// What the inverse transform's constants must be: `wi` inverts `w` and
/// `ni` inverts `2^l`.
pub open spec fn are_inverse(m: int, w: int, wi: int, ni: int, l: nat) -> bool {
    &&& zmod::times(m, w, wi) == 1
    &&& zmod::times(m, po2::p2(l), ni) == 1
}

/// The inverse of a primitive root is a primitive root.
pub proof fn lemma_inverse_root(m: int, w: int, wi: int, l: nat)
    requires
        is_root(m, w, l),
        zmod::reduced(m, wi),
        zmod::times(m, w, wi) == 1,
    ensures
        is_root(m, wi, l),
{
    let h = pow2((l - 1) as nat);
    zmod::lemma_power_distributes(m, w, wi, h);
    zmod::lemma_power_of_one(m, h);
    let v = zmod::power(m, wi, h);
    // (m - 1) v = 1, so v = -1.
    lemma_minus_one(m, v);
    assert((-v) % m == 1);
    zmod::lemma_minus_absorbs(m, 0, -v);
    assert((0 - 1) % m == (0 - (-v)) % m);
    zmod::lemma_reduced(m, v);
    zmod::lemma_same_residue(m, -1, m - 1, -1);
    zmod::lemma_reduced(m, m - 1);
}

/// The inverse transform undoes the forward transform: a polynomial's
/// bit-reversed coefficients come back from its values.
pub proof fn law_inverse_undoes_forward(
    m: int,
    w: int,
    wi: int,
    ni: int,
    l: nat,
    x: Seq<int>,
)
    requires
        is_root(m, w, l),
        zmod::reduced(m, wi),
        are_inverse(m, w, wi, ni, l),
        x.len() == po2::p2(l),
        poly::all_reduced(m, x),
    ensures
        intt(m, wi, ni, l, ntt(m, w, l, x)) == x,
{
    lemma_inverse_root(m, w, wi, l);
    theorem_dit_is_ntt(m, w, l, x);
    theorem_dif_is_intt(m, wi, ni, l, ntt(m, w, l, x));
    lemma_unwind_dit(m, w, wi, ni, l, x, l);
    assert((l - l) as nat == 0);
    lemma_scale_residue(m, po2::p2(l) * ni, x);
}

/// The forward transform undoes the inverse transform: values come back
/// from the coefficients that interpolate them.
pub proof fn law_forward_undoes_inverse(
    m: int,
    w: int,
    wi: int,
    ni: int,
    l: nat,
    y: Seq<int>,
)
    requires
        is_root(m, w, l),
        zmod::reduced(m, wi),
        are_inverse(m, w, wi, ni, l),
        y.len() == po2::p2(l),
        poly::all_reduced(m, y),
    ensures
        ntt(m, w, l, intt(m, wi, ni, l, y)) == y,
{
    lemma_inverse_root(m, w, wi, l);
    let sy = poly::scale(m, ni, y);
    theorem_dif_is_intt(m, wi, ni, l, y);
    let z = intt(m, wi, ni, l, y);
    lemma_dif_shape(m, wi, l, sy, 0, l);
    theorem_dit_is_ntt(m, w, l, z);
    lemma_unwind_dif(m, w, wi, l, sy, l);
    assert((l - l) as nat == 0);
    assert forall|i: int| 0 <= i < y.len() implies zmod::times(
        m,
        po2::p2(l),
        zmod::times(m, ni, y[i]),
    ) == y[i] by {
        zmod::lemma_times_assoc(m, po2::p2(l), ni, y[i]);
        assert(1 * y[i] == y[i]);
        zmod::lemma_reduced(m, y[i]);
    }
    assert(poly::scale(m, po2::p2(l), sy) =~= y);
}

/// The forward transform evaluates: with coefficient `j` standing at the
/// mirrored index of `j`, result `k` is the value at `w^k`.
pub proof fn law_forward_values(m: int, w: int, l: nat, x: Seq<int>, coeffs: Seq<int>, k: int)
    requires
        0 <= k < pow2(l),
        coeffs.len() == pow2(l),
        forall|j: int| 0 <= j < pow2(l) ==> #[trigger] coeffs[j] == x[po2::rev(l, j)],
    ensures
        ntt(m, w, l, x).len() == pow2(l),
        ntt(m, w, l, x)[k] == poly::eval(m, coeffs, pow(w, k as nat) % m),
{
    assert(po2::bit_reversed(l, x) =~= coeffs);
}

/// The inverse transform evaluates at the inverse root's powers and scales:
/// coefficient `j`, at the mirrored index of `j`, is the scaled value at
/// `wi^j`.
pub proof fn law_inverse_values(m: int, wi: int, ni: int, l: nat, y: Seq<int>, j: int)
    requires
        0 <= j < pow2(l),
    ensures
        intt(m, wi, ni, l, y).len() == pow2(l),
        intt(m, wi, ni, l, y)[po2::rev(l, j)] == (ni * poly::eval(
            m,
            y,
            pow(wi, j as nat) % m,
        )) % m,
{
    po2::lemma_rev_range(l, j);
    po2::lemma_rev_involutive(l, j);
}

/// One forward stage: elements `2^t` apart become the sum and the difference
/// of the first and the second times its twiddle, a power of `w` that grows
/// with the place in the block.
pub proof fn law_forward_butterfly(m: int, w: int, l: nat, x: Seq<int>, t: nat, b: int, i: int)
    requires
        t < l,
        0 <= i < pow2(t),
        0 <= b,
        b * pow2(t + 1) + i + pow2(t) < pow2(l),
    ensures
        ({
            let u = b * pow2(t + 1) + i;
            let v = u + pow2(t);
            let tw = pow(w, (i * pow2((l - 1 - t) as nat)) as nat) % m;
            let y = dit_stage(m, w, l, x, t);
            &&& y.len() == pow2(l)
            &&& y[u] == (x[u] + (tw * x[v]) % m) % m
            &&& y[v] == (x[u] - (tw * x[v]) % m) % m
        }),
{
    lemma_pair(b, t, i);
}

/// One inverse stage: elements `2^(l - 1 - t)` apart become their sum, and
/// their difference times a power of `w` that grows with the place in the
/// block.
pub proof fn law_inverse_butterfly(m: int, w: int, l: nat, x: Seq<int>, t: nat, b: int, i: int)
    requires
        t < l,
        0 <= i < pow2((l - 1 - t) as nat),
        0 <= b,
        b * pow2((l - t) as nat) + i + pow2((l - 1 - t) as nat) < pow2(l),
    ensures
        ({
            let d = pow2((l - 1 - t) as nat) as int;
            let u = b * pow2((l - t) as nat) + i;
            let v = u + d;
            let tw = pow(w, (i * pow2(t)) as nat) % m;
            let y = dif_stage(m, w, l, x, t);
            &&& y.len() == pow2(l)
            &&& y[u] == (x[u] + x[v]) % m
            &&& y[v] == (((x[u] - x[v]) % m) * tw) % m
        }),
{
    lemma_pair(b, (l - 1 - t) as nat, i);
    assert(((l - 1 - t) as nat + 1) as nat == (l - t) as nat);
}

/// Where the two elements of a pair stand.
proof fn lemma_pair(b: int, t: nat, i: int)
    requires
        0 <= i < pow2(t),
        0 <= b,
    ensures
        ({
            let d = pow2(t) as int;
            let u = b * pow2(t + 1) + i;
            &&& u >= 0
            &&& u % d == i
            &&& (u / d) % 2 == 0
            &&& (u + d) % d == i
            &&& ((u + d) / d) % 2 == 1
        }),
{
    let d = pow2(t) as int;
    let u = b * pow2(t + 1) + i;
    po2::lemma_p2(t);
    assert(u == (2 * b) * d + i && u + d == (2 * b + 1) * d + i && (2 * b) * d >= 0)
        by (nonlinear_arith)
        requires
            u == b * (2 * d) + i,
            b >= 0,
            d > 0,
    ;
    po2::lemma_split(2 * b, d, i);
    po2::lemma_split(2 * b + 1, d, i);
}

/// Stages run one after the other, each on what the one before left.
pub proof fn law_stages_compose(m: int, w: int, l: nat, x: Seq<int>, from: nat, to: nat)
    requires
        from <= to,
    ensures
        dit(m, w, l, x, from, from) == x,
        dif(m, w, l, x, from, from) == x,
        dit(m, w, l, x, from, to + 1) == dit_stage(m, w, l, dit(m, w, l, x, from, to), to),
        dif(m, w, l, x, from, to + 1) == dif_stage(m, w, l, dif(m, w, l, x, from, to), to),
{
}

} // verus!
