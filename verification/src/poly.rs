//! Polynomials over the residues modulo `m`, as coefficient sequences with
//! the lowest degree first.

use vstd::arithmetic::power::*;
use vstd::prelude::*;

use crate::zmod;

verus! {

/// The value `a[0] + a[1] z + a[2] z^2 + ...` modulo `m`.
pub open spec fn eval(m: int, a: Seq<int>, z: int) -> int
    decreases a.len(),
{
    if a.len() == 0 {
        0
    } else {
        zmod::plus(m, a[0], zmod::times(m, z, eval(m, a.drop_first(), z)))
    }
}

/// Coefficientwise sum.
pub open spec fn sum(m: int, a: Seq<int>, b: Seq<int>) -> Seq<int> {
    Seq::new(a.len(), |i: int| zmod::plus(m, a[i], b[i]))
}

/// Coefficientwise difference.
pub open spec fn difference(m: int, a: Seq<int>, b: Seq<int>) -> Seq<int> {
    Seq::new(a.len(), |i: int| zmod::minus(m, a[i], b[i]))
}

/// Every coefficient multiplied by `c`.
pub open spec fn scale(m: int, c: int, a: Seq<int>) -> Seq<int> {
    Seq::new(a.len(), |i: int| zmod::times(m, c, a[i]))
}

/// Coefficient `i` multiplied by `g^i`.
pub open spec fn twist(m: int, g: int, a: Seq<int>) -> Seq<int> {
    Seq::new(a.len(), |i: int| zmod::times(m, a[i], zmod::power(m, g, i as nat)))
}

/// The coefficients at even positions.
pub open spec fn evens(a: Seq<int>) -> Seq<int> {
    Seq::new(a.len() / 2, |i: int| a[2 * i])
}

/// The coefficients at odd positions.
pub open spec fn odds(a: Seq<int>) -> Seq<int> {
    Seq::new(a.len() / 2, |i: int| a[2 * i + 1])
}

/// All coefficients are reduced.
pub open spec fn all_reduced(m: int, a: Seq<int>) -> bool {
    forall|i: int| 0 <= i < a.len() ==> zmod::reduced(m, #[trigger] a[i])
}

/// A value is reduced.
pub proof fn lemma_eval_reduced(m: int, a: Seq<int>, z: int)
    requires
        m > 0,
    ensures
        zmod::reduced(m, eval(m, a, z)),
{
}

/// The value depends on the point only through its residue.
pub proof fn lemma_eval_absorbs(m: int, a: Seq<int>, z: int)
    requires
        m > 0,
    ensures
        eval(m, a, z % m) == eval(m, a, z),
    decreases a.len(),
{
    if a.len() > 0 {
        lemma_eval_absorbs(m, a.drop_first(), z);
        zmod::lemma_times_absorbs(m, z, eval(m, a.drop_first(), z));
    }
}

/// `(a + b)(z) = a(z) + b(z)` and `(a - b)(z) = a(z) - b(z)`.
pub proof fn lemma_eval_sum(m: int, a: Seq<int>, b: Seq<int>, z: int)
    requires
        m > 0,
        a.len() == b.len(),
    ensures
        eval(m, sum(m, a, b), z) == zmod::plus(m, eval(m, a, z), eval(m, b, z)),
        eval(m, difference(m, a, b), z) == zmod::minus(m, eval(m, a, z), eval(m, b, z)),
    decreases a.len(),
{
    if a.len() == 0 {
        zmod::lemma_reduced(m, 0);
    } else {
        let ta = a.drop_first();
        let tb = b.drop_first();
        lemma_eval_sum(m, ta, tb, z);
        assert(sum(m, a, b).drop_first() =~= sum(m, ta, tb));
        assert(difference(m, a, b).drop_first() =~= difference(m, ta, tb));
        let ea = eval(m, ta, z);
        let eb = eval(m, tb, z);
        zmod::lemma_times_distributes(m, z, ea, eb);
        zmod::lemma_plus_absorbs(m, a[0] + b[0], (z * ea) % m + (z * eb) % m);
        zmod::lemma_plus_absorbs(m, (a[0] + b[0]) % m, (z * ea) % m + (z * eb) % m);
        zmod::lemma_plus_absorbs(m, a[0] + (z * ea) % m, b[0] + (z * eb) % m);
        zmod::lemma_plus_absorbs(m, a[0] - b[0], (z * ea) % m - (z * eb) % m);
        zmod::lemma_plus_absorbs(m, (a[0] - b[0]) % m, (z * ea) % m - (z * eb) % m);
        zmod::lemma_minus_absorbs(m, a[0] + (z * ea) % m, b[0] + (z * eb) % m);
    }
}

/// `(c a)(z) = c a(z)`.
pub proof fn lemma_eval_scale(m: int, c: int, a: Seq<int>, z: int)
    requires
        m > 0,
    ensures
        eval(m, scale(m, c, a), z) == zmod::times(m, c, eval(m, a, z)),
    decreases a.len(),
{
    if a.len() == 0 {
        assert(c * 0 == 0) by (nonlinear_arith);
        zmod::lemma_reduced(m, 0);
    } else {
        let t = a.drop_first();
        lemma_eval_scale(m, c, t, z);
        assert(scale(m, c, a).drop_first() =~= scale(m, c, t));
        let e = eval(m, t, z);
        zmod::lemma_times_distributes(m, c, a[0], zmod::times(m, z, e));
        zmod::lemma_times_assoc(m, z, c, e);
        zmod::lemma_times_assoc(m, c, z, e);
        zmod::lemma_times_comm(m, z, c);
    }
}

/// Twisting by `g` moves the point: the twisted polynomial at `z` is the
/// polynomial at `g z`.
pub proof fn lemma_eval_twist(m: int, g: int, a: Seq<int>, z: int)
    requires
        m > 1,
    ensures
        eval(m, twist(m, g, a), z) == eval(m, a, zmod::times(m, g, z)),
    decreases a.len(),
{
    if a.len() > 0 {
        let t = a.drop_first();
        lemma_eval_twist(m, g, t, z);
        // The tail of the twist is the twist of the tail, times g.
        assert(twist(m, g, a).drop_first() =~= scale(m, g, twist(m, g, t))) by {
            assert forall|i: int| 0 <= i < t.len() implies twist(m, g, a).drop_first()[i] == scale(
                m,
                g,
                twist(m, g, t),
            )[i] by {
                let pw = zmod::power(m, g, i as nat);
                zmod::lemma_power_step(m, g, i as nat);
                zmod::lemma_times_assoc(m, t[i], pw, g);
                zmod::lemma_times_comm(m, zmod::times(m, t[i], pw), g);
            }
        }
        lemma_eval_scale(m, g, twist(m, g, t), z);
        let e = eval(m, twist(m, g, t), z);
        zmod::lemma_times_assoc(m, z, g, e);
        zmod::lemma_times_comm(m, z, g);
        zmod::lemma_power_base(m, g);
        assert(twist(m, g, a)[0] == a[0] % m) by {
            assert(a[0] * 1 == a[0]);
        }
        zmod::lemma_plus_absorbs(m, a[0], zmod::times(m, z, zmod::times(m, g, e)));
    }
}

/// `(a ++ b)(z) = a(z) + z^|a| b(z)`.
pub proof fn lemma_eval_concat(m: int, a: Seq<int>, b: Seq<int>, z: int)
    requires
        m > 1,
    ensures
        eval(m, a + b, z) == zmod::plus(
            m,
            eval(m, a, z),
            zmod::times(m, zmod::power(m, z, a.len()), eval(m, b, z)),
        ),
    decreases a.len(),
{
    let eb = eval(m, b, z);
    lemma_eval_reduced(m, b, z);
    if a.len() == 0 {
        assert(a + b =~= b);
        zmod::lemma_power_base(m, z);
        assert(1 * eb == eb);
        zmod::lemma_reduced(m, eb);
    } else {
        let t = a.drop_first();
        lemma_eval_concat(m, t, b, z);
        assert((a + b).drop_first() =~= t + b);
        let et = eval(m, t, z);
        let pw = zmod::power(m, z, t.len());
        zmod::lemma_times_distributes(m, z, et, zmod::times(m, pw, eb));
        zmod::lemma_times_assoc(m, z, pw, eb);
        zmod::lemma_power_step(m, z, t.len());
        zmod::lemma_times_comm(m, z, pw);
        zmod::lemma_plus_assoc(
            m,
            a[0],
            zmod::times(m, z, et),
            zmod::times(m, zmod::power(m, z, a.len()), eb),
        );
    }
}

/// `a(z) = evens(a)(z^2) + z odds(a)(z^2)` for an even number of
/// coefficients.
pub proof fn lemma_eval_even_odd(m: int, a: Seq<int>, z: int)
    requires
        m > 0,
        a.len() % 2 == 0,
    ensures
        eval(m, a, z) == zmod::plus(
            m,
            eval(m, evens(a), zmod::times(m, z, z)),
            zmod::times(m, z, eval(m, odds(a), zmod::times(m, z, z))),
        ),
    decreases a.len(),
{
    let zz = zmod::times(m, z, z);
    if a.len() == 0 {
        assert(z * 0 == 0) by (nonlinear_arith);
        zmod::lemma_reduced(m, 0);
    } else {
        let t1 = a.drop_first();
        let t = t1.drop_first();
        lemma_eval_even_odd(m, t, z);
        assert(evens(a).drop_first() =~= evens(t));
        assert(odds(a).drop_first() =~= odds(t));
        let e = eval(m, evens(t), zz);
        let o = eval(m, odds(t), zz);
        // a(z) = a0 + z (a1 + z (e + z o))
        let inner = zmod::plus(m, e, zmod::times(m, z, o));
        assert(eval(m, t, z) == inner);
        lemma_even_odd_step(m, a[0], a[1], z, e, o);
        assert(t1[0] == a[1]);
        assert(evens(a)[0] == a[0]);
        assert(odds(a)[0] == a[1]);
        assert(eval(m, t1, z) == zmod::plus(m, a[1], zmod::times(m, z, inner)));
        assert(eval(m, evens(a), zz) == zmod::plus(m, a[0], zmod::times(m, zz, e)));
        assert(eval(m, odds(a), zz) == zmod::plus(m, a[1], zmod::times(m, zz, o)));
    }
}

proof fn lemma_even_odd_step(m: int, a0: int, a1: int, z: int, e: int, o: int)
    requires
        m > 0,
    ensures
        zmod::plus(
            m,
            a0,
            zmod::times(
                m,
                z,
                zmod::plus(m, a1, zmod::times(m, z, zmod::plus(m, e, zmod::times(m, z, o)))),
            ),
        ) == zmod::plus(
            m,
            zmod::plus(m, a0, zmod::times(m, zmod::times(m, z, z), e)),
            zmod::times(m, z, zmod::plus(m, a1, zmod::times(m, zmod::times(m, z, z), o))),
        ),
{
    // Both sides are the residue of a0 + z a1 + z^2 e + z^3 o.
    let x1 = e + (z * o) % m;
    zmod::lemma_plus_absorbs(m, e, z * o);
    let x2 = a1 + (z * (x1 % m)) % m;
    zmod::lemma_times_absorbs(m, z, x1);
    zmod::lemma_times_absorbs(m, z, e + z * o);
    zmod::lemma_plus_absorbs(m, a1, z * (e + z * o));
    let y2 = a1 + z * (e + z * o);
    assert(x2 % m == y2 % m);
    zmod::lemma_times_absorbs(m, z, x2);
    zmod::lemma_times_absorbs(m, z, y2);
    zmod::lemma_plus_absorbs(m, a0, z * y2);
    zmod::lemma_plus_absorbs(m, a0, z * (x2 % m));
    let lhs = a0 + z * y2;

    zmod::lemma_times_absorbs(m, z * z, e);
    zmod::lemma_times_absorbs(m, z * z, o);
    zmod::lemma_plus_absorbs(m, a0, (z * z) * e);
    zmod::lemma_plus_absorbs(m, a1, (z * z) * o);
    let r1 = a0 + (z * z) * e;
    let r2 = a1 + (z * z) * o;
    zmod::lemma_times_absorbs(m, z, r2);
    zmod::lemma_plus_absorbs(m, r1, z * r2);
    assert(lhs == r1 + z * r2) by (nonlinear_arith)
        requires
            lhs == a0 + z * y2,
            y2 == a1 + z * (e + z * o),
            r1 == a0 + (z * z) * e,
            r2 == a1 + (z * z) * o,
    ;
}

/// The value of a polynomial is the sum of its coefficients times the powers
/// of the point: a coefficient in front of the highest power adds its
/// product with that power.
pub proof fn law_value_is_power_sum(m: int, a: Seq<int>, c: int, z: int)
    requires
        m > 1,
    ensures
        eval(m, Seq::empty(), z) == 0,
        eval(m, a.push(c), z) == (eval(m, a, z) + c * pow(z, a.len())) % m,
    decreases a.len(),
{
    let p = a.push(c);
    if a.len() == 0 {
        lemma_pow0(z);
        assert(p.drop_first() =~= Seq::empty());
        assert(p[0] == c);
        assert(eval(m, Seq::empty(), z) == 0);
        assert(z * 0 == 0);
        assert(c * 1 == c);
    } else {
        let rest = a.drop_first();
        law_value_is_power_sum(m, rest, c, z);
        assert(p.drop_first() =~= rest.push(c));
        assert(p[0] == a[0]);
        let e = eval(m, rest, z);
        let t = c * pow(z, rest.len());
        reveal(pow);
        assert(pow(z, a.len()) == z * pow(z, rest.len()));
        // a0 + z (e + t) = (a0 + z e) + z t.
        zmod::lemma_times_absorbs(m, z, e + t);
        zmod::lemma_plus_absorbs(m, a[0], z * (e + t));
        zmod::lemma_plus_absorbs(m, a[0], z * e);
        zmod::lemma_plus_absorbs(m, a[0] + z * e, c * pow(z, a.len()));
        assert(a[0] + z * (e + t) == a[0] + z * e + c * pow(z, a.len())) by (nonlinear_arith)
            requires
                t == c * pow(z, rest.len()),
                pow(z, a.len()) == z * pow(z, rest.len()),
        ;
    }
}

/// Polynomials are added, subtracted and scaled coefficient by coefficient.
pub proof fn law_coefficientwise(m: int, c: int, a: Seq<int>, b: Seq<int>, i: int)
    requires
        m > 0,
        a.len() == b.len(),
        0 <= i < a.len(),
    ensures
        sum(m, a, b).len() == a.len(),
        difference(m, a, b).len() == a.len(),
        scale(m, c, a).len() == a.len(),
        sum(m, a, b)[i] == (a[i] + b[i]) % m,
        difference(m, a, b)[i] == (a[i] - b[i]) % m,
        scale(m, c, a)[i] == (c * a[i]) % m,
{
}

/// A single power: the polynomial with a one at `x^j` and zeros elsewhere
/// has the value `z^j`.
pub proof fn law_value_of_power(m: int, a: Seq<int>, j: int, z: int)
    requires
        m > 1,
        0 <= j < a.len(),
        forall|i: int|
            0 <= i < a.len() ==> #[trigger] a[i] == if i == j {
                1int
            } else {
                0
            },
    ensures
        eval(m, a, z) == pow(z, j as nat) % m,
    decreases a.len(),
{
    let rest = a.drop_first();
    assert(a[0] == if 0 == j {
        1int
    } else {
        0
    });
    assert forall|i: int| 0 <= i < rest.len() implies #[trigger] rest[i] == if i == j - 1 {
        1int
    } else {
        0
    } by {
        assert(rest[i] == a[i + 1]);
    }
    if j == 0 {
        lemma_zeros(m, rest, z);
        lemma_pow0(z);
        assert(z * 0 == 0);
    } else {
        law_value_of_power(m, rest, j - 1, z);
        reveal(pow);
        zmod::lemma_times_absorbs(m, z, pow(z, (j - 1) as nat));
        zmod::lemma_plus_absorbs(m, 0, z * pow(z, (j - 1) as nat));
    }
}

/// The value of a polynomial without coefficients but zeros.
proof fn lemma_zeros(m: int, a: Seq<int>, z: int)
    requires
        m > 1,
        forall|i: int| 0 <= i < a.len() ==> #[trigger] a[i] == 0,
    ensures
        eval(m, a, z) == 0,
    decreases a.len(),
{
    if a.len() > 0 {
        let rest = a.drop_first();
        assert forall|i: int| 0 <= i < rest.len() implies #[trigger] rest[i] == 0 by {
            assert(rest[i] == a[i + 1]);
        }
        lemma_zeros(m, rest, z);
        assert(a[0] == 0);
        assert(z * 0 == 0);
    }
}

} // verus!
