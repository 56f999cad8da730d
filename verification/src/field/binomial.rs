//! The rings `Z_m[X] / (X^D - W)`.
//!
//! An element is the sequence of its `D` coefficients, lowest first, each a
//! reduced residue. Multiplication by `X` moves every coefficient up one
//! place and wraps the highest around as `W` times itself; a product is the
//! sum of `a_i X^i b`. For `D = 1` this is the ring of residues itself.

use vstd::arithmetic::mul::*;
use vstd::prelude::*;

use crate::zmod;

verus! {

// ---------------------------------------------------------------------------
// Over the integers.
// ---------------------------------------------------------------------------

/// Coefficientwise sum.
pub open spec fn vsum(a: Seq<int>, b: Seq<int>) -> Seq<int> {
    Seq::new(a.len(), |i: int| a[i] + b[i])
}

/// Every coefficient times `t`.
pub open spec fn vscale(t: int, a: Seq<int>) -> Seq<int> {
    Seq::new(a.len(), |i: int| t * a[i])
}

/// The zero of length `d`.
pub open spec fn vzero(d: nat) -> Seq<int> {
    Seq::new(d, |i: int| 0int)
}

/// The one of length `d`.
pub open spec fn vone(d: nat) -> Seq<int> {
    Seq::new(
        d,
        |i: int|
            if i == 0 {
                1int
            } else {
                0
            },
    )
}

/// `X` times `a`, with `X^D = w`.
pub open spec fn times_x(w: int, a: Seq<int>) -> Seq<int> {
    Seq::new(
        a.len(),
        |i: int|
            if i == 0 {
                w * a[a.len() - 1]
            } else {
                a[i - 1]
            },
    )
}

/// `(a_i + a_{i+1} X + ... ) b`, by Horner's rule.
pub open spec fn product_from(w: int, a: Seq<int>, b: Seq<int>, i: int) -> Seq<int>
    decreases a.len() - i,
{
    if i >= a.len() {
        vzero(b.len())
    } else {
        vsum(vscale(a[i], b), times_x(w, product_from(w, a, b, i + 1)))
    }
}

/// The product over the integers.
pub open spec fn product(w: int, a: Seq<int>, b: Seq<int>) -> Seq<int> {
    product_from(w, a, b, 0)
}

proof fn lemma_len(w: int, a: Seq<int>, b: Seq<int>, i: int)
    requires
        0 <= i,
    ensures
        product_from(w, a, b, i).len() == b.len(),
    decreases a.len() - i,
{
    if i < a.len() {
        lemma_len(w, a, b, i + 1);
    }
}

/// Multiplication by `X` is linear.
proof fn lemma_times_x_linear(w: int, a: Seq<int>, b: Seq<int>, t: int)
    requires
        a.len() == b.len(),
        a.len() >= 1,
    ensures
        times_x(w, vsum(a, b)) == vsum(times_x(w, a), times_x(w, b)),
        times_x(w, vscale(t, a)) == vscale(t, times_x(w, a)),
{
    let n = a.len() - 1;
    assert(w * (a[n] + b[n]) == w * a[n] + w * b[n] && w * (t * a[n]) == t * (w * a[n]))
        by (nonlinear_arith);
    assert(times_x(w, vsum(a, b)) =~= vsum(times_x(w, a), times_x(w, b)));
    assert(times_x(w, vscale(t, a)) =~= vscale(t, times_x(w, a)));
}

/// Sums and multiples rearrange.
proof fn lemma_vector(a: Seq<int>, b: Seq<int>, c: Seq<int>, d: Seq<int>, s: int, t: int)
    requires
        a.len() == b.len(),
        b.len() == c.len(),
        c.len() == d.len(),
    ensures
        vsum(vsum(a, b), vsum(c, d)) == vsum(vsum(a, c), vsum(b, d)),
        vscale(t, vsum(a, b)) == vsum(vscale(t, a), vscale(t, b)),
        vscale(s + t, a) == vsum(vscale(s, a), vscale(t, a)),
        vscale(s, vscale(t, a)) == vscale(t, vscale(s, a)),
        vscale(s, vscale(t, a)) == vscale(s * t, a),
{
    assert(vsum(vsum(a, b), vsum(c, d)) =~= vsum(vsum(a, c), vsum(b, d)));
    assert forall|i: int| 0 <= i < a.len() implies t * (a[i] + b[i]) == t * a[i] + t * b[i] && (s
        + t) * a[i] == s * a[i] + t * a[i] && s * (t * a[i]) == t * (s * a[i]) && s * (t * a[i])
        == (s * t) * a[i] by {
        let x = a[i];
        let y = b[i];
        assert(t * (x + y) == t * x + t * y && (s + t) * x == s * x + t * x && s * (t * x) == t
            * (s * x) && s * (t * x) == (s * t) * x) by (nonlinear_arith);
    }
    assert(vscale(t, vsum(a, b)) =~= vsum(vscale(t, a), vscale(t, b)));
    assert(vscale(s + t, a) =~= vsum(vscale(s, a), vscale(t, a)));
    assert(vscale(s, vscale(t, a)) =~= vscale(t, vscale(s, a)));
    assert(vscale(s, vscale(t, a)) =~= vscale(s * t, a));
}

/// A product is linear in its second operand and commutes with `X`.
proof fn lemma_linear_right(w: int, a: Seq<int>, b: Seq<int>, c: Seq<int>, t: int, i: int)
    requires
        0 <= i,
        b.len() == c.len(),
        b.len() >= 1,
    ensures
        product_from(w, a, vsum(b, c), i) == vsum(
            product_from(w, a, b, i),
            product_from(w, a, c, i),
        ),
        product_from(w, a, vscale(t, b), i) == vscale(t, product_from(w, a, b, i)),
        product_from(w, a, times_x(w, b), i) == times_x(w, product_from(w, a, b, i)),
    decreases a.len() - i,
{
    lemma_len(w, a, b, i);
    lemma_len(w, a, c, i);
    if i >= a.len() {
        assert(t * 0 == 0 && w * 0 == 0) by (nonlinear_arith);
        assert(product_from(w, a, vsum(b, c), i) =~= vsum(
            product_from(w, a, b, i),
            product_from(w, a, c, i),
        ));
        assert(product_from(w, a, vscale(t, b), i) =~= vscale(t, product_from(w, a, b, i)));
        assert(product_from(w, a, times_x(w, b), i) =~= times_x(w, product_from(w, a, b, i)));
    } else {
        lemma_linear_right(w, a, b, c, t, i + 1);
        lemma_len(w, a, b, i + 1);
        lemma_len(w, a, c, i + 1);
        let pb = product_from(w, a, b, i + 1);
        let pc = product_from(w, a, c, i + 1);
        let s = a[i];
        lemma_times_x_linear(w, pb, pc, t);
        lemma_vector(b, c, b, c, s, s);
        lemma_vector(
            vscale(s, b),
            vscale(s, c),
            times_x(w, pb),
            times_x(w, pc),
            s,
            t,
        );
        lemma_vector(vscale(s, b), times_x(w, pb), b, b, t, t);
        lemma_vector(b, b, b, b, s, t);
        lemma_times_x_linear(w, vscale(s, b), times_x(w, pb), s);
        lemma_times_x_linear(w, b, b, s);
    }
}

/// A product is linear in its first operand.
proof fn lemma_linear_left(w: int, a: Seq<int>, b: Seq<int>, c: Seq<int>, t: int, i: int)
    requires
        0 <= i,
        a.len() == b.len(),
        c.len() >= 1,
    ensures
        product_from(w, vsum(a, b), c, i) == vsum(
            product_from(w, a, c, i),
            product_from(w, b, c, i),
        ),
        product_from(w, vscale(t, a), c, i) == vscale(t, product_from(w, a, c, i)),
    decreases a.len() - i,
{
    lemma_len(w, a, c, i);
    lemma_len(w, b, c, i);
    if i >= a.len() {
        assert(t * 0 == 0) by (nonlinear_arith);
        assert(product_from(w, vsum(a, b), c, i) =~= vsum(
            product_from(w, a, c, i),
            product_from(w, b, c, i),
        ));
        assert(product_from(w, vscale(t, a), c, i) =~= vscale(t, product_from(w, a, c, i)));
    } else {
        lemma_linear_left(w, a, b, c, t, i + 1);
        lemma_len(w, a, c, i + 1);
        lemma_len(w, b, c, i + 1);
        let pa = product_from(w, a, c, i + 1);
        let pb = product_from(w, b, c, i + 1);
        lemma_times_x_linear(w, pa, pb, t);
        lemma_vector(c, c, c, c, a[i], b[i]);
        lemma_vector(
            vscale(a[i], c),
            vscale(b[i], c),
            times_x(w, pa),
            times_x(w, pb),
            0,
            0,
        );
        lemma_vector(vscale(a[i], c), times_x(w, pa), c, c, t, t);
        lemma_vector(c, c, c, c, t, a[i]);
    }
}

/// `a * 1 = a`.
proof fn lemma_product_one(w: int, a: Seq<int>, i: int)
    requires
        0 <= i <= a.len(),
        a.len() >= 1,
    ensures
        product_from(w, a, vone(a.len()), i) == Seq::new(
            a.len(),
            |k: int|
                if k < a.len() - i {
                    a[i + k]
                } else {
                    0
                },
        ),
    decreases a.len() - i,
{
    let one = vone(a.len());
    let want = Seq::new(
        a.len(),
        |k: int|
            if k < a.len() - i {
                a[i + k]
            } else {
                0
            },
    );
    if i < a.len() {
        lemma_product_one(w, a, i + 1);
        assert(a[i] * 1 == a[i] && a[i] * 0 == 0 && w * 0 == 0) by (nonlinear_arith);
        assert(product_from(w, a, one, i) =~= want);
    } else {
        assert(product_from(w, a, one, i) =~= want);
    }
}

/// `a (b c) = b (a c)`.
proof fn lemma_product_swap(w: int, a: Seq<int>, b: Seq<int>, c: Seq<int>, i: int)
    requires
        0 <= i,
        c.len() >= 1,
    ensures
        product(w, a, product_from(w, b, c, i)) == product_from(w, b, product(w, a, c), i),
    decreases b.len() - i,
{
    lemma_len(w, a, c, 0);
    lemma_len(w, b, c, i);
    if i >= b.len() {
        // a * 0 = 0
        let z = vzero(c.len());
        assert(vscale(0, z) =~= z);
        lemma_linear_right(w, a, z, z, 0, 0);
        lemma_len(w, a, z, 0);
        assert(vscale(0, product(w, a, z)) =~= z);
    } else {
        lemma_product_swap(w, a, b, c, i + 1);
        lemma_len(w, b, c, i + 1);
        let pc = product_from(w, b, c, i + 1);
        lemma_linear_right(w, a, vscale(b[i], c), times_x(w, pc), 0, 0);
        lemma_linear_right(w, a, c, c, b[i], 0);
        lemma_linear_right(w, a, pc, pc, 0, 0);
    }
}

/// The integer product is commutative and associative.
proof fn lemma_product_ring(w: int, a: Seq<int>, b: Seq<int>, c: Seq<int>)
    requires
        a.len() == b.len(),
        b.len() == c.len(),
        a.len() >= 1,
    ensures
        product(w, a, b) == product(w, b, a),
        product(w, product(w, a, b), c) == product(w, a, product(w, b, c)),
{
    lemma_commutes(w, a, b);
    lemma_len(w, a, b, 0);
    lemma_commutes(w, product(w, a, b), c);
    lemma_product_swap(w, c, a, b, 0);
    lemma_commutes(w, c, b);
}

proof fn lemma_commutes(w: int, a: Seq<int>, b: Seq<int>)
    requires
        a.len() == b.len(),
        a.len() >= 1,
    ensures
        product(w, a, b) == product(w, b, a),
{
    let one = vone(a.len());
    lemma_product_swap(w, a, b, one, 0);
    lemma_product_one(w, a, 0);
    lemma_product_one(w, b, 0);
    assert(product(w, a, one) =~= a);
    assert(product(w, b, one) =~= b);
}

// ---------------------------------------------------------------------------
// Over the residues.
// ---------------------------------------------------------------------------

/// Every coefficient reduced.
pub open spec fn reduce(m: int, a: Seq<int>) -> Seq<int> {
    Seq::new(a.len(), |i: int| a[i] % m)
}

/// `a` is an element of the ring: `d` reduced coefficients.
pub open spec fn is_elem(m: int, d: nat, a: Seq<int>) -> bool {
    &&& a.len() == d
    &&& forall|i: int| 0 <= i < d ==> zmod::reduced(m, #[trigger] a[i])
}

/// Sum.
pub open spec fn plus(m: int, a: Seq<int>, b: Seq<int>) -> Seq<int> {
    Seq::new(a.len(), |i: int| zmod::plus(m, a[i], b[i]))
}

/// Difference.
pub open spec fn minus(m: int, a: Seq<int>, b: Seq<int>) -> Seq<int> {
    Seq::new(a.len(), |i: int| zmod::minus(m, a[i], b[i]))
}

/// Negation.
pub open spec fn negate(m: int, a: Seq<int>) -> Seq<int> {
    Seq::new(a.len(), |i: int| zmod::minus(m, 0, a[i]))
}

/// Product modulo `X^D - w`.
pub open spec fn times(m: int, w: int, a: Seq<int>, b: Seq<int>) -> Seq<int> {
    reduce(m, product(w, a, b))
}

/// A base-field value in the lowest place.
pub open spec fn constant(d: nat, x: int) -> Seq<int> {
    Seq::new(
        d,
        |i: int|
            if i == 0 {
                x
            } else {
                0
            },
    )
}

/// Results are elements.
pub proof fn lemma_closed(m: int, w: int, d: nat, a: Seq<int>, b: Seq<int>)
    requires
        m > 1,
        d >= 1,
        a.len() == d,
        b.len() == d,
    ensures
        is_elem(m, d, plus(m, a, b)),
        is_elem(m, d, minus(m, a, b)),
        is_elem(m, d, negate(m, a)),
        is_elem(m, d, times(m, w, a, b)),
        is_elem(m, d, vzero(d)),
        is_elem(m, d, vone(d)),
{
    lemma_len(w, a, b, 0);
}

/// Congruent operands have congruent products.
proof fn lemma_times_absorbs(m: int, w: int, a: Seq<int>, b: Seq<int>)
    requires
        m > 1,
        a.len() == b.len(),
        a.len() >= 1,
    ensures
        times(m, w, reduce(m, a), b) == times(m, w, a, b),
        times(m, w, a, reduce(m, b)) == times(m, w, a, b),
{
    lemma_absorbs_left(m, w, a, b);
    lemma_absorbs_left(m, w, b, a);
    lemma_commutes(w, a, b);
    lemma_commutes(w, reduce(m, b), a);
}

proof fn lemma_absorbs_left(m: int, w: int, a: Seq<int>, b: Seq<int>)
    requires
        m > 1,
        a.len() == b.len(),
        a.len() >= 1,
    ensures
        times(m, w, reduce(m, a), b) == times(m, w, a, b),
{
    let ra = reduce(m, a);
    let q = Seq::new(a.len(), |i: int| a[i] / m);
    assert forall|i: int| 0 <= i < a.len() implies a[i] == ra[i] + m * q[i] by {
        vstd::arithmetic::div_mod::lemma_fundamental_div_mod(a[i], m);
    }
    assert(a =~= vsum(ra, vscale(m, q)));
    lemma_linear_left(w, ra, vscale(m, q), b, 0, 0);
    lemma_linear_left(w, q, q, b, m, 0);
    lemma_len(w, ra, b, 0);
    lemma_len(w, q, b, 0);
    lemma_len(w, a, b, 0);
    let pa = product(w, a, b);
    let pr = product(w, ra, b);
    let pq = product(w, q, b);
    assert(pa == vsum(pr, vscale(m, pq)));
    assert forall|i: int| 0 <= i < pa.len() implies pa[i] % m == pr[i] % m by {
        lemma_mul_is_commutative(m, pq[i]);
        zmod::lemma_same_residue(m, pa[i], pr[i], pq[i]);
    }
    assert(reduce(m, pa) =~= reduce(m, pr));
}

/// Reducing an operand first does not change a reduced sum.
proof fn lemma_plus_absorbs(m: int, a: Seq<int>, b: Seq<int>)
    requires
        m > 1,
        a.len() == b.len(),
    ensures
        plus(m, reduce(m, a), reduce(m, b)) == reduce(m, vsum(a, b)),
        plus(m, a, b) == reduce(m, vsum(a, b)),
{
    assert forall|i: int| 0 <= i < a.len() implies zmod::plus(m, a[i] % m, b[i] % m) == (a[i]
        + b[i]) % m by {
        zmod::lemma_plus_absorbs(m, a[i], b[i]);
    }
    assert(plus(m, reduce(m, a), reduce(m, b)) =~= reduce(m, vsum(a, b)));
    assert(plus(m, a, b) =~= reduce(m, vsum(a, b)));
}

/// The ring is commutative, associative and distributive, zero and one are
/// its neutral elements, and subtraction undoes addition.
pub proof fn law_ring(m: int, w: int, d: nat, a: Seq<int>, b: Seq<int>, c: Seq<int>)
    requires
        m > 1,
        d >= 1,
        is_elem(m, d, a),
        is_elem(m, d, b),
        is_elem(m, d, c),
    ensures
        plus(m, a, b) == plus(m, b, a),
        plus(m, plus(m, a, b), c) == plus(m, a, plus(m, b, c)),
        plus(m, a, vzero(d)) == a,
        plus(m, vzero(d), a) == a,
        plus(m, a, negate(m, a)) == vzero(d),
        minus(m, a, b) == plus(m, a, negate(m, b)),
        plus(m, minus(m, a, b), b) == a,
        minus(m, plus(m, a, b), b) == a,
        times(m, w, a, b) == times(m, w, b, a),
        times(m, w, times(m, w, a, b), c) == times(m, w, a, times(m, w, b, c)),
        times(m, w, a, vone(d)) == a,
        times(m, w, vone(d), a) == a,
        times(m, w, a, vzero(d)) == vzero(d),
        times(m, w, a, plus(m, b, c)) == plus(m, times(m, w, a, b), times(m, w, a, c)),
        times(m, w, plus(m, a, b), c) == plus(m, times(m, w, a, c), times(m, w, b, c)),
{
    lemma_additive(m, d, a, b, c);
    // Products.
    lemma_product_ring(w, a, b, c);
    lemma_len(w, a, b, 0);
    lemma_len(w, b, c, 0);
    lemma_len(w, a, c, 0);
    lemma_times_absorbs(m, w, product(w, a, b), c);
    lemma_times_absorbs(m, w, a, product(w, b, c));
    // One.
    lemma_product_one(w, a, 0);
    assert(product(w, a, vone(d)) =~= a);
    lemma_commutes(w, a, vone(d));
    lemma_reduce_elem(m, d, a);
    // Zero.
    let z = vzero(d);
    assert(vscale(0, z) =~= z);
    lemma_linear_right(w, a, z, z, 0, 0);
    lemma_len(w, a, z, 0);
    assert(vscale(0, product(w, a, z)) =~= z);
    lemma_reduce_elem(m, d, z);
    // Distribution.
    lemma_plus_absorbs(m, b, c);
    lemma_times_absorbs(m, w, a, vsum(b, c));
    lemma_linear_right(w, a, b, c, 0, 0);
    lemma_plus_absorbs(m, product(w, a, b), product(w, a, c));
    lemma_plus_absorbs(m, a, b);
    lemma_times_absorbs(m, w, vsum(a, b), c);
    lemma_linear_left(w, a, b, c, 0, 0);
    lemma_plus_absorbs(m, product(w, a, c), product(w, b, c));
}

/// Multiplying by a base-field value multiplies every limb.
pub proof fn lemma_times_constant(m: int, w: int, d: nat, x: int, a: Seq<int>)
    requires
        m > 1,
        d >= 1,
        a.len() == d,
    ensures
        times(m, w, constant(d, x), a) == Seq::new(d, |i: int| zmod::times(m, x, a[i])),
{
    let one = vone(d);
    assert forall|i: int| 0 <= i < d implies constant(d, x)[i] == vscale(x, one)[i] by {
        lemma_mul_basics(x);
    }
    assert(constant(d, x) =~= vscale(x, one));
    lemma_linear_left(w, one, one, a, x, 0);
    lemma_product_one(w, a, 0);
    assert(product(w, a, one) =~= a);
    lemma_commutes(w, a, one);
    assert(times(m, w, constant(d, x), a) =~= Seq::new(d, |i: int| zmod::times(m, x, a[i])));
}

proof fn lemma_reduce_elem(m: int, d: nat, a: Seq<int>)
    requires
        m > 1,
        is_elem(m, d, a),
    ensures
        reduce(m, a) == a,
{
    assert forall|i: int| 0 <= i < d implies #[trigger] a[i] % m == a[i] by {
        zmod::lemma_reduced(m, a[i]);
    }
    assert(reduce(m, a) =~= a);
}

proof fn lemma_additive(m: int, d: nat, a: Seq<int>, b: Seq<int>, c: Seq<int>)
    requires
        m > 1,
        is_elem(m, d, a),
        is_elem(m, d, b),
        is_elem(m, d, c),
    ensures
        plus(m, a, b) == plus(m, b, a),
        plus(m, plus(m, a, b), c) == plus(m, a, plus(m, b, c)),
        plus(m, a, vzero(d)) == a,
        plus(m, vzero(d), a) == a,
        plus(m, a, negate(m, a)) == vzero(d),
        minus(m, a, b) == plus(m, a, negate(m, b)),
        plus(m, minus(m, a, b), b) == a,
        minus(m, plus(m, a, b), b) == a,
{
    assert forall|i: int| 0 <= i < d implies {
        &&& zmod::plus(m, zmod::plus(m, a[i], b[i]), c[i]) == zmod::plus(
            m,
            a[i],
            zmod::plus(m, b[i], c[i]),
        )
        &&& zmod::plus(m, a[i], 0) == a[i]
        &&& zmod::plus(m, a[i], zmod::minus(m, 0, a[i])) == 0
        &&& zmod::minus(m, a[i], b[i]) == zmod::plus(m, a[i], zmod::minus(m, 0, b[i]))
        &&& zmod::plus(m, zmod::minus(m, a[i], b[i]), b[i]) == a[i]
        &&& zmod::minus(m, zmod::plus(m, a[i], b[i]), b[i]) == a[i]
    } by {
        let x = a[i];
        let y = b[i];
        zmod::lemma_plus_assoc(m, x, y, c[i]);
        zmod::lemma_reduced(m, x);
        zmod::lemma_plus_absorbs(m, x, 0 - x);
        zmod::lemma_plus_absorbs(m, x, 0 - y);
        zmod::lemma_plus_absorbs(m, x - y, y);
        zmod::lemma_minus_absorbs(m, x + y, y);
        zmod::lemma_reduced(m, 0);
    }
    assert(plus(m, a, b) =~= plus(m, b, a));
    assert(plus(m, plus(m, a, b), c) =~= plus(m, a, plus(m, b, c)));
    assert(plus(m, a, vzero(d)) =~= a);
    assert(plus(m, vzero(d), a) =~= a);
    assert(plus(m, a, negate(m, a)) =~= vzero(d));
    assert(minus(m, a, b) =~= plus(m, a, negate(m, b)));
    assert(plus(m, minus(m, a, b), b) =~= a);
    assert(minus(m, plus(m, a, b), b) =~= a);
}

/// The product in degree one: coefficients of `X^i` times those of `X^j`
/// go to `X^(i + j)`, and `X^1` is `w`.
pub proof fn law_product_of_degree_one(m: int, w: int, a: Seq<int>, b: Seq<int>)
    requires
        m > 0,
        a.len() == 1,
        b.len() == 1,
    ensures
        times(m, w, a, b).len() == 1,
        times(m, w, a, b)[0] == (a[0] * b[0]) % m,
{
    lemma_len(w, a, b, 0);
    reveal_with_fuel(product_from, 2);
    let p1 = product_from(w, a, b, 1);
    let p0 = product_from(w, a, b, 0);
    assert(p0 =~= vsum(vscale(a[0], b), times_x(w, p1)));
    assert(p0[0] == a[0] * b[0] + w * p1[0]);
    assert(p0[0] == a[0] * b[0]) by (nonlinear_arith)
        requires
            p0[0] == a[0] * b[0] + w * p1[0],
            p1[0] == 0,
    ;
}

/// The product in degree four: coefficients of `X^i` times those of `X^j`
/// go to `X^(i + j)`, and `X^4` is `w`.
pub proof fn law_product_of_degree_four(m: int, w: int, a: Seq<int>, b: Seq<int>)
    requires
        m > 0,
        a.len() == 4,
        b.len() == 4,
    ensures
        times(m, w, a, b).len() == 4,
        times(m, w, a, b)[0] == (a[0] * b[0] + w * (a[1] * b[3] + a[2] * b[2] + a[3] * b[1])) % m,
        times(m, w, a, b)[1] == (a[0] * b[1] + a[1] * b[0] + w * (a[2] * b[3] + a[3] * b[2])) % m,
        times(m, w, a, b)[2] == (a[0] * b[2] + a[1] * b[1] + a[2] * b[0] + w * (a[3] * b[3])) % m,
        times(m, w, a, b)[3] == (a[0] * b[3] + a[1] * b[2] + a[2] * b[1] + a[3] * b[0]) % m,
{
    lemma_len(w, a, b, 0);
    reveal_with_fuel(product_from, 5);
    let p4 = product_from(w, a, b, 4);
    let p3 = product_from(w, a, b, 3);
    assert(p3 =~= vsum(vscale(a[3], b), times_x(w, p4)));
    assert(p3[0] == a[3] * b[0] + w * p4[3]);
    assert(p3[1] == a[3] * b[1] + p4[0]);
    assert(p3[2] == a[3] * b[2] + p4[1]);
    assert(p3[3] == a[3] * b[3] + p4[2]);
    let p2 = product_from(w, a, b, 2);
    assert(p2 =~= vsum(vscale(a[2], b), times_x(w, p3)));
    assert(p2[0] == a[2] * b[0] + w * p3[3]);
    assert(p2[1] == a[2] * b[1] + p3[0]);
    assert(p2[2] == a[2] * b[2] + p3[1]);
    assert(p2[3] == a[2] * b[3] + p3[2]);
    let p1 = product_from(w, a, b, 1);
    assert(p1 =~= vsum(vscale(a[1], b), times_x(w, p2)));
    assert(p1[0] == a[1] * b[0] + w * p2[3]);
    assert(p1[1] == a[1] * b[1] + p2[0]);
    assert(p1[2] == a[1] * b[2] + p2[1]);
    assert(p1[3] == a[1] * b[3] + p2[2]);
    let p0 = product_from(w, a, b, 0);
    assert(p0 =~= vsum(vscale(a[0], b), times_x(w, p1)));
    assert(p0[0] == a[0] * b[0] + w * p1[3]);
    assert(p0[1] == a[0] * b[1] + p1[0]);
    assert(p0[2] == a[0] * b[2] + p1[1]);
    assert(p0[3] == a[0] * b[3] + p1[2]);
    assert(p0[0] == a[0] * b[0] + w * (a[1] * b[3] + a[2] * b[2] + a[3] * b[1])) by (nonlinear_arith)
        requires
            p0[0] == a[0] * b[0] + w * p1[3],
            p1[3] == a[1] * b[3] + p2[2],
            p2[2] == a[2] * b[2] + p3[1],
            p3[1] == a[3] * b[1] + p4[0],
            p4[0] == 0,
    ;
    assert(p0[1] == a[0] * b[1] + a[1] * b[0] + w * (a[2] * b[3] + a[3] * b[2])) by (nonlinear_arith)
        requires
            p0[1] == a[0] * b[1] + p1[0],
            p1[0] == a[1] * b[0] + w * p2[3],
            p2[3] == a[2] * b[3] + p3[2],
            p3[2] == a[3] * b[2] + p4[1],
            p4[1] == 0,
    ;
    assert(p0[2] == a[0] * b[2] + a[1] * b[1] + a[2] * b[0] + w * (a[3] * b[3])) by (nonlinear_arith)
        requires
            p0[2] == a[0] * b[2] + p1[1],
            p1[1] == a[1] * b[1] + p2[0],
            p2[0] == a[2] * b[0] + w * p3[3],
            p3[3] == a[3] * b[3] + p4[2],
            p4[2] == 0,
    ;
    assert(p0[3] == a[0] * b[3] + a[1] * b[2] + a[2] * b[1] + a[3] * b[0]) by (nonlinear_arith)
        requires
            p0[3] == a[0] * b[3] + p1[2],
            p1[2] == a[1] * b[2] + p2[1],
            p2[1] == a[2] * b[1] + p3[0],
            p3[0] == a[3] * b[0] + w * p4[3],
            p4[3] == 0,
    ;
}

/// The product in degree five: coefficients of `X^i` times those of `X^j`
/// go to `X^(i + j)`, and `X^5` is `w`.
pub proof fn law_product_of_degree_five(m: int, w: int, a: Seq<int>, b: Seq<int>)
    requires
        m > 0,
        a.len() == 5,
        b.len() == 5,
    ensures
        times(m, w, a, b).len() == 5,
        times(m, w, a, b)[0] == (a[0] * b[0] + w * (a[1] * b[4] + a[2] * b[3] + a[3] * b[2] + a[4] * b[1])) % m,
        times(m, w, a, b)[1] == (a[0] * b[1] + a[1] * b[0] + w * (a[2] * b[4] + a[3] * b[3] + a[4] * b[2])) % m,
        times(m, w, a, b)[2] == (a[0] * b[2] + a[1] * b[1] + a[2] * b[0] + w * (a[3] * b[4] + a[4] * b[3])) % m,
        times(m, w, a, b)[3] == (a[0] * b[3] + a[1] * b[2] + a[2] * b[1] + a[3] * b[0] + w * (a[4] * b[4])) % m,
        times(m, w, a, b)[4] == (a[0] * b[4] + a[1] * b[3] + a[2] * b[2] + a[3] * b[1] + a[4] * b[0]) % m,
{
    lemma_len(w, a, b, 0);
    reveal_with_fuel(product_from, 6);
    let p5 = product_from(w, a, b, 5);
    let p4 = product_from(w, a, b, 4);
    assert(p4 =~= vsum(vscale(a[4], b), times_x(w, p5)));
    assert(p4[0] == a[4] * b[0] + w * p5[4]);
    assert(p4[1] == a[4] * b[1] + p5[0]);
    assert(p4[2] == a[4] * b[2] + p5[1]);
    assert(p4[3] == a[4] * b[3] + p5[2]);
    assert(p4[4] == a[4] * b[4] + p5[3]);
    let p3 = product_from(w, a, b, 3);
    assert(p3 =~= vsum(vscale(a[3], b), times_x(w, p4)));
    assert(p3[0] == a[3] * b[0] + w * p4[4]);
    assert(p3[1] == a[3] * b[1] + p4[0]);
    assert(p3[2] == a[3] * b[2] + p4[1]);
    assert(p3[3] == a[3] * b[3] + p4[2]);
    assert(p3[4] == a[3] * b[4] + p4[3]);
    let p2 = product_from(w, a, b, 2);
    assert(p2 =~= vsum(vscale(a[2], b), times_x(w, p3)));
    assert(p2[0] == a[2] * b[0] + w * p3[4]);
    assert(p2[1] == a[2] * b[1] + p3[0]);
    assert(p2[2] == a[2] * b[2] + p3[1]);
    assert(p2[3] == a[2] * b[3] + p3[2]);
    assert(p2[4] == a[2] * b[4] + p3[3]);
    let p1 = product_from(w, a, b, 1);
    assert(p1 =~= vsum(vscale(a[1], b), times_x(w, p2)));
    assert(p1[0] == a[1] * b[0] + w * p2[4]);
    assert(p1[1] == a[1] * b[1] + p2[0]);
    assert(p1[2] == a[1] * b[2] + p2[1]);
    assert(p1[3] == a[1] * b[3] + p2[2]);
    assert(p1[4] == a[1] * b[4] + p2[3]);
    let p0 = product_from(w, a, b, 0);
    assert(p0 =~= vsum(vscale(a[0], b), times_x(w, p1)));
    assert(p0[0] == a[0] * b[0] + w * p1[4]);
    assert(p0[1] == a[0] * b[1] + p1[0]);
    assert(p0[2] == a[0] * b[2] + p1[1]);
    assert(p0[3] == a[0] * b[3] + p1[2]);
    assert(p0[4] == a[0] * b[4] + p1[3]);
    assert(p0[0] == a[0] * b[0] + w * (a[1] * b[4] + a[2] * b[3] + a[3] * b[2] + a[4] * b[1])) by (nonlinear_arith)
        requires
            p0[0] == a[0] * b[0] + w * p1[4],
            p1[4] == a[1] * b[4] + p2[3],
            p2[3] == a[2] * b[3] + p3[2],
            p3[2] == a[3] * b[2] + p4[1],
            p4[1] == a[4] * b[1] + p5[0],
            p5[0] == 0,
    ;
    assert(p0[1] == a[0] * b[1] + a[1] * b[0] + w * (a[2] * b[4] + a[3] * b[3] + a[4] * b[2])) by (nonlinear_arith)
        requires
            p0[1] == a[0] * b[1] + p1[0],
            p1[0] == a[1] * b[0] + w * p2[4],
            p2[4] == a[2] * b[4] + p3[3],
            p3[3] == a[3] * b[3] + p4[2],
            p4[2] == a[4] * b[2] + p5[1],
            p5[1] == 0,
    ;
    assert(p0[2] == a[0] * b[2] + a[1] * b[1] + a[2] * b[0] + w * (a[3] * b[4] + a[4] * b[3])) by (nonlinear_arith)
        requires
            p0[2] == a[0] * b[2] + p1[1],
            p1[1] == a[1] * b[1] + p2[0],
            p2[0] == a[2] * b[0] + w * p3[4],
            p3[4] == a[3] * b[4] + p4[3],
            p4[3] == a[4] * b[3] + p5[2],
            p5[2] == 0,
    ;
    assert(p0[3] == a[0] * b[3] + a[1] * b[2] + a[2] * b[1] + a[3] * b[0] + w * (a[4] * b[4])) by (nonlinear_arith)
        requires
            p0[3] == a[0] * b[3] + p1[2],
            p1[2] == a[1] * b[2] + p2[1],
            p2[1] == a[2] * b[1] + p3[0],
            p3[0] == a[3] * b[0] + w * p4[4],
            p4[4] == a[4] * b[4] + p5[3],
            p5[3] == 0,
    ;
    assert(p0[4] == a[0] * b[4] + a[1] * b[3] + a[2] * b[2] + a[3] * b[1] + a[4] * b[0]) by (nonlinear_arith)
        requires
            p0[4] == a[0] * b[4] + p1[3],
            p1[3] == a[1] * b[3] + p2[2],
            p2[2] == a[2] * b[2] + p3[1],
            p3[1] == a[3] * b[1] + p4[0],
            p4[0] == a[4] * b[0] + w * p5[4],
            p5[4] == 0,
    ;
}

/// Sums, differences and negatives are taken coefficient by coefficient, and
/// the constants have zeros but for their first coefficient.
pub proof fn law_coefficientwise(m: int, d: nat, a: Seq<int>, b: Seq<int>, x: int, i: int)
    requires
        m > 0,
        a.len() == d,
        b.len() == d,
        0 <= i < d,
    ensures
        plus(m, a, b).len() == d,
        minus(m, a, b).len() == d,
        negate(m, a).len() == d,
        constant(d, x).len() == d,
        vzero(d).len() == d,
        vone(d).len() == d,
        plus(m, a, b)[i] == (a[i] + b[i]) % m,
        minus(m, a, b)[i] == (a[i] - b[i]) % m,
        negate(m, a)[i] == (0 - a[i]) % m,
        vzero(d)[i] == 0,
        vone(d)[i] == if i == 0 {
            1int
        } else {
            0
        },
        constant(d, x)[i] == if i == 0 {
            x
        } else {
            0
        },
{
}

} // verus!
