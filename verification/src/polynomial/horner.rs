//! Division of a polynomial by `x - z`.
//!
//! Horner's scheme takes the coefficients from the highest degree down, `Q
//! <- z Q + c`. The values of `Q` on the way are the coefficients of the
//! quotient, again from the highest degree down, and the last one is the
//! remainder, the value of the polynomial at `z`.

use vstd::prelude::*;

use crate::field::binomial;
use crate::field::ring;
use crate::field::ring::Ring;

verus! {

impl Ring {
    /// Horner's `Q` after the `k` highest coefficients.
    pub open spec fn horner(self, p: Seq<Seq<int>>, z: Seq<int>, k: int) -> Seq<int>
        decreases k,
    {
        if k <= 0 {
            self.zero()
        } else {
            self.sum(self.product(z, self.horner(p, z, k - 1)), p[p.len() - k])
        }
    }

    /// The quotient by `x - z`, lowest degree first, and then the remainder.
    pub open spec fn divided(self, p: Seq<Seq<int>>, z: Seq<int>) -> Seq<Seq<int>> {
        Seq::new(
            p.len(),
            |i: int|
                if i < p.len() - 1 {
                    self.horner(p, z, p.len() - 1 - i)
                } else {
                    self.horner(p, z, p.len() as int)
                },
        )
    }

    /// The sum of two polynomials of equal length.
    pub open spec fn sums(self, p: Seq<Seq<int>>, q: Seq<Seq<int>>) -> Seq<Seq<int>> {
        Seq::new(p.len(), |i: int| self.sum(p[i], q[i]))
    }

    /// The coefficients of `(x - z) q(x) + r`.
    pub open spec fn expanded(self, q: Seq<Seq<int>>, z: Seq<int>, r: Seq<int>) -> Seq<
        Seq<int>,
    > {
        Seq::new(
            q.len() + 1,
            |i: int|
                self.difference(
                    if i == 0 {
                        r
                    } else {
                        q[i - 1]
                    },
                    if i < q.len() {
                        self.product(z, q[i])
                    } else {
                        self.zero()
                    },
                ),
        )
    }
}

/// Horner's `Q` is an element.
pub proof fn lemma_horner(over: Ring, p: Seq<Seq<int>>, z: Seq<int>, k: int)
    requires
        over.wf(),
        over.has_all(p),
        over.has(z),
        k <= p.len(),
    ensures
        over.has(over.horner(p, z, k)),
    decreases k,
{
    ring::lemma_closed(over, z, z);
    if k > 0 {
        let q = over.horner(p, z, k - 1);
        lemma_horner(over, p, z, k - 1);
        ring::lemma_closed(over, z, q);
        ring::lemma_closed(over, over.product(z, q), p[p.len() - k]);
    }
}

/// Dividing by `x - z` and multiplying out again gives the polynomial back:
/// `p(x) = (x - z) q(x) + r` as polynomials.
pub proof fn law_division_expands_back(over: Ring, p: Seq<Seq<int>>, z: Seq<int>)
    requires
        over.wf(),
        over.has_all(p),
        over.has(z),
        p.len() >= 1,
    ensures
        over.has_all(over.divided(p, z)),
        over.expanded(over.divided(p, z).drop_last(), z, over.divided(p, z).last()) == p,
{
    let n = p.len() as int;
    let out = over.divided(p, z);
    let q = out.drop_last();
    let r = out.last();
    let back = over.expanded(q, z, r);
    assert forall|i: int| 0 <= i < n implies over.has(#[trigger] out[i]) by {
        lemma_horner(over, p, z, n - 1 - i);
        lemma_horner(over, p, z, n);
    }
    assert forall|i: int| 0 <= i < n implies #[trigger] back[i] == p[i] by {
        // The step that consumed coefficient i: from the Q before it, which
        // is q[i] (or zero), to the one after it, which is q[i - 1] (or r).
        let before = over.horner(p, z, n - 1 - i);
        let after = over.horner(p, z, n - i);
        lemma_horner(over, p, z, n - 1 - i);
        ring::lemma_closed(over, z, before);
        let zq = over.product(z, before);
        binomial::law_ring(over.m, over.w, over.d, zq, p[i], p[i]);
        binomial::law_ring(over.m, over.w, over.d, p[i], zq, zq);
        binomial::law_ring(over.m, over.w, over.d, z, z, z);
        assert(after == over.sum(zq, p[i]));
        assert(over.difference(after, zq) == p[i]);
        if i == n - 1 {
            assert(before == over.zero());
            assert(zq == over.zero());
        }
    }
    assert(back =~= p);
}

/// Quotient and remainder are the only ones: whatever expands to `p` is what
/// the division gives.
pub proof fn law_division_is_unique(
    over: Ring,
    p: Seq<Seq<int>>,
    z: Seq<int>,
    q: Seq<Seq<int>>,
    r: Seq<int>,
)
    requires
        over.wf(),
        over.has_all(p),
        over.has(z),
        over.has_all(q),
        over.has(r),
        over.expanded(q, z, r) == p,
    ensures
        over.divided(p, z) == q.push(r),
{
    let n = p.len() as int;
    assert(n == q.len() + 1);
    assert forall|i: int| 0 <= i < n implies #[trigger] over.divided(p, z)[i] == q.push(
        r,
    )[i] by {
        if i < n - 1 {
            lemma_unique(over, p, z, q, r, n - 1 - i);
        } else {
            lemma_unique(over, p, z, q, r, n);
        }
    }
    assert(over.divided(p, z) =~= q.push(r));
}

/// Horner's `Q` after `k >= 1` coefficients is the quotient's coefficient
/// `n - 1 - k`, or the remainder.
proof fn lemma_unique(
    over: Ring,
    p: Seq<Seq<int>>,
    z: Seq<int>,
    q: Seq<Seq<int>>,
    r: Seq<int>,
    k: int,
)
    requires
        over.wf(),
        over.has_all(p),
        over.has(z),
        over.has_all(q),
        over.has(r),
        over.expanded(q, z, r) == p,
        1 <= k <= p.len(),
    ensures
        over.horner(p, z, k) == if k == p.len() {
            r
        } else {
            q[p.len() - 1 - k]
        },
    decreases k,
{
    let n = p.len() as int;
    let i = n - k;
    let after = if k == n {
        r
    } else {
        q[n - 1 - k]
    };
    binomial::law_ring(over.m, over.w, over.d, z, z, z);
    ring::lemma_closed(over, z, z);
    let before = if k == 1 {
        over.zero()
    } else {
        q[i]
    };
    if k > 1 {
        lemma_unique(over, p, z, q, r, k - 1);
    } else {
        assert(over.horner(p, z, 0) == over.zero());
    }
    ring::lemma_closed(over, z, before);
    let zq = over.product(z, before);
    assert(p[i] == over.difference(after, zq)) by {
        assert(p[i] == over.expanded(q, z, r)[i]);
    }
    binomial::law_ring(over.m, over.w, over.d, after, zq, zq);
    binomial::law_ring(over.m, over.w, over.d, zq, p[i], p[i]);
}

/// At every point, `p(x) = (x - z) q(x) + r`.
pub proof fn law_division_at_every_point(over: Ring, p: Seq<Seq<int>>, z: Seq<int>, x: Seq<int>)
    requires
        over.wf(),
        over.has_all(p),
        over.has(z),
        over.has(x),
        p.len() >= 1,
    ensures
        over.eval(p, x) == over.sum(
            over.product(
                over.difference(x, z),
                over.eval(over.divided(p, z).drop_last(), x),
            ),
            over.divided(p, z).last(),
        ),
{
    law_division_expands_back(over, p, z);
    lemma_at_suffix(over, p, z, x, 0);
    assert(p.skip(0) =~= p);
    let q = over.divided(p, z).drop_last();
    assert(q.skip(0) =~= q);
}

/// [`law_division_at_every_point`] for the coefficients from `j` on.
proof fn lemma_at_suffix(over: Ring, p: Seq<Seq<int>>, z: Seq<int>, x: Seq<int>, j: int)
    requires
        over.wf(),
        over.has_all(p),
        over.has(z),
        over.has(x),
        over.has_all(over.divided(p, z)),
        0 <= j < p.len(),
    ensures
        over.eval(p.skip(j), x) == over.sum(
            over.product(
                over.difference(x, z),
                over.eval(over.divided(p, z).drop_last().skip(j), x),
            ),
            over.horner(p, z, p.len() - j),
        ),
    decreases p.len() - j,
{
    let n = p.len() as int;
    let q = over.divided(p, z).drop_last();
    let u = over.difference(x, z);
    let a = p[j];
    let h = over.horner(p, z, n - 1 - j);
    let ps = p.skip(j);
    let qs = q.skip(j);
    assert(ps.drop_first() =~= p.skip(j + 1));
    ring::lemma_closed(over, x, z);
    lemma_horner(over, p, z, n - 1 - j);
    ring::lemma_closed(over, z, h);
    let zh = over.product(z, h);
    let hj = over.horner(p, z, n - j);
    assert(hj == over.sum(zh, a));
    if j == n - 1 {
        assert(qs =~= Seq::empty());
        assert(p.skip(j + 1) =~= Seq::empty());
        assert(over.eval(p.skip(j + 1), x) == over.zero());
        assert(over.eval(qs, x) == over.zero());
        assert(h == over.zero());
        binomial::law_ring(over.m, over.w, over.d, x, x, x);
        binomial::law_ring(over.m, over.w, over.d, z, z, z);
        binomial::law_ring(over.m, over.w, over.d, u, u, u);
        binomial::law_ring(over.m, over.w, over.d, a, a, a);
    } else {
        lemma_at_suffix(over, p, z, x, j + 1);
        let qt = q.skip(j + 1);
        assert(qs.drop_first() =~= qt);
        assert(q[j] == h);
        assert forall|i: int| 0 <= i < qt.len() implies over.has(#[trigger] qt[i]) by {
            assert(over.has(over.divided(p, z)[i + j + 1]));
        }
        ring::lemma_eval(over, qt, x);
        lemma_step(over, a, h, over.eval(qt, x), x, z);
    }
}

/// `a + x ((x - z) e + h) = (x - z) (h + x e) + (z h + a)`.
proof fn lemma_step(
    over: Ring,
    a: Seq<int>,
    h: Seq<int>,
    e: Seq<int>,
    x: Seq<int>,
    z: Seq<int>,
)
    requires
        over.wf(),
        over.has(a),
        over.has(h),
        over.has(e),
        over.has(x),
        over.has(z),
    ensures
        over.sum(
            a,
            over.product(x, over.sum(over.product(over.difference(x, z), e), h)),
        ) == over.sum(
            over.product(over.difference(x, z), over.sum(h, over.product(x, e))),
            over.sum(over.product(z, h), a),
        ),
{
    let (m, w, d) = (over.m, over.w, over.d);
    let u = over.difference(x, z);
    ring::lemma_closed(over, x, z);
    ring::lemma_closed(over, u, e);
    ring::lemma_closed(over, x, e);
    ring::lemma_closed(over, x, h);
    ring::lemma_closed(over, z, h);
    ring::lemma_closed(over, u, h);
    let ue = over.product(u, e);
    let xe = over.product(x, e);
    let xh = over.product(x, h);
    let zh = over.product(z, h);
    let uh = over.product(u, h);
    ring::lemma_closed(over, x, ue);
    ring::lemma_closed(over, u, xe);
    let xue = over.product(x, ue);
    // x (u e + h) = x u e + x h, and u (h + x e) = u h + x u e.
    binomial::law_ring(m, w, d, x, ue, h);
    binomial::law_ring(m, w, d, u, h, xe);
    binomial::law_ring(m, w, d, x, u, e);
    binomial::law_ring(m, w, d, u, x, e);
    assert(over.product(u, xe) == xue);
    // x h = u h + z h, for x = u + z.
    binomial::law_ring(m, w, d, x, z, z);
    binomial::law_ring(m, w, d, u, z, h);
    assert(xh == over.sum(uh, zh));
    // a + (xue + (uh + zh)) = (uh + xue) + (zh + a).
    ring::lemma_closed(over, uh, zh);
    ring::lemma_closed(over, uh, xue);
    ring::lemma_closed(over, xue, xh);
    let left = over.sum(xue, xh);
    binomial::law_ring(m, w, d, xue, uh, zh);
    binomial::law_ring(m, w, d, a, left, left);
    let front = over.sum(xue, uh);
    ring::lemma_closed(over, xue, uh);
    assert(left == over.sum(front, zh));
    assert(front == over.sum(uh, xue));
    binomial::law_ring(m, w, d, front, zh, a);
}

/// The remainder is the value at `z`.
pub proof fn law_remainder_is_value(over: Ring, p: Seq<Seq<int>>, z: Seq<int>)
    requires
        over.wf(),
        over.has_all(p),
        over.has(z),
        p.len() >= 1,
    ensures
        over.divided(p, z).last() == over.eval(p, z),
{
    law_division_at_every_point(over, p, z, z);
    law_division_expands_back(over, p, z);
    let out = over.divided(p, z);
    let q = out.drop_last();
    let r = out.last();
    assert forall|i: int| 0 <= i < q.len() implies over.has(#[trigger] q[i]) by {
        assert(over.has(out[i]));
    }
    assert(over.has(out[out.len() - 1]));
    let e = over.eval(q, z);
    ring::lemma_eval(over, q, z);
    ring::lemma_closed(over, z, z);
    // z - z is zero, and so is its product with anything.
    binomial::law_ring(over.m, over.w, over.d, z, z, z);
    let zero = over.difference(z, z);
    assert(zero == over.zero());
    binomial::law_ring(over.m, over.w, over.d, e, zero, zero);
    binomial::law_ring(over.m, over.w, over.d, r, r, r);
}

/// Horner's `Q` of a sum is the sum of Horner's `Q`s.
proof fn lemma_horner_additive(
    over: Ring,
    p: Seq<Seq<int>>,
    q: Seq<Seq<int>>,
    z: Seq<int>,
    k: int,
)
    requires
        over.wf(),
        over.has_all(p),
        over.has_all(q),
        over.has(z),
        p.len() == q.len(),
        0 <= k <= p.len(),
    ensures
        over.horner(over.sums(p, q), z, k) == over.sum(
            over.horner(p, z, k),
            over.horner(q, z, k),
        ),
    decreases k,
{
    let (m, w, d) = (over.m, over.w, over.d);
    ring::lemma_closed(over, z, z);
    if k == 0 {
        binomial::law_ring(m, w, d, over.zero(), z, z);
    } else {
        lemma_horner_additive(over, p, q, z, k - 1);
        lemma_horner(over, p, z, k - 1);
        lemma_horner(over, q, z, k - 1);
        let (g, h) = (over.horner(p, z, k - 1), over.horner(q, z, k - 1));
        let (a, b) = (p[p.len() - k], q[q.len() - k]);
        ring::lemma_closed(over, z, g);
        ring::lemma_closed(over, z, h);
        let (zg, zh) = (over.product(z, g), over.product(z, h));
        ring::lemma_closed(over, zg, a);
        ring::lemma_closed(over, zh, b);
        ring::lemma_closed(over, a, b);
        ring::lemma_closed(over, zh, a);
        // z (g + h) + (a + b) = (z g + a) + (z h + b).
        binomial::law_ring(m, w, d, z, g, h);
        binomial::law_ring(m, w, d, zg, zh, over.sum(a, b));
        binomial::law_ring(m, w, d, zh, a, b);
        binomial::law_ring(m, w, d, a, zh, b);
        binomial::law_ring(m, w, d, zg, a, over.sum(zh, b));
        assert(over.sums(p, q)[p.len() - k] == over.sum(a, b));
    }
}

/// Division by `x - z` is additive: the sum of two polynomials is divided
/// into the sum of their quotients and the sum of their remainders.
pub proof fn law_division_is_additive(
    over: Ring,
    p: Seq<Seq<int>>,
    q: Seq<Seq<int>>,
    z: Seq<int>,
)
    requires
        over.wf(),
        over.has_all(p),
        over.has_all(q),
        over.has(z),
        p.len() == q.len(),
    ensures
        over.divided(over.sums(p, q), z) == over.sums(over.divided(p, z), over.divided(q, z)),
{
    let n = p.len() as int;
    let left = over.divided(over.sums(p, q), z);
    let right = over.sums(over.divided(p, z), over.divided(q, z));
    assert forall|i: int| 0 <= i < n implies #[trigger] left[i] == right[i] by {
        if i < n - 1 {
            lemma_horner_additive(over, p, q, z, n - 1 - i);
        } else {
            lemma_horner_additive(over, p, q, z, n);
        }
    }
    assert(left =~= right);
}

/// Quotient and remainder, coefficient by coefficient: with the remainder
/// standing before the quotient, each coefficient of the polynomial is the
/// one before less `z` times the one at its place, and the highest is the
/// quotient's highest.
pub proof fn law_division_coefficients(over: Ring, p: Seq<Seq<int>>, z: Seq<int>, i: int)
    requires
        over.wf(),
        over.has_all(p),
        over.has(z),
        0 <= i < p.len(),
    ensures
        over.divided(p, z).len() == p.len(),
        ({
            let out = over.divided(p, z);
            let n = p.len() as int;
            let before = if i == 0 {
                out[n - 1]
            } else {
                out[i - 1]
            };
            if i == n - 1 {
                p[i] == before
            } else {
                p[i] == binomial::minus(over.m, before, binomial::times(over.m, over.w, z, out[i]))
            }
        }),
{
    law_division_expands_back(over, p, z);
    let out = over.divided(p, z);
    let q = out.drop_last();
    let n = p.len() as int;
    let before = if i == 0 {
        out[n - 1]
    } else {
        out[i - 1]
    };
    assert(p[i] == over.expanded(q, z, out.last())[i]);
    if i == n - 1 {
        assert(over.has(before)) by {
            if i == 0 {
                assert(over.has(out[n - 1]));
            } else {
                assert(over.has(out[i - 1]));
            }
        }
        assert(p[i] == over.difference(before, over.zero()));
        ring::lemma_closed(over, z, z);
        binomial::law_ring(over.m, over.w, over.d, before, over.zero(), over.zero());
        assert forall|c: int| 0 <= c < over.d implies #[trigger] p[i][c] == before[c] by {
            binomial::law_coefficientwise(over.m, over.d, before, over.zero(), 0, c);
            vstd::arithmetic::div_mod::lemma_small_mod(before[c] as nat, over.m as nat);
        }
        assert(over.has(p[i]));
        assert(p[i] =~= before);
    }
}

} // verus!
