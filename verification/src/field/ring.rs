//! The rings that base and extension fields are, and polynomials over them.

use vstd::prelude::*;

use super::binomial;
use crate::poly;
use crate::zmod;

verus! {

/// The ring `Z_m[X] / (X^d - w)` that coefficients are taken from.
pub struct Ring {
    pub m: int,
    pub w: int,
    pub d: nat,
}

impl Ring {
    /// The ring has more than one element.
    pub open spec fn wf(self) -> bool {
        self.m > 1 && self.d >= 1
    }

    /// `a` is an element.
    pub open spec fn has(self, a: Seq<int>) -> bool {
        binomial::is_elem(self.m, self.d, a)
    }

    /// Sum.
    pub open spec fn sum(self, a: Seq<int>, b: Seq<int>) -> Seq<int> {
        binomial::plus(self.m, a, b)
    }

    /// Difference.
    pub open spec fn difference(self, a: Seq<int>, b: Seq<int>) -> Seq<int> {
        binomial::minus(self.m, a, b)
    }

    /// Product.
    pub open spec fn product(self, a: Seq<int>, b: Seq<int>) -> Seq<int> {
        binomial::times(self.m, self.w, a, b)
    }

    /// Zero.
    pub open spec fn zero(self) -> Seq<int> {
        binomial::vzero(self.d)
    }

    /// Every coefficient is an element.
    pub open spec fn has_all(self, p: Seq<Seq<int>>) -> bool {
        forall|i: int| 0 <= i < p.len() ==> self.has(#[trigger] p[i])
    }

    /// The value at `x` of the polynomial with coefficients `p`, lowest
    /// degree first.
    pub open spec fn eval(self, p: Seq<Seq<int>>, x: Seq<int>) -> Seq<int>
        decreases p.len(),
    {
        if p.len() == 0 {
            self.zero()
        } else {
            self.sum(p[0], self.product(x, self.eval(p.drop_first(), x)))
        }
    }
}

/// Results are elements.
pub proof fn lemma_closed(over: Ring, a: Seq<int>, b: Seq<int>)
    requires
        over.wf(),
        over.has(a),
        over.has(b),
    ensures
        over.has(over.sum(a, b)),
        over.has(over.difference(a, b)),
        over.has(over.product(a, b)),
        over.has(over.zero()),
{
    binomial::lemma_closed(over.m, over.w, over.d, a, b);
}

/// A value is an element.
pub proof fn lemma_eval(over: Ring, p: Seq<Seq<int>>, x: Seq<int>)
    requires
        over.wf(),
        over.has_all(p),
        over.has(x),
    ensures
        over.has(over.eval(p, x)),
    decreases p.len(),
{
    lemma_closed(over, x, x);
    if p.len() > 0 {
        let rest = p.drop_first();
        lemma_eval(over, rest, x);
        lemma_closed(over, x, over.eval(rest, x));
        lemma_closed(over, p[0], over.product(x, over.eval(rest, x)));
    }
}

/// Limb `c` of every coefficient.
pub open spec fn component(p: Seq<Seq<int>>, c: int) -> Seq<int> {
    Seq::new(p.len(), |i: int| p[i][c])
}

/// A polynomial with coefficients in an extension, at a point of the base
/// field, is evaluated limb by limb.
pub proof fn law_evaluation_is_componentwise(over: Ring, p: Seq<Seq<int>>, x: int, c: int)
    requires
        over.wf(),
        over.has_all(p),
        zmod::reduced(over.m, x),
        0 <= c < over.d,
    ensures
        over.eval(p, binomial::constant(over.d, x))[c] == poly::eval(
            over.m,
            component(p, c),
            x,
        ),
    decreases p.len(),
{
    let point = binomial::constant(over.d, x);
    let limb = component(p, c);
    if p.len() > 0 {
        let rest = p.drop_first();
        law_evaluation_is_componentwise(over, rest, x, c);
        assert(limb.drop_first() =~= component(rest, c));
        let e = over.eval(rest, point);
        lemma_eval(over, rest, point);
        binomial::lemma_times_constant(over.m, over.w, over.d, x, e);
    }
}

/// The ring's operations are those of coefficient sequences, and a
/// polynomial's value is the sum of its coefficients times the powers of the
/// point.
pub proof fn law_operations(over: Ring, a: Seq<int>, b: Seq<int>, p: Seq<Seq<int>>, x: Seq<int>)
    ensures
        over.sum(a, b) == binomial::plus(over.m, a, b),
        over.difference(a, b) == binomial::minus(over.m, a, b),
        over.product(a, b) == binomial::times(over.m, over.w, a, b),
        over.zero() == binomial::vzero(over.d),
        over.eval(Seq::empty(), x) == over.zero(),
        over.eval(seq![a] + p, x) == over.sum(a, over.product(x, over.eval(p, x))),
{
    let q = seq![a] + p;
    assert(q.drop_first() =~= p);
    assert(q[0] == a);
}

} // verus!
