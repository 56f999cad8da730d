//! Degree-5 binomial extension `F_p[X] / (X^5 - W)`.
//!
//! Same shape as [`ext4`](super::ext4), extended to five components with
//! the degree-5 wraparound `X^5 -> W, X^6 -> W X, X^7 -> W X^2,
//! X^8 -> W X^3`. KoalaBear has no degree-5 binomial extension because
//! `gcd(5, p - 1) = 1`, so every element is already a fifth power.

use core::marker::PhantomData;

use vstd::arithmetic::mul::*;
use vstd::prelude::*;

use super::binomial;
use super::ext;
use super::ext::{ExtField, ExtShape};
use super::monty;
use super::monty::{monty_add, monty_mul, monty_neg, monty_sub, MontyField, MontyParameters};
use crate::po2;
use crate::zmod;

verus! {

/// Parameters for a degree-5 binomial extension over a base prime field.
pub trait BinomialExt5Parameters: Copy + Clone + Default + Send + Sync + 'static {
    /// Base prime field this extension sits over.
    type Base: MontyParameters;

    /// Non-residue `W` in the irreducible polynomial `X^5 - W`, in
    /// canonical (non-Montgomery) form.
    const W: u32;

    /// `W` in Montgomery form.
    const W_MONT: u32;

    /// `W` is reduced and `W_MONT` is its Montgomery form. `X^5 - W` is
    /// irreducible: five divides `p - 1`, and `W` is no fifth power, by
    /// Euler's criterion.
    proof fn consistent()
        ensures
            Self::W < <Self::Base as MontyParameters>::PRIME,
            Self::W_MONT == monty::to_mont::<Self::Base>(Self::W as int),
            <Self::Base as MontyParameters>::PRIME % 5 == 1,
            zmod::power(
                <Self::Base as MontyParameters>::PRIME as int,
                Self::W as int,
                ((<Self::Base as MontyParameters>::PRIME - 1) / 5) as nat,
            ) != 1,
    ;
}

/// Element of the degree-5 binomial extension `F_p[X] / (X^5 - W)`.
///
/// Limbs are in Montgomery form (`x * 2^32 mod p`, reduced to `[0, p)`).
#[derive(Debug, Eq, Hash, PartialEq, Default)]
pub struct Ext5<P: BinomialExt5Parameters> {
    /// Coefficient of `X^0`.
    pub c0: u32,
    /// Coefficient of `X^1`.
    pub c1: u32,
    /// Coefficient of `X^2`.
    pub c2: u32,
    /// Coefficient of `X^3`.
    pub c3: u32,
    /// Coefficient of `X^4`.
    pub c4: u32,
    pub _p: PhantomData<P>,
}

impl<P: BinomialExt5Parameters> Copy for Ext5<P> {

}

impl<P: BinomialExt5Parameters> Clone for Ext5<P> {
    fn clone(&self) -> (r: Self)
        ensures
            r == *self,
    {
        *self
    }
}

impl<P: BinomialExt5Parameters> Ext5<P> {
    /// Wrap pre-Montgomery raw limbs directly. Each should be below `p`.
    pub fn from_raw(raw: [u32; 5]) -> (r: Self)
        ensures
            r.raws() == raw@,
    {
        let r = Ext5 {
            c0: raw[0],
            c1: raw[1],
            c2: raw[2],
            c3: raw[3],
            c4: raw[4],
            _p: PhantomData,
        };
        assert(r.raws() =~= raw@);
        r
    }

    /// Construct from canonical (non-Montgomery) limbs. Each is reduced
    /// `mod p` and lifted to Montgomery form.
    pub fn from_canonical(limbs: [u32; 5]) -> (r: Self)
        ensures
            ext::wf(r),
            forall|i: int|
                0 <= i < 5 ==> #[trigger] ext::limbs(r)[i] == limbs@[i] % <P::Base as
                    MontyParameters>::PRIME,
    {
        let c0 = MontyField::<P::Base>::from_canonical(limbs[0]);
        let c1 = MontyField::<P::Base>::from_canonical(limbs[1]);
        let c2 = MontyField::<P::Base>::from_canonical(limbs[2]);
        let c3 = MontyField::<P::Base>::from_canonical(limbs[3]);
        let c4 = MontyField::<P::Base>::from_canonical(limbs[4]);
        let r = Ext5 {
            c0: c0.raw(),
            c1: c1.raw(),
            c2: c2.raw(),
            c3: c3.raw(),
            c4: c4.raw(),
            _p: PhantomData,
        };
        proof {
            assert(r.raws()[0] == c0.mont());
            assert(r.raws()[1] == c1.mont());
            assert(r.raws()[2] == c2.mont());
            assert(r.raws()[3] == c3.mont());
            assert(r.raws()[4] == c4.mont());
        }
        r
    }

    /// Inverse of [`from_canonical`](Self::from_canonical).
    pub fn to_canonical(self) -> (r: [u32; 5])
        requires
            ext::wf(self),
        ensures
            forall|i: int| 0 <= i < 5 ==> #[trigger] r@[i] == ext::limbs(self)[i],
    {
        proof {
            assert(self.raws()[0] == self.c0);
            assert(self.raws()[1] == self.c1);
            assert(self.raws()[2] == self.c2);
            assert(self.raws()[3] == self.c3);
            assert(self.raws()[4] == self.c4);
        }
        [
            MontyField::<P::Base>::from_raw(self.c0).to_canonical(),
            MontyField::<P::Base>::from_raw(self.c1).to_canonical(),
            MontyField::<P::Base>::from_raw(self.c2).to_canonical(),
            MontyField::<P::Base>::from_raw(self.c3).to_canonical(),
            MontyField::<P::Base>::from_raw(self.c4).to_canonical(),
        ]
    }

    /// The raw Montgomery-form limbs.
    pub fn raw(self) -> (r: [u32; 5])
        ensures
            r@ == self.raws(),
    {
        let r = [self.c0, self.c1, self.c2, self.c3, self.c4];
        assert(r@ =~= self.raws());
        r
    }
}

impl<P: BinomialExt5Parameters> ExtShape for Ext5<P> {
    type Base = P::Base;

    const DEGREE: u32 = 5;

    open spec fn raws(self) -> Seq<u32> {
        seq![self.c0, self.c1, self.c2, self.c3, self.c4]
    }

    open spec fn of_raws(raws: Seq<u32>) -> Self {
        Ext5 {
            c0: raws[0],
            c1: raws[1],
            c2: raws[2],
            c3: raws[3],
            c4: raws[4],
            _p: PhantomData,
        }
    }

    open spec fn non_residue() -> int {
        P::W as int
    }

    proof fn shape(a: Self, b: Self, raws: Seq<u32>) {
        if raws.len() == 5 {
            assert(Self::of_raws(raws).raws() =~= raws);
        }
        assert(a.raws()[0] == a.c0 && b.raws()[0] == b.c0);
        assert(a.raws()[1] == a.c1 && b.raws()[1] == b.c1);
        assert(a.raws()[2] == a.c2 && b.raws()[2] == b.c2);
        assert(a.raws()[3] == a.c3 && b.raws()[3] == b.c3);
        assert(a.raws()[4] == a.c4 && b.raws()[4] == b.c4);
    }
}

impl<P: BinomialExt5Parameters> vstd::std_specs::ops::AddSpecImpl for Ext5<P> {
    open spec fn obeys_add_spec() -> bool {
        true
    }

    open spec fn add_req(self, rhs: Self) -> bool {
        ext::wf(self) && ext::wf(rhs)
    }

    open spec fn add_spec(self, rhs: Self) -> Self {
        ext::of_limbs::<Self>(
            binomial::plus(ext::prime::<Self>(), ext::limbs(self), ext::limbs(rhs)),
        )
    }
}

impl<P: BinomialExt5Parameters> core::ops::Add for Ext5<P> {
    type Output = Self;

    fn add(self, rhs: Self) -> (r: Self)
        ensures
            ext::wf(r),
            ext::limbs(r) == binomial::plus(
                ext::prime::<Self>(),
                ext::limbs(self),
                ext::limbs(rhs),
            ),
    {
        let r = ext5_add::<P>(self, rhs);
        proof {
            ext::lemma_of_limbs(r, ext::limbs(r));
        }
        r
    }
}

impl<P: BinomialExt5Parameters> vstd::std_specs::ops::SubSpecImpl for Ext5<P> {
    open spec fn obeys_sub_spec() -> bool {
        true
    }

    open spec fn sub_req(self, rhs: Self) -> bool {
        ext::wf(self) && ext::wf(rhs)
    }

    open spec fn sub_spec(self, rhs: Self) -> Self {
        ext::of_limbs::<Self>(
            binomial::minus(ext::prime::<Self>(), ext::limbs(self), ext::limbs(rhs)),
        )
    }
}

impl<P: BinomialExt5Parameters> core::ops::Sub for Ext5<P> {
    type Output = Self;

    fn sub(self, rhs: Self) -> (r: Self)
        ensures
            ext::wf(r),
            ext::limbs(r) == binomial::minus(
                ext::prime::<Self>(),
                ext::limbs(self),
                ext::limbs(rhs),
            ),
    {
        let r = ext5_sub::<P>(self, rhs);
        proof {
            ext::lemma_of_limbs(r, ext::limbs(r));
        }
        r
    }
}

impl<P: BinomialExt5Parameters> vstd::std_specs::ops::MulSpecImpl for Ext5<P> {
    open spec fn obeys_mul_spec() -> bool {
        true
    }

    open spec fn mul_req(self, rhs: Self) -> bool {
        ext::wf(self) && ext::wf(rhs)
    }

    open spec fn mul_spec(self, rhs: Self) -> Self {
        ext::of_limbs::<Self>(
            binomial::times(
                ext::prime::<Self>(),
                Self::non_residue(),
                ext::limbs(self),
                ext::limbs(rhs),
            ),
        )
    }
}

impl<P: BinomialExt5Parameters> core::ops::Mul for Ext5<P> {
    type Output = Self;

    fn mul(self, rhs: Self) -> (r: Self)
        ensures
            ext::wf(r),
            ext::limbs(r) == binomial::times(
                ext::prime::<Self>(),
                Self::non_residue(),
                ext::limbs(self),
                ext::limbs(rhs),
            ),
    {
        let r = ext5_mul::<P>(self, rhs);
        proof {
            ext::lemma_of_limbs(r, ext::limbs(r));
        }
        r
    }
}

impl<P: BinomialExt5Parameters> vstd::std_specs::ops::NegSpecImpl for Ext5<P> {
    open spec fn obeys_neg_spec() -> bool {
        true
    }

    open spec fn neg_req(self) -> bool {
        ext::wf(self)
    }

    open spec fn neg_spec(self) -> Self {
        ext::of_limbs::<Self>(binomial::negate(ext::prime::<Self>(), ext::limbs(self)))
    }
}

impl<P: BinomialExt5Parameters> core::ops::Neg for Ext5<P> {
    type Output = Self;

    fn neg(self) -> (r: Self)
        ensures
            ext::wf(r),
            ext::limbs(r) == binomial::negate(ext::prime::<Self>(), ext::limbs(self)),
    {
        let r = ext5_neg::<P>(self);
        proof {
            ext::lemma_of_limbs(r, ext::limbs(r));
        }
        r
    }
}

/// Constructor for [`Ext5<P>`] from raw Montgomery-form limbs.
pub fn ext5_from_raws<P: BinomialExt5Parameters>(
    c0: u32,
    c1: u32,
    c2: u32,
    c3: u32,
    c4: u32,
) -> (r: Ext5<P>)
    ensures
        r.raws() == seq![c0, c1, c2, c3, c4],
{
    Ext5 { c0, c1, c2, c3, c4, _p: PhantomData }
}

/// Componentwise addition.
pub fn ext5_add<P: BinomialExt5Parameters>(a: Ext5<P>, b: Ext5<P>) -> (r: Ext5<P>)
    requires
        ext::wf(a),
        ext::wf(b),
    ensures
        ext::wf(r),
        ext::limbs(r) == binomial::plus(
            ext::prime::<Ext5<P>>(),
            ext::limbs(a),
            ext::limbs(b),
        ),
{
    proof {
        lemma_reduced_limbs(a);
        lemma_reduced_limbs(b);
    }
    let r = Ext5 {
        c0: monty_add::<P::Base>(a.c0, b.c0),
        c1: monty_add::<P::Base>(a.c1, b.c1),
        c2: monty_add::<P::Base>(a.c2, b.c2),
        c3: monty_add::<P::Base>(a.c3, b.c3),
        c4: monty_add::<P::Base>(a.c4, b.c4),
        _p: PhantomData,
    };
    proof {
        lemma_field_limbs(r);
        lemma_field_limbs(a);
        lemma_field_limbs(b);
        assert(ext::limbs(r) =~= binomial::plus(
            ext::prime::<Ext5<P>>(),
            ext::limbs(a),
            ext::limbs(b),
        ));
    }
    r
}

/// Componentwise subtraction.
pub fn ext5_sub<P: BinomialExt5Parameters>(a: Ext5<P>, b: Ext5<P>) -> (r: Ext5<P>)
    requires
        ext::wf(a),
        ext::wf(b),
    ensures
        ext::wf(r),
        ext::limbs(r) == binomial::minus(
            ext::prime::<Ext5<P>>(),
            ext::limbs(a),
            ext::limbs(b),
        ),
{
    proof {
        lemma_reduced_limbs(a);
        lemma_reduced_limbs(b);
    }
    let r = Ext5 {
        c0: monty_sub::<P::Base>(a.c0, b.c0),
        c1: monty_sub::<P::Base>(a.c1, b.c1),
        c2: monty_sub::<P::Base>(a.c2, b.c2),
        c3: monty_sub::<P::Base>(a.c3, b.c3),
        c4: monty_sub::<P::Base>(a.c4, b.c4),
        _p: PhantomData,
    };
    proof {
        lemma_field_limbs(r);
        lemma_field_limbs(a);
        lemma_field_limbs(b);
        assert(ext::limbs(r) =~= binomial::minus(
            ext::prime::<Ext5<P>>(),
            ext::limbs(a),
            ext::limbs(b),
        ));
    }
    r
}

/// Componentwise negation.
pub fn ext5_neg<P: BinomialExt5Parameters>(a: Ext5<P>) -> (r: Ext5<P>)
    requires
        ext::wf(a),
    ensures
        ext::wf(r),
        ext::limbs(r) == binomial::negate(ext::prime::<Ext5<P>>(), ext::limbs(a)),
{
    proof {
        lemma_reduced_limbs(a);
    }
    let r = Ext5 {
        c0: monty_neg::<P::Base>(a.c0),
        c1: monty_neg::<P::Base>(a.c1),
        c2: monty_neg::<P::Base>(a.c2),
        c3: monty_neg::<P::Base>(a.c3),
        c4: monty_neg::<P::Base>(a.c4),
        _p: PhantomData,
    };
    proof {
        lemma_field_limbs(r);
        lemma_field_limbs(a);
        assert(ext::limbs(r) =~= binomial::negate(ext::prime::<Ext5<P>>(), ext::limbs(a)));
    }
    r
}

/// Reducedness, limb by limb.
proof fn lemma_reduced_limbs<P: BinomialExt5Parameters>(a: Ext5<P>)
    ensures
        ext::wf(a) <==> {
            &&& a.c0 < <P::Base as MontyParameters>::PRIME
            &&& a.c1 < <P::Base as MontyParameters>::PRIME
            &&& a.c2 < <P::Base as MontyParameters>::PRIME
            &&& a.c3 < <P::Base as MontyParameters>::PRIME
            &&& a.c4 < <P::Base as MontyParameters>::PRIME
        },
{
    assert(a.raws()[0] == a.c0);
    assert(a.raws()[1] == a.c1);
    assert(a.raws()[2] == a.c2);
    assert(a.raws()[3] == a.c3);
    assert(a.raws()[4] == a.c4);
}

/// Reducedness and values, limb by limb.
proof fn lemma_field_limbs<P: BinomialExt5Parameters>(a: Ext5<P>)
    ensures
        ext::wf(a) <==> {
            &&& a.c0 < <P::Base as MontyParameters>::PRIME
            &&& a.c1 < <P::Base as MontyParameters>::PRIME
            &&& a.c2 < <P::Base as MontyParameters>::PRIME
            &&& a.c3 < <P::Base as MontyParameters>::PRIME
            &&& a.c4 < <P::Base as MontyParameters>::PRIME
        },
        ext::limbs(a) == seq![
            monty::from_mont::<P::Base>(a.c0 as int),
            monty::from_mont::<P::Base>(a.c1 as int),
            monty::from_mont::<P::Base>(a.c2 as int),
            monty::from_mont::<P::Base>(a.c3 as int),
            monty::from_mont::<P::Base>(a.c4 as int),
        ],
{
    lemma_reduced_limbs(a);
    assert(a.raws()[0] == a.c0);
    assert(a.raws()[1] == a.c1);
    assert(a.raws()[2] == a.c2);
    assert(a.raws()[3] == a.c3);
    assert(a.raws()[4] == a.c4);
    assert(ext::limbs(a) =~= seq![
        monty::from_mont::<P::Base>(a.c0 as int),
        monty::from_mont::<P::Base>(a.c1 as int),
        monty::from_mont::<P::Base>(a.c2 as int),
        monty::from_mont::<P::Base>(a.c3 as int),
        monty::from_mont::<P::Base>(a.c4 as int),
    ]);
}

/// The product of two 5-limb elements, written out.
proof fn lemma_product5(w: int, a: Seq<int>, b: Seq<int>)
    requires
        a.len() == 5,
        b.len() == 5,
    ensures
        binomial::product(w, a, b) == seq![
            a[0] * b[0] + w * (a[1] * b[4] + (a[2] * b[3] + (a[3] * b[2] + (a[4] * b[1])))),
            a[0] * b[1] + (a[1] * b[0] + w * (a[2] * b[4] + (a[3] * b[3] + (a[4] * b[2])))),
            a[0] * b[2] + (a[1] * b[1] + (a[2] * b[0] + w * (a[3] * b[4] + (a[4] * b[3])))),
            a[0] * b[3] + (a[1] * b[2] + (a[2] * b[1] + (a[3] * b[0] + w * (a[4] * b[4])))),
            a[0] * b[4] + (a[1] * b[3] + (a[2] * b[2] + (a[3] * b[1] + (a[4] * b[0])))),
        ],
{
    assert(w * 0 == 0) by (nonlinear_arith);
    let z = binomial::product_from(w, a, b, 5);
    assert(z =~= binomial::vzero(5));
    let h4 = binomial::product_from(w, a, b, 4);
    assert(h4 =~= seq![a[4] * b[0], a[4] * b[1], a[4] * b[2], a[4] * b[3], a[4] * b[4]]);
    let h3 = binomial::product_from(w, a, b, 3);
    assert(h3 =~= seq![
        a[3] * b[0] + w * h4[4],
        a[3] * b[1] + h4[0],
        a[3] * b[2] + h4[1],
        a[3] * b[3] + h4[2],
        a[3] * b[4] + h4[3],
    ]);
    let h2 = binomial::product_from(w, a, b, 2);
    assert(h2 =~= seq![
        a[2] * b[0] + w * h3[4],
        a[2] * b[1] + h3[0],
        a[2] * b[2] + h3[1],
        a[2] * b[3] + h3[2],
        a[2] * b[4] + h3[3],
    ]);
    let h1 = binomial::product_from(w, a, b, 1);
    assert(h1 =~= seq![
        a[1] * b[0] + w * h2[4],
        a[1] * b[1] + h2[0],
        a[1] * b[2] + h2[1],
        a[1] * b[3] + h2[2],
        a[1] * b[4] + h2[3],
    ]);
    let h0 = binomial::product_from(w, a, b, 0);
    assert(h0 =~= seq![
        a[0] * b[0] + w * h1[4],
        a[0] * b[1] + h1[0],
        a[0] * b[2] + h1[1],
        a[0] * b[3] + h1[2],
        a[0] * b[4] + h1[3],
    ]);
}

/// Multiplication mod `X^5 - W`.
///
/// Schoolbook 25-mul: form the unreduced degree-8 product, fold the
/// degree-5..8 wraparound terms back via Montgomery multiplies by
/// `W_MONT`. All arithmetic is base-field Montgomery.
pub fn ext5_mul<P: BinomialExt5Parameters>(a: Ext5<P>, b: Ext5<P>) -> (r: Ext5<P>)
    requires
        ext::wf(a),
        ext::wf(b),
    ensures
        ext::wf(r),
        ext::limbs(r) == binomial::times(
            ext::prime::<Ext5<P>>(),
            P::W as int,
            ext::limbs(a),
            ext::limbs(b),
        ),
{
    let ghost p = ext::prime::<Ext5<P>>();
    let ghost w = P::W as int;
    let ghost x = ext::limbs(a);
    let ghost y = ext::limbs(b);
    proof {
        lemma_field_limbs(a);
        lemma_field_limbs(b);
        P::consistent();
        <P::Base as MontyParameters>::consistent();
        monty::lemma_round_trip::<P::Base>(w);
        zmod::lemma_reduced(p, w);
    }
    let a0_b0 = monty_mul::<P::Base>(a.c0, b.c0);
    let a0_b1 = monty_mul::<P::Base>(a.c0, b.c1);
    let a0_b2 = monty_mul::<P::Base>(a.c0, b.c2);
    let a0_b3 = monty_mul::<P::Base>(a.c0, b.c3);
    let a0_b4 = monty_mul::<P::Base>(a.c0, b.c4);
    let a1_b0 = monty_mul::<P::Base>(a.c1, b.c0);
    let a1_b1 = monty_mul::<P::Base>(a.c1, b.c1);
    let a1_b2 = monty_mul::<P::Base>(a.c1, b.c2);
    let a1_b3 = monty_mul::<P::Base>(a.c1, b.c3);
    let a1_b4 = monty_mul::<P::Base>(a.c1, b.c4);
    let a2_b0 = monty_mul::<P::Base>(a.c2, b.c0);
    let a2_b1 = monty_mul::<P::Base>(a.c2, b.c1);
    let a2_b2 = monty_mul::<P::Base>(a.c2, b.c2);
    let a2_b3 = monty_mul::<P::Base>(a.c2, b.c3);
    let a2_b4 = monty_mul::<P::Base>(a.c2, b.c4);
    let a3_b0 = monty_mul::<P::Base>(a.c3, b.c0);
    let a3_b1 = monty_mul::<P::Base>(a.c3, b.c1);
    let a3_b2 = monty_mul::<P::Base>(a.c3, b.c2);
    let a3_b3 = monty_mul::<P::Base>(a.c3, b.c3);
    let a3_b4 = monty_mul::<P::Base>(a.c3, b.c4);
    let a4_b0 = monty_mul::<P::Base>(a.c4, b.c0);
    let a4_b1 = monty_mul::<P::Base>(a.c4, b.c1);
    let a4_b2 = monty_mul::<P::Base>(a.c4, b.c2);
    let a4_b3 = monty_mul::<P::Base>(a.c4, b.c3);
    let a4_b4 = monty_mul::<P::Base>(a.c4, b.c4);
    // Wraparound coefficients, each multiplied by W.
    let w5 = monty_add::<P::Base>(
        monty_add::<P::Base>(monty_add::<P::Base>(a1_b4, a2_b3), a3_b2),
        a4_b1,
    );
    let w6 = monty_add::<P::Base>(monty_add::<P::Base>(a2_b4, a3_b3), a4_b2);
    let w7 = monty_add::<P::Base>(a3_b4, a4_b3);
    let w8 = a4_b4;
    let w5_w = monty_mul::<P::Base>(w5, P::W_MONT);
    let w6_w = monty_mul::<P::Base>(w6, P::W_MONT);
    let w7_w = monty_mul::<P::Base>(w7, P::W_MONT);
    let w8_w = monty_mul::<P::Base>(w8, P::W_MONT);
    let c0 = monty_add::<P::Base>(a0_b0, w5_w);
    let c1 = monty_add::<P::Base>(monty_add::<P::Base>(a0_b1, a1_b0), w6_w);
    let c2 = monty_add::<P::Base>(
        monty_add::<P::Base>(monty_add::<P::Base>(a0_b2, a1_b1), a2_b0),
        w7_w,
    );
    let c3 = monty_add::<P::Base>(
        monty_add::<P::Base>(monty_add::<P::Base>(monty_add::<P::Base>(a0_b3, a1_b2), a2_b1), a3_b0),
        w8_w,
    );
    let c4 = monty_add::<P::Base>(
        monty_add::<P::Base>(monty_add::<P::Base>(monty_add::<P::Base>(a0_b4, a1_b3), a2_b2), a3_b1),
        a4_b0,
    );
    let r = Ext5 { c0, c1, c2, c3, c4, _p: PhantomData };
    proof {
        lemma_field_limbs(r);
        lemma_product5(w, x, y);
        let e = binomial::product(w, x, y);
        {
            let t0 = x[1] * y[4];
            let t1 = x[2] * y[3];
            let t2 = x[3] * y[2];
            let t3 = x[4] * y[1];
            zmod::lemma_plus_absorbs(p, t0, t1);
            zmod::lemma_plus_absorbs(p, t0 + t1, t2);
            zmod::lemma_plus_absorbs(p, t0 + t1 + t2, t3);
            let t = t0 + t1 + t2 + t3;
            zmod::lemma_times_absorbs(p, t, w);
            lemma_mul_is_commutative(t, w);
            let s0 = x[0] * y[0];
            zmod::lemma_plus_absorbs(p, s0, t * w);
            assert(e[0] == s0 + t * w);
            assert(ext::limbs(r)[0] == e[0] % p);
        }
        {
            let t0 = x[2] * y[4];
            let t1 = x[3] * y[3];
            let t2 = x[4] * y[2];
            zmod::lemma_plus_absorbs(p, t0, t1);
            zmod::lemma_plus_absorbs(p, t0 + t1, t2);
            let t = t0 + t1 + t2;
            zmod::lemma_times_absorbs(p, t, w);
            lemma_mul_is_commutative(t, w);
            let s0 = x[0] * y[1];
            let s1 = x[1] * y[0];
            zmod::lemma_plus_absorbs(p, s0, s1);
            zmod::lemma_plus_absorbs(p, s0 + s1, t * w);
            assert(e[1] == s0 + s1 + t * w);
            assert(ext::limbs(r)[1] == e[1] % p);
        }
        {
            let t0 = x[3] * y[4];
            let t1 = x[4] * y[3];
            zmod::lemma_plus_absorbs(p, t0, t1);
            let t = t0 + t1;
            zmod::lemma_times_absorbs(p, t, w);
            lemma_mul_is_commutative(t, w);
            let s0 = x[0] * y[2];
            let s1 = x[1] * y[1];
            let s2 = x[2] * y[0];
            zmod::lemma_plus_absorbs(p, s0, s1);
            zmod::lemma_plus_absorbs(p, s0 + s1, s2);
            zmod::lemma_plus_absorbs(p, s0 + s1 + s2, t * w);
            assert(e[2] == s0 + s1 + s2 + t * w);
            assert(ext::limbs(r)[2] == e[2] % p);
        }
        {
            let t0 = x[4] * y[4];
            let t = t0;
            zmod::lemma_times_absorbs(p, t, w);
            lemma_mul_is_commutative(t, w);
            let s0 = x[0] * y[3];
            let s1 = x[1] * y[2];
            let s2 = x[2] * y[1];
            let s3 = x[3] * y[0];
            zmod::lemma_plus_absorbs(p, s0, s1);
            zmod::lemma_plus_absorbs(p, s0 + s1, s2);
            zmod::lemma_plus_absorbs(p, s0 + s1 + s2, s3);
            zmod::lemma_plus_absorbs(p, s0 + s1 + s2 + s3, t * w);
            assert(e[3] == s0 + s1 + s2 + s3 + t * w);
            assert(ext::limbs(r)[3] == e[3] % p);
        }
        {
            let s0 = x[0] * y[4];
            let s1 = x[1] * y[3];
            let s2 = x[2] * y[2];
            let s3 = x[3] * y[1];
            let s4 = x[4] * y[0];
            zmod::lemma_plus_absorbs(p, s0, s1);
            zmod::lemma_plus_absorbs(p, s0 + s1, s2);
            zmod::lemma_plus_absorbs(p, s0 + s1 + s2, s3);
            zmod::lemma_plus_absorbs(p, s0 + s1 + s2 + s3, s4);
            assert(e[4] == s0 + s1 + s2 + s3 + s4);
            assert(ext::limbs(r)[4] == e[4] % p);
        }
        assert(ext::limbs(r) =~= binomial::times(p, w, x, y));
    }
    r
}

impl<P: BinomialExt5Parameters> ExtField for Ext5<P> {
    fn add(a: Self, b: Self) -> (r: Self) {
        ext5_add::<P>(a, b)
    }

    fn sub(a: Self, b: Self) -> (r: Self) {
        ext5_sub::<P>(a, b)
    }

    fn mul(a: Self, b: Self) -> (r: Self) {
        ext5_mul::<P>(a, b)
    }

    fn neg(a: Self) -> (r: Self) {
        ext5_neg::<P>(a)
    }

    fn zero() -> (r: Self) {
        let r = Ext5 { c0: 0, c1: 0, c2: 0, c3: 0, c4: 0, _p: PhantomData };
        proof {
            ext::lemma_mont_zero_one::<P::Base>();
            lemma_field_limbs(r);
            assert(ext::limbs(r) =~= binomial::vzero(5));
        }
        r
    }

    fn one() -> (r: Self) {
        let r = Ext5 {
            c0: <P::Base as MontyParameters>::MONT_ONE,
            c1: 0,
            c2: 0,
            c3: 0,
            c4: 0,
            _p: PhantomData,
        };
        proof {
            ext::lemma_mont_zero_one::<P::Base>();
            lemma_field_limbs(r);
            assert(ext::limbs(r) =~= binomial::vone(5));
        }
        r
    }

    fn from_base_raw(x: u32) -> (r: Self) {
        let r = Ext5 { c0: x, c1: 0, c2: 0, c3: 0, c4: 0, _p: PhantomData };
        proof {
            ext::lemma_mont_zero_one::<P::Base>();
            lemma_field_limbs(r);
            assert(ext::limbs(r) =~= binomial::constant(
                5,
                monty::from_mont::<P::Base>(x as int),
            ));
        }
        r
    }

    fn load(arr: &[u32], base: u32, i: u32, n: u32) -> (r: Self) {
        let r = Ext5 {
            c0: arr[(base + i) as usize],
            c1: arr[(base + n + i) as usize],
            c2: arr[(base + 2 * n + i) as usize],
            c3: arr[(base + 3 * n + i) as usize],
            c4: arr[(base + 4 * n + i) as usize],
            _p: PhantomData,
        };
        proof {
            let b = base as int;
            let t = i as int;
            let m = n as int;
            assert(0 * m == 0 && 1 * m == m);
            assert(r.raws()[0] == arr@[ext::slot(b, t, m, 0)]);
            assert(r.raws()[1] == arr@[ext::slot(b, t, m, 1)]);
            assert(r.raws()[2] == arr@[ext::slot(b, t, m, 2)]);
            assert(r.raws()[3] == arr@[ext::slot(b, t, m, 3)]);
            assert(r.raws()[4] == arr@[ext::slot(b, t, m, 4)]);
            assert forall|c: int| 0 <= c < 5 implies #[trigger] r.raws()[c] == arr@[ext::slot(
                base as int,
                i as int,
                n as int,
                c,
            )] by {
                assert(c == 0 || c == 1 || c == 2 || c == 3 || c == 4);
            }
        }
        r
    }

    fn store(arr: &mut [u32], base: u32, i: u32, n: u32, v: Self) {
        let ghost orig = arr@;
        arr[(base + i) as usize] = v.c0;
        arr[(base + n + i) as usize] = v.c1;
        arr[(base + 2 * n + i) as usize] = v.c2;
        arr[(base + 3 * n + i) as usize] = v.c3;
        arr[(base + 4 * n + i) as usize] = v.c4;
        proof {
            let target = ext::stored(orig, base as int, i as int, n as int, v.raws());
            assert forall|k: int| 0 <= k < orig.len() implies arr@[k] == target[k] by {
                let b = base as int;
                let m = n as int;
                let t = i as int;
                po2::lemma_split(0, m, t);
                po2::lemma_split(1, m, t);
                po2::lemma_split(2, m, t);
                po2::lemma_split(3, m, t);
                po2::lemma_split(4, m, t);
                if k >= b {
                    po2::lemma_join(k - b, m);
                    let q = (k - b) / m;
                    if (k - b) % m == t && q < 5 {
                        assert(q == 0 || q == 1 || q == 2 || q == 3 || q == 4);
                        assert(v.raws()[0] == v.c0);
                        assert(v.raws()[1] == v.c1);
                        assert(v.raws()[2] == v.c2);
                        assert(v.raws()[3] == v.c3);
                        assert(v.raws()[4] == v.c4);
                    }
                }
            }
            assert(arr@ =~= target);
        }
    }
}

/// An element has five limbs.
pub proof fn law_degree<P: BinomialExt5Parameters>()
    ensures
        Ext5::<P>::DEGREE == 5,
{
}

/// `W` is no fifth power of an element of the base field. That the `p - 1`-th
/// power of a nonzero element is one is Fermat's theorem.
pub proof fn law_w_is_no_fifth_power<P: BinomialExt5Parameters>(a: int)
    requires
        zmod::power(
            <P::Base as MontyParameters>::PRIME as int,
            a,
            (<P::Base as MontyParameters>::PRIME - 1) as nat,
        ) == 1,
    ensures
        zmod::power(<P::Base as MontyParameters>::PRIME as int, a, 5) != P::W,
{
    let p = <P::Base as MontyParameters>::PRIME as int;
    P::consistent();
    <P::Base as MontyParameters>::consistent();
    let e = ((p - 1) / 5) as nat;
    assert(5 * e == (p - 1) as nat);
    zmod::lemma_power_multiplies(p, a, 5, e);
}

/// The limbs of an element are its fields, in order, and the extension is by
/// the root of `X^5 - W` over the base field.
pub proof fn law_limbs_are_fields<P: BinomialExt5Parameters>(e: Ext5<P>)
    ensures
        e.raws().len() == 5,
        ext::limbs(e).len() == 5,
        e.raws()[0] == e.c0,
        ext::limbs(e)[0] == monty::from_mont::<P::Base>(e.c0 as int),
        e.raws()[1] == e.c1,
        ext::limbs(e)[1] == monty::from_mont::<P::Base>(e.c1 as int),
        e.raws()[2] == e.c2,
        ext::limbs(e)[2] == monty::from_mont::<P::Base>(e.c2 as int),
        e.raws()[3] == e.c3,
        ext::limbs(e)[3] == monty::from_mont::<P::Base>(e.c3 as int),
        e.raws()[4] == e.c4,
        ext::limbs(e)[4] == monty::from_mont::<P::Base>(e.c4 as int),
        ext::prime::<Ext5<P>>() == <P::Base as MontyParameters>::PRIME,
        ext::ring::<Ext5<P>>().m == <P::Base as MontyParameters>::PRIME,
        ext::ring::<Ext5<P>>().w == P::W,
        ext::ring::<Ext5<P>>().d == 5,
{
}

} // verus!
