//! Degree-4 binomial extension `F_p[X] / (X^4 - W)`.
//!
//! The four limbs `c0..c3` of an [`Ext4`] are the components of
//! `c0 + c1 X + c2 X^2 + c3 X^3` in Montgomery form (one base-field
//! reduction per limb).
//!
//! Multiplication is a textbook 16-mul schoolbook with the wraparound terms
//! (degrees 4..6 of the unreduced product) folded in via a single
//! Montgomery multiply by `W_MONT`.

use core::marker::PhantomData;

use vstd::arithmetic::mul::*;
use vstd::prelude::*;

use super::binomial;
use super::ext;
use super::ext::{ExtField, ExtShape};
use super::monty;
use super::monty::{monty_add, monty_mul, monty_neg, monty_sub, MontyField, MontyParameters};
use crate::po2;
use crate::zmod;

verus! {

/// Parameters for a degree-4 binomial extension over a base prime field.
pub trait BinomialExt4Parameters: Copy + Clone + Default + Send + Sync + 'static {
    /// Base prime field this extension sits over.
    type Base: MontyParameters;

    /// Non-residue `W` in the irreducible polynomial `X^4 - W`, in
    /// canonical (non-Montgomery) form.
    const W: u32;

    /// `W` in Montgomery form.
    const W_MONT: u32;

    /// `W` is reduced and `W_MONT` is its Montgomery form. `X^4 - W` is
    /// irreducible: four divides `p - 1`, and `W` is no square, by Euler's
    /// criterion.
    proof fn consistent()
        ensures
            Self::W < <Self::Base as MontyParameters>::PRIME,
            Self::W_MONT == monty::to_mont::<Self::Base>(Self::W as int),
            <Self::Base as MontyParameters>::PRIME % 4 == 1,
            zmod::power(
                <Self::Base as MontyParameters>::PRIME as int,
                Self::W as int,
                ((<Self::Base as MontyParameters>::PRIME - 1) / 2) as nat,
            ) == <Self::Base as MontyParameters>::PRIME - 1,
    ;
}

/// Element of the degree-4 binomial extension `F_p[X] / (X^4 - W)`.
///
/// Limbs are in Montgomery form (`x * 2^32 mod p`, reduced to `[0, p)`).
#[derive(Debug, Eq, Hash, PartialEq, Default)]
pub struct Ext4<P: BinomialExt4Parameters> {
    /// Coefficient of `X^0`.
    pub c0: u32,
    /// Coefficient of `X^1`.
    pub c1: u32,
    /// Coefficient of `X^2`.
    pub c2: u32,
    /// Coefficient of `X^3`.
    pub c3: u32,
    pub _p: PhantomData<P>,
}

impl<P: BinomialExt4Parameters> Copy for Ext4<P> {

}

impl<P: BinomialExt4Parameters> Clone for Ext4<P> {
    fn clone(&self) -> (r: Self)
        ensures
            r == *self,
    {
        *self
    }
}

impl<P: BinomialExt4Parameters> Ext4<P> {
    /// Wrap pre-Montgomery raw limbs directly. Each should be below `p`.
    pub fn from_raw(raw: [u32; 4]) -> (r: Self)
        ensures
            r.raws() == raw@,
    {
        let r = Ext4 {
            c0: raw[0],
            c1: raw[1],
            c2: raw[2],
            c3: raw[3],
            _p: PhantomData,
        };
        assert(r.raws() =~= raw@);
        r
    }

    /// Construct from canonical (non-Montgomery) limbs. Each is reduced
    /// `mod p` and lifted to Montgomery form.
    pub fn from_canonical(limbs: [u32; 4]) -> (r: Self)
        ensures
            ext::wf(r),
            forall|i: int|
                0 <= i < 4 ==> #[trigger] ext::limbs(r)[i] == limbs@[i] % <P::Base as
                    MontyParameters>::PRIME,
    {
        let c0 = MontyField::<P::Base>::from_canonical(limbs[0]);
        let c1 = MontyField::<P::Base>::from_canonical(limbs[1]);
        let c2 = MontyField::<P::Base>::from_canonical(limbs[2]);
        let c3 = MontyField::<P::Base>::from_canonical(limbs[3]);
        let r = Ext4 {
            c0: c0.raw(),
            c1: c1.raw(),
            c2: c2.raw(),
            c3: c3.raw(),
            _p: PhantomData,
        };
        proof {
            assert(r.raws()[0] == c0.mont());
            assert(r.raws()[1] == c1.mont());
            assert(r.raws()[2] == c2.mont());
            assert(r.raws()[3] == c3.mont());
        }
        r
    }

    /// Inverse of [`from_canonical`](Self::from_canonical).
    pub fn to_canonical(self) -> (r: [u32; 4])
        requires
            ext::wf(self),
        ensures
            forall|i: int| 0 <= i < 4 ==> #[trigger] r@[i] == ext::limbs(self)[i],
    {
        proof {
            assert(self.raws()[0] == self.c0);
            assert(self.raws()[1] == self.c1);
            assert(self.raws()[2] == self.c2);
            assert(self.raws()[3] == self.c3);
        }
        [
            MontyField::<P::Base>::from_raw(self.c0).to_canonical(),
            MontyField::<P::Base>::from_raw(self.c1).to_canonical(),
            MontyField::<P::Base>::from_raw(self.c2).to_canonical(),
            MontyField::<P::Base>::from_raw(self.c3).to_canonical(),
        ]
    }

    /// The raw Montgomery-form limbs.
    pub fn raw(self) -> (r: [u32; 4])
        ensures
            r@ == self.raws(),
    {
        let r = [self.c0, self.c1, self.c2, self.c3];
        assert(r@ =~= self.raws());
        r
    }
}

impl<P: BinomialExt4Parameters> ExtShape for Ext4<P> {
    type Base = P::Base;

    const DEGREE: u32 = 4;

    open spec fn raws(self) -> Seq<u32> {
        seq![self.c0, self.c1, self.c2, self.c3]
    }

    open spec fn of_raws(raws: Seq<u32>) -> Self {
        Ext4 {
            c0: raws[0],
            c1: raws[1],
            c2: raws[2],
            c3: raws[3],
            _p: PhantomData,
        }
    }

    open spec fn non_residue() -> int {
        P::W as int
    }

    proof fn shape(a: Self, b: Self, raws: Seq<u32>) {
        if raws.len() == 4 {
            assert(Self::of_raws(raws).raws() =~= raws);
        }
        assert(a.raws()[0] == a.c0 && b.raws()[0] == b.c0);
        assert(a.raws()[1] == a.c1 && b.raws()[1] == b.c1);
        assert(a.raws()[2] == a.c2 && b.raws()[2] == b.c2);
        assert(a.raws()[3] == a.c3 && b.raws()[3] == b.c3);
    }
}

impl<P: BinomialExt4Parameters> vstd::std_specs::ops::AddSpecImpl for Ext4<P> {
    open spec fn obeys_add_spec() -> bool {
        true
    }

    open spec fn add_req(self, rhs: Self) -> bool {
        ext::wf(self) && ext::wf(rhs)
    }

    open spec fn add_spec(self, rhs: Self) -> Self {
        ext::of_limbs::<Self>(
            binomial::plus(ext::prime::<Self>(), ext::limbs(self), ext::limbs(rhs)),
        )
    }
}

impl<P: BinomialExt4Parameters> core::ops::Add for Ext4<P> {
    type Output = Self;

    fn add(self, rhs: Self) -> (r: Self)
        ensures
            ext::wf(r),
            ext::limbs(r) == binomial::plus(
                ext::prime::<Self>(),
                ext::limbs(self),
                ext::limbs(rhs),
            ),
    {
        let r = ext4_add::<P>(self, rhs);
        proof {
            ext::lemma_of_limbs(r, ext::limbs(r));
        }
        r
    }
}

impl<P: BinomialExt4Parameters> vstd::std_specs::ops::SubSpecImpl for Ext4<P> {
    open spec fn obeys_sub_spec() -> bool {
        true
    }

    open spec fn sub_req(self, rhs: Self) -> bool {
        ext::wf(self) && ext::wf(rhs)
    }

    open spec fn sub_spec(self, rhs: Self) -> Self {
        ext::of_limbs::<Self>(
            binomial::minus(ext::prime::<Self>(), ext::limbs(self), ext::limbs(rhs)),
        )
    }
}

impl<P: BinomialExt4Parameters> core::ops::Sub for Ext4<P> {
    type Output = Self;

    fn sub(self, rhs: Self) -> (r: Self)
        ensures
            ext::wf(r),
            ext::limbs(r) == binomial::minus(
                ext::prime::<Self>(),
                ext::limbs(self),
                ext::limbs(rhs),
            ),
    {
        let r = ext4_sub::<P>(self, rhs);
        proof {
            ext::lemma_of_limbs(r, ext::limbs(r));
        }
        r
    }
}

impl<P: BinomialExt4Parameters> vstd::std_specs::ops::MulSpecImpl for Ext4<P> {
    open spec fn obeys_mul_spec() -> bool {
        true
    }

    open spec fn mul_req(self, rhs: Self) -> bool {
        ext::wf(self) && ext::wf(rhs)
    }

    open spec fn mul_spec(self, rhs: Self) -> Self {
        ext::of_limbs::<Self>(
            binomial::times(
                ext::prime::<Self>(),
                Self::non_residue(),
                ext::limbs(self),
                ext::limbs(rhs),
            ),
        )
    }
}

impl<P: BinomialExt4Parameters> core::ops::Mul for Ext4<P> {
    type Output = Self;

    fn mul(self, rhs: Self) -> (r: Self)
        ensures
            ext::wf(r),
            ext::limbs(r) == binomial::times(
                ext::prime::<Self>(),
                Self::non_residue(),
                ext::limbs(self),
                ext::limbs(rhs),
            ),
    {
        let r = ext4_mul::<P>(self, rhs);
        proof {
            ext::lemma_of_limbs(r, ext::limbs(r));
        }
        r
    }
}

impl<P: BinomialExt4Parameters> vstd::std_specs::ops::NegSpecImpl for Ext4<P> {
    open spec fn obeys_neg_spec() -> bool {
        true
    }

    open spec fn neg_req(self) -> bool {
        ext::wf(self)
    }

    open spec fn neg_spec(self) -> Self {
        ext::of_limbs::<Self>(binomial::negate(ext::prime::<Self>(), ext::limbs(self)))
    }
}

impl<P: BinomialExt4Parameters> core::ops::Neg for Ext4<P> {
    type Output = Self;

    fn neg(self) -> (r: Self)
        ensures
            ext::wf(r),
            ext::limbs(r) == binomial::negate(ext::prime::<Self>(), ext::limbs(self)),
    {
        let r = ext4_neg::<P>(self);
        proof {
            ext::lemma_of_limbs(r, ext::limbs(r));
        }
        r
    }
}

/// Constructor for [`Ext4<P>`] from raw Montgomery-form limbs.
pub fn ext4_from_raws<P: BinomialExt4Parameters>(c0: u32, c1: u32, c2: u32, c3: u32) -> (r: Ext4<P>)
    ensures
        r.raws() == seq![c0, c1, c2, c3],
{
    Ext4 { c0, c1, c2, c3, _p: PhantomData }
}

/// Componentwise addition.
pub fn ext4_add<P: BinomialExt4Parameters>(a: Ext4<P>, b: Ext4<P>) -> (r: Ext4<P>)
    requires
        ext::wf(a),
        ext::wf(b),
    ensures
        ext::wf(r),
        ext::limbs(r) == binomial::plus(
            ext::prime::<Ext4<P>>(),
            ext::limbs(a),
            ext::limbs(b),
        ),
{
    proof {
        lemma_reduced_limbs(a);
        lemma_reduced_limbs(b);
    }
    let r = Ext4 {
        c0: monty_add::<P::Base>(a.c0, b.c0),
        c1: monty_add::<P::Base>(a.c1, b.c1),
        c2: monty_add::<P::Base>(a.c2, b.c2),
        c3: monty_add::<P::Base>(a.c3, b.c3),
        _p: PhantomData,
    };
    proof {
        lemma_field_limbs(r);
        lemma_field_limbs(a);
        lemma_field_limbs(b);
        assert(ext::limbs(r) =~= binomial::plus(
            ext::prime::<Ext4<P>>(),
            ext::limbs(a),
            ext::limbs(b),
        ));
    }
    r
}

/// Componentwise subtraction.
pub fn ext4_sub<P: BinomialExt4Parameters>(a: Ext4<P>, b: Ext4<P>) -> (r: Ext4<P>)
    requires
        ext::wf(a),
        ext::wf(b),
    ensures
        ext::wf(r),
        ext::limbs(r) == binomial::minus(
            ext::prime::<Ext4<P>>(),
            ext::limbs(a),
            ext::limbs(b),
        ),
{
    proof {
        lemma_reduced_limbs(a);
        lemma_reduced_limbs(b);
    }
    let r = Ext4 {
        c0: monty_sub::<P::Base>(a.c0, b.c0),
        c1: monty_sub::<P::Base>(a.c1, b.c1),
        c2: monty_sub::<P::Base>(a.c2, b.c2),
        c3: monty_sub::<P::Base>(a.c3, b.c3),
        _p: PhantomData,
    };
    proof {
        lemma_field_limbs(r);
        lemma_field_limbs(a);
        lemma_field_limbs(b);
        assert(ext::limbs(r) =~= binomial::minus(
            ext::prime::<Ext4<P>>(),
            ext::limbs(a),
            ext::limbs(b),
        ));
    }
    r
}

/// Componentwise negation.
pub fn ext4_neg<P: BinomialExt4Parameters>(a: Ext4<P>) -> (r: Ext4<P>)
    requires
        ext::wf(a),
    ensures
        ext::wf(r),
        ext::limbs(r) == binomial::negate(ext::prime::<Ext4<P>>(), ext::limbs(a)),
{
    proof {
        lemma_reduced_limbs(a);
    }
    let r = Ext4 {
        c0: monty_neg::<P::Base>(a.c0),
        c1: monty_neg::<P::Base>(a.c1),
        c2: monty_neg::<P::Base>(a.c2),
        c3: monty_neg::<P::Base>(a.c3),
        _p: PhantomData,
    };
    proof {
        lemma_field_limbs(r);
        lemma_field_limbs(a);
        assert(ext::limbs(r) =~= binomial::negate(ext::prime::<Ext4<P>>(), ext::limbs(a)));
    }
    r
}

/// Reducedness, limb by limb.
proof fn lemma_reduced_limbs<P: BinomialExt4Parameters>(a: Ext4<P>)
    ensures
        ext::wf(a) <==> {
            &&& a.c0 < <P::Base as MontyParameters>::PRIME
            &&& a.c1 < <P::Base as MontyParameters>::PRIME
            &&& a.c2 < <P::Base as MontyParameters>::PRIME
            &&& a.c3 < <P::Base as MontyParameters>::PRIME
        },
{
    assert(a.raws()[0] == a.c0);
    assert(a.raws()[1] == a.c1);
    assert(a.raws()[2] == a.c2);
    assert(a.raws()[3] == a.c3);
}

/// Reducedness and values, limb by limb.
proof fn lemma_field_limbs<P: BinomialExt4Parameters>(a: Ext4<P>)
    ensures
        ext::wf(a) <==> {
            &&& a.c0 < <P::Base as MontyParameters>::PRIME
            &&& a.c1 < <P::Base as MontyParameters>::PRIME
            &&& a.c2 < <P::Base as MontyParameters>::PRIME
            &&& a.c3 < <P::Base as MontyParameters>::PRIME
        },
        ext::limbs(a) == seq![
            monty::from_mont::<P::Base>(a.c0 as int),
            monty::from_mont::<P::Base>(a.c1 as int),
            monty::from_mont::<P::Base>(a.c2 as int),
            monty::from_mont::<P::Base>(a.c3 as int),
        ],
{
    lemma_reduced_limbs(a);
    assert(a.raws()[0] == a.c0);
    assert(a.raws()[1] == a.c1);
    assert(a.raws()[2] == a.c2);
    assert(a.raws()[3] == a.c3);
    assert(ext::limbs(a) =~= seq![
        monty::from_mont::<P::Base>(a.c0 as int),
        monty::from_mont::<P::Base>(a.c1 as int),
        monty::from_mont::<P::Base>(a.c2 as int),
        monty::from_mont::<P::Base>(a.c3 as int),
    ]);
}

/// The product of two 4-limb elements, written out.
proof fn lemma_product4(w: int, a: Seq<int>, b: Seq<int>)
    requires
        a.len() == 4,
        b.len() == 4,
    ensures
        binomial::product(w, a, b) == seq![
            a[0] * b[0] + w * (a[1] * b[3] + (a[2] * b[2] + (a[3] * b[1]))),
            a[0] * b[1] + (a[1] * b[0] + w * (a[2] * b[3] + (a[3] * b[2]))),
            a[0] * b[2] + (a[1] * b[1] + (a[2] * b[0] + w * (a[3] * b[3]))),
            a[0] * b[3] + (a[1] * b[2] + (a[2] * b[1] + (a[3] * b[0]))),
        ],
{
    assert(w * 0 == 0) by (nonlinear_arith);
    let z = binomial::product_from(w, a, b, 4);
    assert(z =~= binomial::vzero(4));
    let h3 = binomial::product_from(w, a, b, 3);
    assert(h3 =~= seq![a[3] * b[0], a[3] * b[1], a[3] * b[2], a[3] * b[3]]);
    let h2 = binomial::product_from(w, a, b, 2);
    assert(h2 =~= seq![
        a[2] * b[0] + w * h3[3],
        a[2] * b[1] + h3[0],
        a[2] * b[2] + h3[1],
        a[2] * b[3] + h3[2],
    ]);
    let h1 = binomial::product_from(w, a, b, 1);
    assert(h1 =~= seq![
        a[1] * b[0] + w * h2[3],
        a[1] * b[1] + h2[0],
        a[1] * b[2] + h2[1],
        a[1] * b[3] + h2[2],
    ]);
    let h0 = binomial::product_from(w, a, b, 0);
    assert(h0 =~= seq![
        a[0] * b[0] + w * h1[3],
        a[0] * b[1] + h1[0],
        a[0] * b[2] + h1[1],
        a[0] * b[3] + h1[2],
    ]);
}

/// Multiplication mod `X^4 - W`.
///
/// Schoolbook 16-mul: form the unreduced degree-6 product, fold the
/// degree-4..6 wraparound terms back via Montgomery multiplies by
/// `W_MONT`. All arithmetic is base-field Montgomery.
pub fn ext4_mul<P: BinomialExt4Parameters>(a: Ext4<P>, b: Ext4<P>) -> (r: Ext4<P>)
    requires
        ext::wf(a),
        ext::wf(b),
    ensures
        ext::wf(r),
        ext::limbs(r) == binomial::times(
            ext::prime::<Ext4<P>>(),
            P::W as int,
            ext::limbs(a),
            ext::limbs(b),
        ),
{
    let ghost p = ext::prime::<Ext4<P>>();
    let ghost w = P::W as int;
    let ghost x = ext::limbs(a);
    let ghost y = ext::limbs(b);
    proof {
        lemma_field_limbs(a);
        lemma_field_limbs(b);
        P::consistent();
        <P::Base as MontyParameters>::consistent();
        monty::lemma_round_trip::<P::Base>(w);
        zmod::lemma_reduced(p, w);
    }
    let a0_b0 = monty_mul::<P::Base>(a.c0, b.c0);
    let a0_b1 = monty_mul::<P::Base>(a.c0, b.c1);
    let a0_b2 = monty_mul::<P::Base>(a.c0, b.c2);
    let a0_b3 = monty_mul::<P::Base>(a.c0, b.c3);
    let a1_b0 = monty_mul::<P::Base>(a.c1, b.c0);
    let a1_b1 = monty_mul::<P::Base>(a.c1, b.c1);
    let a1_b2 = monty_mul::<P::Base>(a.c1, b.c2);
    let a1_b3 = monty_mul::<P::Base>(a.c1, b.c3);
    let a2_b0 = monty_mul::<P::Base>(a.c2, b.c0);
    let a2_b1 = monty_mul::<P::Base>(a.c2, b.c1);
    let a2_b2 = monty_mul::<P::Base>(a.c2, b.c2);
    let a2_b3 = monty_mul::<P::Base>(a.c2, b.c3);
    let a3_b0 = monty_mul::<P::Base>(a.c3, b.c0);
    let a3_b1 = monty_mul::<P::Base>(a.c3, b.c1);
    let a3_b2 = monty_mul::<P::Base>(a.c3, b.c2);
    let a3_b3 = monty_mul::<P::Base>(a.c3, b.c3);
    // Wraparound coefficients, each multiplied by W.
    let w4 = monty_add::<P::Base>(monty_add::<P::Base>(a1_b3, a2_b2), a3_b1);
    let w5 = monty_add::<P::Base>(a2_b3, a3_b2);
    let w6 = a3_b3;
    let w4_w = monty_mul::<P::Base>(w4, P::W_MONT);
    let w5_w = monty_mul::<P::Base>(w5, P::W_MONT);
    let w6_w = monty_mul::<P::Base>(w6, P::W_MONT);
    let c0 = monty_add::<P::Base>(a0_b0, w4_w);
    let c1 = monty_add::<P::Base>(monty_add::<P::Base>(a0_b1, a1_b0), w5_w);
    let c2 = monty_add::<P::Base>(monty_add::<P::Base>(monty_add::<P::Base>(a0_b2, a1_b1), a2_b0), w6_w);
    let c3 = monty_add::<P::Base>(monty_add::<P::Base>(monty_add::<P::Base>(a0_b3, a1_b2), a2_b1), a3_b0);
    let r = Ext4 { c0, c1, c2, c3, _p: PhantomData };
    proof {
        lemma_field_limbs(r);
        lemma_product4(w, x, y);
        let e = binomial::product(w, x, y);
        {
            let t0 = x[1] * y[3];
            let t1 = x[2] * y[2];
            let t2 = x[3] * y[1];
            zmod::lemma_plus_absorbs(p, t0, t1);
            zmod::lemma_plus_absorbs(p, t0 + t1, t2);
            let t = t0 + t1 + t2;
            zmod::lemma_times_absorbs(p, t, w);
            lemma_mul_is_commutative(t, w);
            let s0 = x[0] * y[0];
            zmod::lemma_plus_absorbs(p, s0, t * w);
            assert(e[0] == s0 + t * w);
            assert(ext::limbs(r)[0] == e[0] % p);
        }
        {
            let t0 = x[2] * y[3];
            let t1 = x[3] * y[2];
            zmod::lemma_plus_absorbs(p, t0, t1);
            let t = t0 + t1;
            zmod::lemma_times_absorbs(p, t, w);
            lemma_mul_is_commutative(t, w);
            let s0 = x[0] * y[1];
            let s1 = x[1] * y[0];
            zmod::lemma_plus_absorbs(p, s0, s1);
            zmod::lemma_plus_absorbs(p, s0 + s1, t * w);
            assert(e[1] == s0 + s1 + t * w);
            assert(ext::limbs(r)[1] == e[1] % p);
        }
        {
            let t0 = x[3] * y[3];
            let t = t0;
            zmod::lemma_times_absorbs(p, t, w);
            lemma_mul_is_commutative(t, w);
            let s0 = x[0] * y[2];
            let s1 = x[1] * y[1];
            let s2 = x[2] * y[0];
            zmod::lemma_plus_absorbs(p, s0, s1);
            zmod::lemma_plus_absorbs(p, s0 + s1, s2);
            zmod::lemma_plus_absorbs(p, s0 + s1 + s2, t * w);
            assert(e[2] == s0 + s1 + s2 + t * w);
            assert(ext::limbs(r)[2] == e[2] % p);
        }
        {
            let s0 = x[0] * y[3];
            let s1 = x[1] * y[2];
            let s2 = x[2] * y[1];
            let s3 = x[3] * y[0];
            zmod::lemma_plus_absorbs(p, s0, s1);
            zmod::lemma_plus_absorbs(p, s0 + s1, s2);
            zmod::lemma_plus_absorbs(p, s0 + s1 + s2, s3);
            assert(e[3] == s0 + s1 + s2 + s3);
            assert(ext::limbs(r)[3] == e[3] % p);
        }
        assert(ext::limbs(r) =~= binomial::times(p, w, x, y));
    }
    r
}

impl<P: BinomialExt4Parameters> ExtField for Ext4<P> {
    fn add(a: Self, b: Self) -> (r: Self) {
        ext4_add::<P>(a, b)
    }

    fn sub(a: Self, b: Self) -> (r: Self) {
        ext4_sub::<P>(a, b)
    }

    fn mul(a: Self, b: Self) -> (r: Self) {
        ext4_mul::<P>(a, b)
    }

    fn neg(a: Self) -> (r: Self) {
        ext4_neg::<P>(a)
    }

    fn zero() -> (r: Self) {
        let r = Ext4 { c0: 0, c1: 0, c2: 0, c3: 0, _p: PhantomData };
        proof {
            ext::lemma_mont_zero_one::<P::Base>();
            lemma_field_limbs(r);
            assert(ext::limbs(r) =~= binomial::vzero(4));
        }
        r
    }

    fn one() -> (r: Self) {
        let r = Ext4 {
            c0: <P::Base as MontyParameters>::MONT_ONE,
            c1: 0,
            c2: 0,
            c3: 0,
            _p: PhantomData,
        };
        proof {
            ext::lemma_mont_zero_one::<P::Base>();
            lemma_field_limbs(r);
            assert(ext::limbs(r) =~= binomial::vone(4));
        }
        r
    }

    fn from_base_raw(x: u32) -> (r: Self) {
        let r = Ext4 { c0: x, c1: 0, c2: 0, c3: 0, _p: PhantomData };
        proof {
            ext::lemma_mont_zero_one::<P::Base>();
            lemma_field_limbs(r);
            assert(ext::limbs(r) =~= binomial::constant(
                4,
                monty::from_mont::<P::Base>(x as int),
            ));
        }
        r
    }

    fn load(arr: &[u32], base: u32, i: u32, n: u32) -> (r: Self) {
        let r = Ext4 {
            c0: arr[(base + i) as usize],
            c1: arr[(base + n + i) as usize],
            c2: arr[(base + 2 * n + i) as usize],
            c3: arr[(base + 3 * n + i) as usize],
            _p: PhantomData,
        };
        proof {
            let b = base as int;
            let t = i as int;
            let m = n as int;
            assert(0 * m == 0 && 1 * m == m);
            assert(r.raws()[0] == arr@[ext::slot(b, t, m, 0)]);
            assert(r.raws()[1] == arr@[ext::slot(b, t, m, 1)]);
            assert(r.raws()[2] == arr@[ext::slot(b, t, m, 2)]);
            assert(r.raws()[3] == arr@[ext::slot(b, t, m, 3)]);
            assert forall|c: int| 0 <= c < 4 implies #[trigger] r.raws()[c] == arr@[ext::slot(
                base as int,
                i as int,
                n as int,
                c,
            )] by {
                assert(c == 0 || c == 1 || c == 2 || c == 3);
            }
        }
        r
    }

    fn store(arr: &mut [u32], base: u32, i: u32, n: u32, v: Self) {
        let ghost orig = arr@;
        arr[(base + i) as usize] = v.c0;
        arr[(base + n + i) as usize] = v.c1;
        arr[(base + 2 * n + i) as usize] = v.c2;
        arr[(base + 3 * n + i) as usize] = v.c3;
        proof {
            let target = ext::stored(orig, base as int, i as int, n as int, v.raws());
            assert forall|k: int| 0 <= k < orig.len() implies arr@[k] == target[k] by {
                let b = base as int;
                let m = n as int;
                let t = i as int;
                po2::lemma_split(0, m, t);
                po2::lemma_split(1, m, t);
                po2::lemma_split(2, m, t);
                po2::lemma_split(3, m, t);
                if k >= b {
                    po2::lemma_join(k - b, m);
                    let q = (k - b) / m;
                    if (k - b) % m == t && q < 4 {
                        assert(q == 0 || q == 1 || q == 2 || q == 3);
                        assert(v.raws()[0] == v.c0);
                        assert(v.raws()[1] == v.c1);
                        assert(v.raws()[2] == v.c2);
                        assert(v.raws()[3] == v.c3);
                    }
                }
            }
            assert(arr@ =~= target);
        }
    }
}

/// An element has four limbs.
pub proof fn law_degree<P: BinomialExt4Parameters>()
    ensures
        Ext4::<P>::DEGREE == 4,
{
}

/// `W` is no square of an element of the base field. That the `p - 1`-th
/// power of a nonzero element is one is Fermat's theorem.
pub proof fn law_w_is_no_square<P: BinomialExt4Parameters>(a: int)
    requires
        zmod::power(
            <P::Base as MontyParameters>::PRIME as int,
            a,
            (<P::Base as MontyParameters>::PRIME - 1) as nat,
        ) == 1,
    ensures
        zmod::power(<P::Base as MontyParameters>::PRIME as int, a, 2) != P::W,
{
    let p = <P::Base as MontyParameters>::PRIME as int;
    P::consistent();
    <P::Base as MontyParameters>::consistent();
    let e = ((p - 1) / 2) as nat;
    assert(2 * e == (p - 1) as nat);
    zmod::lemma_power_multiplies(p, a, 2, e);
}

/// The limbs of an element are its fields, in order, and the extension is by
/// the root of `X^4 - W` over the base field.
pub proof fn law_limbs_are_fields<P: BinomialExt4Parameters>(e: Ext4<P>)
    ensures
        e.raws().len() == 4,
        ext::limbs(e).len() == 4,
        e.raws()[0] == e.c0,
        ext::limbs(e)[0] == monty::from_mont::<P::Base>(e.c0 as int),
        e.raws()[1] == e.c1,
        ext::limbs(e)[1] == monty::from_mont::<P::Base>(e.c1 as int),
        e.raws()[2] == e.c2,
        ext::limbs(e)[2] == monty::from_mont::<P::Base>(e.c2 as int),
        e.raws()[3] == e.c3,
        ext::limbs(e)[3] == monty::from_mont::<P::Base>(e.c3 as int),
        ext::prime::<Ext4<P>>() == <P::Base as MontyParameters>::PRIME,
        ext::ring::<Ext4<P>>().m == <P::Base as MontyParameters>::PRIME,
        ext::ring::<Ext4<P>>().w == P::W,
        ext::ring::<Ext4<P>>().d == 4,
{
}

} // verus!
