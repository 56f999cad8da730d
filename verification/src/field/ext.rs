//! Field-shape abstraction layer.
//!
//! Some kernels (polynomial division, evaluation, folding) care about the
//! polynomial structure but not whether the coefficients are in the base
//! field or in an extension. [`ExtField`] is the abstraction those kernels
//! are generic over: degree, arithmetic, and load/store helpers honoring
//! the transposed memory layout (component `c` of element `i` lives at
//! offset `c * N + i` in a buffer of `N` logical elements).
//!
//! [`BaseElem<P>`] implements `ExtField` with `DEGREE = 1`, letting a single
//! generic kernel cover both base-field and extension-field polynomials.

use core::marker::PhantomData;

use vstd::arithmetic::mul::*;
use vstd::prelude::*;

use super::binomial;
use super::monty;
use super::ring::Ring;
use super::monty::{monty_add, monty_mul, monty_neg, monty_sub, MontyParameters};
use crate::po2;
use crate::zmod;

verus! {

/// What an element of a base or extension field is made of.
///
/// An element is [`DEGREE`](Self::DEGREE) raw Montgomery limbs. What it
/// stands for is the sequence of their canonical values ([`limbs`]), an
/// element of `F_p[X] / (X^DEGREE - W)`.
pub trait ExtShape: Copy + Clone + Sized + Send + Sync + 'static {
    /// Base prime field. Lets callers constrain `F: ExtField<Base = P>` to
    /// bind an extension type to a specific base.
    type Base: MontyParameters;

    /// Number of base-field limbs per element.
    const DEGREE: u32;

    /// The raw limbs, lowest first.
    spec fn raws(self) -> Seq<u32>;

    /// The element with the given raw limbs.
    spec fn of_raws(raws: Seq<u32>) -> Self;

    /// The `W` of the extension. Of no matter for degree 1.
    spec fn non_residue() -> int;

    /// An element has `DEGREE` limbs, is determined by them, and there is
    /// one for any limbs.
    proof fn shape(a: Self, b: Self, raws: Seq<u32>)
        ensures
            1 <= Self::DEGREE <= 5,
            a.raws().len() == Self::DEGREE,
            a.raws() == b.raws() ==> a == b,
            raws.len() == Self::DEGREE ==> Self::of_raws(raws).raws() == raws,
    ;
}

/// Common shape for code that is generic over a base or extension field.
///
/// Implemented by [`BaseElem`] (degree 1), [`Ext4`](super::ext4::Ext4)
/// (degree 4), and [`Ext5`](super::ext5::Ext5) (degree 5).
pub trait ExtField: ExtShape {
    /// Field addition.
    fn add(a: Self, b: Self) -> (r: Self)
        requires
            wf(a),
            wf(b),
        ensures
            wf(r),
            limbs(r) == binomial::plus(prime::<Self>(), limbs(a), limbs(b)),
    ;

    /// Field subtraction.
    fn sub(a: Self, b: Self) -> (r: Self)
        requires
            wf(a),
            wf(b),
        ensures
            wf(r),
            limbs(r) == binomial::minus(prime::<Self>(), limbs(a), limbs(b)),
    ;

    /// Field multiplication.
    fn mul(a: Self, b: Self) -> (r: Self)
        requires
            wf(a),
            wf(b),
        ensures
            wf(r),
            limbs(r) == binomial::times(
                prime::<Self>(),
                Self::non_residue(),
                limbs(a),
                limbs(b),
            ),
    ;

    /// Field negation.
    fn neg(a: Self) -> (r: Self)
        requires
            wf(a),
        ensures
            wf(r),
            limbs(r) == binomial::negate(prime::<Self>(), limbs(a)),
    ;

    /// Additive identity.
    fn zero() -> (r: Self)
        ensures
            wf(r),
            limbs(r) == binomial::vzero(Self::DEGREE as nat),
    ;

    /// Multiplicative identity.
    fn one() -> (r: Self)
        ensures
            wf(r),
            limbs(r) == binomial::vone(Self::DEGREE as nat),
    ;

    /// Promote a base-field value (in Montgomery form) to a field element.
    /// For extensions, fills the higher components with zero.
    fn from_base_raw(x: u32) -> (r: Self)
        requires
            x < <Self::Base as MontyParameters>::PRIME,
        ensures
            wf(r),
            limbs(r) == binomial::constant(
                Self::DEGREE as nat,
                monty::from_mont::<Self::Base>(x as int),
            ),
    ;

    /// Read element `i` from a transposed-layout buffer of `n` logical
    /// elements starting at `u32` offset `base`. Reads `DEGREE` words at
    /// stride `n`.
    fn load(arr: &[u32], base: u32, i: u32, n: u32) -> (r: Self)
        requires
            i < n,
            base + Self::DEGREE * n <= u32::MAX,
            base + Self::DEGREE * n <= arr@.len(),
        ensures
            forall|c: int|
                0 <= c < Self::DEGREE ==> #[trigger] r.raws()[c] == arr@[slot(
                    base as int,
                    i as int,
                    n as int,
                    c,
                )],
    ;

    /// Write element `i` into a transposed-layout buffer; inverse of
    /// [`load`](Self::load).
    fn store(arr: &mut [u32], base: u32, i: u32, n: u32, v: Self)
        requires
            i < n,
            base + Self::DEGREE * n <= u32::MAX,
            base + Self::DEGREE * n <= old(arr)@.len(),
        ensures
            final(arr)@ == stored(old(arr)@, base as int, i as int, n as int, v.raws()),
    ;
}

/// The modulus of the base field.
pub open spec fn prime<F: ExtShape>() -> int {
    <F::Base as MontyParameters>::PRIME as int
}

/// Every limb is reduced.
pub open spec fn wf<F: ExtShape>(a: F) -> bool {
    forall|i: int|
        0 <= i < F::DEGREE ==> #[trigger] a.raws()[i] < <F::Base as MontyParameters>::PRIME
}

/// The canonical values of the limbs.
pub open spec fn limbs<F: ExtShape>(a: F) -> Seq<int> {
    Seq::new(F::DEGREE as nat, |i: int| monty::from_mont::<F::Base>(a.raws()[i] as int))
}

/// Where limb `c` of element `i` stands in a transposed buffer of `n`
/// elements at `base`.
pub open spec fn slot(base: int, i: int, n: int, c: int) -> int {
    base + c * n + i
}

/// `arr` with the limbs `raws` written to element `i`.
pub open spec fn stored(arr: Seq<u32>, base: int, i: int, n: int, raws: Seq<u32>) -> Seq<u32> {
    Seq::new(
        arr.len(),
        |k: int|
            if k >= base && (k - base) % n == i && (k - base) / n < raws.len() {
                raws[(k - base) / n]
            } else {
                arr[k]
            },
    )
}

/// Limbs are reduced values, and reduced elements with the same limbs are
/// equal.
pub proof fn lemma_limbs<F: ExtShape>(a: F, b: F)
    ensures
        binomial::is_elem(prime::<F>(), F::DEGREE as nat, limbs(a)),
        F::DEGREE >= 1,
        prime::<F>() > 2,
        wf(a) && wf(b) && limbs(a) == limbs(b) ==> a == b,
{
    F::shape(a, b, a.raws());
    F::shape(b, a, a.raws());
    <F::Base as MontyParameters>::consistent();
    assert forall|i: int| 0 <= i < F::DEGREE implies zmod::reduced(
        prime::<F>(),
        #[trigger] limbs(a)[i],
    ) by {
        monty::lemma_round_trip::<F::Base>(a.raws()[i] as int);
    }
    if wf(a) && wf(b) && limbs(a) == limbs(b) {
        assert forall|i: int| 0 <= i < F::DEGREE implies a.raws()[i] == b.raws()[i] by {
            assert(limbs(a)[i] == limbs(b)[i]);
            monty::lemma_from_mont_injective::<F::Base>(
                a.raws()[i] as int,
                b.raws()[i] as int,
            );
        }
        assert(a.raws() =~= b.raws());
    }
}

/// The element with the given limb values.
pub open spec fn of_limbs<F: ExtShape>(v: Seq<int>) -> F {
    F::of_raws(Seq::new(F::DEGREE as nat, |i: int| monty::to_mont::<F::Base>(v[i]) as u32))
}

/// Elements and their limb values are in bijection.
pub proof fn lemma_of_limbs<F: ExtShape>(a: F, v: Seq<int>)
    ensures
        wf(a) ==> of_limbs::<F>(limbs(a)) == a,
        binomial::is_elem(prime::<F>(), F::DEGREE as nat, v) ==> wf(of_limbs::<F>(v)) && limbs(
            of_limbs::<F>(v),
        ) == v,
{
    <F::Base as MontyParameters>::consistent();
    let p = prime::<F>();
    if wf(a) {
        let raws = Seq::new(
            F::DEGREE as nat,
            |i: int| monty::to_mont::<F::Base>(limbs(a)[i]) as u32,
        );
        F::shape(a, of_limbs::<F>(limbs(a)), raws);
        F::shape(of_limbs::<F>(limbs(a)), a, raws);
        assert forall|i: int| 0 <= i < F::DEGREE implies raws[i] == a.raws()[i] by {
            monty::lemma_round_trip::<F::Base>(a.raws()[i] as int);
            zmod::lemma_reduced(p, a.raws()[i] as int);
        }
        assert(raws =~= a.raws());
    }
    if binomial::is_elem(p, F::DEGREE as nat, v) {
        let raws = Seq::new(
            F::DEGREE as nat,
            |i: int| monty::to_mont::<F::Base>(v[i]) as u32,
        );
        let e = of_limbs::<F>(v);
        F::shape(e, a, raws);
        assert forall|i: int| 0 <= i < F::DEGREE implies e.raws()[i] < <F::Base as
            MontyParameters>::PRIME && limbs(e)[i] == v[i] by {
            monty::lemma_round_trip::<F::Base>(v[i]);
            assert(zmod::reduced(p, v[i]));
            zmod::lemma_reduced(p, v[i]);
        }
        assert(limbs(e) =~= v);
    }
}

/// What [`stored`] holds.
pub proof fn lemma_stored(
    arr: Seq<u32>,
    base: int,
    i: int,
    n: int,
    raws: Seq<u32>,
)
    requires
        0 <= base,
        0 <= i < n,
        base + raws.len() * n <= arr.len(),
    ensures
        stored(arr, base, i, n, raws).len() == arr.len(),
        forall|c: int|
            0 <= c < raws.len() ==> {
                &&& base <= #[trigger] slot(base, i, n, c) < base + raws.len() * n
                &&& stored(arr, base, i, n, raws)[slot(base, i, n, c)] == raws[c]
            },
        forall|j: int, c: int|
            0 <= j < n && j != i && 0 <= c < raws.len() ==> stored(
                arr,
                base,
                i,
                n,
                raws,
            )[#[trigger] slot(base, j, n, c)] == arr[slot(base, j, n, c)],
        forall|k: int|
            0 <= k < arr.len() && !(base <= k < base + raws.len() * n) ==> #[trigger] stored(
                arr,
                base,
                i,
                n,
                raws,
            )[k] == arr[k],
{
    let d = raws.len() as int;
    assert forall|c: int| 0 <= c < d implies {
        &&& base <= #[trigger] slot(base, i, n, c) < base + d * n
        &&& stored(arr, base, i, n, raws)[slot(base, i, n, c)] == raws[c]
    } by {
        po2::lemma_within(c, d, n, i);
        po2::lemma_split(c, n, i);
    }
    assert forall|j: int, c: int| 0 <= j < n && j != i && 0 <= c < d implies stored(
        arr,
        base,
        i,
        n,
        raws,
    )[#[trigger] slot(base, j, n, c)] == arr[slot(base, j, n, c)] by {
        po2::lemma_within(c, d, n, j);
        po2::lemma_split(c, n, j);
    }
    assert forall|k: int| 0 <= k < arr.len() && !(base <= k < base + d * n) implies #[trigger]
        stored(arr, base, i, n, raws)[k] == arr[k] by {
        if k >= base && (k - base) / n < d {
            po2::lemma_join(k - base, n);
            po2::lemma_within((k - base) / n, d, n, (k - base) % n);
        }
    }
}

/// The ring that the elements of `F` stand for.
pub open spec fn ring<F: ExtShape>() -> Ring {
    Ring { m: prime::<F>(), w: F::non_residue(), d: F::DEGREE as nat }
}

/// Element `i` of a transposed buffer of `n` elements at `base`.
pub open spec fn elem_at<F: ExtShape>(arr: Seq<u32>, base: int, i: int, n: int) -> F {
    F::of_raws(Seq::new(F::DEGREE as nat, |c: int| arr[slot(base, i, n, c)]))
}

/// Where the slice of polynomial `batch` starts.
pub open spec fn row_base<F: ExtShape>(batch: int, n: int) -> int {
    batch * (n * F::DEGREE)
}

/// The coefficients of polynomial `batch`, lowest degree first.
pub open spec fn poly_at<F: ExtShape>(arr: Seq<u32>, batch: int, n: int) -> Seq<Seq<int>> {
    Seq::new(
        n as nat,
        |i: int| limbs(elem_at::<F>(arr, row_base::<F>(batch, n), i, n)),
    )
}

/// Words of `batch_count` polynomials of length `n`.
pub open spec fn words<F: ExtShape>(n: int, batch_count: int) -> int {
    batch_count * (n * F::DEGREE)
}

/// A limb of an element of a polynomial lies in the polynomial's slice.
pub proof fn lemma_slot<F: ExtShape>(batch: int, i: int, n: int, batch_count: int, c: int)
    requires
        0 <= batch < batch_count,
        0 <= i < n,
        0 <= c < F::DEGREE,
    ensures
        0 <= row_base::<F>(batch, n),
        row_base::<F>(batch, n) <= slot(row_base::<F>(batch, n), i, n, c)
            < row_base::<F>(batch, n) + F::DEGREE * n <= words::<F>(n, batch_count),
{
    let d = F::DEGREE as int;
    lemma_mul_is_commutative(n, d);
    po2::lemma_within(c, d, n, i);
    po2::lemma_within(batch, batch_count, n * d, 0);
}

/// A load gives back what a store wrote, and the other elements of the
/// buffer keep their values.
pub proof fn law_load_gives_back_store<F: ExtShape>(
    arr: Seq<u32>,
    base: int,
    i: int,
    j: int,
    n: int,
    v: F,
)
    requires
        0 <= base,
        0 <= i < n,
        0 <= j < n,
        base + F::DEGREE * n <= arr.len(),
    ensures
        elem_at::<F>(stored(arr, base, i, n, v.raws()), base, i, n) == v,
        j != i ==> elem_at::<F>(stored(arr, base, i, n, v.raws()), base, j, n) == elem_at::<F>(
            arr,
            base,
            j,
            n,
        ),
{
    F::shape(v, v, v.raws());
    let after = stored(arr, base, i, n, v.raws());
    lemma_stored(arr, base, i, n, v.raws());
    assert forall|c: int| 0 <= c < F::DEGREE implies #[trigger] v.raws()[c] == after[slot(
        base,
        i,
        n,
        c,
    )] by {
        assert(base <= slot(base, i, n, c));
    }
    lemma_is_elem(v, after, base, i, n);
    if j != i {
        let other = elem_at::<F>(arr, base, j, n);
        lemma_elem::<F>(arr, base, j, n);
        assert forall|c: int| 0 <= c < F::DEGREE implies #[trigger] other.raws()[c]
            == after[slot(base, j, n, c)] by {}
        lemma_is_elem(other, after, base, j, n);
    }
}

/// What an element of a buffer is made of.
pub proof fn lemma_elem<F: ExtShape>(arr: Seq<u32>, base: int, i: int, n: int)
    ensures
        forall|c: int|
            0 <= c < F::DEGREE ==> #[trigger] elem_at::<F>(arr, base, i, n).raws()[c]
                == arr[slot(base, i, n, c)],
{
    let raws = Seq::new(F::DEGREE as nat, |c: int| arr[slot(base, i, n, c)]);
    let e = F::of_raws(raws);
    F::shape(e, e, raws);
}

/// An element with the raw limbs of a buffer's element is that element.
pub proof fn lemma_is_elem<F: ExtShape>(e: F, arr: Seq<u32>, base: int, i: int, n: int)
    requires
        forall|c: int|
            0 <= c < F::DEGREE ==> #[trigger] e.raws()[c] == arr[slot(base, i, n, c)],
    ensures
        e == elem_at::<F>(arr, base, i, n),
{
    let other = elem_at::<F>(arr, base, i, n);
    lemma_elem::<F>(arr, base, i, n);
    F::shape(e, other, e.raws());
    F::shape(other, e, e.raws());
    assert(e.raws() =~= other.raws());
}

// ---------------------------------------------------------------------------
// BaseElem<P>: the degree-1 ExtField wrapping the base field.
// ---------------------------------------------------------------------------

/// A base-field element tagged by its parameters, used for generic dispatch
/// over the base field.
#[derive(Debug, Eq, Hash, PartialEq, Default)]
pub struct BaseElem<P: MontyParameters> {
    /// Raw Montgomery-form value.
    pub raw: u32,
    pub _p: PhantomData<P>,
}

impl<P: MontyParameters> Copy for BaseElem<P> {

}

impl<P: MontyParameters> Clone for BaseElem<P> {
    fn clone(&self) -> (r: Self)
        ensures
            r == *self,
    {
        *self
    }
}

impl<P: MontyParameters> BaseElem<P> {
    /// Wrap an already-Montgomery-form `u32` directly.
    pub fn from_raw(raw: u32) -> (r: Self)
        ensures
            r.raw == raw,
    {
        BaseElem { raw, _p: PhantomData }
    }
}

/// Constructor for [`BaseElem<P>`] from a raw Montgomery-form `u32`.
pub fn base_elem_from_raw<P: MontyParameters>(raw: u32) -> (r: BaseElem<P>)
    ensures
        r.raw == raw,
{
    BaseElem { raw, _p: PhantomData }
}

/// The product of two one-limb elements.
pub proof fn lemma_product1(w: int, a: Seq<int>, b: Seq<int>)
    requires
        a.len() == 1,
        b.len() == 1,
    ensures
        binomial::product(w, a, b) == seq![a[0] * b[0]],
{
    assert(w * 0 == 0) by (nonlinear_arith);
    assert(binomial::product_from(w, a, b, 1) =~= seq![0int]);
    assert(binomial::product(w, a, b) =~= seq![a[0] * b[0]]);
}

impl<P: MontyParameters> ExtShape for BaseElem<P> {
    type Base = P;

    const DEGREE: u32 = 1;

    open spec fn raws(self) -> Seq<u32> {
        seq![self.raw]
    }

    open spec fn of_raws(raws: Seq<u32>) -> Self {
        BaseElem { raw: raws[0], _p: PhantomData }
    }

    open spec fn non_residue() -> int {
        0
    }

    proof fn shape(a: Self, b: Self, raws: Seq<u32>) {
        assert(a.raws()[0] == a.raw);
        assert(b.raws()[0] == b.raw);
        if raws.len() == 1 {
            assert(Self::of_raws(raws).raws() =~= raws);
        }
    }
}

/// A base-field element has one limb.
pub proof fn law_base_degree<P: MontyParameters>()
    ensures
        BaseElem::<P>::DEGREE == 1,
{
}

impl<P: MontyParameters> ExtField for BaseElem<P> {
    fn add(a: Self, b: Self) -> (r: Self) {
        proof {
            assert(a.raws()[0] < P::PRIME && b.raws()[0] < P::PRIME);
        }
        let r = BaseElem { raw: monty_add::<P>(a.raw, b.raw), _p: PhantomData };
        proof {
            assert(limbs(r) =~= binomial::plus(prime::<Self>(), limbs(a), limbs(b)));
        }
        r
    }

    fn sub(a: Self, b: Self) -> (r: Self) {
        proof {
            assert(a.raws()[0] < P::PRIME && b.raws()[0] < P::PRIME);
        }
        let r = BaseElem { raw: monty_sub::<P>(a.raw, b.raw), _p: PhantomData };
        proof {
            assert(limbs(r) =~= binomial::minus(prime::<Self>(), limbs(a), limbs(b)));
        }
        r
    }

    fn mul(a: Self, b: Self) -> (r: Self) {
        proof {
            assert(a.raws()[0] < P::PRIME && b.raws()[0] < P::PRIME);
        }
        let r = BaseElem { raw: monty_mul::<P>(a.raw, b.raw), _p: PhantomData };
        proof {
            lemma_product1(0, limbs(a), limbs(b));
            assert(limbs(r) =~= binomial::times(prime::<Self>(), 0, limbs(a), limbs(b)));
        }
        r
    }

    fn neg(a: Self) -> (r: Self) {
        proof {
            assert(a.raws()[0] < P::PRIME);
        }
        let r = BaseElem { raw: monty_neg::<P>(a.raw), _p: PhantomData };
        proof {
            assert(limbs(r) =~= binomial::negate(prime::<Self>(), limbs(a)));
        }
        r
    }

    fn zero() -> (r: Self) {
        let r = BaseElem { raw: 0, _p: PhantomData };
        proof {
            P::consistent();
            lemma_mont_zero_one::<P>();
            assert(limbs(r) =~= binomial::vzero(1));
        }
        r
    }

    fn one() -> (r: Self) {
        let r = BaseElem { raw: P::MONT_ONE, _p: PhantomData };
        proof {
            lemma_mont_zero_one::<P>();
            assert(limbs(r) =~= binomial::vone(1));
        }
        r
    }

    fn from_base_raw(x: u32) -> (r: Self) {
        let r = BaseElem { raw: x, _p: PhantomData };
        proof {
            assert(limbs(r) =~= binomial::constant(1, monty::from_mont::<P>(x as int)));
        }
        r
    }

    fn load(arr: &[u32], base: u32, i: u32, n: u32) -> (r: Self) {
        proof {
            assert(0 * n == 0) by (nonlinear_arith);
        }
        BaseElem { raw: arr[(base + i) as usize], _p: PhantomData }
    }

    fn store(arr: &mut [u32], base: u32, i: u32, n: u32, v: Self) {
        let ghost orig = arr@;
        arr[(base + i) as usize] = v.raw;
        proof {
            assert forall|k: int| 0 <= k < orig.len() implies arr@[k] == stored(
                orig,
                base as int,
                i as int,
                n as int,
                v.raws(),
            )[k] by {
                if k == base + i {
                    po2::lemma_split(0, n as int, i as int);
                } else if k >= base {
                    po2::lemma_join(k - base, n as int);
                }
            }
            assert(arr@ =~= stored(orig, base as int, i as int, n as int, v.raws()));
        }
    }
}

/// The Montgomery forms of zero and one.
pub proof fn lemma_mont_zero_one<P: MontyParameters>()
    ensures
        monty::from_mont::<P>(0) == 0,
        monty::from_mont::<P>(P::MONT_ONE as int) == 1,
        P::MONT_ONE < P::PRIME,
        0 < P::PRIME,
{
    P::consistent();
    let p = P::PRIME as int;
    monty::lemma_round_trip::<P>(1);
    zmod::lemma_reduced(p, 1);
    zmod::lemma_reduced(p, 0);
    vstd::arithmetic::mul::lemma_mul_basics(monty::radix_inv::<P>());
    assert(monty::to_mont::<P>(1) == P::MONT_ONE);
}

/// Where elements stand: limb `c` of element `i` of polynomial `b` is the
/// word at `b * n * D + c * n + i`.
pub proof fn law_transposed_layout<F: ExtShape>(
    arr: Seq<u32>,
    b: int,
    n: int,
    batch_count: int,
    i: int,
    c: int,
)
    requires
        0 <= i < n,
        0 <= c < F::DEGREE,
    ensures
        words::<F>(n, batch_count) == batch_count * n * F::DEGREE,
        poly_at::<F>(arr, b, n).len() == n,
        poly_at::<F>(arr, b, n)[i].len() == F::DEGREE,
        poly_at::<F>(arr, b, n)[i][c] == monty::from_mont::<F::Base>(
            arr[b * n * F::DEGREE + c * n + i] as int,
        ),
        elem_at::<F>(arr, row_base::<F>(b, n), i, n).raws()[c] == arr[b * n * F::DEGREE + c * n
            + i],
{
    lemma_mul_is_associative(batch_count, n, F::DEGREE as int);
    lemma_mul_is_associative(b, n, F::DEGREE as int);
    lemma_elem::<F>(arr, row_base::<F>(b, n), i, n);
    assert(slot(row_base::<F>(b, n), i, n, c) == b * n * F::DEGREE + c * n + i);
}

/// What a store at element `i` of the `n` that start at `base` writes: limb
/// `c` at `base + c * n + i`, and nothing else. A load reads it there.
pub proof fn law_store_writes_limbs<F: ExtShape>(
    arr: Seq<u32>,
    base: int,
    i: int,
    n: int,
    v: F,
    k: int,
)
    requires
        0 <= base,
        0 <= i < n,
        base + F::DEGREE * n <= arr.len(),
        0 <= k < arr.len(),
    ensures
        stored(arr, base, i, n, v.raws()).len() == arr.len(),
        forall|c: int|
            0 <= c < F::DEGREE ==> stored(arr, base, i, n, v.raws())[base + c * n + i]
                == #[trigger] v.raws()[c],
        (forall|c: int| 0 <= c < F::DEGREE ==> k != base + #[trigger] (c * n) + i) ==> stored(
            arr,
            base,
            i,
            n,
            v.raws(),
        )[k] == arr[k],
        forall|c: int| #[trigger] slot(base, i, n, c) == base + c * n + i,
{
    F::shape(v, v, v.raws());
    let d = F::DEGREE as int;
    assert forall|c: int| 0 <= c < d implies stored(arr, base, i, n, v.raws())[base + c * n + i]
        == #[trigger] v.raws()[c] by {
        po2::lemma_within(c, d, n, i);
        po2::lemma_split(c, n, i);
    }
    if k >= base && (k - base) % n == i && (k - base) / n < d {
        let c = (k - base) / n;
        po2::lemma_join(k - base, n);
        assert(k == base + (c * n) + i);
    }
}

/// The one limb of a base-field element is its word.
pub proof fn law_limb_is_word<P: MontyParameters>(e: BaseElem<P>)
    ensures
        e.raws() == seq![e.raw],
        limbs(e) == seq![monty::from_mont::<P>(e.raw as int)],
        prime::<BaseElem<P>>() == P::PRIME,
        ring::<BaseElem<P>>().m == P::PRIME,
        ring::<BaseElem<P>>().d == 1,
{
    assert(limbs(e) =~= seq![monty::from_mont::<P>(e.raw as int)]);
}

/// An element is reduced when each of its words is below the prime.
pub proof fn law_reduced_elements<F: ExtShape>(e: F)
    ensures
        wf(e) <==> forall|c: int|
            0 <= c < F::DEGREE ==> #[trigger] e.raws()[c] < <F::Base as MontyParameters>::PRIME,
{
}

} // verus!
