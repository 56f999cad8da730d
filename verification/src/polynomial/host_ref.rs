//! Serial reference for division by `(x - z)`.
//!
//! Horner-form synthetic division of one polynomial at a time. The output
//! convention matches
//! [`PolyDivExec::div_by_x_minus_z`](super::poly_div::PolyDivExec::div_by_x_minus_z):
//! quotient at positions `0..n-1`, remainder at `n - 1`.

use vstd::prelude::*;

use super::div_by_x_minus_z;
use super::horner;
use crate::field::baby_bear::{BabyBear4, BabyBear5, BabyBearParameters};
use crate::field::binomial;
use crate::field::ext;
use crate::field::ext::{BaseElem, ExtField, ExtShape};
use crate::field::koala_bear::{KoalaBear4, KoalaBearParameters};
use crate::field::monty;
use crate::field::monty::{MontyField, MontyParameters};
use crate::field::ring;
use crate::field::ring::Ring;

verus! {

/// Minimal field surface the reference needs.
pub trait HostField: Copy {
    /// The ring that elements stand for elements of.
    spec fn ring() -> Ring;

    /// The element is in reduced form.
    spec fn is_reduced(self) -> bool;

    /// What the element stands for.
    spec fn value(self) -> Seq<int>;

    /// Elements stand for elements of the ring.
    proof fn in_ring(a: Self)
        ensures
            Self::ring().wf(),
            a.is_reduced() ==> Self::ring().has(a.value()),
    ;

    /// Elements in reduced form that stand for the same are the same.
    proof fn value_determines(a: Self, b: Self)
        requires
            a.is_reduced(),
            b.is_reduced(),
            a.value() == b.value(),
        ensures
            a == b,
    ;

    /// Zero.
    fn zero() -> (r: Self)
        ensures
            r.is_reduced(),
            r.value() == Self::ring().zero(),
    ;

    /// Sum.
    fn add(a: Self, b: Self) -> (r: Self)
        requires
            a.is_reduced(),
            b.is_reduced(),
        ensures
            r.is_reduced(),
            r.value() == Self::ring().sum(a.value(), b.value()),
    ;

    /// Product.
    fn mul(a: Self, b: Self) -> (r: Self)
        requires
            a.is_reduced(),
            b.is_reduced(),
        ensures
            r.is_reduced(),
            r.value() == Self::ring().product(a.value(), b.value()),
    ;
}

impl HostField for MontyField<BabyBearParameters> {
    open spec fn ring() -> Ring {
        Ring { m: BabyBearParameters::PRIME as int, w: 0, d: 1 }
    }

    open spec fn is_reduced(self) -> bool {
        self.wf()
    }

    open spec fn value(self) -> Seq<int> {
        seq![self.val()]
    }

    proof fn in_ring(a: Self) {
        BabyBearParameters::consistent();
        if a.wf() {
            Self::lemma_of_val(a, a.val());
        }
    }

    proof fn value_determines(a: Self, b: Self) {
        assert(a.value()[0] == a.val() && b.value()[0] == b.val());
        Self::lemma_of_val(a, a.val());
        Self::lemma_of_val(b, b.val());
    }

    fn zero() -> (r: Self) {
        let r = MontyField::<BabyBearParameters>::zero();
        assert(r.value() =~= Self::ring().zero());
        r
    }

    fn add(a: Self, b: Self) -> (r: Self) {
        let r = a + b;
        assert(r.value() =~= Self::ring().sum(a.value(), b.value()));
        r
    }

    fn mul(a: Self, b: Self) -> (r: Self) {
        let r = a * b;
        proof {
            ext::lemma_product1(0, a.value(), b.value());
            assert(r.value() =~= Self::ring().product(a.value(), b.value()));
        }
        r
    }
}

impl HostField for MontyField<KoalaBearParameters> {
    open spec fn ring() -> Ring {
        Ring { m: KoalaBearParameters::PRIME as int, w: 0, d: 1 }
    }

    open spec fn is_reduced(self) -> bool {
        self.wf()
    }

    open spec fn value(self) -> Seq<int> {
        seq![self.val()]
    }

    proof fn in_ring(a: Self) {
        KoalaBearParameters::consistent();
        if a.wf() {
            Self::lemma_of_val(a, a.val());
        }
    }

    proof fn value_determines(a: Self, b: Self) {
        assert(a.value()[0] == a.val() && b.value()[0] == b.val());
        Self::lemma_of_val(a, a.val());
        Self::lemma_of_val(b, b.val());
    }

    fn zero() -> (r: Self) {
        let r = MontyField::<KoalaBearParameters>::zero();
        assert(r.value() =~= Self::ring().zero());
        r
    }

    fn add(a: Self, b: Self) -> (r: Self) {
        let r = a + b;
        assert(r.value() =~= Self::ring().sum(a.value(), b.value()));
        r
    }

    fn mul(a: Self, b: Self) -> (r: Self) {
        let r = a * b;
        proof {
            ext::lemma_product1(0, a.value(), b.value());
            assert(r.value() =~= Self::ring().product(a.value(), b.value()));
        }
        r
    }
}

impl HostField for BabyBear4 {
    open spec fn ring() -> Ring {
        ext::ring::<BabyBear4>()
    }

    open spec fn is_reduced(self) -> bool {
        ext::wf(self)
    }

    open spec fn value(self) -> Seq<int> {
        ext::limbs(self)
    }

    proof fn in_ring(a: Self) {
        ext::lemma_limbs(a, a);
    }

    proof fn value_determines(a: Self, b: Self) {
        ext::lemma_limbs(a, b);
    }

    fn zero() -> (r: Self) {
        <BabyBear4 as ExtField>::zero()
    }

    fn add(a: Self, b: Self) -> (r: Self) {
        a + b
    }

    fn mul(a: Self, b: Self) -> (r: Self) {
        a * b
    }
}

impl HostField for KoalaBear4 {
    open spec fn ring() -> Ring {
        ext::ring::<KoalaBear4>()
    }

    open spec fn is_reduced(self) -> bool {
        ext::wf(self)
    }

    open spec fn value(self) -> Seq<int> {
        ext::limbs(self)
    }

    proof fn in_ring(a: Self) {
        ext::lemma_limbs(a, a);
    }

    proof fn value_determines(a: Self, b: Self) {
        ext::lemma_limbs(a, b);
    }

    fn zero() -> (r: Self) {
        <KoalaBear4 as ExtField>::zero()
    }

    fn add(a: Self, b: Self) -> (r: Self) {
        a + b
    }

    fn mul(a: Self, b: Self) -> (r: Self) {
        a * b
    }
}

impl HostField for BabyBear5 {
    open spec fn ring() -> Ring {
        ext::ring::<BabyBear5>()
    }

    open spec fn is_reduced(self) -> bool {
        ext::wf(self)
    }

    open spec fn value(self) -> Seq<int> {
        ext::limbs(self)
    }

    proof fn in_ring(a: Self) {
        ext::lemma_limbs(a, a);
    }

    proof fn value_determines(a: Self, b: Self) {
        ext::lemma_limbs(a, b);
    }

    fn zero() -> (r: Self) {
        <BabyBear5 as ExtField>::zero()
    }

    fn add(a: Self, b: Self) -> (r: Self) {
        a + b
    }

    fn mul(a: Self, b: Self) -> (r: Self) {
        a * b
    }
}

/// What the elements stand for.
pub open spec fn values<F: HostField>(coeffs: Seq<F>) -> Seq<Seq<int>> {
    Seq::new(coeffs.len(), |i: int| coeffs[i].value())
}

/// In-place serial division by `(x - z)` for one polynomial, lowest degree
/// first: the quotient at `0..n-1` and the remainder `p(z)` at `n - 1`.
pub fn div_by_x_minus_z_serial<F: HostField>(coeffs: &mut [F], z: F)
    requires
        forall|i: int| 0 <= i < old(coeffs)@.len() ==> (#[trigger] old(coeffs)@[i]).is_reduced(),
        z.is_reduced(),
    ensures
        final(coeffs)@.len() == old(coeffs)@.len(),
        forall|i: int|
            0 <= i < final(coeffs)@.len() ==> (#[trigger] final(coeffs)@[i]).is_reduced(),
        values(final(coeffs)@) == F::ring().divided(values(old(coeffs)@), z.value()),
        old(coeffs)@.len() <= 1 ==> final(coeffs)@ == old(coeffs)@,
{
    let n = coeffs.len();
    let ghost before = coeffs@;
    let ghost p = values(before);
    let ghost out = F::ring().divided(p, z.value());
    if n == 0 {
        assert(values(coeffs@) =~= out);
        return;
    }
    // From the highest degree down, `Q <- z Q + c`. The slot that `Q` goes
    // to is the one whose coefficient was read in the step before, so only
    // the coefficient of the last step stands alone.
    let mut q = F::zero();
    let mut k: usize = 0;
    let mut c = coeffs[n - 1];
    while k < n - 1
        invariant
            n == before.len(),
            n >= 1,
            coeffs@.len() == n,
            k <= n - 1,
            z.is_reduced(),
            p == values(before),
            out == F::ring().divided(p, z.value()),
            forall|i: int| 0 <= i < n ==> (#[trigger] before[i]).is_reduced(),
            q.is_reduced(),
            q.value() == F::ring().horner(p, z.value(), k as int),
            c == before[n - 1 - k],
            forall|i: int| 0 <= i < n - 1 - k ==> #[trigger] coeffs@[i] == before[i],
            forall|i: int|
                n - 1 - k <= i < n - 1 ==> (#[trigger] coeffs@[i]).is_reduced()
                    && coeffs@[i].value() == out[i],
        decreases n - 1 - k,
    {
        q = F::add(F::mul(z, q), c);
        c = coeffs[n - 2 - k];
        coeffs[n - 2 - k] = q;
        k = k + 1;
    }
    q = F::add(F::mul(z, q), c);
    coeffs[n - 1] = q;
    proof {
        assert(values(coeffs@) =~= out);
        if n == 1 {
            // z * 0 + c is c.
            let over = F::ring();
            F::in_ring(z);
            F::in_ring(before[0]);
            ring::lemma_closed(over, z.value(), z.value());
            binomial::law_ring(over.m, over.w, over.d, z.value(), z.value(), z.value());
            binomial::law_ring(over.m, over.w, over.d, c.value(), c.value(), c.value());
            assert(over.horner(p, z.value(), 0) == over.zero());
            F::value_determines(q, before[0]);
            assert(coeffs@ =~= before);
        }
    }
}

/// `s` is what [`HostField::add`] gives for `a` and `b`.
pub open spec fn is_sum<F: HostField>(a: F, b: F, s: F) -> bool {
    s.is_reduced() && s.value() == F::ring().sum(a.value(), b.value())
}

/// Two elements have one sum.
pub proof fn law_sum_is_unique<F: HostField>(a: F, b: F, s: F, t: F)
    requires
        is_sum(a, b, s),
        is_sum(a, b, t),
    ensures
        s == t,
{
    F::value_determines(s, t);
}

/// Serial division is additive: where `s` is the sum of `x` and `y`, what
/// [`div_by_x_minus_z_serial`] leaves of `s` is the sum of what it leaves of
/// `x` and of `y`.
pub proof fn law_serial_division_is_additive<F: HostField>(
    x: Seq<F>,
    y: Seq<F>,
    s: Seq<F>,
    z: F,
    x_divided: Seq<F>,
    y_divided: Seq<F>,
    s_divided: Seq<F>,
)
    requires
        x.len() == y.len() == s.len(),
        x_divided.len() == y_divided.len() == s_divided.len() == x.len(),
        z.is_reduced(),
        forall|i: int| 0 <= i < x.len() ==> (#[trigger] x[i]).is_reduced(),
        forall|i: int| 0 <= i < x.len() ==> (#[trigger] y[i]).is_reduced(),
        forall|i: int| 0 <= i < x.len() ==> is_sum(x[i], y[i], #[trigger] s[i]),
        forall|i: int| 0 <= i < x.len() ==> (#[trigger] s_divided[i]).is_reduced(),
        values(x_divided) == F::ring().divided(values(x), z.value()),
        values(y_divided) == F::ring().divided(values(y), z.value()),
        values(s_divided) == F::ring().divided(values(s), z.value()),
    ensures
        forall|i: int|
            0 <= i < x.len() ==> is_sum(x_divided[i], y_divided[i], #[trigger] s_divided[i]),
{
    let over = F::ring();
    F::in_ring(z);
    assert forall|i: int| 0 <= i < x.len() implies over.has(#[trigger] values(x)[i]) by {
        F::in_ring(x[i]);
    }
    assert forall|i: int| 0 <= i < x.len() implies over.has(#[trigger] values(y)[i]) by {
        F::in_ring(y[i]);
    }
    assert(values(s) =~= over.sums(values(x), values(y))) by {
        assert forall|i: int| 0 <= i < x.len() implies values(s)[i] == over.sums(
            values(x),
            values(y),
        )[i] by {
            assert(is_sum(x[i], y[i], s[i]));
        }
    }
    horner::law_division_is_additive(over, values(x), values(y), z.value());
    assert forall|i: int| 0 <= i < x.len() implies is_sum(
        x_divided[i],
        y_divided[i],
        #[trigger] s_divided[i],
    ) by {
        assert(values(s_divided)[i] == over.sum(values(x_divided)[i], values(y_divided)[i]));
    }
}

/// The limbs of extension-field elements.
pub open spec fn all_limbs<F: ExtShape>(elems: Seq<F>) -> Seq<Seq<int>> {
    Seq::new(elems.len(), |i: int| ext::limbs(elems[i]))
}

/// The limbs, one each, of base-field elements.
pub open spec fn base_limbs<P: MontyParameters>(elems: Seq<MontyField<P>>) -> Seq<Seq<int>> {
    Seq::new(elems.len(), |i: int| seq![elems[i].val()])
}

/// The scan agrees with the serial division, over an extension field: where
/// both start from the same coefficients and point, the elements that
/// [`PolyDivExec`](super::poly_div::PolyDivExec) leaves in its buffer are
/// those that [`div_by_x_minus_z_serial`] leaves in its slice.
pub proof fn law_scan_agrees_with_serial<F: ExtShape>(
    before: Seq<u32>,
    after: Seq<u32>,
    zs: Seq<u32>,
    b: int,
    n: int,
    batch_count: int,
    coeffs: Seq<F>,
    result: Seq<F>,
)
    requires
        0 <= b < batch_count,
        n >= 0,
        coeffs.len() == n,
        result.len() == n,
        forall|i: int|
            0 <= i < n ==> #[trigger] coeffs[i] == ext::elem_at::<F>(
                before,
                ext::row_base::<F>(b, n),
                i,
                n,
            ),
        forall|i: int| 0 <= i < n ==> ext::wf(#[trigger] result[i]),
        div_by_x_minus_z::words_reduced::<F>(after, ext::words::<F>(n, batch_count)),
        ext::poly_at::<F>(after, b, n) == ext::ring::<F>().divided(
            ext::poly_at::<F>(before, b, n),
            ext::limbs(div_by_x_minus_z::point_at::<F>(zs, b, batch_count)),
        ),
        all_limbs(result) == ext::ring::<F>().divided(
            all_limbs(coeffs),
            ext::limbs(div_by_x_minus_z::point_at::<F>(zs, b, batch_count)),
        ),
    ensures
        forall|i: int|
            0 <= i < n ==> #[trigger] result[i] == ext::elem_at::<F>(
                after,
                ext::row_base::<F>(b, n),
                i,
                n,
            ),
{
    let base = ext::row_base::<F>(b, n);
    assert(all_limbs(coeffs) =~= ext::poly_at::<F>(before, b, n));
    assert forall|i: int| 0 <= i < n implies #[trigger] result[i] == ext::elem_at::<F>(
        after,
        base,
        i,
        n,
    ) by {
        let e = ext::elem_at::<F>(after, base, i, n);
        ext::lemma_elem::<F>(after, base, i, n);
        assert forall|c: int| 0 <= c < F::DEGREE implies #[trigger] e.raws()[c]
            < <F::Base as MontyParameters>::PRIME by {
            ext::lemma_slot::<F>(b, i, n, batch_count, c);
        }
        assert(ext::limbs(e) == ext::poly_at::<F>(after, b, n)[i]);
        assert(ext::limbs(result[i]) == all_limbs(result)[i]);
        ext::lemma_limbs(result[i], e);
    }
}

/// The scan agrees with the serial division, over a base field.
pub proof fn law_scan_agrees_with_serial_over_base<P: MontyParameters>(
    before: Seq<u32>,
    after: Seq<u32>,
    zs: Seq<u32>,
    b: int,
    n: int,
    batch_count: int,
    coeffs: Seq<MontyField<P>>,
    result: Seq<MontyField<P>>,
    z: MontyField<P>,
)
    requires
        0 <= b < batch_count,
        n >= 0,
        coeffs.len() == n,
        result.len() == n,
        forall|i: int| 0 <= i < n ==> (#[trigger] coeffs[i]).mont() == before[b * n + i],
        z.mont() == zs[b],
        forall|i: int| 0 <= i < n ==> (#[trigger] result[i]).wf(),
        div_by_x_minus_z::words_reduced::<BaseElem<P>>(
            after,
            ext::words::<BaseElem<P>>(n, batch_count),
        ),
        ext::poly_at::<BaseElem<P>>(after, b, n) == ext::ring::<BaseElem<P>>().divided(
            ext::poly_at::<BaseElem<P>>(before, b, n),
            ext::limbs(div_by_x_minus_z::point_at::<BaseElem<P>>(zs, b, batch_count)),
        ),
        base_limbs(result) == ext::ring::<
            BaseElem<P>,
        >().divided(base_limbs(coeffs), seq![z.val()]),
    ensures
        forall|i: int| 0 <= i < n ==> (#[trigger] result[i]).mont() == after[b * n + i],
{
    let base = ext::row_base::<BaseElem<P>>(b, n);
    ext::law_base_degree::<P>();
    assert(n * 1 == n);
    assert forall|i: int| 0 <= i < n implies #[trigger] base_limbs(coeffs)[i] == ext::poly_at::<BaseElem<P>>(before, b, n)[i] by {
        lemma_base_elem::<P>(before, base, i, n);
    }
    assert(base_limbs(coeffs) =~= ext::poly_at::<BaseElem<P>>(
        before,
        b,
        n,
    ));
    lemma_base_elem::<P>(zs, 0, b, batch_count);
    assert forall|i: int| 0 <= i < n implies (#[trigger] result[i]).mont() == after[b * n + i] by {
        lemma_base_elem::<P>(after, base, i, n);
        ext::lemma_slot::<BaseElem<P>>(b, i, n, batch_count, 0);
        assert(base_limbs(result)[i][0] == result[i].val());
        assert(ext::poly_at::<BaseElem<P>>(after, b, n)[i][0] == monty::from_mont::<P>(
            after[base + i] as int,
        ));
        monty::lemma_from_mont_injective::<P>(
            result[i].mont() as int,
            after[base + i] as int,
        );
    }
}

/// An element of a base-field buffer is the word that stands there.
proof fn lemma_base_elem<P: MontyParameters>(arr: Seq<u32>, base: int, i: int, n: int)
    ensures
        ext::limbs(ext::elem_at::<BaseElem<P>>(arr, base, i, n)) == seq![
            monty::from_mont::<P>(arr[base + i] as int),
        ],
{
    ext::law_base_degree::<P>();
    ext::lemma_elem::<BaseElem<P>>(arr, base, i, n);
    assert(0 * n == 0) by (nonlinear_arith);
    assert(ext::slot(base, i, n, 0) == base + i);
    assert(ext::elem_at::<BaseElem<P>>(arr, base, i, n).raws()[0] == arr[base + i]);
    assert(ext::limbs(ext::elem_at::<BaseElem<P>>(arr, base, i, n)) =~= seq![
        monty::from_mont::<P>(arr[base + i] as int),
    ]);
}

/// The serial division, coefficient by coefficient: with the remainder, left
/// last, standing before the quotient, each coefficient was the one before
/// less the point times the one at its place, and the highest was the
/// quotient's highest.
pub proof fn law_serial_coefficients<F: HostField>(before: Seq<F>, after: Seq<F>, z: F, i: int)
    requires
        before.len() == after.len(),
        forall|k: int| 0 <= k < before.len() ==> (#[trigger] before[k]).is_reduced(),
        z.is_reduced(),
        values(after) == F::ring().divided(values(before), z.value()),
        0 <= i < before.len(),
    ensures
        ({
            let n = before.len() as int;
            let prev = if i == 0 {
                after[n - 1]
            } else {
                after[i - 1]
            };
            if i == n - 1 {
                before[i].value() == prev.value()
            } else {
                before[i].value() == binomial::minus(
                    F::ring().m,
                    prev.value(),
                    binomial::times(F::ring().m, F::ring().w, z.value(), after[i].value()),
                )
            }
        }),
{
    let n = before.len() as int;
    let over = F::ring();
    F::in_ring(z);
    assert forall|k: int| 0 <= k < n implies over.has(#[trigger] values(before)[k]) by {
        F::in_ring(before[k]);
    }
    horner::law_division_coefficients(over, values(before), z.value(), i);
    assert(values(after)[i] == after[i].value());
    assert(values(after)[n - 1] == after[n - 1].value());
    if i > 0 {
        assert(values(after)[i - 1] == after[i - 1].value());
    }
}

/// The fields of the serial division: the prime, the degree, and the number
/// that the root of the extension's polynomial has as its power.
pub proof fn law_host_fields(
    a: MontyField<BabyBearParameters>,
    b: MontyField<KoalaBearParameters>,
    c: BabyBear4,
    d: KoalaBear4,
    e: BabyBear5,
)
    ensures
        <MontyField<BabyBearParameters> as HostField>::ring().m == 0x78000001,
        <MontyField<BabyBearParameters> as HostField>::ring().d == 1,
        <MontyField<KoalaBearParameters> as HostField>::ring().m == 0x7f000001,
        <MontyField<KoalaBearParameters> as HostField>::ring().d == 1,
        <BabyBear4 as HostField>::ring() == (Ring { m: 0x78000001, w: 11, d: 4 }),
        <KoalaBear4 as HostField>::ring() == (Ring { m: 0x7f000001, w: 3, d: 4 }),
        <BabyBear5 as HostField>::ring() == (Ring { m: 0x78000001, w: 2, d: 5 }),
        HostField::value(a) == seq![a.val()],
        HostField::value(b) == seq![b.val()],
        HostField::value(c) == ext::limbs(c),
        HostField::value(d) == ext::limbs(d),
        HostField::value(e) == ext::limbs(e),
{
    crate::field::baby_bear::law_constants();
    crate::field::koala_bear::law_constants();
    crate::field::ext4::law_limbs_are_fields(c);
    crate::field::ext4::law_limbs_are_fields(d);
    crate::field::ext5::law_limbs_are_fields(e);
}

} // verus!
