//! `PolyDivExec<F>`: thin wrapper around [`ScanExec`] for the
//! [`DivByXMinusZ`] recipe.

use vstd::arithmetic::mul::*;
use vstd::prelude::*;

use super::div_by_x_minus_z;
use super::div_by_x_minus_z::DivByXMinusZ;
use super::horner;
use super::pair_scan;
use super::pair_scan::PairScanLayout;
use crate::cube::device::Device;
use crate::cube::monoid;
use crate::cube::monoid::Monoid;
use crate::cube::recipe;
use crate::cube::recipe::{ScanInput, ScanRecipe};
use crate::cube::scan_exec;
use crate::cube::scan_exec::ScanExec;
use crate::field::binomial;
use crate::field::ext;
use crate::field::ext::ExtShape;
use crate::field::monty;
use crate::field::monty::MontyParameters;
use crate::po2;

verus! {

/// The `a` of the pairs of a row, combined, is Horner's `Q`.
proof fn lemma_scan_is_horner<F: PairScanLayout>(job: ScanInput, b: int, k: int)
    requires
        recipe::is_input::<DivByXMinusZ<F>>(job),
        0 <= b < job.batch_count,
        0 <= k <= job.n,
    ensures
        monoid::fold(recipe::row::<DivByXMinusZ<F>>(job, b), 0, k).valid(),
        ext::limbs(monoid::fold(recipe::row::<DivByXMinusZ<F>>(job, b), 0, k).a)
            == ext::ring::<F>().horner(
            ext::poly_at::<F>(job.input, b, job.n),
            ext::limbs(div_by_x_minus_z::point_at::<F>(job.contexts, b, job.batch_count)),
            k,
        ),
    decreases k,
{
    let row = recipe::row::<DivByXMinusZ<F>>(job, b);
    recipe::lemma_row_valid::<DivByXMinusZ<F>>(job, b);
    monoid::lemma_fold_valid(row, 0, k);
    if k == 0 {
        pair_scan::lemma_identity::<F>(row[0].p);
    } else {
        lemma_scan_is_horner::<F>(job, b, k - 1);
        let before = monoid::fold(row, 0, k - 1);
        pair_scan::lemma_combine(before, row[k - 1]);
        assert(row[k - 1].a == ext::elem_at::<F>(
            job.input,
            ext::row_base::<F>(b, job.n),
            job.n - k,
            job.n,
        ));
    }
}

/// A buffer after the first `count` results of a division were stored.
#[verifier::opaque]
spec fn partly_divided<F: PairScanLayout>(
    job: ScanInput,
    before: Seq<u32>,
    after: Seq<u32>,
    count: int,
) -> bool {
    let n = job.n;
    &&& after.len() == before.len()
    &&& forall|k: int|
        ext::words::<F>(n, job.batch_count) <= k < before.len()
            ==> #[trigger] after[k] == before[k]
    &&& forall|b: int, i: int, c: int|
        0 <= b < job.batch_count && 0 <= i < n && 0 <= c < F::DEGREE ==> #[trigger] after[ext::slot(
            ext::row_base::<F>(b, n),
            i,
            n,
            c,
        )] == word_after::<F>(job, before, count, b, i, c)
}

/// What stands in limb `c` of element `i` of polynomial `b` by then.
spec fn word_after<F: PairScanLayout>(
    job: ScanInput,
    before: Seq<u32>,
    count: int,
    b: int,
    i: int,
    c: int,
) -> u32 {
    let pos = div_by_x_minus_z::out_index(job.n, i);
    if b * job.n + pos < count {
        recipe::prefix::<DivByXMinusZ<F>>(job, b, pos).a.raws()[c]
    } else {
        before[ext::slot(ext::row_base::<F>(b, job.n), i, job.n, c)]
    }
}

/// One more result stored.
proof fn lemma_store<F: PairScanLayout>(
    job: ScanInput,
    before: Seq<u32>,
    after: Seq<u32>,
    count: int,
)
    requires
        job.n > 0,
        partly_divided::<F>(job, before, after, count),
        ext::words::<F>(job.n, job.batch_count) <= before.len(),
        0 <= count < job.batch_count * job.n,
    ensures
        partly_divided::<F>(
            job,
            before,
            DivByXMinusZ::<F>::stored(
                job.contexts,
                after,
                count / job.n,
                count % job.n,
                job.n,
                job.batch_count,
                recipe::prefix::<DivByXMinusZ<F>>(job, count / job.n, count % job.n),
            ),
            count + 1,
        ),
{
    reveal(partly_divided);
    let n = job.n;
    let b0 = count / n;
    let p0 = count % n;
    let i0 = div_by_x_minus_z::out_index(n, p0);
    let value = recipe::prefix::<DivByXMinusZ<F>>(job, b0, p0);
    let raws = value.a.raws();
    let base0 = ext::row_base::<F>(b0, n);
    let next = ext::stored(after, base0, i0, n, raws);
    po2::lemma_join(count, n);
    po2::lemma_quotient_below(count, job.batch_count, n);
    F::shape(value.a, value.a, raws);
    ext::lemma_slot::<F>(b0, i0, n, job.batch_count, 0);
    ext::lemma_stored(after, base0, i0, n, raws);
    assert forall|k: int|
        ext::words::<F>(n, job.batch_count) <= k
            < before.len() implies #[trigger] next[k] == before[k] by {
        assert(!(base0 <= k < base0 + F::DEGREE * n));
        assert(after[k] == before[k]);
    }
    assert forall|b: int, i: int, c: int|
        0 <= b < job.batch_count && 0 <= i < n && 0 <= c < F::DEGREE implies #[trigger] next[ext::slot(
            ext::row_base::<F>(b, n),
            i,
            n,
            c,
        )] == word_after::<F>(job, before, count + 1, b, i, c) by {
        let base = ext::row_base::<F>(b, n);
        let s = ext::slot(base, i, n, c);
        let pos = div_by_x_minus_z::out_index(n, i);
        ext::lemma_slot::<F>(b, i, n, job.batch_count, c);
        assert(after[s] == word_after::<F>(job, before, count, b, i, c));
        if b == b0 {
            if i == i0 {
                assert(next[s] == raws[c]);
                assert(pos == p0);
            } else {
                assert(next[ext::slot(base0, i, n, c)] == after[ext::slot(base0, i, n, c)]);
                assert(pos != p0);
            }
        } else {
            lemma_slices_apart::<F>(b, b0, n);
            assert(next[s] == after[s]);
            assert(b * n + pos != count) by {
                po2::lemma_split(b, n, pos);
            }
        }
    }
}

/// The slices of two polynomials do not meet.
proof fn lemma_slices_apart<F: ExtShape>(b: int, b0: int, n: int)
    requires
        b != b0,
        n > 0,
    ensures
        ({
            let size = F::DEGREE * n;
            let base = ext::row_base::<F>(b, n);
            let base0 = ext::row_base::<F>(b0, n);
            base + size <= base0 || base0 + size <= base
        }),
{
    let size = n * F::DEGREE;
    lemma_mul_is_commutative(n, F::DEGREE as int);
    lemma_mul_nonnegative(n, F::DEGREE as int);
    if b < b0 {
        lemma_mul_inequality(b + 1, b0, size);
        lemma_mul_is_distributive_add_other_way(size, b, 1);
    } else {
        lemma_mul_inequality(b0 + 1, b, size);
        lemma_mul_is_distributive_add_other_way(size, b0, 1);
    }
}

/// All results up to `count` stored.
proof fn lemma_stores<F: PairScanLayout>(job: ScanInput, before: Seq<u32>, count: int)
    requires
        job.n > 0,
        ext::words::<F>(job.n, job.batch_count) <= before.len(),
        0 <= count <= job.batch_count * job.n,
    ensures
        partly_divided::<F>(
            job,
            before,
            recipe::prefixes_stored::<DivByXMinusZ<F>>(job, before, count),
            count,
        ),
    decreases count,
{
    if count == 0 {
        reveal(partly_divided);
        assert forall|b: int, i: int, c: int|
            0 <= b < job.batch_count && 0 <= i < job.n && 0 <= c
                < F::DEGREE implies #[trigger] before[ext::slot(
                ext::row_base::<F>(b, job.n),
                i,
                job.n,
                c,
            )] == word_after::<F>(job, before, 0, b, i, c) by {
            lemma_mul_nonnegative(b, job.n);
        }
    } else {
        lemma_stores::<F>(job, before, count - 1);
        lemma_store::<F>(
            job,
            before,
            recipe::prefixes_stored::<DivByXMinusZ<F>>(job, before, count - 1),
            count - 1,
        );
    }
}

/// With all results stored, every polynomial has been divided.
proof fn lemma_all_divided<F: PairScanLayout>(job: ScanInput, before: Seq<u32>, after: Seq<u32>)
    requires
        recipe::is_input::<DivByXMinusZ<F>>(job),
        partly_divided::<F>(job, before, after, job.batch_count * job.n),
        ext::words::<F>(job.n, job.batch_count) <= before.len(),
    ensures
        after.len() == before.len(),
        forall|b: int|
            0 <= b < job.batch_count ==> #[trigger] ext::poly_at::<F>(
                after,
                b,
                job.n,
            ) == ext::ring::<F>().divided(
                ext::poly_at::<F>(job.input, b, job.n),
                ext::limbs(
                    div_by_x_minus_z::point_at::<F>(job.contexts, b, job.batch_count),
                ),
            ),
        div_by_x_minus_z::words_reduced::<F>(
            after,
            ext::words::<F>(job.n, job.batch_count),
        ),
        forall|k: int|
            ext::words::<F>(job.n, job.batch_count) <= k < before.len()
                ==> #[trigger] after[k] == before[k],
{
    let n = job.n;
    assert(after.len() == before.len() && forall|k: int|
        ext::words::<F>(n, job.batch_count) <= k < before.len()
            ==> #[trigger] after[k] == before[k]) by {
        reveal(partly_divided);
    }
    assert forall|b: int| 0 <= b < job.batch_count implies #[trigger] ext::poly_at::<
        F,
    >(after, b, n) == ext::ring::<F>().divided(
        ext::poly_at::<F>(job.input, b, n),
        ext::limbs(div_by_x_minus_z::point_at::<F>(job.contexts, b, job.batch_count)),
    ) by {
        let p = ext::poly_at::<F>(job.input, b, n);
        let z = ext::limbs(
            div_by_x_minus_z::point_at::<F>(job.contexts, b, job.batch_count),
        );
        let out = ext::ring::<F>().divided(p, z);
        assert forall|i: int| 0 <= i < n implies #[trigger] ext::poly_at::<F>(
            after,
            b,
            n,
        )[i] == out[i] by {
            lemma_result::<F>(job, before, after, b, i);
        }
        assert(ext::poly_at::<F>(after, b, n) =~= out);
    }
    let total = ext::words::<F>(n, job.batch_count);
    assert forall|k: int| 0 <= k < total implies #[trigger] after[k] < <F::Base as
        MontyParameters>::PRIME by {
        let size = n * F::DEGREE;
        let zero = ext::elem_at::<F>(after, 0, 0, 1);
        F::shape(zero, zero, zero.raws());
        lemma_mul_is_commutative(n, F::DEGREE as int);
        po2::lemma_within(0, F::DEGREE as int, n, 0);
        po2::lemma_join(k, size);
        po2::lemma_quotient_below(k, job.batch_count, size);
        let b = k / size;
        let rest = k % size;
        po2::lemma_join(rest, n);
        po2::lemma_quotient_below(rest, F::DEGREE as int, n);
        let c = rest / n;
        let i = rest % n;
        lemma_result::<F>(job, before, after, b, i);
        assert(k == ext::slot(ext::row_base::<F>(b, n), i, n, c));
        ext::lemma_elem::<F>(
            after,
            ext::row_base::<F>(b, n),
            i,
            n,
        );
        let e = ext::elem_at::<F>(
            after,
            ext::row_base::<F>(b, n),
            i,
            n,
        );
        assert(e.raws()[c] == after[k]);
    }
}

/// Element `i` of polynomial `b` of the result.
proof fn lemma_result<F: PairScanLayout>(
    job: ScanInput,
    before: Seq<u32>,
    after: Seq<u32>,
    b: int,
    i: int,
)
    requires
        recipe::is_input::<DivByXMinusZ<F>>(job),
        partly_divided::<F>(job, before, after, job.batch_count * job.n),
        0 <= b < job.batch_count,
        0 <= i < job.n,
    ensures
        ({
            let e = ext::elem_at::<F>(
                after,
                ext::row_base::<F>(b, job.n),
                i,
                job.n,
            );
            &&& ext::wf(e)
            &&& ext::limbs(e) == ext::ring::<F>().divided(
                ext::poly_at::<F>(job.input, b, job.n),
                ext::limbs(
                    div_by_x_minus_z::point_at::<F>(job.contexts, b, job.batch_count),
                ),
            )[i]
        }),
{
    let n = job.n;
    let pos = div_by_x_minus_z::out_index(n, i);
    let base = ext::row_base::<F>(b, n);
    let value = recipe::prefix::<DivByXMinusZ<F>>(job, b, pos).a;
    po2::lemma_within(b, job.batch_count, n, pos);
    assert forall|c: int| 0 <= c < F::DEGREE implies #[trigger] value.raws()[c]
        == after[ext::slot(base, i, n, c)] by {
        reveal(partly_divided);
        assert(after[ext::slot(base, i, n, c)] == word_after::<F>(
            job,
            before,
            job.batch_count * n,
            b,
            i,
            c,
        ));
    }
    ext::lemma_is_elem(value, after, base, i, n);
    lemma_scan_is_horner::<F>(job, b, pos + 1);
}

/// Polynomial-division executor.
///
/// Bakes `(device, log_n_max, max_batch, F)` at construction; the per-call
/// [`div_by_x_minus_z`](Self::div_by_x_minus_z) picks the spine depth based
/// on `log_n` like [`ScanExec::run`].
pub struct PolyDivExec<F: PairScanLayout> {
    inner: ScanExec<DivByXMinusZ<F>>,
}

impl<F: PairScanLayout> PolyDivExec<F> {
    /// The executor is as [`new`](Self::new) made it.
    pub closed spec fn wf(&self) -> bool {
        self.inner.wf()
    }

    /// The base-2 log of the longest polynomial.
    pub closed spec fn log_n_max(&self) -> u32 {
        self.inner.spec_log_n_max()
    }

    /// The largest batch.
    pub closed spec fn max_batch(&self) -> u32 {
        self.inner.spec_max_batch()
    }

    /// Construct an executor for division by `(x - z)` over `F`-coefficient
    /// polynomials of length up to `2^log_n_max`, with up to `max_batch`
    /// rows per call.
    pub fn new(device: &Device, log_n_max: u32, max_batch: usize) -> (r: Self)
        requires
            scan_exec::can_scan(*device),
            1 <= log_n_max < scan_exec::log_units(*device) + 32,
            max_batch <= u32::MAX,
            scan_exec::spine_bytes::<DivByXMinusZ<F>>(
                log_n_max as int,
                scan_exec::log_units(*device),
                max_batch as int,
            ) <= device.scratch_bytes,
        ensures
            r.wf(),
            r.log_n_max() == log_n_max,
            r.max_batch() == max_batch,
    {
        PolyDivExec { inner: ScanExec::new(device, log_n_max, max_batch) }
    }

    /// In-place division by `(x - z)` for `batch` polynomials of length
    /// `2^log_n`.
    ///
    /// Buffer expectations:
    /// - `buf`: `batch * 2^log_n * F::DEGREE` words, transposed layout
    ///   (component `c` of element `i` at offset `c * n + i` within each
    ///   polynomial slice).
    /// - `zs`: `batch * F::DEGREE` words, also transposed (component `c` of
    ///   row `b` at offset `c * batch + b`).
    ///
    /// In the result, slots `0..n-1` of each polynomial hold the quotient
    /// (lowest degree first) and slot `n - 1` holds the remainder `r =
    /// p(z)`.
    pub fn div_by_x_minus_z(&self, buf: &mut [u32], zs: &[u32], log_n: u32, batch: usize)
        requires
            self.wf(),
            1 <= log_n <= self.log_n_max(),
            log_n < 32,
            batch <= self.max_batch(),
            ext::words::<F>(po2::p2(log_n as nat), batch as int) <= u32::MAX,
            ext::words::<F>(po2::p2(log_n as nat), batch as int) <= old(buf)@.len(),
            div_by_x_minus_z::words_reduced::<F>(
                old(buf)@,
                ext::words::<F>(po2::p2(log_n as nat), batch as int),
            ),
            F::DEGREE * batch <= zs@.len(),
            div_by_x_minus_z::words_reduced::<F>(zs@, F::DEGREE * batch),
        ensures
            final(buf)@.len() == old(buf)@.len(),
            forall|b: int|
                0 <= b < batch ==> #[trigger] ext::poly_at::<F>(
                    final(buf)@,
                    b,
                    po2::p2(log_n as nat),
                ) == ext::ring::<F>().divided(
                    ext::poly_at::<F>(old(buf)@, b, po2::p2(log_n as nat)),
                    ext::limbs(div_by_x_minus_z::point_at::<F>(zs@, b, batch as int)),
                ),
            div_by_x_minus_z::words_reduced::<F>(
                final(buf)@,
                ext::words::<F>(po2::p2(log_n as nat), batch as int),
            ),
            forall|k: int|
                ext::words::<F>(po2::p2(log_n as nat), batch as int) <= k
                    < old(buf)@.len() ==> #[trigger] final(buf)@[k] == old(buf)@[k],
    {
        let ghost n = po2::p2(log_n as nat);
        let ghost before = buf@;
        let ghost job = ScanInput {
            contexts: zs@,
            input: before,
            n,
            batch_count: batch as int,
        };
        proof {
            po2::lemma_p2(log_n as nat);
            assert(F::DEGREE * batch <= ext::words::<F>(n, batch as int))
                by (nonlinear_arith)
                requires
                    ext::words::<F>(n, batch as int) == batch * (n * F::DEGREE),
                    n >= 1,
            ;
        }
        let input = vstd::slice::slice_to_vec(buf);
        self.inner.run(zs, input.as_slice(), buf, log_n, batch);
        proof {
            lemma_stores::<F>(job, before, batch * n);
            lemma_all_divided::<F>(job, before, buf@);
        }
    }
}

/// What a division leaves in its buffer, in words. Row `b` of `n` elements
/// starts at `b * n * D`, limb `c` of element `i` at `c * n + i` behind it,
/// and the row's point has limb `c` at `c * batch_count + b` of `zs`. With
/// the remainder, at `n - 1`, standing before the quotient, the old element
/// at `i` is the new one before less the point times the new one at `i`; the
/// old last element is the quotient's highest.
pub proof fn law_division_words<F: ExtShape>(
    before: Seq<u32>,
    after: Seq<u32>,
    zs: Seq<u32>,
    b: int,
    n: int,
    batch_count: int,
    i: int,
)
    requires
        0 <= b < batch_count,
        0 <= i < n,
        ext::poly_at::<F>(after, b, n) == ext::ring::<F>().divided(
            ext::poly_at::<F>(before, b, n),
            ext::limbs(div_by_x_minus_z::point_at::<F>(zs, b, batch_count)),
        ),
    ensures
        ({
            let m = <F::Base as MontyParameters>::PRIME as int;
            let d = F::DEGREE as nat;
            let start = b * n * d;
            let j = if i == 0 {
                n - 1
            } else {
                i - 1
            };
            let z = Seq::new(
                d,
                |c: int| monty::from_mont::<F::Base>(zs[c * batch_count + b] as int),
            );
            let old_i = Seq::new(
                d,
                |c: int| monty::from_mont::<F::Base>(before[start + c * n + i] as int),
            );
            let new_i = Seq::new(
                d,
                |c: int| monty::from_mont::<F::Base>(after[start + c * n + i] as int),
            );
            let new_j = Seq::new(
                d,
                |c: int| monty::from_mont::<F::Base>(after[start + c * n + j] as int),
            );
            if i == n - 1 {
                old_i == new_j
            } else {
                old_i == binomial::minus(m, new_j, binomial::times(m, F::non_residue(), z, new_i))
            }
        }),
{
    let over = ext::ring::<F>();
    let d = F::DEGREE as nat;
    let start = b * n * d;
    let j = if i == 0 {
        n - 1
    } else {
        i - 1
    };
    let point = div_by_x_minus_z::point_at::<F>(zs, b, batch_count);
    let p = ext::poly_at::<F>(before, b, n);
    let out = ext::poly_at::<F>(after, b, n);
    let z = ext::limbs(point);
    ext::lemma_limbs(point, point);
    assert(over.has(z));
    assert forall|k: int| 0 <= k < n implies over.has(#[trigger] p[k]) by {
        let e = ext::elem_at::<F>(before, ext::row_base::<F>(b, n), k, n);
        ext::lemma_limbs(e, e);
    }
    horner::law_division_coefficients(over, p, z, i);
    assert(z =~= Seq::new(
        d,
        |c: int| monty::from_mont::<F::Base>(zs[c * batch_count + b] as int),
    )) by {
        assert forall|c: int| 0 <= c < d implies #[trigger] z[c] == monty::from_mont::<F::Base>(
            zs[c * batch_count + b] as int,
        ) by {
            div_by_x_minus_z::law_point_words::<F>(zs, b, batch_count, c);
        }
    }
    lemma_element_words::<F>(before, b, n, batch_count, i);
    lemma_element_words::<F>(after, b, n, batch_count, i);
    lemma_element_words::<F>(after, b, n, batch_count, j);
}

/// The words of an element.
proof fn lemma_element_words<F: ExtShape>(arr: Seq<u32>, b: int, n: int, batch_count: int, i: int)
    requires
        0 <= i < n,
    ensures
        ext::poly_at::<F>(arr, b, n)[i] == Seq::new(
            F::DEGREE as nat,
            |c: int| monty::from_mont::<F::Base>(arr[b * n * F::DEGREE + c * n + i] as int),
        ),
{
    let e = ext::poly_at::<F>(arr, b, n)[i];
    assert forall|c: int| 0 <= c < F::DEGREE implies e.len() == F::DEGREE && #[trigger] e[c]
        == monty::from_mont::<F::Base>(arr[b * n * F::DEGREE + c * n + i] as int) by {
        ext::law_transposed_layout::<F>(arr, b, n, batch_count, i, c);
    }
    let x = ext::elem_at::<F>(arr, ext::row_base::<F>(b, n), i, n);
    ext::lemma_limbs(x, x);
    assert(e =~= Seq::new(
        F::DEGREE as nat,
        |c: int| monty::from_mont::<F::Base>(arr[b * n * F::DEGREE + c * n + i] as int),
    ));
}

} // verus!
