//! `DivByXMinusZ<F>`: the `ScanRecipe` for synthetic division by `(x - z)`.

use core::marker::PhantomData;

use vstd::arithmetic::mul::*;
use vstd::prelude::*;

use super::pair_scan::{pair, PairScan, PairScanLayout};
use crate::cube::recipe::ScanRecipe;
use crate::field::ext;
use crate::field::ext::{ExtField, ExtShape};
use crate::field::monty::MontyParameters;
use crate::po2;

verus! {

/// The point `z` of row `batch`.
pub open spec fn point_at<F: ExtShape>(contexts: Seq<u32>, batch: int, batch_count: int) -> F {
    ext::elem_at::<F>(contexts, 0, batch, batch_count)
}

/// The first `count` words are reduced.
pub open spec fn words_reduced<F: ExtShape>(arr: Seq<u32>, count: int) -> bool {
    forall|k: int|
        0 <= k < count ==> #[trigger] arr[k] < <F::Base as MontyParameters>::PRIME
}

/// Where the result of scan position `scan_pos` goes: the quotient stands
/// lowest degree first, and the remainder behind it.
pub open spec fn out_index(n: int, scan_pos: int) -> int {
    if scan_pos < n - 1 {
        n - 2 - scan_pos
    } else {
        n - 1
    }
}

/// Recipe carrying no runtime state, only a phantom for `F`.
pub struct DivByXMinusZ<F: ExtField> {
    _f: PhantomData<F>,
}

impl<F: PairScanLayout> ScanRecipe for DivByXMinusZ<F> {
    type Monoid = PairScan<F>;

    open spec fn readable(
        contexts: Seq<u32>,
        input: Seq<u32>,
        n: int,
        batch_count: int,
    ) -> bool {
        &&& ext::words::<F>(n, batch_count) <= u32::MAX
        &&& ext::words::<F>(n, batch_count) <= input.len()
        &&& words_reduced::<F>(input, ext::words::<F>(n, batch_count))
        &&& F::DEGREE * batch_count <= u32::MAX
        &&& F::DEGREE * batch_count <= contexts.len()
        &&& words_reduced::<F>(contexts, F::DEGREE * batch_count)
    }

    open spec fn loaded(
        contexts: Seq<u32>,
        input: Seq<u32>,
        batch: int,
        scan_pos: int,
        n: int,
        batch_count: int,
    ) -> PairScan<F> {
        PairScan {
            p: point_at::<F>(contexts, batch, batch_count),
            a: ext::elem_at::<F>(input, ext::row_base::<F>(batch, n), n - 1 - scan_pos, n),
        }
    }

    open spec fn writable(
        contexts: Seq<u32>,
        output: Seq<u32>,
        n: int,
        batch_count: int,
    ) -> bool {
        &&& ext::words::<F>(n, batch_count) <= u32::MAX
        &&& ext::words::<F>(n, batch_count) <= output.len()
    }

    open spec fn stored(
        contexts: Seq<u32>,
        output: Seq<u32>,
        batch: int,
        scan_pos: int,
        n: int,
        batch_count: int,
        value: PairScan<F>,
    ) -> Seq<u32> {
        ext::stored(
            output,
            ext::row_base::<F>(batch, n),
            out_index(n, scan_pos),
            n,
            value.a.raws(),
        )
    }

    proof fn loads_valid(
        contexts: Seq<u32>,
        input: Seq<u32>,
        batch: int,
        scan_pos: int,
        n: int,
        batch_count: int,
    ) {
        let base = ext::row_base::<F>(batch, n);
        let i = n - 1 - scan_pos;
        let d = F::DEGREE as int;
        ext::lemma_elem::<F>(input, base, i, n);
        ext::lemma_elem::<F>(contexts, 0, batch, batch_count);
        assert forall|c: int| 0 <= c < d implies #[trigger] ext::elem_at::<F>(
            input,
            base,
            i,
            n,
        ).raws()[c] < <F::Base as MontyParameters>::PRIME by {
            ext::lemma_slot::<F>(batch, i, n, batch_count, c);
        }
        assert forall|c: int| 0 <= c < d implies #[trigger] point_at::<F>(
            contexts,
            batch,
            batch_count,
        ).raws()[c] < <F::Base as MontyParameters>::PRIME by {
            po2::lemma_within(c, d, batch_count, batch);
        }
    }

    proof fn stays_writable(
        contexts: Seq<u32>,
        output: Seq<u32>,
        batch: int,
        scan_pos: int,
        n: int,
        batch_count: int,
        value: PairScan<F>,
    ) {
    }

    /// Read coefficient `a_{n-1-scan_pos}` (descending degree order), pull
    /// per-batch `z` from `contexts`, lift to monoid `(z, a)`.
    fn load(
        contexts: &[u32],
        input: &[u32],
        batch: u32,
        scan_pos: u32,
        n: u32,
        batch_count: u32,
    ) -> (r: PairScan<F>) {
        proof {
            let one = ext::elem_at::<F>(input@, 0, 0, 1);
            F::shape(one, one, one.raws());
            ext::lemma_slot::<F>(batch as int, 0, n as int, batch_count as int, 0);
            lemma_mul_is_associative(batch as int, n as int, F::DEGREE as int);
            lemma_mul_is_commutative(n as int, F::DEGREE as int);
            lemma_mul_nonnegative(batch as int, n as int);
            lemma_mul_inequality(1, F::DEGREE as int, batch * n);
            lemma_mul_is_commutative(batch * n, F::DEGREE as int);
        }
        // Each polynomial is `n * DEGREE` words in transposed layout.
        let base: u32 = batch * n * F::DEGREE;
        let coeff = F::load(input, base, n - 1 - scan_pos, n);
        // Component `c` of row `b` at offset `c * batch_count + b`.
        let z = F::load(contexts, 0, batch, batch_count);
        proof {
            ext::lemma_is_elem(coeff, input@, base as int, n - 1 - scan_pos, n as int);
            ext::lemma_is_elem(z, contexts@, 0, batch as int, batch_count as int);
        }
        pair::<F>(z, coeff)
    }

    /// Project the scanned `(p, a)` back: write `a` so that the quotient
    /// stands lowest degree first in slots `0..n-1` and the remainder in
    /// slot `n - 1`.
    fn store(
        contexts: &[u32],
        output: &mut [u32],
        batch: u32,
        scan_pos: u32,
        n: u32,
        batch_count: u32,
        value: PairScan<F>,
    ) {
        proof {
            F::shape(value.a, value.a, value.a.raws());
            ext::lemma_slot::<F>(batch as int, 0, n as int, batch_count as int, 0);
            lemma_mul_is_associative(batch as int, n as int, F::DEGREE as int);
            lemma_mul_is_commutative(n as int, F::DEGREE as int);
            lemma_mul_nonnegative(batch as int, n as int);
            lemma_mul_inequality(1, F::DEGREE as int, batch * n);
            lemma_mul_is_commutative(batch * n, F::DEGREE as int);
        }
        let base: u32 = batch * n * F::DEGREE;
        let slot: u32 = if scan_pos < n - 1 {
            n - 2 - scan_pos
        } else {
            n - 1
        };
        F::store(output, base, slot, n, value.a);
    }
}

/// The point that row `b` is divided at, in words: limb `c` is the word at
/// `c * batch_count + b`, for every degree.
pub proof fn law_point_words<F: ExtShape>(zs: Seq<u32>, b: int, batch_count: int, c: int)
    requires
        0 <= b < batch_count,
        0 <= c < F::DEGREE,
    ensures
        point_at::<F>(zs, b, batch_count).raws().len() == F::DEGREE,
        point_at::<F>(zs, b, batch_count).raws()[c] == zs[c * batch_count + b],
{
    let z = point_at::<F>(zs, b, batch_count);
    F::shape(z, z, z.raws());
    ext::lemma_elem::<F>(zs, 0, b, batch_count);
    assert(z.raws()[c] == zs[ext::slot(0, b, batch_count, c)]);
}

/// What the recipe reads at a scan position, in words: the row's point, and
/// the coefficients from the highest degree down.
pub proof fn law_loaded_words<F: PairScanLayout>(
    zs: Seq<u32>,
    input: Seq<u32>,
    b: int,
    pos: int,
    n: int,
    batch_count: int,
    c: int,
)
    requires
        0 <= b < batch_count,
        0 <= pos < n,
        0 <= c < F::DEGREE,
    ensures
        DivByXMinusZ::<F>::loaded(zs, input, b, pos, n, batch_count).p.raws()[c] == zs[c
            * batch_count + b],
        DivByXMinusZ::<F>::loaded(zs, input, b, pos, n, batch_count).a.raws()[c] == input[b * n
            * F::DEGREE + c * n + (n - 1 - pos)],
{
    law_point_words::<F>(zs, b, batch_count, c);
    ext::law_transposed_layout::<F>(input, b, n, batch_count, n - 1 - pos, c);
}

/// Where the recipe writes at a scan position, in words: the quotient's
/// coefficient of degree `n - 2 - pos` at that place of its row, and the last
/// one, the remainder, behind them.
pub proof fn law_stored_words<F: PairScanLayout>(
    zs: Seq<u32>,
    output: Seq<u32>,
    b: int,
    pos: int,
    n: int,
    batch_count: int,
    value: PairScan<F>,
    c: int,
)
    requires
        0 <= b < batch_count,
        0 <= pos < n,
        0 <= c < F::DEGREE,
        ext::words::<F>(n, batch_count) <= output.len(),
    ensures
        ({
            let after = DivByXMinusZ::<F>::stored(zs, output, b, pos, n, batch_count, value);
            &&& after.len() == output.len()
            &&& pos < n - 1 ==> after[b * n * F::DEGREE + c * n + (n - 2 - pos)]
                == value.a.raws()[c]
            &&& pos == n - 1 ==> after[b * n * F::DEGREE + c * n + (n - 1)] == value.a.raws()[c]
        }),
{
    let base = ext::row_base::<F>(b, n);
    lemma_mul_is_associative(b, n, F::DEGREE as int);
    lemma_mul_is_commutative(n, F::DEGREE as int);
    ext::lemma_slot::<F>(b, 0, n, batch_count, 0);
    ext::law_store_writes_limbs(output, base, out_index(n, pos), n, value.a, 0);
}

/// What a division asks of its buffers, written out.
pub proof fn law_division_inputs<F: PairScanLayout>(
    zs: Seq<u32>,
    buf: Seq<u32>,
    n: int,
    batch_count: int,
)
    ensures
        words_reduced::<F>(buf, n) <==> forall|k: int|
            0 <= k < n ==> #[trigger] buf[k] < <F::Base as MontyParameters>::PRIME,
        DivByXMinusZ::<F>::readable(zs, buf, n, batch_count) <==> {
            &&& batch_count * n * F::DEGREE <= u32::MAX
            &&& batch_count * n * F::DEGREE <= buf.len()
            &&& forall|k: int|
                0 <= k < batch_count * n * F::DEGREE ==> #[trigger] buf[k]
                    < <F::Base as MontyParameters>::PRIME
            &&& F::DEGREE * batch_count <= u32::MAX
            &&& F::DEGREE * batch_count <= zs.len()
            &&& forall|k: int|
                0 <= k < F::DEGREE * batch_count ==> #[trigger] zs[k]
                    < <F::Base as MontyParameters>::PRIME
        },
        DivByXMinusZ::<F>::writable(zs, buf, n, batch_count) <==> batch_count * n * F::DEGREE
            <= u32::MAX && batch_count * n * F::DEGREE <= buf.len(),
{
    lemma_mul_is_associative(batch_count, n, F::DEGREE as int);
}

} // verus!
