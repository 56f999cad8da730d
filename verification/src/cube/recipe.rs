//! `ScanRecipe`: the per-application interface to
//! [`ScanExec`](super::scan_exec::ScanExec).
//!
//! A recipe says how to read an input element, lift it into a [`Monoid`]
//! value, and project a scanned monoid back to an output element. It owns
//! the index transformation and the interpretation of the per-batch-row
//! contexts.
//!
//! `ScanExec` then runs the standard map, scan, unmap pipeline against the
//! recipe. That structure is recipe-agnostic; `ScanExec` itself only knows
//! about the recipe's monoid.

use vstd::prelude::*;

use super::monoid;
use super::monoid::Monoid;
use crate::po2;

verus! {

/// The per-application interface that drives
/// [`ScanExec`](super::scan_exec::ScanExec).
pub trait ScanRecipe: 'static + Send + Sync {
    /// The monoid the scan operates on.
    type Monoid: Monoid;

    /// `contexts` and `input` hold `batch_count` rows of `n` elements that
    /// the recipe can load.
    spec fn readable(contexts: Seq<u32>, input: Seq<u32>, n: int, batch_count: int) -> bool;

    /// The monoid value at `scan_pos` of row `batch`.
    spec fn loaded(
        contexts: Seq<u32>,
        input: Seq<u32>,
        batch: int,
        scan_pos: int,
        n: int,
        batch_count: int,
    ) -> Self::Monoid;

    /// `output` has room for `batch_count` rows of `n` results.
    spec fn writable(contexts: Seq<u32>, output: Seq<u32>, n: int, batch_count: int) -> bool;

    /// `output` after `value` was stored at `scan_pos` of row `batch`.
    spec fn stored(
        contexts: Seq<u32>,
        output: Seq<u32>,
        batch: int,
        scan_pos: int,
        n: int,
        batch_count: int,
        value: Self::Monoid,
    ) -> Seq<u32>;

    /// Loaded values belong to the monoid.
    proof fn loads_valid(
        contexts: Seq<u32>,
        input: Seq<u32>,
        batch: int,
        scan_pos: int,
        n: int,
        batch_count: int,
    )
        requires
            Self::readable(contexts, input, n, batch_count),
            0 <= batch < batch_count,
            0 <= scan_pos < n,
        ensures
            Self::loaded(contexts, input, batch, scan_pos, n, batch_count).valid(),
    ;

    /// A store leaves room for the others.
    proof fn stays_writable(
        contexts: Seq<u32>,
        output: Seq<u32>,
        batch: int,
        scan_pos: int,
        n: int,
        batch_count: int,
        value: Self::Monoid,
    )
        requires
            Self::writable(contexts, output, n, batch_count),
            0 <= batch < batch_count,
            0 <= scan_pos < n,
        ensures
            Self::writable(
                contexts,
                Self::stored(contexts, output, batch, scan_pos, n, batch_count, value),
                n,
                batch_count,
            ),
    ;

    /// Load element at `scan_pos` of batch row `batch` (out of
    /// `batch_count`) from a row of length `n`, lift into a monoid value.
    /// `contexts` carries any per-batch-row data the recipe needs; recipes
    /// with no context ignore the argument.
    ///
    /// Recipes are free to apply any index transformation here.
    fn load(
        contexts: &[u32],
        input: &[u32],
        batch: u32,
        scan_pos: u32,
        n: u32,
        batch_count: u32,
    ) -> (r: Self::Monoid)
        requires
            Self::readable(contexts@, input@, n as int, batch_count as int),
            batch < batch_count,
            scan_pos < n,
        ensures
            r == Self::loaded(
                contexts@,
                input@,
                batch as int,
                scan_pos as int,
                n as int,
                batch_count as int,
            ),
    ;

    /// Project a scanned monoid value back to the output buffer at scan
    /// position `scan_pos` of batch row `batch`.
    fn store(
        contexts: &[u32],
        output: &mut [u32],
        batch: u32,
        scan_pos: u32,
        n: u32,
        batch_count: u32,
        value: Self::Monoid,
    )
        requires
            Self::writable(contexts@, old(output)@, n as int, batch_count as int),
            batch < batch_count,
            scan_pos < n,
            value.valid(),
        ensures
            final(output)@ == Self::stored(
                contexts@,
                old(output)@,
                batch as int,
                scan_pos as int,
                n as int,
                batch_count as int,
                value,
            ),
    ;
}

/// What one run of a scan reads.
pub struct ScanInput {
    pub contexts: Seq<u32>,
    pub input: Seq<u32>,
    pub n: int,
    pub batch_count: int,
}

/// The input can be loaded.
pub open spec fn is_input<R: ScanRecipe>(job: ScanInput) -> bool {
    &&& job.n > 0
    &&& job.batch_count >= 0
    &&& R::readable(job.contexts, job.input, job.n, job.batch_count)
}

/// The monoid values of row `batch`, in scan order.
pub open spec fn row<R: ScanRecipe>(job: ScanInput, batch: int) -> Seq<R::Monoid> {
    Seq::new(
        job.n as nat,
        |pos: int| R::loaded(job.contexts, job.input, batch, pos, job.n, job.batch_count),
    )
}

/// The inclusive prefix of row `batch` at `pos`.
pub open spec fn prefix<R: ScanRecipe>(job: ScanInput, batch: int, pos: int) -> R::Monoid {
    monoid::fold(row::<R>(job, batch), 0, pos + 1)
}

/// `output` after the first `count` prefixes, row by row, were stored.
pub open spec fn prefixes_stored<R: ScanRecipe>(
    job: ScanInput,
    output: Seq<u32>,
    count: int,
) -> Seq<u32>
    decreases count,
{
    if count <= 0 {
        output
    } else {
        let batch = (count - 1) / job.n;
        let pos = (count - 1) % job.n;
        R::stored(
            job.contexts,
            prefixes_stored::<R>(job, output, count - 1),
            batch,
            pos,
            job.n,
            job.batch_count,
            prefix::<R>(job, batch, pos),
        )
    }
}

/// The values of a row belong to the monoid.
pub proof fn lemma_row_valid<R: ScanRecipe>(job: ScanInput, batch: int)
    requires
        is_input::<R>(job),
        0 <= batch < job.batch_count,
    ensures
        monoid::all_valid(row::<R>(job, batch)),
{
    assert forall|pos: int| 0 <= pos < job.n implies (#[trigger] row::<R>(
        job,
        batch,
    )[pos]).valid() by {
        R::loads_valid(job.contexts, job.input, batch, pos, job.n, job.batch_count);
    }
}

/// The prefixes of a row: the first is what is loaded at its start, and each
/// further one combines the one before with what is loaded at its place.
pub proof fn law_prefixes_of_row<R: ScanRecipe>(job: ScanInput, batch: int, pos: int)
    requires
        is_input::<R>(job),
        0 <= batch < job.batch_count,
        0 <= pos < job.n,
    ensures
        pos == 0 ==> prefix::<R>(job, batch, pos) == R::loaded(
            job.contexts,
            job.input,
            batch,
            pos,
            job.n,
            job.batch_count,
        ),
        pos > 0 ==> prefix::<R>(job, batch, pos) == <R::Monoid as Monoid>::op(
            prefix::<R>(job, batch, pos - 1),
            R::loaded(job.contexts, job.input, batch, pos, job.n, job.batch_count),
        ),
{
    lemma_row_valid::<R>(job, batch);
    let s = row::<R>(job, batch);
    if pos == 0 {
        monoid::lemma_fold_single(s, 0);
    }
}

/// Prefixes are stored row by row and from the start of a row to its end:
/// the store at `pos` of row `batch` comes behind all those of the rows
/// before and `pos` of its own.
pub proof fn law_prefixes_are_stored_in_turn<R: ScanRecipe>(
    job: ScanInput,
    output: Seq<u32>,
    batch: int,
    pos: int,
)
    requires
        0 <= batch,
        0 <= pos < job.n,
    ensures
        prefixes_stored::<R>(job, output, 0) == output,
        prefixes_stored::<R>(job, output, batch * job.n + pos + 1) == R::stored(
            job.contexts,
            prefixes_stored::<R>(job, output, batch * job.n + pos),
            batch,
            pos,
            job.n,
            job.batch_count,
            prefix::<R>(job, batch, pos),
        ),
{
    po2::lemma_split(batch, job.n, pos);
    vstd::arithmetic::mul::lemma_mul_nonnegative(batch, job.n);
}

} // verus!
