//! The kernels of [`ScanExec`](super::scan_exec::ScanExec).
//!
//! A scan of many blocks keeps a spine: one cell per block, in wire format,
//! first with the block's total and later with the prefix through the
//! block. Row `b` of a spine with `nb` blocks is `spine[b * nb..(b + 1) *
//! nb]`. A function here computes what a kernel computes over its whole
//! grid of workgroups.

use vstd::arithmetic::mul::*;
use vstd::prelude::*;

use super::monoid;
use super::monoid::Monoid;
use super::recipe;
use super::recipe::{ScanInput, ScanRecipe};
use super::scan;
use super::scan::{block_inclusive_reduce, block_inclusive_scan, combine_via};
use crate::po2;
use crate::po2::pow2_usize;

verus! {

/// The smaller of `x` and `nb`.
pub open spec fn clip(x: int, nb: int) -> int {
    if x < nb {
        x
    } else {
        nb
    }
}

/// The values in row `b` of a spine.
pub open spec fn spine_row<M: Monoid>(spine: Seq<M::Repr>, nb: int, b: int) -> Seq<M> {
    Seq::new(nb as nat, |k: int| M::unpacked(spine[b * nb + k]))
}

/// The cells of a spine hold values of the monoid.
pub open spec fn spine_valid<M: Monoid>(spine: Seq<M::Repr>) -> bool {
    forall|i: int| 0 <= i < spine.len() ==> M::unpacked(#[trigger] spine[i]).valid()
}

/// The rows of a valid spine are valid.
pub proof fn lemma_spine_row<M: Monoid>(spine: Seq<M::Repr>, nb: int, b: int, rows: int)
    requires
        spine_valid::<M>(spine),
        spine.len() == rows * nb,
        nb >= 0,
        0 <= b < rows,
    ensures
        monoid::all_valid(spine_row::<M>(spine, nb, b)),
{
    assert forall|k: int| 0 <= k < spine_row::<M>(spine, nb, b).len() implies (
    #[trigger] spine_row::<M>(spine, nb, b)[k]).valid() by {
        po2::lemma_within(b, rows, nb, k);
        assert(M::unpacked(spine[b * nb + k]).valid());
    }
}

/// `block` holds the part of `values` from `start` on, and identities past
/// their end.
pub open spec fn is_padded<M: Monoid>(values: Seq<M>, block: Seq<M>, start: int) -> bool {
    forall|t: int|
        0 <= t < block.len() ==> #[trigger] block[t] == if start + t < values.len() {
            values[start + t]
        } else {
            M::unit()
        }
}

/// A padded block combines to what the values under it combine to.
pub proof fn lemma_padded<M: Monoid>(values: Seq<M>, block: Seq<M>, start: int, count: int)
    requires
        monoid::all_valid(values),
        monoid::all_valid(block),
        is_padded(values, block, start),
        start >= 0,
        0 <= count <= block.len(),
    ensures
        monoid::fold(block, 0, count) == monoid::fold(
            values,
            clip(start, values.len() as int),
            clip(start + count, values.len() as int),
        ),
{
    let nb = values.len() as int;
    let live = clip(start + count, nb) - clip(start, nb);
    monoid::lemma_fold_padding(block, 0, live, count);
    assert forall|i: int| 0 <= i < live implies block[i] == #[trigger] values[i + start] by {
        assert(block[i] == values[start + i]);
    }
    monoid::lemma_fold_shift(block, values, 0, live, start);
    if live == 0 {
        assert(monoid::fold(block, 0, 0) == M::unit());
    }
}

/// The part of row `b` of a spine that a workgroup reads: the cells from
/// `start` on, with identities past the end of the row.
fn load_spine_block<M: Monoid>(
    spine: &Vec<M::Repr>,
    nb: usize,
    b: usize,
    start: usize,
    wg_size: usize,
    Ghost(rows): Ghost<int>,
) -> (r: Vec<M>)
    requires
        spine_valid::<M>(spine@),
        spine@.len() == rows * nb,
        b < rows,
        start + wg_size <= usize::MAX,
    ensures
        r@.len() == wg_size,
        monoid::all_valid(r@),
        is_padded(spine_row::<M>(spine@, nb as int, b as int), r@, start as int),
{
    let total = spine.len();
    let mut r: Vec<M> = Vec::with_capacity(wg_size);
    let mut t: usize = 0;
    while t < wg_size
        invariant
            spine_valid::<M>(spine@),
            spine@.len() == rows * nb,
            spine@.len() == total,
            b < rows,
            start + wg_size <= usize::MAX,
            t <= wg_size,
            r@.len() == t,
            monoid::all_valid(r@),
            is_padded(spine_row::<M>(spine@, nb as int, b as int), r@, start as int),
        decreases wg_size - t,
    {
        let pos: usize = start + t;
        if pos < nb {
            proof {
                po2::lemma_within(b as int, rows, nb as int, pos as int);
            }
            r.push(M::from_repr(spine[b * nb + pos]));
        } else {
            proof {
                M::laws(M::unit(), M::unit(), M::unit());
            }
            r.push(M::identity());
        }
        t = t + 1;
    }
    r
}

/// The upper spine that reduces a lower one.
pub open spec fn is_reduced<M: Monoid>(
    lower: Seq<M::Repr>,
    upper: Seq<M::Repr>,
    wg_size: int,
    nb_lower: int,
    nb_upper: int,
) -> bool {
    forall|i: int|
        0 <= i < upper.len() ==> #[trigger] upper[i] == M::packed(
            monoid::fold(
                spine_row::<M>(lower, nb_lower, i / nb_upper),
                clip((i % nb_upper) * wg_size, nb_lower),
                clip((i % nb_upper + 1) * wg_size, nb_lower),
            ),
        )
}

/// Spine reduce: each upper-level cell becomes the reduction of `wg_size`
/// consecutive lower-level cells.
pub(crate) fn k_reduce_spine<M: Monoid>(
    spine_lower: &Vec<M::Repr>,
    log_warp: u32,
    log_wg: u32,
    num_warps: u32,
    batch_count: usize,
    nb_lower: usize,
    nb_upper: usize,
) -> (spine_upper: Vec<M::Repr>)
    requires
        scan::block_fits(po2::p2(log_wg as nat), num_warps as int, log_warp, log_wg),
        log_wg < usize::BITS,
        nb_upper > 0,
        nb_upper * po2::p2(log_wg as nat) <= usize::MAX,
        spine_valid::<M>(spine_lower@),
        spine_lower@.len() == batch_count * nb_lower,
    ensures
        spine_upper@.len() == batch_count * nb_upper,
        is_reduced::<M>(
            spine_lower@,
            spine_upper@,
            po2::p2(log_wg as nat),
            nb_lower as int,
            nb_upper as int,
        ),
{
    let wg_size = pow2_usize(log_wg);
    let mut upper: Vec<M::Repr> = Vec::new();
    let mut batch: usize = 0;
    while batch < batch_count
        invariant
            scan::block_fits(wg_size as int, num_warps as int, log_warp, log_wg),
            nb_upper > 0,
            nb_upper * wg_size <= usize::MAX,
            spine_valid::<M>(spine_lower@),
            spine_lower@.len() == batch_count * nb_lower,
            batch <= batch_count,
            upper@.len() == batch * nb_upper,
            is_reduced::<M>(
                spine_lower@,
                upper@,
                wg_size as int,
                nb_lower as int,
                nb_upper as int,
            ),
        decreases batch_count - batch,
    {
        let mut block: usize = 0;
        while block < nb_upper
            invariant
                scan::block_fits(wg_size as int, num_warps as int, log_warp, log_wg),
                nb_upper > 0,
                nb_upper * wg_size <= usize::MAX,
                spine_valid::<M>(spine_lower@),
                spine_lower@.len() == batch_count * nb_lower,
                batch < batch_count,
                block <= nb_upper,
                upper@.len() == batch * nb_upper + block,
                is_reduced::<M>(
                    spine_lower@,
                    upper@,
                    wg_size as int,
                    nb_lower as int,
                    nb_upper as int,
                ),
            decreases nb_upper - block,
        {
            proof {
                po2::lemma_split(batch as int, nb_upper as int, block as int);
                po2::lemma_p2(log_wg as nat);
                po2::lemma_within(block as int, nb_upper as int, wg_size as int, 0);
                lemma_spine_row::<M>(
                    spine_lower@,
                    nb_lower as int,
                    batch as int,
                    batch_count as int,
                );
            }
            let mut scratch = M::alloc_scratch(num_warps);
            let values = load_spine_block::<M>(
                spine_lower,
                nb_lower,
                batch,
                block * wg_size,
                wg_size,
                Ghost(batch_count as int),
            );
            let total = block_inclusive_reduce::<M>(
                values.as_slice(),
                &mut scratch,
                log_warp,
                log_wg,
            );
            proof {
                let row = spine_row::<M>(spine_lower@, nb_lower as int, batch as int);
                lemma_padded(row, values@, block * wg_size, wg_size as int);
                lemma_mul_is_distributive_add_other_way(wg_size as int, block as int, 1);
                monoid::lemma_fold_valid(values@, 0, wg_size as int);
            }
            upper.push(M::to_repr(total));
            block = block + 1;
        }
        proof {
            lemma_mul_is_distributive_add_other_way(nb_upper as int, batch as int, 1);
        }
        batch = batch + 1;
    }
    upper
}

/// The spine whose cells are the prefixes of the rows of another.
pub open spec fn is_scanned<M: Monoid>(
    before: Seq<M::Repr>,
    after: Seq<M::Repr>,
    num_blocks: int,
) -> bool {
    forall|i: int|
        0 <= i < after.len() ==> #[trigger] after[i] == M::packed(
            monoid::fold(
                spine_row::<M>(before, num_blocks, i / num_blocks),
                0,
                i % num_blocks + 1,
            ),
        )
}

/// Top-level spine scan: inclusive scan within one workgroup per batch row.
/// One workgroup has a thread for every block.
pub(crate) fn spine_top_scan<M: Monoid>(
    spine: &Vec<M::Repr>,
    log_warp: u32,
    log_wg: u32,
    num_warps: u32,
    batch_count: usize,
    num_blocks: usize,
) -> (r: Vec<M::Repr>)
    requires
        scan::block_fits(po2::p2(log_wg as nat), num_warps as int, log_warp, log_wg),
        log_wg < usize::BITS,
        0 < num_blocks <= po2::p2(log_wg as nat),
        spine_valid::<M>(spine@),
        spine@.len() == batch_count * num_blocks,
    ensures
        r@.len() == spine@.len(),
        is_scanned::<M>(spine@, r@, num_blocks as int),
{
    let wg_size = pow2_usize(log_wg);
    let mut out: Vec<M::Repr> = Vec::new();
    let mut batch: usize = 0;
    while batch < batch_count
        invariant
            scan::block_fits(wg_size as int, num_warps as int, log_warp, log_wg),
            0 < num_blocks <= wg_size,
            spine_valid::<M>(spine@),
            spine@.len() == batch_count * num_blocks,
            batch <= batch_count,
            out@.len() == batch * num_blocks,
            is_scanned::<M>(spine@, out@, num_blocks as int),
        decreases batch_count - batch,
    {
        let ghost row = spine_row::<M>(spine@, num_blocks as int, batch as int);
        proof {
            lemma_spine_row::<M>(spine@, num_blocks as int, batch as int, batch_count as int);
        }
        let mut scratch = M::alloc_scratch(num_warps);
        let values = load_spine_block::<M>(
            spine,
            num_blocks,
            batch,
            0,
            wg_size,
            Ghost(batch_count as int),
        );
        let scanned = block_inclusive_scan::<M>(
            values.as_slice(),
            &mut scratch,
            log_warp,
            log_wg,
        );
        let mut tid: usize = 0;
        while tid < num_blocks
            invariant
                0 < num_blocks <= wg_size,
                tid <= num_blocks,
                row == spine_row::<M>(spine@, num_blocks as int, batch as int),
                monoid::all_valid(row),
                values@.len() == wg_size,
                monoid::all_valid(values@),
                is_padded(row, values@, 0),
                scanned@.len() == wg_size,
                forall|i: int|
                    0 <= i < scanned@.len() ==> #[trigger] scanned@[i] == monoid::fold(
                        values@,
                        0,
                        i + 1,
                    ),
                out@.len() == batch * num_blocks + tid,
                is_scanned::<M>(spine@, out@, num_blocks as int),
            decreases num_blocks - tid,
        {
            proof {
                po2::lemma_split(batch as int, num_blocks as int, tid as int);
                lemma_padded(row, values@, 0, tid + 1);
                monoid::lemma_fold_valid(values@, 0, tid + 1);
            }
            out.push(M::to_repr(scanned[tid]));
            tid = tid + 1;
        }
        proof {
            lemma_mul_is_distributive_add_other_way(num_blocks as int, batch as int, 1);
        }
        batch = batch + 1;
    }
    out
}

/// Cell `pos` of row `b` of a spine after the carry from the upper spine
/// was put in front.
pub open spec fn with_carry<M: Monoid>(
    lower: Seq<M::Repr>,
    upper: Seq<M::Repr>,
    wg_size: int,
    nb_lower: int,
    nb_upper: int,
    b: int,
    pos: int,
) -> M {
    let group = pos / wg_size;
    let own = monoid::fold(spine_row::<M>(lower, nb_lower, b), group * wg_size, pos + 1);
    if group > 0 {
        M::op(M::unpacked(upper[b * nb_upper + (group - 1)]), own)
    } else {
        own
    }
}

/// The lower spine that carries were applied to.
pub open spec fn is_applied<M: Monoid>(
    lower: Seq<M::Repr>,
    upper: Seq<M::Repr>,
    after: Seq<M::Repr>,
    wg_size: int,
    nb_lower: int,
    nb_upper: int,
) -> bool {
    forall|i: int|
        0 <= i < after.len() ==> #[trigger] after[i] == M::packed(
            with_carry::<M>(
                lower,
                upper,
                wg_size,
                nb_lower,
                nb_upper,
                i / nb_lower,
                i % nb_lower,
            ),
        )
}

/// Spine apply: re-scans `wg_size` lower-level cells, combines with the
/// upper-level carry. One workgroup per upper-level cell.
pub(crate) fn k_apply_spine<M: Monoid>(
    spine_lower: &Vec<M::Repr>,
    spine_upper: &Vec<M::Repr>,
    log_warp: u32,
    log_wg: u32,
    num_warps: u32,
    batch_count: usize,
    nb_lower: usize,
    nb_upper: usize,
) -> (r: Vec<M::Repr>)
    requires
        scan::block_fits(po2::p2(log_wg as nat), num_warps as int, log_warp, log_wg),
        log_wg < usize::BITS,
        nb_lower == nb_upper * po2::p2(log_wg as nat),
        nb_upper > 0,
        spine_valid::<M>(spine_lower@),
        spine_lower@.len() == batch_count * nb_lower,
        spine_valid::<M>(spine_upper@),
        spine_upper@.len() == batch_count * nb_upper,
    ensures
        r@.len() == spine_lower@.len(),
        is_applied::<M>(
            spine_lower@,
            spine_upper@,
            r@,
            po2::p2(log_wg as nat),
            nb_lower as int,
            nb_upper as int,
        ),
{
    let wg_size = pow2_usize(log_wg);
    let mut out: Vec<M::Repr> = Vec::new();
    let mut batch: usize = 0;
    while batch < batch_count
        invariant
            scan::block_fits(wg_size as int, num_warps as int, log_warp, log_wg),
            wg_size > 0,
            nb_lower == nb_upper * wg_size,
            nb_upper > 0,
            spine_valid::<M>(spine_lower@),
            spine_lower@.len() == batch_count * nb_lower,
            spine_valid::<M>(spine_upper@),
            spine_upper@.len() == batch_count * nb_upper,
            batch <= batch_count,
            out@.len() == batch * nb_lower,
            is_applied::<M>(
                spine_lower@,
                spine_upper@,
                out@,
                wg_size as int,
                nb_lower as int,
                nb_upper as int,
            ),
        decreases batch_count - batch,
    {
        let mut group: usize = 0;
        while group < nb_upper
            invariant
                scan::block_fits(wg_size as int, num_warps as int, log_warp, log_wg),
                wg_size > 0,
                nb_lower == nb_upper * wg_size,
                nb_upper > 0,
                spine_valid::<M>(spine_lower@),
                spine_lower@.len() == batch_count * nb_lower,
                spine_valid::<M>(spine_upper@),
                spine_upper@.len() == batch_count * nb_upper,
                batch < batch_count,
                group <= nb_upper,
                out@.len() == batch * nb_lower + group * wg_size,
                is_applied::<M>(
                    spine_lower@,
                    spine_upper@,
                    out@,
                    wg_size as int,
                    nb_lower as int,
                    nb_upper as int,
                ),
            decreases nb_upper - group,
        {
            apply_group::<M>(
                spine_lower,
                spine_upper,
                &mut out,
                log_warp,
                log_wg,
                num_warps,
                batch_count,
                nb_lower,
                nb_upper,
                batch,
                group,
                wg_size,
            );
            proof {
                lemma_mul_is_distributive_add_other_way(wg_size as int, group as int, 1);
            }
            group = group + 1;
        }
        proof {
            lemma_mul_is_distributive_add_other_way(nb_lower as int, batch as int, 1);
        }
        batch = batch + 1;
    }
    out
}

/// What one workgroup of [`k_apply_spine`] adds to the result.
fn apply_group<M: Monoid>(
    spine_lower: &Vec<M::Repr>,
    spine_upper: &Vec<M::Repr>,
    out: &mut Vec<M::Repr>,
    log_warp: u32,
    log_wg: u32,
    num_warps: u32,
    batch_count: usize,
    nb_lower: usize,
    nb_upper: usize,
    batch: usize,
    group: usize,
    wg_size: usize,
)
    requires
        scan::block_fits(wg_size as int, num_warps as int, log_warp, log_wg),
        wg_size > 0,
        nb_lower == nb_upper * wg_size,
        spine_valid::<M>(spine_lower@),
        spine_lower@.len() == batch_count * nb_lower,
        spine_valid::<M>(spine_upper@),
        spine_upper@.len() == batch_count * nb_upper,
        batch < batch_count,
        group < nb_upper,
        old(out)@.len() == batch * nb_lower + group * wg_size,
        is_applied::<M>(
            spine_lower@,
            spine_upper@,
            old(out)@,
            wg_size as int,
            nb_lower as int,
            nb_upper as int,
        ),
    ensures
        final(out)@.len() == batch * nb_lower + group * wg_size + wg_size,
        is_applied::<M>(
            spine_lower@,
            spine_upper@,
            final(out)@,
            wg_size as int,
            nb_lower as int,
            nb_upper as int,
        ),
{
    let ghost row = spine_row::<M>(spine_lower@, nb_lower as int, batch as int);
    let ghost ws = wg_size as int;
    let upper_len = spine_upper.len();
    proof {
        lemma_spine_row::<M>(spine_lower@, nb_lower as int, batch as int, batch_count as int);
        po2::lemma_within(group as int, nb_upper as int, ws, 0);
        po2::lemma_within(batch as int, batch_count as int, nb_upper as int, group as int);
    }
    let start: usize = group * wg_size;
    let mut scratch = M::alloc_scratch(num_warps);
    let values = load_spine_block::<M>(
        spine_lower,
        nb_lower,
        batch,
        start,
        wg_size,
        Ghost(batch_count as int),
    );
    let scanned = block_inclusive_scan::<M>(values.as_slice(), &mut scratch, log_warp, log_wg);
    let mut tid: usize = 0;
    while tid < wg_size
        invariant
            tid <= wg_size,
            ws == wg_size,
            wg_size > 0,
            start == group * wg_size,
            start + wg_size <= nb_lower,
            batch < batch_count,
            group < nb_upper,
            spine_valid::<M>(spine_upper@),
            spine_upper@.len() == batch_count * nb_upper,
            spine_upper@.len() == upper_len,
            row == spine_row::<M>(spine_lower@, nb_lower as int, batch as int),
            monoid::all_valid(row),
            values@.len() == wg_size,
            monoid::all_valid(values@),
            is_padded(row, values@, start as int),
            scanned@.len() == wg_size,
            forall|i: int|
                0 <= i < scanned@.len() ==> #[trigger] scanned@[i] == monoid::fold(
                    values@,
                    0,
                    i + 1,
                ),
            out@.len() == batch * nb_lower + start + tid,
            is_applied::<M>(
                spine_lower@,
                spine_upper@,
                out@,
                ws,
                nb_lower as int,
                nb_upper as int,
            ),
        decreases wg_size - tid,
    {
        proof {
            po2::lemma_split(batch as int, nb_lower as int, start + tid);
            po2::lemma_split(group as int, ws, tid as int);
            lemma_padded(row, values@, start as int, tid + 1);
            monoid::lemma_fold_valid(values@, 0, tid + 1);
            let own = monoid::fold(values@, 0, tid + 1);
            M::laws(own, own, own);
        }
        let own = M::to_repr(scanned[tid]);
        if group > 0 {
            proof {
                po2::lemma_within(
                    batch as int,
                    batch_count as int,
                    nb_upper as int,
                    group - 1,
                );
            }
            let carry = spine_upper[batch * nb_upper + (group - 1)];
            out.push(combine_via::<M>(carry, own));
        } else {
            out.push(own);
        }
        tid = tid + 1;
    }
}

/// The cells hold the totals of blocks of `span` values of a row.
#[verifier::opaque]
pub open spec fn is_totals<R: ScanRecipe>(
    job: ScanInput,
    spine: Seq<<R::Monoid as Monoid>::Repr>,
    nb: int,
    span: int,
) -> bool {
    &&& spine.len() == job.batch_count * nb
    &&& forall|i: int|
        0 <= i < spine.len() ==> #[trigger] spine[i] == <R::Monoid as Monoid>::packed(
            monoid::fold(recipe::row::<R>(job, i / nb), (i % nb) * span, (i % nb + 1) * span),
        )
}

/// The cells hold the prefixes through blocks of `span` values of a row.
#[verifier::opaque]
pub open spec fn is_prefixes<R: ScanRecipe>(
    job: ScanInput,
    spine: Seq<<R::Monoid as Monoid>::Repr>,
    nb: int,
    span: int,
) -> bool {
    &&& spine.len() == job.batch_count * nb
    &&& forall|i: int|
        0 <= i < spine.len() ==> #[trigger] spine[i] == <R::Monoid as Monoid>::packed(
            monoid::fold(recipe::row::<R>(job, i / nb), 0, (i % nb + 1) * span),
        )
}

/// What a cell of a spine of totals holds.
pub proof fn lemma_total<R: ScanRecipe>(
    job: ScanInput,
    spine: Seq<<R::Monoid as Monoid>::Repr>,
    nb: int,
    span: int,
    b: int,
    k: int,
)
    requires
        recipe::is_input::<R>(job),
        is_totals::<R>(job, spine, nb, span),
        nb * span == job.n,
        span > 0,
        0 <= b < job.batch_count,
        0 <= k < nb,
    ensures
        0 <= b * nb + k < spine.len(),
        monoid::all_valid(recipe::row::<R>(job, b)),
        0 <= k * span,
        (k + 1) * span <= job.n,
        <R::Monoid as Monoid>::unpacked(spine[b * nb + k]) == monoid::fold(
            recipe::row::<R>(job, b),
            k * span,
            (k + 1) * span,
        ),
        <R::Monoid as Monoid>::unpacked(spine[b * nb + k]).valid(),
{
    reveal(is_totals);
    recipe::lemma_row_valid::<R>(job, b);
    po2::lemma_within(b, job.batch_count, nb, k);
    po2::lemma_split(b, nb, k);
    po2::lemma_within(k, nb, span, 0);
    lemma_mul_is_distributive_add_other_way(span, k, 1);
    let row = recipe::row::<R>(job, b);
    monoid::lemma_fold_valid(row, k * span, (k + 1) * span);
    let total = monoid::fold(row, k * span, (k + 1) * span);
    <R::Monoid as Monoid>::laws(total, total, total);
    assert(spine[b * nb + k] == <R::Monoid as Monoid>::packed(total));
}

/// What a cell of a spine of prefixes holds.
pub proof fn lemma_prefix<R: ScanRecipe>(
    job: ScanInput,
    spine: Seq<<R::Monoid as Monoid>::Repr>,
    nb: int,
    span: int,
    b: int,
    k: int,
)
    requires
        recipe::is_input::<R>(job),
        is_prefixes::<R>(job, spine, nb, span),
        nb * span == job.n,
        span > 0,
        0 <= b < job.batch_count,
        0 <= k < nb,
    ensures
        0 <= b * nb + k < spine.len(),
        <R::Monoid as Monoid>::unpacked(spine[b * nb + k]) == monoid::fold(
            recipe::row::<R>(job, b),
            0,
            (k + 1) * span,
        ),
        <R::Monoid as Monoid>::unpacked(spine[b * nb + k]).valid(),
{
    reveal(is_prefixes);
    recipe::lemma_row_valid::<R>(job, b);
    po2::lemma_within(b, job.batch_count, nb, k);
    po2::lemma_split(b, nb, k);
    po2::lemma_within(k, nb, span, 0);
    lemma_mul_is_distributive_add_other_way(span, k, 1);
    let row = recipe::row::<R>(job, b);
    monoid::lemma_fold_valid(row, 0, (k + 1) * span);
    let whole = monoid::fold(row, 0, (k + 1) * span);
    <R::Monoid as Monoid>::laws(whole, whole, whole);
    assert(spine[b * nb + k] == <R::Monoid as Monoid>::packed(whole));
}

/// The cells of a spine of totals, or of prefixes, belong to the monoid.
pub proof fn lemma_spine_is_valid<R: ScanRecipe>(
    job: ScanInput,
    spine: Seq<<R::Monoid as Monoid>::Repr>,
    nb: int,
    span: int,
)
    requires
        recipe::is_input::<R>(job),
        is_totals::<R>(job, spine, nb, span) || is_prefixes::<R>(job, spine, nb, span),
        nb * span == job.n,
        span > 0,
        nb > 0,
    ensures
        spine.len() == job.batch_count * nb,
        spine_valid::<R::Monoid>(spine),
{
    assert(spine.len() == job.batch_count * nb) by {
        reveal(is_totals);
        reveal(is_prefixes);
    }
    assert forall|i: int| 0 <= i < spine.len() implies <R::Monoid as Monoid>::unpacked(
        #[trigger] spine[i],
    ).valid() by {
        po2::lemma_join(i, nb);
        po2::lemma_quotient_below(i, job.batch_count, nb);
        if is_totals::<R>(job, spine, nb, span) {
            lemma_total::<R>(job, spine, nb, span, i / nb, i % nb);
        } else {
            lemma_prefix::<R>(job, spine, nb, span, i / nb, i % nb);
        }
    }
}

/// A range of a row of totals combines to the range of values under it.
pub proof fn lemma_totals_fold<R: ScanRecipe>(
    job: ScanInput,
    spine: Seq<<R::Monoid as Monoid>::Repr>,
    nb: int,
    span: int,
    b: int,
    lo: int,
    hi: int,
)
    requires
        recipe::is_input::<R>(job),
        is_totals::<R>(job, spine, nb, span),
        nb * span == job.n,
        span > 0,
        0 <= b < job.batch_count,
        0 <= lo <= hi <= nb,
    ensures
        0 <= lo * span <= hi * span <= job.n,
        monoid::fold(spine_row::<R::Monoid>(spine, nb, b), lo, hi) == monoid::fold(
            recipe::row::<R>(job, b),
            lo * span,
            hi * span,
        ),
{
    let cells = spine_row::<R::Monoid>(spine, nb, b);
    let row = recipe::row::<R>(job, b);
    recipe::lemma_row_valid::<R>(job, b);
    lemma_mul_inequality(hi, nb, span);
    assert forall|k: int| lo <= k < hi implies #[trigger] cells[k] == monoid::fold(
        row,
        k * span,
        (k + 1) * span,
    ) by {
        lemma_total::<R>(job, spine, nb, span, b, k);
    }
    monoid::lemma_fold_chunks(row, cells, span, lo, hi);
}

/// Reducing totals gives the totals of larger blocks.
pub proof fn lemma_reduced<R: ScanRecipe>(
    job: ScanInput,
    lower: Seq<<R::Monoid as Monoid>::Repr>,
    upper: Seq<<R::Monoid as Monoid>::Repr>,
    wg_size: int,
    nb_lower: int,
    nb_upper: int,
    span: int,
)
    requires
        recipe::is_input::<R>(job),
        is_totals::<R>(job, lower, nb_lower, span),
        is_reduced::<R::Monoid>(lower, upper, wg_size, nb_lower, nb_upper),
        upper.len() == job.batch_count * nb_upper,
        nb_lower == nb_upper * wg_size,
        nb_lower * span == job.n,
        span > 0,
        wg_size > 0,
        nb_upper > 0,
    ensures
        is_totals::<R>(job, upper, nb_upper, wg_size * span),
{
    assert forall|i: int| 0 <= i < upper.len() implies #[trigger] upper[i] == <R::Monoid as
        Monoid>::packed(
        monoid::fold(
            recipe::row::<R>(job, i / nb_upper),
            (i % nb_upper) * (wg_size * span),
            (i % nb_upper + 1) * (wg_size * span),
        ),
    ) by {
        let c = i % nb_upper;
        po2::lemma_join(i, nb_upper);
        po2::lemma_quotient_below(i, job.batch_count, nb_upper);
        po2::lemma_within(c, nb_upper, wg_size, 0);
        lemma_mul_is_distributive_add_other_way(wg_size, c, 1);
        lemma_totals_fold::<R>(
            job,
            lower,
            nb_lower,
            span,
            i / nb_upper,
            c * wg_size,
            (c + 1) * wg_size,
        );
        lemma_mul_is_associative(c, wg_size, span);
        lemma_mul_is_associative(c + 1, wg_size, span);
    }
    reveal(is_totals);
}

/// Scanning totals gives prefixes.
pub proof fn lemma_scanned<R: ScanRecipe>(
    job: ScanInput,
    before: Seq<<R::Monoid as Monoid>::Repr>,
    after: Seq<<R::Monoid as Monoid>::Repr>,
    nb: int,
    span: int,
)
    requires
        recipe::is_input::<R>(job),
        is_totals::<R>(job, before, nb, span),
        is_scanned::<R::Monoid>(before, after, nb),
        after.len() == job.batch_count * nb,
        nb * span == job.n,
        span > 0,
        nb > 0,
    ensures
        is_prefixes::<R>(job, after, nb, span),
{
    assert forall|i: int| 0 <= i < after.len() implies #[trigger] after[i] == <R::Monoid as
        Monoid>::packed(
        monoid::fold(recipe::row::<R>(job, i / nb), 0, (i % nb + 1) * span),
    ) by {
        po2::lemma_join(i, nb);
        po2::lemma_quotient_below(i, job.batch_count, nb);
        lemma_totals_fold::<R>(job, before, nb, span, i / nb, 0, i % nb + 1);
        lemma_mul_basics(span);
    }
    reveal(is_prefixes);
}

/// Applying prefixes of larger blocks to totals gives prefixes.
pub proof fn lemma_applied<R: ScanRecipe>(
    job: ScanInput,
    lower: Seq<<R::Monoid as Monoid>::Repr>,
    upper: Seq<<R::Monoid as Monoid>::Repr>,
    after: Seq<<R::Monoid as Monoid>::Repr>,
    wg_size: int,
    nb_lower: int,
    nb_upper: int,
    span: int,
)
    requires
        recipe::is_input::<R>(job),
        is_totals::<R>(job, lower, nb_lower, span),
        is_prefixes::<R>(job, upper, nb_upper, wg_size * span),
        is_applied::<R::Monoid>(lower, upper, after, wg_size, nb_lower, nb_upper),
        after.len() == job.batch_count * nb_lower,
        nb_lower == nb_upper * wg_size,
        nb_lower * span == job.n,
        span > 0,
        wg_size > 0,
        nb_upper > 0,
    ensures
        is_prefixes::<R>(job, after, nb_lower, span),
{
    po2::lemma_within(0, nb_upper, wg_size, 0);
    po2::lemma_within(0, wg_size, span, 0);
    lemma_mul_is_associative(nb_upper, wg_size, span);
    assert forall|i: int| 0 <= i < after.len() implies #[trigger] after[i] == <R::Monoid as
        Monoid>::packed(
        monoid::fold(recipe::row::<R>(job, i / nb_lower), 0, (i % nb_lower + 1) * span),
    ) by {
        let b = i / nb_lower;
        let pos = i % nb_lower;
        let group = pos / wg_size;
        let row = recipe::row::<R>(job, b);
        po2::lemma_join(i, nb_lower);
        po2::lemma_quotient_below(i, job.batch_count, nb_lower);
        po2::lemma_join(pos, wg_size);
        po2::lemma_quotient_below(pos, nb_upper, wg_size);
        lemma_mul_nonnegative(group, wg_size);
        lemma_totals_fold::<R>(job, lower, nb_lower, span, b, group * wg_size, pos + 1);
        recipe::lemma_row_valid::<R>(job, b);
        monoid::lemma_fold_split(row, 0, (group * wg_size) * span, (pos + 1) * span);
        if group > 0 {
            lemma_prefix::<R>(job, upper, nb_upper, wg_size * span, b, group - 1);
            lemma_mul_is_associative(group, wg_size, span);
        } else {
            lemma_mul_basics(wg_size);
            lemma_mul_basics(span);
        }
    }
    reveal(is_prefixes);
}

} // verus!
