//! `ScanExec`: driver for [`ScanRecipe`]-based scans.
//!
//! Runs the standard map, scan, unmap pipeline against a recipe, with a
//! recursive spine to support rows larger than `wg_size^2`.
//!
//! # Pipeline
//!
//! For `n <= wg_size`: a single `k_single_block` kernel does the whole scan
//! in one workgroup per row.
//!
//! For `n > wg_size`: choose `L = ceil(log_n / log_wg) - 2` spine recursion
//! levels and dispatch `2 (L + 1) + 1` kernels:
//!
//! 1. `k0_reduce`: each block reduces and writes its total to
//!    `spine[0][block]`.
//! 2. `k_reduce_spine`, `L` times: each upper-spine cell is the reduction of
//!    `wg_size` lower-spine cells.
//! 3. `spine_top_scan`: one workgroup per row does the top-level inclusive
//!    scan.
//! 4. `k_apply_spine`, `L` times, from the top down: each group re-scans
//!    `wg_size` lower-spine cells and combines with the upper-spine carry.
//!    After this stage `spine[0][k]` holds the inclusive prefix of the input
//!    through block `k`.
//! 5. `k0_apply`: re-loads input, re-scans within each block, combines with
//!    `spine[0][block - 1]` as carry, projects via `ScanRecipe::store`.
//!
//! # Spine layout
//!
//! Each spine level has a fixed byte offset in the device's scratch, sized
//! for `max_batch * max_num_blocks_at_level` wire-format values. Smaller
//! calls use only the leftmost portion of each slice.

use core::marker::PhantomData;

use vstd::arithmetic::div_mod::*;
use vstd::arithmetic::mul::*;
use vstd::arithmetic::power2::*;
use vstd::prelude::*;

use super::device::Device;
use super::monoid;
use super::monoid::Monoid;
use super::recipe;
use super::recipe::{ScanInput, ScanRecipe};
use super::scan;
use super::scan::{block_inclusive_reduce, block_inclusive_scan, combine_via};
use super::spine;
use super::spine::{k_apply_spine, k_reduce_spine, spine_top_scan};
use crate::po2;
use crate::po2::{floor_log2, pow2_u32};

verus! {

/// Spine recursion depth needed to scan a row of `2^log_n` values with
/// workgroups of `2^log_wg`: `ceil(log_n / log_wg) - 2`, and 0 where that is
/// negative.
pub open spec fn levels_needed(log_n: int, log_wg: int) -> int {
    let chunks = (log_n + log_wg - 1) / log_wg;
    if chunks >= 2 {
        chunks - 2
    } else {
        0
    }
}

/// Number of blocks at spine level `level`: `n / wg_size^(level + 1)`, but
/// at least 1.
pub open spec fn blocks_at(log_n: int, log_wg: int, level: int) -> int {
    let covered = log_wg * (level + 1);
    if log_n > covered {
        po2::p2((log_n - covered) as nat)
    } else {
        1
    }
}

/// Byte offset of spine level `level`: the levels below take `max_batch *
/// blocks` cells of `cell_bytes` each.
pub open spec fn spine_offset(
    log_n: int,
    log_wg: int,
    max_batch: int,
    cell_bytes: int,
    level: int,
) -> int
    decreases level,
{
    if level <= 0 {
        0
    } else {
        spine_offset(log_n, log_wg, max_batch, cell_bytes, level - 1) + max_batch * blocks_at(
            log_n,
            log_wg,
            level - 1,
        ) * cell_bytes
    }
}

/// Bytes of a value of the recipe's monoid in wire format.
pub open spec fn cell_bytes<R: ScanRecipe>() -> int {
    4 * <R::Monoid as Monoid>::REPR_LANES
}

/// Bytes that the spines take for rows of up to `2^log_n` values in batches
/// of up to `max_batch`.
pub open spec fn spine_bytes<R: ScanRecipe>(log_n: int, log_wg: int, max_batch: int) -> int {
    spine_offset(
        log_n,
        log_wg,
        max_batch,
        cell_bytes::<R>(),
        levels_needed(log_n, log_wg) + 1,
    )
}

/// Spine recursion depth needed to scan a row of size `2^log_n` on a device
/// with workgroup-size exponent `log_wg`. `0` means a single-pass spine
/// (level 0 only); `k` means `k` recursive reductions before the top-level
/// scan fits in one workgroup.
pub fn spine_levels_needed(log_n: u32, log_wg: u32) -> (r: u32)
    requires
        log_wg > 0,
    ensures
        r == levels_needed(log_n as int, log_wg as int),
{
    let whole: u32 = log_n / log_wg;
    let rest: u32 = log_n % log_wg;
    proof {
        lemma_fundamental_div_mod(log_n as int, log_wg as int);
        let w = log_wg as int;
        lemma_mul_is_commutative(w, whole as int);
        if rest == 0 {
            po2::lemma_split(whole as int, w, w - 1);
        } else {
            lemma_mul_is_distributive_add_other_way(w, whole as int, 1);
            po2::lemma_split(whole + 1, w, rest - 1);
        }
    }
    if rest == 0 {
        if whole >= 2 {
            whole - 2
        } else {
            0
        }
    } else if whole >= 1 {
        whole - 1
    } else {
        0
    }
}

/// Number of blocks at spine level `level`: `n / wg_size^(level+1)`, floored
/// at 1.
pub fn num_blocks_at_level(log_n: u32, log_wg: u32, level: u32) -> (r: u32)
    requires
        log_wg * (level + 1) <= u32::MAX,
        level < u32::MAX,
        log_n < log_wg * (level + 1) + 32,
    ensures
        r == blocks_at(log_n as int, log_wg as int, level as int),
{
    let covered: u32 = log_wg * (level + 1);
    if log_n > covered {
        pow2_u32(log_n - covered)
    } else {
        1
    }
}

/// The values of row `batch` at the scan positions from `start` on.
fn load_block<R: ScanRecipe>(
    contexts: &[u32],
    input: &[u32],
    batch: u32,
    start: u32,
    count: u32,
    n: u32,
    batch_count: u32,
    Ghost(job): Ghost<ScanInput>,
) -> (r: Vec<R::Monoid>)
    requires
        job == (ScanInput {
            contexts: contexts@,
            input: input@,
            n: n as int,
            batch_count: batch_count as int,
        }),
        recipe::is_input::<R>(job),
        batch < batch_count,
        start + count <= n,
    ensures
        r@ == recipe::row::<R>(job, batch as int).subrange(start as int, start + count),
        monoid::all_valid(r@),
{
    let ghost row = recipe::row::<R>(job, batch as int);
    let mut r: Vec<R::Monoid> = Vec::with_capacity(count as usize);
    let mut tid: u32 = 0;
    while tid < count
        invariant
            job == (ScanInput {
                contexts: contexts@,
                input: input@,
                n: n as int,
                batch_count: batch_count as int,
            }),
            recipe::is_input::<R>(job),
            row == recipe::row::<R>(job, batch as int),
            batch < batch_count,
            start + count <= n,
            tid <= count,
            r@.len() == tid,
            forall|t: int| 0 <= t < tid ==> #[trigger] r@[t] == row[start + t],
        decreases count - tid,
    {
        r.push(R::load(contexts, input, batch, start + tid, n, batch_count));
        tid = tid + 1;
    }
    proof {
        assert(r@ =~= row.subrange(start as int, start + count));
        recipe::lemma_row_valid::<R>(job, batch as int);
    }
    r
}

/// Store the results of a workgroup: `values[t]` at scan position `start +
/// t` of row `batch`.
fn store_block<R: ScanRecipe>(
    contexts: &[u32],
    output: &mut [u32],
    batch: u32,
    start: u32,
    n: u32,
    batch_count: u32,
    values: &Vec<R::Monoid>,
    Ghost(job): Ghost<ScanInput>,
    Ghost(before): Ghost<Seq<u32>>,
)
    requires
        job.contexts == contexts@,
        job.n == n,
        job.batch_count == batch_count,
        recipe::is_input::<R>(job),
        R::writable(contexts@, old(output)@, n as int, batch_count as int),
        batch < batch_count,
        start + values@.len() <= n,
        forall|t: int|
            0 <= t < values@.len() ==> #[trigger] values@[t] == recipe::prefix::<R>(
                job,
                batch as int,
                start + t,
            ),
        old(output)@ == recipe::prefixes_stored::<R>(job, before, batch * n + start),
    ensures
        R::writable(contexts@, final(output)@, n as int, batch_count as int),
        final(output)@ == recipe::prefixes_stored::<R>(
            job,
            before,
            batch * n + start + values@.len(),
        ),
{
    let count = values.len();
    let mut tid: usize = 0;
    while tid < count
        invariant
            job.contexts == contexts@,
            job.n == n,
            job.batch_count == batch_count,
            recipe::is_input::<R>(job),
            R::writable(contexts@, output@, n as int, batch_count as int),
            batch < batch_count,
            count == values@.len(),
            start + count <= n,
            tid <= count,
            forall|t: int|
                0 <= t < count ==> #[trigger] values@[t] == recipe::prefix::<R>(
                    job,
                    batch as int,
                    start + t,
                ),
            output@ == recipe::prefixes_stored::<R>(job, before, batch * n + start + tid),
        decreases count - tid,
    {
        let pos: u32 = start + tid as u32;
        let value = values[tid];
        proof {
            let done = batch * n + start + tid;
            po2::lemma_within(batch as int, batch_count as int, n as int, pos as int);
            po2::lemma_split(batch as int, n as int, pos as int);
            recipe::lemma_row_valid::<R>(job, batch as int);
            monoid::lemma_fold_valid(recipe::row::<R>(job, batch as int), 0, pos + 1);
            R::stays_writable(
                contexts@,
                output@,
                batch as int,
                pos as int,
                n as int,
                batch_count as int,
                value,
            );
            assert(recipe::prefixes_stored::<R>(job, before, done + 1) == R::stored(
                contexts@,
                output@,
                batch as int,
                pos as int,
                n as int,
                batch_count as int,
                value,
            ));
        }
        R::store(contexts, output, batch, pos, n, batch_count, value);
        tid = tid + 1;
    }
}

/// Single-block fast path: `n <= wg_size`. One workgroup per row does the
/// whole scan with no spine.
fn k_single_block<R: ScanRecipe>(
    contexts: &[u32],
    input: &[u32],
    output: &mut [u32],
    log_warp: u32,
    log_wg: u32,
    num_warps: u32,
    batch_count: u32,
    n: u32,
    Ghost(job): Ghost<ScanInput>,
)
    requires
        job == (ScanInput {
            contexts: contexts@,
            input: input@,
            n: n as int,
            batch_count: batch_count as int,
        }),
        recipe::is_input::<R>(job),
        R::writable(contexts@, old(output)@, n as int, batch_count as int),
        n == po2::p2(log_wg as nat),
        scan::block_fits(n as int, num_warps as int, log_warp, log_wg),
    ensures
        final(output)@ == recipe::prefixes_stored::<R>(job, old(output)@, batch_count * n),
{
    let mut batch: u32 = 0;
    while batch < batch_count
        invariant
            job == (ScanInput {
                contexts: contexts@,
                input: input@,
                n: n as int,
                batch_count: batch_count as int,
            }),
            recipe::is_input::<R>(job),
            R::writable(contexts@, output@, n as int, batch_count as int),
            scan::block_fits(n as int, num_warps as int, log_warp, log_wg),
            batch <= batch_count,
            output@ == recipe::prefixes_stored::<R>(job, old(output)@, batch * n),
        decreases batch_count - batch,
    {
        let mut scratch = R::Monoid::alloc_scratch(num_warps);
        let values = load_block::<R>(
            contexts,
            input,
            batch,
            0,
            n,
            n,
            batch_count,
            Ghost(job),
        );
        let scanned = block_inclusive_scan::<R::Monoid>(
            values.as_slice(),
            &mut scratch,
            log_warp,
            log_wg,
        );
        proof {
            assert(values@ =~= recipe::row::<R>(job, batch as int));
            lemma_mul_is_distributive_add_other_way(n as int, batch as int, 1);
        }
        store_block::<R>(
            contexts,
            output,
            batch,
            0,
            n,
            batch_count,
            &scanned,
            Ghost(job),
            Ghost(old(output)@),
        );
        batch = batch + 1;
    }
}

/// Multi-block stage 1: each level-0 block reduces and its total goes to
/// `spine[batch * num_blocks + block_id]`.
fn k0_reduce<R: ScanRecipe>(
    contexts: &[u32],
    input: &[u32],
    log_warp: u32,
    log_wg: u32,
    num_warps: u32,
    num_blocks: u32,
    batch_count: u32,
    n: u32,
    Ghost(job): Ghost<ScanInput>,
) -> (r: Vec<<R::Monoid as Monoid>::Repr>)
    requires
        job == (ScanInput {
            contexts: contexts@,
            input: input@,
            n: n as int,
            batch_count: batch_count as int,
        }),
        recipe::is_input::<R>(job),
        log_wg < 32,
        n == num_blocks * po2::p2(log_wg as nat),
        num_blocks > 0,
        scan::block_fits(po2::p2(log_wg as nat), num_warps as int, log_warp, log_wg),
    ensures
        spine::is_totals::<R>(job, r@, num_blocks as int, po2::p2(log_wg as nat)),
{
    let wg_size = pow2_u32(log_wg);
    let mut out: Vec<<R::Monoid as Monoid>::Repr> = Vec::new();
    let mut batch: u32 = 0;
    while batch < batch_count
        invariant
            job == (ScanInput {
                contexts: contexts@,
                input: input@,
                n: n as int,
                batch_count: batch_count as int,
            }),
            recipe::is_input::<R>(job),
            wg_size > 0,
            n == num_blocks * wg_size,
            num_blocks > 0,
            scan::block_fits(wg_size as int, num_warps as int, log_warp, log_wg),
            batch <= batch_count,
            out@.len() == batch * num_blocks,
            forall|i: int|
                0 <= i < out@.len() ==> #[trigger] out@[i] == <R::Monoid as Monoid>::packed(
                    monoid::fold(
                        recipe::row::<R>(job, i / num_blocks as int),
                        (i % num_blocks as int) * wg_size,
                        (i % num_blocks as int + 1) * wg_size,
                    ),
                ),
        decreases batch_count - batch,
    {
        let ghost row = recipe::row::<R>(job, batch as int);
        let mut block_id: u32 = 0;
        while block_id < num_blocks
            invariant
                job == (ScanInput {
                    contexts: contexts@,
                    input: input@,
                    n: n as int,
                    batch_count: batch_count as int,
                }),
                recipe::is_input::<R>(job),
                row == recipe::row::<R>(job, batch as int),
                wg_size > 0,
                n == num_blocks * wg_size,
                num_blocks > 0,
                scan::block_fits(wg_size as int, num_warps as int, log_warp, log_wg),
                batch < batch_count,
                block_id <= num_blocks,
                out@.len() == batch * num_blocks + block_id,
                forall|i: int|
                    0 <= i < out@.len() ==> #[trigger] out@[i] == <R::Monoid as Monoid>::packed(
                        monoid::fold(
                            recipe::row::<R>(job, i / num_blocks as int),
                            (i % num_blocks as int) * wg_size,
                            (i % num_blocks as int + 1) * wg_size,
                        ),
                    ),
            decreases num_blocks - block_id,
        {
            proof {
                po2::lemma_within(block_id as int, num_blocks as int, wg_size as int, 0);
                po2::lemma_split(batch as int, num_blocks as int, block_id as int);
                lemma_mul_is_distributive_add_other_way(wg_size as int, block_id as int, 1);
            }
            let start: u32 = block_id * wg_size;
            let mut scratch = R::Monoid::alloc_scratch(num_warps);
            let values = load_block::<R>(
                contexts,
                input,
                batch,
                start,
                wg_size,
                n,
                batch_count,
                Ghost(job),
            );
            let total = block_inclusive_reduce::<R::Monoid>(
                values.as_slice(),
                &mut scratch,
                log_warp,
                log_wg,
            );
            proof {
                monoid::lemma_fold_valid(values@, 0, wg_size as int);
                monoid::lemma_fold_shift(values@, row, 0, wg_size as int, start as int);
            }
            out.push(R::Monoid::to_repr(total));
            block_id = block_id + 1;
        }
        proof {
            lemma_mul_is_distributive_add_other_way(num_blocks as int, batch as int, 1);
        }
        batch = batch + 1;
    }
    proof {
        reveal(spine::is_totals);
    }
    out
}

/// The results of one block of the multi-block stage 5: the block's scan
/// with the spine's carry in front.
fn apply_block<R: ScanRecipe>(
    contexts: &[u32],
    input: &[u32],
    spine: &Vec<<R::Monoid as Monoid>::Repr>,
    log_warp: u32,
    log_wg: u32,
    num_warps: u32,
    num_blocks: u32,
    batch_count: u32,
    n: u32,
    batch: u32,
    block_id: u32,
    wg_size: u32,
    Ghost(job): Ghost<ScanInput>,
) -> (r: Vec<R::Monoid>)
    requires
        job == (ScanInput {
            contexts: contexts@,
            input: input@,
            n: n as int,
            batch_count: batch_count as int,
        }),
        recipe::is_input::<R>(job),
        wg_size > 0,
        n == num_blocks * wg_size,
        scan::block_fits(wg_size as int, num_warps as int, log_warp, log_wg),
        spine::is_prefixes::<R>(job, spine@, num_blocks as int, wg_size as int),
        batch < batch_count,
        block_id < num_blocks,
    ensures
        r@.len() == wg_size,
        forall|t: int|
            0 <= t < wg_size ==> #[trigger] r@[t] == recipe::prefix::<R>(
                job,
                batch as int,
                block_id * wg_size + t,
            ),
{
    let ghost row = recipe::row::<R>(job, batch as int);
    let spine_len = spine.len();
    proof {
        po2::lemma_within(block_id as int, num_blocks as int, wg_size as int, 0);
        recipe::lemma_row_valid::<R>(job, batch as int);
    }
    let start: u32 = block_id * wg_size;
    let mut scratch = R::Monoid::alloc_scratch(num_warps);
    let values = load_block::<R>(
        contexts,
        input,
        batch,
        start,
        wg_size,
        n,
        batch_count,
        Ghost(job),
    );
    let scanned = block_inclusive_scan::<R::Monoid>(
        values.as_slice(),
        &mut scratch,
        log_warp,
        log_wg,
    );
    let mut r: Vec<R::Monoid> = Vec::with_capacity(wg_size as usize);
    let mut tid: usize = 0;
    while tid < wg_size as usize
        invariant
            recipe::is_input::<R>(job),
            job.n == n,
            job.batch_count == batch_count,
            row == recipe::row::<R>(job, batch as int),
            monoid::all_valid(row),
            wg_size > 0,
            n == num_blocks * wg_size,
            spine::is_prefixes::<R>(job, spine@, num_blocks as int, wg_size as int),
            spine_len == spine@.len(),
            batch < batch_count,
            block_id < num_blocks,
            start == block_id * wg_size,
            start + wg_size <= n,
            values@ == row.subrange(start as int, start + wg_size),
            monoid::all_valid(values@),
            scanned@.len() == wg_size,
            forall|i: int|
                0 <= i < scanned@.len() ==> #[trigger] scanned@[i] == monoid::fold(
                    values@,
                    0,
                    i + 1,
                ),
            tid <= wg_size,
            r@.len() == tid,
            forall|t: int|
                0 <= t < tid ==> #[trigger] r@[t] == recipe::prefix::<R>(
                    job,
                    batch as int,
                    start + t,
                ),
        decreases wg_size - tid,
    {
        proof {
            let own = monoid::fold(row, start as int, start + tid + 1);
            monoid::lemma_fold_shift(values@, row, 0, tid + 1, start as int);
            monoid::lemma_fold_valid(row, start as int, start + tid + 1);
            monoid::lemma_fold_valid(row, 0, start as int);
            monoid::lemma_fold_split(row, 0, start as int, start + tid + 1);
            <R::Monoid as Monoid>::laws(own, own, own);
            let carry = monoid::fold(row, 0, start as int);
            <R::Monoid as Monoid>::laws(carry, own, own);
            let whole = <R::Monoid as Monoid>::op(carry, own);
            <R::Monoid as Monoid>::laws(whole, whole, whole);
            lemma_mul_basics(wg_size as int);
        }
        let own = R::Monoid::to_repr(scanned[tid]);
        if block_id > 0 {
            proof {
                spine::lemma_prefix::<R>(
                    job,
                    spine@,
                    num_blocks as int,
                    wg_size as int,
                    batch as int,
                    block_id - 1,
                );
                po2::lemma_within(batch as int, batch_count as int, num_blocks as int, 0);
            }
            let carry = spine[batch as usize * num_blocks as usize + (block_id as usize - 1)];
            r.push(R::Monoid::from_repr(combine_via::<R::Monoid>(carry, own)));
        } else {
            r.push(R::Monoid::from_repr(own));
        }
        tid = tid + 1;
    }
    r
}

/// Multi-block stage 5: each level-0 block re-loads input via
/// `ScanRecipe::load`, re-scans, combines with the spine carry, projects via
/// `ScanRecipe::store`.
fn k0_apply<R: ScanRecipe>(
    contexts: &[u32],
    input: &[u32],
    spine: &Vec<<R::Monoid as Monoid>::Repr>,
    output: &mut [u32],
    log_warp: u32,
    log_wg: u32,
    num_warps: u32,
    num_blocks: u32,
    batch_count: u32,
    n: u32,
    Ghost(job): Ghost<ScanInput>,
)
    requires
        job == (ScanInput {
            contexts: contexts@,
            input: input@,
            n: n as int,
            batch_count: batch_count as int,
        }),
        recipe::is_input::<R>(job),
        R::writable(contexts@, old(output)@, n as int, batch_count as int),
        log_wg < 32,
        n == num_blocks * po2::p2(log_wg as nat),
        scan::block_fits(po2::p2(log_wg as nat), num_warps as int, log_warp, log_wg),
        spine::is_prefixes::<R>(job, spine@, num_blocks as int, po2::p2(log_wg as nat)),
    ensures
        final(output)@ == recipe::prefixes_stored::<R>(job, old(output)@, batch_count * n),
{
    let wg_size = pow2_u32(log_wg);
    let mut batch: u32 = 0;
    while batch < batch_count
        invariant
            job == (ScanInput {
                contexts: contexts@,
                input: input@,
                n: n as int,
                batch_count: batch_count as int,
            }),
            recipe::is_input::<R>(job),
            R::writable(contexts@, output@, n as int, batch_count as int),
            wg_size > 0,
            n == num_blocks * wg_size,
            scan::block_fits(wg_size as int, num_warps as int, log_warp, log_wg),
            spine::is_prefixes::<R>(job, spine@, num_blocks as int, wg_size as int),
            batch <= batch_count,
            output@ == recipe::prefixes_stored::<R>(job, old(output)@, batch * n),
        decreases batch_count - batch,
    {
        let mut block_id: u32 = 0;
        while block_id < num_blocks
            invariant
                job == (ScanInput {
                    contexts: contexts@,
                    input: input@,
                    n: n as int,
                    batch_count: batch_count as int,
                }),
                recipe::is_input::<R>(job),
                R::writable(contexts@, output@, n as int, batch_count as int),
                wg_size > 0,
                n == num_blocks * wg_size,
                scan::block_fits(wg_size as int, num_warps as int, log_warp, log_wg),
                spine::is_prefixes::<R>(job, spine@, num_blocks as int, wg_size as int),
                batch < batch_count,
                block_id <= num_blocks,
                output@ == recipe::prefixes_stored::<R>(
                    job,
                    old(output)@,
                    batch * n + block_id * wg_size,
                ),
            decreases num_blocks - block_id,
        {
            proof {
                po2::lemma_within(block_id as int, num_blocks as int, wg_size as int, 0);
                lemma_mul_is_distributive_add_other_way(wg_size as int, block_id as int, 1);
            }
            let values = apply_block::<R>(
                contexts,
                input,
                spine,
                log_warp,
                log_wg,
                num_warps,
                num_blocks,
                batch_count,
                n,
                batch,
                block_id,
                wg_size,
                Ghost(job),
            );
            store_block::<R>(
                contexts,
                output,
                batch,
                block_id * wg_size,
                n,
                batch_count,
                &values,
                Ghost(job),
                Ghost(old(output)@),
            );
            block_id = block_id + 1;
        }
        proof {
            lemma_mul_is_distributive_add_other_way(n as int, batch as int, 1);
        }
        batch = batch + 1;
    }
}

/// Number of values under a cell of spine level `level`.
pub open spec fn span_at(log_wg: int, level: int) -> int {
    po2::p2((log_wg * (level + 1)) as nat)
}

/// The spine levels of a row of more than one block: every level's blocks
/// tile the row, each level has a workgroup's worth of cells per cell of the
/// next, and the top level fits in one workgroup.
proof fn lemma_level(log_n: int, log_wg: int, level: int)
    requires
        log_n > log_wg > 0,
        0 <= level <= levels_needed(log_n, log_wg),
    ensures
        log_wg <= log_wg * (level + 1) < log_n,
        blocks_at(log_n, log_wg, level) > 0,
        span_at(log_wg, level) > 0,
        blocks_at(log_n, log_wg, level) * span_at(log_wg, level) == po2::p2(log_n as nat),
        blocks_at(log_n, log_wg, level) <= blocks_at(log_n, log_wg, 0),
        level >= 1 ==> blocks_at(log_n, log_wg, level - 1) == blocks_at(log_n, log_wg, level)
            * po2::p2(log_wg as nat),
        level >= 1 ==> span_at(log_wg, level) == po2::p2(log_wg as nat) * span_at(
            log_wg,
            level - 1,
        ),
        level == levels_needed(log_n, log_wg) ==> blocks_at(log_n, log_wg, level) <= po2::p2(
            log_wg as nat,
        ),
{
    let chunks = (log_n + log_wg - 1) / log_wg;
    let top = levels_needed(log_n, log_wg);
    let covered = log_wg * (level + 1);
    po2::lemma_join(log_n + log_wg - 1, log_wg);
    assert(chunks >= 2) by (nonlinear_arith)
        requires
            log_n + log_wg - 1 == chunks * log_wg + (log_n + log_wg - 1) % log_wg,
            0 <= (log_n + log_wg - 1) % log_wg < log_wg,
            log_n > log_wg > 0,
    ;
    lemma_mul_is_commutative(log_wg, chunks - 1);
    lemma_mul_is_distributive_sub_other_way(log_wg, chunks, 1);
    lemma_mul_inequality(level + 1, chunks - 1, log_wg);
    lemma_mul_is_commutative(log_wg, level + 1);
    lemma_mul_inequality(1, level + 1, log_wg);
    let rest = (log_n - covered) as nat;
    po2::lemma_p2_adds(rest, covered as nat);
    assert((rest + covered as nat) as int == log_n);
    po2::lemma_p2_mono(rest, (log_n - log_wg) as nat);
    if level >= 1 {
        lemma_mul_is_distributive_add(log_wg, level, 1);
        po2::lemma_p2_adds(rest, log_wg as nat);
        po2::lemma_p2_adds(log_wg as nat, (log_wg * level) as nat);
        lemma_mul_nonnegative(log_wg, level);
    }
    if level == top {
        po2::lemma_p2_mono(rest, log_wg as nat);
    }
}

/// There are fewer levels than bits of the row length.
proof fn lemma_levels_bound(log_n: int, log_wg: int)
    requires
        log_n >= 1,
        log_wg > 0,
    ensures
        0 <= levels_needed(log_n, log_wg) < log_n,
{
    let chunks = (log_n + log_wg - 1) / log_wg;
    po2::lemma_join(log_n + log_wg - 1, log_wg);
    assert(chunks <= log_n) by (nonlinear_arith)
        requires
            log_n + log_wg - 1 == chunks * log_wg + (log_n + log_wg - 1) % log_wg,
            0 <= (log_n + log_wg - 1) % log_wg,
            log_n >= 1,
            log_wg >= 1,
    ;
}

/// Offsets grow from level to level.
proof fn lemma_offsets(
    log_n: int,
    log_wg: int,
    max_batch: int,
    cell_bytes: int,
    level: int,
    top: int,
)
    requires
        0 <= level <= top,
        max_batch >= 0,
        cell_bytes >= 1,
    ensures
        0 <= spine_offset(log_n, log_wg, max_batch, cell_bytes, level) <= spine_offset(
            log_n,
            log_wg,
            max_batch,
            cell_bytes,
            top,
        ),
    decreases top,
{
    if top > 0 {
        let nb = blocks_at(log_n, log_wg, top - 1);
        if log_n > log_wg * top {
            po2::lemma_p2((log_n - log_wg * top) as nat);
        }
        assert(max_batch * nb * cell_bytes >= 0) by (nonlinear_arith)
            requires
                max_batch >= 0,
                nb >= 0,
                cell_bytes >= 1,
        ;
        if level == top {
            lemma_offsets(log_n, log_wg, max_batch, cell_bytes, level - 1, top - 1);
        } else {
            lemma_offsets(log_n, log_wg, max_batch, cell_bytes, level, top - 1);
        }
    }
}

/// What a scan of `batch` rows of `2^log_n` values keeps at spine level
/// `level` stays within the slice that is laid out for the level: the
/// level exists, and its cells end before the next level's start.
pub proof fn law_spine_slices_hold_every_scan<R: ScanRecipe>(
    log_n: int,
    log_n_max: int,
    log_wg: int,
    batch: int,
    max_batch: int,
    level: int,
)
    requires
        log_wg > 0,
        1 <= log_n <= log_n_max,
        0 <= batch <= max_batch,
        0 <= level <= levels_needed(log_n, log_wg),
    ensures
        level <= levels_needed(log_n_max, log_wg),
        spine_offset(log_n_max, log_wg, max_batch, cell_bytes::<R>(), level) + batch * blocks_at(
            log_n,
            log_wg,
            level,
        ) * cell_bytes::<R>() <= spine_offset(
            log_n_max,
            log_wg,
            max_batch,
            cell_bytes::<R>(),
            level + 1,
        ),
{
    lemma_div_is_ordered(log_n + log_wg - 1, log_n_max + log_wg - 1, log_wg);
    let covered = log_wg * (level + 1);
    let nb = blocks_at(log_n, log_wg, level);
    let nb_max = blocks_at(log_n_max, log_wg, level);
    let cell = cell_bytes::<R>();
    lemma_mul_nonnegative(log_wg, level + 1);
    po2::lemma_p2(0);
    if log_n > covered {
        po2::lemma_p2_mono((log_n - covered) as nat, (log_n_max - covered) as nat);
        po2::lemma_p2((log_n - covered) as nat);
    } else if log_n_max > covered {
        po2::lemma_p2_mono(0, (log_n_max - covered) as nat);
    }
    assert(batch * nb * cell <= max_batch * nb_max * cell) by (nonlinear_arith)
        requires
            0 <= batch <= max_batch,
            0 <= nb <= nb_max,
            cell >= 0,
    ;
}

/// Bytes of scratch that an executor needs for rows of up to `2^log_n`
/// values in batches of up to `max_batch`.
pub fn spine_bytes_needed<R: ScanRecipe>(log_n: u32, log_wg: u32, max_batch: usize) -> (r: u128)
    requires
        1 <= log_wg < 32,
        1 <= log_n < log_wg + 32,
        max_batch <= u32::MAX,
    ensures
        r == spine_bytes::<R>(log_n as int, log_wg as int, max_batch as int),
{
    proof {
        lemma_levels_bound(log_n as int, log_wg as int);
    }
    let levels = spine_levels_needed(log_n, log_wg);
    let repr_bytes: u128 = 4 * R::Monoid::REPR_LANES as u128;
    let mut bytes: u128 = 0;
    let mut level: u32 = 0;
    while level <= levels
        invariant
            level <= levels + 1,
            levels == levels_needed(log_n as int, log_wg as int),
            levels < log_n < 64,
            1 <= log_wg < 32,
            log_n < log_wg + 32,
            max_batch <= u32::MAX,
            repr_bytes == cell_bytes::<R>(),
            bytes == spine_offset(
                log_n as int,
                log_wg as int,
                max_batch as int,
                repr_bytes as int,
                level as int,
            ),
            bytes <= level * 0x4_0000_0000_0000_0000_0000_0000,
        decreases levels + 1 - level,
    {
        proof {
            assert(log_wg <= log_wg * (level + 1) <= 31 * 64) by (nonlinear_arith)
                requires
                    1 <= log_wg < 32,
                    level < 64,
            ;
        }
        let nb = num_blocks_at_level(log_n, log_wg, level);
        proof {
            assert(0 <= max_batch * nb <= 0x1_0000_0000_0000_0000) by (nonlinear_arith)
                requires
                    0 <= max_batch <= 0xFFFF_FFFF,
                    0 <= nb <= 0xFFFF_FFFF,
            ;
            assert(0 <= max_batch * nb * repr_bytes <= 0x4_0000_0000_0000_0000_0000_0000)
                by (nonlinear_arith)
                requires
                    0 <= max_batch * nb <= 0x1_0000_0000_0000_0000,
                    0 <= repr_bytes <= 0x4_0000_0000,
            ;
        }
        bytes = bytes + max_batch as u128 * nb as u128 * repr_bytes;
        level = level + 1;
    }
    bytes
}

/// The device's plane and workgroup sizes are powers of two, with at least
/// two threads in a plane, at least one plane in a workgroup, and no more
/// planes in a workgroup than threads in a plane.
pub open spec fn can_scan(device: Device) -> bool {
    let plane = device.properties.plane_size as int;
    let units = device.properties.max_units_per_cube as int;
    &&& po2::is_po2(plane)
    &&& po2::is_po2(units)
    &&& 2 <= plane <= units <= plane * plane
}

/// The base-2 log of the workgroup size.
pub open spec fn log_units(device: Device) -> int {
    po2::flog(device.properties.max_units_per_cube as int) as int
}

/// The base-2 logs of the sizes of a device that [`can_scan`].
proof fn lemma_device_logs(device: Device)
    requires
        can_scan(device),
    ensures
        1 <= po2::flog(device.properties.plane_size as int) <= log_units(device) < 32,
        log_units(device) <= 2 * po2::flog(device.properties.plane_size as int),
{
    let plane = device.properties.plane_size as int;
    let units = device.properties.max_units_per_cube as int;
    let a = choose|k: nat| #[trigger] po2::p2(k) == plane;
    let b = choose|k: nat| #[trigger] po2::p2(k) == units;
    po2::lemma_p2(a);
    po2::lemma_p2(b);
    po2::lemma_flog_unique(plane, a);
    po2::lemma_flog_unique(units, b);
    po2::lemma_p2(0);
    po2::lemma_p2_mono(1, a);
    po2::lemma_p2_mono(a, b);
    po2::lemma_p2_adds(a, a);
    po2::lemma_p2_mono(b, a + a);
    vstd::arithmetic::power2::lemma2_to64();
    po2::lemma_p2_mono(b, 32);
}

/// Scan executor for one recipe.
pub struct ScanExec<R: ScanRecipe> {
    log_warp: u32,
    log_wg: u32,
    num_warps: u32,
    log_n_max: u32,
    max_batch: u32,
    spine_offsets: Vec<u64>,
    _r: PhantomData<R>,
}

impl<R: ScanRecipe> ScanExec<R> {
    /// The executor is as [`new`](Self::new) made it.
    pub closed spec fn wf(&self) -> bool {
        &&& 1 <= self.log_warp <= self.log_wg <= 2 * self.log_warp
        &&& self.log_wg < 32
        &&& self.num_warps == po2::p2((self.log_wg - self.log_warp) as nat)
        &&& 1 <= self.log_n_max
    }

    /// The base-2 log of the longest row.
    pub closed spec fn spec_log_n_max(&self) -> u32 {
        self.log_n_max
    }

    /// The largest batch.
    pub closed spec fn spec_max_batch(&self) -> u32 {
        self.max_batch
    }

    /// The byte offsets of the spine levels.
    pub closed spec fn offsets(&self) -> Seq<u64> {
        self.spine_offsets@
    }

    /// Construct an executor for the device and recipe, capable of scans
    /// with `log_n` up to `log_n_max` and batches up to `max_batch`.
    ///
    /// Lays the spine levels out one after the other in the device's
    /// scratch, which must be large enough for the worst case.
    pub fn new(device: &Device, log_n_max: u32, max_batch: usize) -> (r: Self)
        requires
            can_scan(*device),
            1 <= log_n_max < log_units(*device) + 32,
            max_batch <= u32::MAX,
            spine_bytes::<R>(log_n_max as int, log_units(*device), max_batch as int)
                <= device.scratch_bytes,
        ensures
            r.wf(),
            r.spec_log_n_max() == log_n_max,
            r.spec_max_batch() == max_batch,
            r.offsets().len() == levels_needed(log_n_max as int, log_units(*device)) + 1,
            forall|level: int|
                0 <= level < r.offsets().len() ==> #[trigger] r.offsets()[level]
                    == spine_offset(
                    log_n_max as int,
                    log_units(*device),
                    max_batch as int,
                    cell_bytes::<R>(),
                    level,
                ),
    {
        let scratch = device.scratch_bytes();
        proof {
            lemma_device_logs(*device);
            lemma_levels_bound(log_n_max as int, log_units(*device));
            <R::Monoid as Monoid>::laws(
                <R::Monoid as Monoid>::unit(),
                <R::Monoid as Monoid>::unit(),
                <R::Monoid as Monoid>::unit(),
            );
        }
        let log_warp = floor_log2(device.properties.plane_size as usize);
        let log_wg = floor_log2(device.properties.max_units_per_cube as usize);
        let num_warps = pow2_u32(log_wg - log_warp);
        let max_levels = spine_levels_needed(log_n_max, log_wg);
        let lanes: u64 = R::Monoid::REPR_LANES as u64;
        let repr_bytes: u64 = 4 * lanes;
        let mut spine_offsets: Vec<u64> = Vec::with_capacity(max_levels as usize + 1);
        let mut byte_offset: u64 = 0;
        let mut level: u32 = 0;
        while level <= max_levels
            invariant
                level <= max_levels + 1,
                max_levels == levels_needed(log_n_max as int, log_wg as int),
                max_levels < log_n_max < 64,
                1 <= log_wg < 32,
                log_n_max < log_wg + 32,
                repr_bytes == cell_bytes::<R>(),
                repr_bytes >= 1,
                max_batch <= u32::MAX,
                spine_bytes::<R>(log_n_max as int, log_wg as int, max_batch as int) <= scratch,
                byte_offset == spine_offset(
                    log_n_max as int,
                    log_wg as int,
                    max_batch as int,
                    repr_bytes as int,
                    level as int,
                ),
                spine_offsets@.len() == level,
                forall|l: int|
                    0 <= l < level ==> #[trigger] spine_offsets@[l] == spine_offset(
                        log_n_max as int,
                        log_wg as int,
                        max_batch as int,
                        repr_bytes as int,
                        l,
                    ),
            decreases max_levels + 1 - level,
        {
            proof {
                assert(log_wg <= log_wg * (level + 1) <= 31 * 64) by (nonlinear_arith)
                    requires
                        1 <= log_wg < 32,
                        level < 64,
                ;
            }
            let nb = num_blocks_at_level(log_n_max, log_wg, level);
            proof {
                lemma_offsets(
                    log_n_max as int,
                    log_wg as int,
                    max_batch as int,
                    repr_bytes as int,
                    level as int,
                    level as int,
                );
                lemma_offsets(
                    log_n_max as int,
                    log_wg as int,
                    max_batch as int,
                    repr_bytes as int,
                    level + 1,
                    max_levels + 1,
                );
                assert(0 <= max_batch * nb <= max_batch * nb * repr_bytes)
                    by (nonlinear_arith)
                    requires
                        max_batch >= 0,
                        nb >= 0,
                        repr_bytes >= 1,
                ;
            }
            let level_bytes: u64 = max_batch as u64 * nb as u64 * repr_bytes;
            spine_offsets.push(byte_offset);
            byte_offset = byte_offset + level_bytes;
            level = level + 1;
        }
        ScanExec {
            log_warp,
            log_wg,
            num_warps,
            log_n_max,
            max_batch: max_batch as u32,
            spine_offsets,
            _r: PhantomData,
        }
    }

    /// Byte offset in the device's scratch of each spine level.
    pub fn spine_offsets(&self) -> (r: &Vec<u64>)
        ensures
            r@ == self.offsets(),
    {
        &self.spine_offsets
    }

    /// Run the scan over `batch` rows of length `2^log_n`.
    ///
    /// The layout of the buffers is the recipe's: `input` and `output` each
    /// hold `batch * 2^log_n` logical elements, `contexts` the per-batch-row
    /// data the recipe reads. Every position gets the inclusive prefix of
    /// its row.
    pub fn run(
        &self,
        contexts: &[u32],
        input: &[u32],
        output: &mut [u32],
        log_n: u32,
        batch: usize,
    )
        requires
            self.wf(),
            1 <= log_n <= self.spec_log_n_max(),
            log_n < 32,
            batch <= self.spec_max_batch(),
            R::readable(contexts@, input@, po2::p2(log_n as nat), batch as int),
            R::writable(contexts@, old(output)@, po2::p2(log_n as nat), batch as int),
        ensures
            final(output)@ == recipe::prefixes_stored::<R>(
                ScanInput {
                    contexts: contexts@,
                    input: input@,
                    n: po2::p2(log_n as nat),
                    batch_count: batch as int,
                },
                old(output)@,
                batch * po2::p2(log_n as nat),
            ),
    {
        let n = pow2_u32(log_n);
        let batch_count: u32 = batch as u32;
        let ghost job = ScanInput {
            contexts: contexts@,
            input: input@,
            n: n as int,
            batch_count: batch_count as int,
        };
        if log_n <= self.log_wg {
            self.launch_single_block(contexts, input, output, log_n, batch_count, Ghost(job));
            return;
        }
        let spine = self.scan_spine(contexts, input, log_n, batch_count, Ghost(job));
        proof {
            lemma_level(log_n as int, self.log_wg as int, 0);
            assert(self.log_wg * 1 == self.log_wg);
        }
        let nb_0 = num_blocks_at_level(log_n, self.log_wg, 0);
        k0_apply::<R>(
            contexts,
            input,
            &spine,
            output,
            self.log_warp,
            self.log_wg,
            self.num_warps,
            nb_0,
            batch_count,
            n,
            Ghost(job),
        );
    }

    /// Rows of at most one workgroup.
    fn launch_single_block(
        &self,
        contexts: &[u32],
        input: &[u32],
        output: &mut [u32],
        log_n: u32,
        batch_count: u32,
        Ghost(job): Ghost<ScanInput>,
    )
        requires
            self.wf(),
            1 <= log_n <= self.log_wg,
            job == (ScanInput {
                contexts: contexts@,
                input: input@,
                n: po2::p2(log_n as nat),
                batch_count: batch_count as int,
            }),
            recipe::is_input::<R>(job),
            R::writable(contexts@, old(output)@, job.n, job.batch_count),
        ensures
            final(output)@ == recipe::prefixes_stored::<R>(
                job,
                old(output)@,
                batch_count * job.n,
            ),
    {
        let n = pow2_u32(log_n);
        // A row shorter than a plane is launched with fewer threads than a
        // full plane, and the plane scan must not shuffle beyond these.
        let kernel_log_warp = if self.log_warp < log_n {
            self.log_warp
        } else {
            log_n
        };
        let num_warps = pow2_u32(log_n - kernel_log_warp);
        k_single_block::<R>(
            contexts,
            input,
            output,
            kernel_log_warp,
            log_n,
            num_warps,
            batch_count,
            n,
            Ghost(job),
        );
    }

    /// The level-0 spine with the prefix through every block: reduce up,
    /// scan the top, apply down.
    fn scan_spine(
        &self,
        contexts: &[u32],
        input: &[u32],
        log_n: u32,
        batch_count: u32,
        Ghost(job): Ghost<ScanInput>,
    ) -> (r: Vec<<R::Monoid as Monoid>::Repr>)
        requires
            self.wf(),
            self.log_wg < log_n <= self.log_n_max,
            log_n < 32,
            batch_count <= self.max_batch,
            job == (ScanInput {
                contexts: contexts@,
                input: input@,
                n: po2::p2(log_n as nat),
                batch_count: batch_count as int,
            }),
            recipe::is_input::<R>(job),
        ensures
            spine::is_prefixes::<R>(
                job,
                r@,
                blocks_at(log_n as int, self.log_wg as int, 0),
                po2::p2(self.log_wg as nat),
            ),
    {
        let n = pow2_u32(log_n);
        let log_wg = self.log_wg;
        let levels = spine_levels_needed(log_n, log_wg);
        proof {
            lemma_levels_bound(log_n as int, log_wg as int);
            lemma_level(log_n as int, log_wg as int, 0);
            assert(log_wg * 1 == log_wg);
        }
        let nb_0 = num_blocks_at_level(log_n, log_wg, 0);
        let mut spines: Vec<Vec<<R::Monoid as Monoid>::Repr>> = Vec::new();
        let level_0 = k0_reduce::<R>(
            contexts,
            input,
            self.log_warp,
            log_wg,
            self.num_warps,
            nb_0,
            batch_count,
            n,
            Ghost(job),
        );
        spines.push(level_0);
        let mut level: u32 = 1;
        while level <= levels
            invariant
                self.wf(),
                recipe::is_input::<R>(job),
                job.n == po2::p2(log_n as nat),
                job.batch_count == batch_count,
                log_wg == self.log_wg,
                log_wg < log_n < 32,
                log_wg < usize::BITS,
                1 <= level <= levels + 1,
                levels == levels_needed(log_n as int, log_wg as int),
                levels < log_n,
                spines@.len() == level,
                forall|l: int|
                    0 <= l < level ==> spine::is_totals::<R>(
                        job,
                        (#[trigger] spines@[l])@,
                        blocks_at(log_n as int, log_wg as int, l),
                        span_at(log_wg as int, l),
                    ),
            decreases levels + 1 - level,
        {
            let upper = self.reduce_level(
                &spines[level as usize - 1],
                log_n,
                batch_count,
                level,
                Ghost(job),
            );
            spines.push(upper);
            level = level + 1;
        }
        let mut below: u32 = levels;
        let mut spine = self.scan_top(
            &spines[levels as usize],
            log_n,
            batch_count,
            levels,
            Ghost(job),
        );
        while below > 0
            invariant
                self.wf(),
                recipe::is_input::<R>(job),
                job.n == po2::p2(log_n as nat),
                job.batch_count == batch_count,
                log_wg == self.log_wg,
                log_wg < log_n < 32,
                log_wg < usize::BITS,
                below <= levels,
                levels == levels_needed(log_n as int, log_wg as int),
                levels < log_n,
                spines@.len() == levels + 1,
                forall|l: int|
                    0 <= l <= levels ==> spine::is_totals::<R>(
                        job,
                        (#[trigger] spines@[l])@,
                        blocks_at(log_n as int, log_wg as int, l),
                        span_at(log_wg as int, l),
                    ),
                spine::is_prefixes::<R>(
                    job,
                    spine@,
                    blocks_at(log_n as int, log_wg as int, below as int),
                    span_at(log_wg as int, below as int),
                ),
            decreases below,
        {
            spine = self.apply_level(
                &spines[below as usize - 1],
                &spine,
                log_n,
                batch_count,
                below,
                Ghost(job),
            );
            below = below - 1;
        }
        spine
    }

    /// Reduce spine level `level - 1` to level `level`.
    fn reduce_level(
        &self,
        lower: &Vec<<R::Monoid as Monoid>::Repr>,
        log_n: u32,
        batch_count: u32,
        level: u32,
        Ghost(job): Ghost<ScanInput>,
    ) -> (upper: Vec<<R::Monoid as Monoid>::Repr>)
        requires
            self.wf(),
            recipe::is_input::<R>(job),
            job.n == po2::p2(log_n as nat),
            job.batch_count == batch_count,
            self.log_wg < log_n < 32,
            self.log_wg < usize::BITS,
            1 <= level <= levels_needed(log_n as int, self.log_wg as int) < log_n,
            spine::is_totals::<R>(
                job,
                lower@,
                blocks_at(log_n as int, self.log_wg as int, level - 1),
                span_at(self.log_wg as int, level - 1),
            ),
        ensures
            spine::is_totals::<R>(
                job,
                upper@,
                blocks_at(log_n as int, self.log_wg as int, level as int),
                span_at(self.log_wg as int, level as int),
            ),
    {
        let log_wg = self.log_wg;
        proof {
            lemma_level(log_n as int, log_wg as int, level as int);
            lemma_level(log_n as int, log_wg as int, level - 1);
        }
        let nb_lower = num_blocks_at_level(log_n, log_wg, level - 1) as usize;
        let nb_upper = num_blocks_at_level(log_n, log_wg, level) as usize;
        proof {
            spine::lemma_spine_is_valid::<R>(
                job,
                lower@,
                nb_lower as int,
                span_at(log_wg as int, level - 1),
            );
            po2::lemma_p2(log_wg as nat);
        }
        let upper = k_reduce_spine::<R::Monoid>(
            lower,
            self.log_warp,
            log_wg,
            self.num_warps,
            batch_count as usize,
            nb_lower,
            nb_upper,
        );
        proof {
            spine::lemma_reduced::<R>(
                job,
                lower@,
                upper@,
                po2::p2(log_wg as nat),
                nb_lower as int,
                nb_upper as int,
                span_at(log_wg as int, level - 1),
            );
        }
        upper
    }

    /// Scan the top spine level.
    fn scan_top(
        &self,
        top: &Vec<<R::Monoid as Monoid>::Repr>,
        log_n: u32,
        batch_count: u32,
        levels: u32,
        Ghost(job): Ghost<ScanInput>,
    ) -> (r: Vec<<R::Monoid as Monoid>::Repr>)
        requires
            self.wf(),
            recipe::is_input::<R>(job),
            job.n == po2::p2(log_n as nat),
            job.batch_count == batch_count,
            self.log_wg < log_n < 32,
            self.log_wg < usize::BITS,
            levels == levels_needed(log_n as int, self.log_wg as int),
            levels < log_n,
            spine::is_totals::<R>(
                job,
                top@,
                blocks_at(log_n as int, self.log_wg as int, levels as int),
                span_at(self.log_wg as int, levels as int),
            ),
        ensures
            spine::is_prefixes::<R>(
                job,
                r@,
                blocks_at(log_n as int, self.log_wg as int, levels as int),
                span_at(self.log_wg as int, levels as int),
            ),
    {
        let log_wg = self.log_wg;
        proof {
            lemma_level(log_n as int, log_wg as int, levels as int);
        }
        let nb_top = num_blocks_at_level(log_n, log_wg, levels) as usize;
        let ghost span = span_at(log_wg as int, levels as int);
        proof {
            spine::lemma_spine_is_valid::<R>(job, top@, nb_top as int, span);
        }
        let r = spine_top_scan::<R::Monoid>(
            top,
            self.log_warp,
            log_wg,
            self.num_warps,
            batch_count as usize,
            nb_top,
        );
        proof {
            spine::lemma_scanned::<R>(job, top@, r@, nb_top as int, span);
        }
        r
    }

    /// Turn the totals of spine level `level - 1` into prefixes with the
    /// prefixes of level `level`.
    fn apply_level(
        &self,
        lower: &Vec<<R::Monoid as Monoid>::Repr>,
        upper: &Vec<<R::Monoid as Monoid>::Repr>,
        log_n: u32,
        batch_count: u32,
        level: u32,
        Ghost(job): Ghost<ScanInput>,
    ) -> (r: Vec<<R::Monoid as Monoid>::Repr>)
        requires
            self.wf(),
            recipe::is_input::<R>(job),
            job.n == po2::p2(log_n as nat),
            job.batch_count == batch_count,
            self.log_wg < log_n < 32,
            self.log_wg < usize::BITS,
            1 <= level <= levels_needed(log_n as int, self.log_wg as int) < log_n,
            spine::is_totals::<R>(
                job,
                lower@,
                blocks_at(log_n as int, self.log_wg as int, level - 1),
                span_at(self.log_wg as int, level - 1),
            ),
            spine::is_prefixes::<R>(
                job,
                upper@,
                blocks_at(log_n as int, self.log_wg as int, level as int),
                span_at(self.log_wg as int, level as int),
            ),
        ensures
            spine::is_prefixes::<R>(
                job,
                r@,
                blocks_at(log_n as int, self.log_wg as int, level - 1),
                span_at(self.log_wg as int, level - 1),
            ),
    {
        let log_wg = self.log_wg;
        proof {
            lemma_level(log_n as int, log_wg as int, level as int);
            lemma_level(log_n as int, log_wg as int, level - 1);
        }
        let nb_lower = num_blocks_at_level(log_n, log_wg, level - 1) as usize;
        let nb_upper = num_blocks_at_level(log_n, log_wg, level) as usize;
        let ghost span = span_at(log_wg as int, level - 1);
        proof {
            spine::lemma_spine_is_valid::<R>(job, lower@, nb_lower as int, span);
            spine::lemma_spine_is_valid::<R>(
                job,
                upper@,
                nb_upper as int,
                span_at(log_wg as int, level as int),
            );
            po2::lemma_p2(log_wg as nat);
        }
        let r = k_apply_spine::<R::Monoid>(
            lower,
            upper,
            self.log_warp,
            log_wg,
            self.num_warps,
            batch_count as usize,
            nb_lower,
            nb_upper,
        );
        proof {
            spine::lemma_applied::<R>(
                job,
                lower@,
                upper@,
                r@,
                po2::p2(log_wg as nat),
                nb_lower as int,
                nb_upper as int,
                span,
            );
        }
        r
    }
}

/// The spine has as few levels above the first as there can be: the top
/// level's blocks fit in one workgroup, and with one level less they would
/// not.
pub proof fn law_fewest_levels(log_n: int, log_wg: int)
    requires
        log_n >= 1,
        log_wg > 0,
    ensures
        ({
            let levels = levels_needed(log_n, log_wg);
            &&& levels >= 0
            &&& log_n <= log_wg * (levels + 2)
            &&& levels == 0 || log_n > log_wg * (levels + 1)
        }),
{
    let chunks = (log_n + log_wg - 1) / log_wg;
    let levels = levels_needed(log_n, log_wg);
    po2::lemma_join(log_n + log_wg - 1, log_wg);
    lemma_levels_bound(log_n, log_wg);
    let r = (log_n + log_wg - 1) % log_wg;
    assert(log_n <= chunks * log_wg && log_n > chunks * log_wg - log_wg) by (nonlinear_arith)
        requires
            log_n + log_wg - 1 == chunks * log_wg + r,
            0 <= r < log_wg,
    ;
    assert(chunks * log_wg == log_wg * chunks && log_wg * (chunks - 1) == log_wg * chunks - log_wg)
        by (nonlinear_arith);
    if chunks < 2 {
        assert(log_wg * chunks <= log_wg * 2) by (nonlinear_arith)
            requires
                chunks < 2,
                log_wg > 0,
        ;
    }
}

/// The blocks of a level: one for each `2^(log_wg * (level + 1))` values of
/// a row, and one if there are not so many.
pub proof fn law_blocks_of_level(log_n: int, log_wg: int, level: int)
    requires
        log_n >= 0,
        log_wg > 0,
        level >= 0,
    ensures
        log_n > log_wg * (level + 1) ==> blocks_at(log_n, log_wg, level) * pow2(
            (log_wg * (level + 1)) as nat,
        ) == pow2(log_n as nat),
        log_n <= log_wg * (level + 1) ==> blocks_at(log_n, log_wg, level) == 1,
{
    let covered = log_wg * (level + 1);
    lemma_mul_nonnegative(log_wg, level + 1);
    if log_n > covered {
        po2::lemma_p2_adds((log_n - covered) as nat, covered as nat);
        assert(((log_n - covered) as nat + covered as nat) as nat == log_n as nat);
    }
}

/// The levels lie one behind the other from the start of scratch memory,
/// each with a cell of four bytes a lane for every block of every row; the
/// spine ends behind the last.
pub proof fn law_spine_layout<R: ScanRecipe>(
    log_n: int,
    log_wg: int,
    max_batch: int,
    cell: int,
    level: int,
)
    requires
        level >= 0,
    ensures
        spine_offset(log_n, log_wg, max_batch, cell, 0) == 0,
        spine_offset(log_n, log_wg, max_batch, cell, level + 1) == spine_offset(
            log_n,
            log_wg,
            max_batch,
            cell,
            level,
        ) + max_batch * blocks_at(log_n, log_wg, level) * cell,
        cell_bytes::<R>() == 4 * <R::Monoid as Monoid>::REPR_LANES,
        level == levels_needed(log_n, log_wg) ==> spine_bytes::<R>(log_n, log_wg, max_batch)
            == spine_offset(
            log_n,
            log_wg,
            max_batch,
            4 * <R::Monoid as Monoid>::REPR_LANES,
            level + 1,
        ),
{
}

/// Which devices can scan: those whose plane and workgroup sizes are powers
/// of two, with two threads in a plane or more, a plane in a workgroup or
/// more, and no more planes in it than a plane has threads.
pub proof fn law_scanning_devices(device: Device)
    ensures
        can_scan(device) <==> exists|a: nat, b: nat|
            {
                &&& device.properties.plane_size == #[trigger] pow2(a)
                &&& device.properties.max_units_per_cube == #[trigger] pow2(b)
                &&& 1 <= a <= b <= 2 * a
            },
        can_scan(device) ==> pow2(log_units(device) as nat)
            == device.properties.max_units_per_cube,
{
    let plane = device.properties.plane_size as int;
    let units = device.properties.max_units_per_cube as int;
    lemma2_to64();
    if can_scan(device) {
        let a = choose|a: nat| #[trigger] po2::p2(a) == plane;
        let b = choose|b: nat| #[trigger] po2::p2(b) == units;
        po2::lemma_p2(b);
        po2::lemma_flog_unique(units, b);
        po2::lemma_p2_adds(a, a);
        if a < 1 {
            assert(pow2(a) == 1);
        }
        if b < a {
            po2::lemma_p2_mono(b + 1, a);
        }
        if b > a + a {
            po2::lemma_p2(a + a);
            po2::lemma_p2_mono(a + a + 1, b);
        }
        assert(plane == pow2(a) && units == pow2(b));
    }
    if exists|a: nat, b: nat|
        {
            &&& plane == #[trigger] pow2(a)
            &&& units == #[trigger] pow2(b)
            &&& 1 <= a <= b <= 2 * a
        } {
        let (a, b) = choose|a: nat, b: nat|
            {
                &&& plane == #[trigger] pow2(a)
                &&& units == #[trigger] pow2(b)
                &&& 1 <= a <= b <= 2 * a
            };
        po2::lemma_p2_mono(1, a);
        po2::lemma_p2_mono(a, b);
        po2::lemma_p2_mono(b, a + a);
        po2::lemma_p2_adds(a, a);
        assert(po2::p2(a) == plane && po2::p2(b) == units);
    }
}

} // verus!
