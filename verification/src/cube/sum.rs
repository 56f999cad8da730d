//! `SumU32`: the wrapping sum of `u32`s as a monoid, and `SumU32Recipe`,
//! which scans rows of `u32`s to their prefix sums.

use vstd::arithmetic::div_mod::*;
use vstd::prelude::*;

use super::monoid;
use super::monoid::Monoid;
use super::recipe;
use super::recipe::{ScanInput, ScanRecipe};
use crate::po2;

verus! {

/// A `u32` under addition modulo `2^32`.
#[derive(Debug, Copy, Clone, PartialEq, Eq)]
pub struct SumU32 {
    pub v: u32,
}

impl Monoid for SumU32 {
    type Repr = u32;

    const REPR_LANES: u32 = 1;

    open spec fn valid(self) -> bool {
        true
    }

    open spec fn unit() -> Self {
        SumU32 { v: 0 }
    }

    open spec fn op(left: Self, right: Self) -> Self {
        SumU32 { v: ((left.v + right.v) % 0x1_0000_0000) as u32 }
    }

    open spec fn packed(value: Self) -> u32 {
        value.v
    }

    open spec fn unpacked(repr: u32) -> Self {
        SumU32 { v: repr }
    }

    proof fn laws(a: Self, b: Self, c: Self) {
    }

    fn identity() -> (r: Self) {
        SumU32 { v: 0 }
    }

    fn combine(left: Self, right: Self) -> (r: Self) {
        SumU32 { v: left.v.wrapping_add(right.v) }
    }

    fn to_repr(value: Self) -> (r: u32) {
        value.v
    }

    fn from_repr(repr: u32) -> (r: Self) {
        SumU32 { v: repr }
    }

    fn alloc_scratch(count: u32) -> (r: Vec<u32>) {
        vec![0u32; count as usize]
    }
}

/// Prefix sums of rows of `u32`s, with no per-row context.
pub struct SumU32Recipe;

impl ScanRecipe for SumU32Recipe {
    type Monoid = SumU32;

    open spec fn readable(
        contexts: Seq<u32>,
        input: Seq<u32>,
        n: int,
        batch_count: int,
    ) -> bool {
        batch_count * n <= input.len() && batch_count * n <= u32::MAX
    }

    open spec fn loaded(
        contexts: Seq<u32>,
        input: Seq<u32>,
        batch: int,
        scan_pos: int,
        n: int,
        batch_count: int,
    ) -> SumU32 {
        SumU32 { v: input[batch * n + scan_pos] }
    }

    open spec fn writable(
        contexts: Seq<u32>,
        output: Seq<u32>,
        n: int,
        batch_count: int,
    ) -> bool {
        batch_count * n <= output.len() && batch_count * n <= u32::MAX
    }

    open spec fn stored(
        contexts: Seq<u32>,
        output: Seq<u32>,
        batch: int,
        scan_pos: int,
        n: int,
        batch_count: int,
        value: SumU32,
    ) -> Seq<u32> {
        output.update(batch * n + scan_pos, value.v)
    }

    proof fn loads_valid(
        contexts: Seq<u32>,
        input: Seq<u32>,
        batch: int,
        scan_pos: int,
        n: int,
        batch_count: int,
    ) {
    }

    proof fn stays_writable(
        contexts: Seq<u32>,
        output: Seq<u32>,
        batch: int,
        scan_pos: int,
        n: int,
        batch_count: int,
        value: SumU32,
    ) {
        po2::lemma_within(batch, batch_count, n, scan_pos);
    }

    fn load(
        contexts: &[u32],
        input: &[u32],
        batch: u32,
        scan_pos: u32,
        n: u32,
        batch_count: u32,
    ) -> (r: SumU32) {
        proof {
            po2::lemma_within(batch as int, batch_count as int, n as int, scan_pos as int);
        }
        SumU32 { v: input[(batch * n + scan_pos) as usize] }
    }

    fn store(
        contexts: &[u32],
        output: &mut [u32],
        batch: u32,
        scan_pos: u32,
        n: u32,
        batch_count: u32,
        value: SumU32,
    ) {
        proof {
            po2::lemma_within(batch as int, batch_count as int, n as int, scan_pos as int);
        }
        output[(batch * n + scan_pos) as usize] = value.v;
    }
}

/// `x[lo] + ... + x[hi - 1]`.
pub open spec fn sum_of(x: Seq<u32>, lo: int, hi: int) -> int
    decreases hi - lo,
{
    if hi <= lo {
        0
    } else {
        sum_of(x, lo, hi - 1) + x[hi - 1]
    }
}

/// The combination of a row's first `k` values is their sum modulo `2^32`.
proof fn lemma_fold_is_sum(job: ScanInput, b: int, k: int)
    requires
        0 <= k <= job.n,
    ensures
        monoid::fold(recipe::row::<SumU32Recipe>(job, b), 0, k).v == sum_of(
            job.input,
            b * job.n,
            b * job.n + k,
        ) % 0x1_0000_0000,
    decreases k,
{
    if k > 0 {
        lemma_fold_is_sum(job, b, k - 1);
        let before = sum_of(job.input, b * job.n, b * job.n + k - 1);
        let x = job.input[b * job.n + k - 1] as int;
        lemma_add_mod_noop(before, x, 0x1_0000_0000);
        lemma_small_mod(x as nat, 0x1_0000_0000);
    }
}

/// A scan with [`SumU32Recipe`] puts at every position the sum modulo `2^32`
/// of its row up to there, and leaves the rest of the output alone.
pub proof fn law_scan_gives_prefix_sums(job: ScanInput, output: Seq<u32>, count: int)
    requires
        recipe::is_input::<SumU32Recipe>(job),
        SumU32Recipe::writable(job.contexts, output, job.n, job.batch_count),
        0 <= count <= job.batch_count * job.n,
    ensures
        ({
            let after = recipe::prefixes_stored::<SumU32Recipe>(job, output, count);
            &&& after.len() == output.len()
            &&& forall|i: int|
                0 <= i < count ==> #[trigger] after[i] == sum_of(
                    job.input,
                    (i / job.n) * job.n,
                    i + 1,
                ) % 0x1_0000_0000
            &&& forall|i: int| count <= i < output.len() ==> #[trigger] after[i] == output[i]
        }),
    decreases count,
{
    if count > 0 {
        law_scan_gives_prefix_sums(job, output, count - 1);
        let i = count - 1;
        po2::lemma_join(i, job.n);
        po2::lemma_quotient_below(i, job.batch_count, job.n);
        lemma_fold_is_sum(job, i / job.n, i % job.n + 1);
    }
}

/// A sum takes one lane.
pub proof fn law_lanes()
    ensures
        SumU32::REPR_LANES == 1,
{
}

/// Running sums, in words: a row's first sum is its first word, and each
/// further one the sum before plus the row's word, modulo `2^32`.
pub proof fn law_running_sums(job: ScanInput, output: Seq<u32>, b: int, i: int)
    requires
        recipe::is_input::<SumU32Recipe>(job),
        SumU32Recipe::writable(job.contexts, output, job.n, job.batch_count),
        0 <= b < job.batch_count,
        0 <= i < job.n,
    ensures
        ({
            let after = recipe::prefixes_stored::<SumU32Recipe>(
                job,
                output,
                job.batch_count * job.n,
            );
            let at = b * job.n + i;
            &&& after.len() == output.len()
            &&& i == 0 ==> after[at] == job.input[at]
            &&& i > 0 ==> after[at] == (after[at - 1] + job.input[at]) % 0x1_0000_0000
        }),
{
    let total = job.batch_count * job.n;
    let at = b * job.n + i;
    law_scan_gives_prefix_sums(job, output, total);
    po2::lemma_within(b, job.batch_count, job.n, i);
    po2::lemma_split(b, job.n, i);
    let start = b * job.n;
    let x = job.input[at] as int;
    vstd::arithmetic::mul::lemma_mul_nonnegative(b, job.n);
    assert(sum_of(job.input, start, at + 1) == sum_of(job.input, start, at) + x);
    if i == 0 {
        lemma_small_mod(x as nat, 0x1_0000_0000);
    } else {
        po2::lemma_split(b, job.n, i - 1);
        po2::lemma_within(b, job.batch_count, job.n, i - 1);
        let after = recipe::prefixes_stored::<SumU32Recipe>(job, output, total);
        assert(after[at - 1] == sum_of(job.input, start, at) % 0x1_0000_0000);
        lemma_add_mod_noop(sum_of(job.input, start, at), x, 0x1_0000_0000);
        lemma_small_mod(x as nat, 0x1_0000_0000);
    }
}

/// What a sum asks of its buffers, written out.
pub proof fn law_sum_inputs(zs: Seq<u32>, buf: Seq<u32>, n: int, batch_count: int)
    ensures
        SumU32Recipe::readable(zs, buf, n, batch_count) <==> batch_count * n <= buf.len()
            && batch_count * n <= u32::MAX,
        SumU32Recipe::writable(zs, buf, n, batch_count) <==> batch_count * n <= buf.len()
            && batch_count * n <= u32::MAX,
{
}

} // verus!
