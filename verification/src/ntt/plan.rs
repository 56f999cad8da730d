//! NTT execution plans and planning strategies.
//!
//! Pure data types and logic, with no device interaction. Plans can be
//! constructed via [`plan_heuristic`], manually, or by trying the plans of
//! [`enumerate_valid_plans`].

use vstd::arithmetic::div_mod::*;
use vstd::arithmetic::mul::*;
use vstd::arithmetic::power2::*;
use vstd::bits::*;
use vstd::prelude::*;

use crate::po2;

use super::score;
use super::score::{score_passes, INFINITY};

verus! {

/// Size of a field element in bytes (`u32` Montgomery form).
pub const ELEM_BYTES: usize = 4;

/// Configuration for a single pass of a multi-pass NTT.
#[derive(Debug, Copy, Clone, PartialEq, Eq)]
pub struct PassConfig {
    /// Number of NTT stages this pass handles (`N_pass = 2^log_pass`).
    pub log_pass: u32,
    /// Global stage index where this pass begins (cumulative sum of prior
    /// `log_pass` values).
    pub stage_offset: u32,
    /// Independent chunks each workgroup processes. Must be a power of two.
    pub z_count: u32,
    /// Workgroup size exponent (a workgroup has `2^log_wg` threads).
    pub log_wg: u32,
}

/// A complete execution plan for an NTT of size `2^log_n`.
#[derive(Debug, Clone)]
pub struct NttPlan {
    /// Total transform size exponent (`N = 2^log_n`).
    pub log_n: u32,
    /// Per-pass configurations, in execution order.
    pub passes: Vec<PassConfig>,
    /// Number of NTTs to process per kernel launch group. Bounded by
    /// scratch memory for multi-pass plans.
    pub sub_batch: usize,
}

/// A plan as a mathematical value.
pub struct PlanModel {
    pub log_n: u32,
    pub passes: Seq<PassConfig>,
    pub sub_batch: usize,
}

impl View for NttPlan {
    type V = PlanModel;

    open spec fn view(&self) -> PlanModel {
        PlanModel { log_n: self.log_n, passes: self.passes@, sub_batch: self.sub_batch }
    }
}

/// Device capability limits relevant to NTT planning.
#[derive(Debug, Copy, Clone)]
pub struct DeviceLimits {
    /// Maximum shared memory per workgroup, in bytes.
    pub max_shared_mem_bytes: usize,
    /// Maximum threads per workgroup.
    pub max_threads_per_wg: u32,
    /// Scratch buffer size in bytes (user-configured, should be a power of
    /// two).
    pub scratch_bytes: usize,
}

/// Errors from [`validate_plan`].
#[derive(Debug, Clone, PartialEq, Eq)]
pub enum PlanError {
    LogNZero,
    EmptyPlan,
    LogPassZero { pass: usize },
    BitsMismatch { expected: u32, got: u32 },
    StageOffsetMismatch { pass: usize, expected: u32, got: u32 },
    SharedMemExceeded { pass: usize, needed: usize, limit: usize },
    WorkgroupTooLarge { pass: usize, threads: u32, limit: u32 },
    LogWgTooLarge { pass: usize, log_wg: u32, max: u32 },
    ZCountNotPo2 { pass: usize, z_count: u32 },
    ZCountExceedsNOther { pass: usize, z_count: u32, n_other: u32 },
    ScratchExceeded { needed: usize, limit: usize },
    SubBatchZero,
}

// ---------------------------------------------------------------------------
// What makes a plan valid.
// ---------------------------------------------------------------------------

/// The stages covered by the first `k` passes.
pub open spec fn bits_before(passes: Seq<PassConfig>, k: int) -> int
    decreases k,
{
    if k <= 0 {
        0
    } else {
        bits_before(passes, k - 1) + passes[k - 1].log_pass
    }
}

/// How many chunks a pass has, as far as a `u32` can hold it.
pub open spec fn chunks(log_n: u32, log_pass: u32) -> int {
    if log_n - log_pass < 32 {
        po2::p2((log_n - log_pass) as nat)
    } else {
        u32::MAX as int
    }
}

/// The shared memory that a pass takes, in bytes.
pub open spec fn shared_bytes(p: PassConfig) -> int {
    p.z_count * po2::p2(p.log_pass as nat) * ELEM_BYTES
}

/// The scratch memory that a plan takes, in bytes.
pub open spec fn scratch_bytes_needed(plan: PlanModel) -> int {
    po2::p2(plan.log_n as nat) * plan.sub_batch * ELEM_BYTES
}

/// `e`, if `c` holds.
#[verifier::opaque]
pub open spec fn when(c: bool, e: PlanError) -> Seq<PlanError> {
    if c {
        seq![e]
    } else {
        seq![]
    }
}

/// The violations of pass number `i`, whose stages start at `start`.
pub open spec fn pass_errors(
    i: int,
    p: PassConfig,
    start: int,
    log_n: u32,
    limits: DeviceLimits,
) -> Seq<PlanError> {
    let offset = when(
        p.stage_offset != start,
        PlanError::StageOffsetMismatch {
            pass: i as usize,
            expected: start as u32,
            got: p.stage_offset,
        },
    );
    if p.log_pass == 0 {
        offset + seq![PlanError::LogPassZero { pass: i as usize }]
    } else {
        offset + when(
            p.log_wg > p.log_pass - 1,
            PlanError::LogWgTooLarge {
                pass: i as usize,
                log_wg: p.log_wg,
                max: (p.log_pass - 1) as u32,
            },
        ) + when(
            po2::p2(p.log_wg as nat) > limits.max_threads_per_wg,
            PlanError::WorkgroupTooLarge {
                pass: i as usize,
                threads: po2::p2(p.log_wg as nat) as u32,
                limit: limits.max_threads_per_wg,
            },
        ) + when(
            !po2::is_po2(p.z_count as int),
            PlanError::ZCountNotPo2 { pass: i as usize, z_count: p.z_count },
        ) + when(
            shared_bytes(p) > limits.max_shared_mem_bytes,
            PlanError::SharedMemExceeded {
                pass: i as usize,
                needed: shared_bytes(p) as usize,
                limit: limits.max_shared_mem_bytes,
            },
        ) + when(
            p.log_pass <= log_n && p.z_count > chunks(log_n, p.log_pass),
            PlanError::ZCountExceedsNOther {
                pass: i as usize,
                z_count: p.z_count,
                n_other: chunks(log_n, p.log_pass) as u32,
            },
        )
    }
}

/// The violations of the first `k` passes, in order.
pub open spec fn passes_errors(
    passes: Seq<PassConfig>,
    k: int,
    log_n: u32,
    limits: DeviceLimits,
) -> Seq<PlanError>
    decreases k,
{
    if k <= 0 {
        seq![]
    } else {
        passes_errors(passes, k - 1, log_n, limits) + pass_errors(
            k - 1,
            passes[k - 1],
            bits_before(passes, k - 1),
            log_n,
            limits,
        )
    }
}

/// All constraint violations of a plan, in the order in which they are
/// reported.
pub open spec fn plan_errors(plan: PlanModel, limits: DeviceLimits) -> Seq<PlanError> {
    let k = plan.passes.len() as int;
    if plan.log_n == 0 {
        seq![PlanError::LogNZero]
    } else if k == 0 {
        seq![PlanError::EmptyPlan]
    } else {
        when(
            bits_before(plan.passes, k) != plan.log_n,
            PlanError::BitsMismatch {
                expected: plan.log_n,
                got: bits_before(plan.passes, k) as u32,
            },
        ) + passes_errors(plan.passes, k, plan.log_n, limits) + when(
            plan.sub_batch == 0,
            PlanError::SubBatchZero,
        ) + when(
            k > 1 && plan.sub_batch > 0 && scratch_bytes_needed(plan) > limits.scratch_bytes,
            PlanError::ScratchExceeded {
                needed: scratch_bytes_needed(plan) as usize,
                limit: limits.scratch_bytes,
            },
        )
    }
}

/// The sizes that a plan speaks of can be computed: shift amounts are below
/// the word size, and the bytes that it asks for can be counted.
pub open spec fn plan_measurable(plan: PlanModel) -> bool {
    &&& bits_before(plan.passes, plan.passes.len() as int) <= u32::MAX
    &&& forall|i: int|
        0 <= i < plan.passes.len() && (#[trigger] plan.passes[i]).log_pass > 0 ==> {
            &&& plan.passes[i].log_wg < 32
            &&& plan.passes[i].log_pass < usize::BITS
            &&& shared_bytes(plan.passes[i]) <= usize::MAX
        }
    &&& plan.passes.len() > 1 && plan.sub_batch > 0 ==> {
        &&& plan.log_n < usize::BITS
        &&& scratch_bytes_needed(plan) <= usize::MAX
    }
}

/// The passes tile the stages of the transform, and each can be launched.
pub open spec fn passes_tile(log_n: u32, passes: Seq<PassConfig>) -> bool {
    &&& log_n >= 1
    &&& passes.len() >= 1
    &&& bits_before(passes, passes.len() as int) == log_n
    &&& forall|i: int|
        0 <= i < passes.len() ==> {
            let p = #[trigger] passes[i];
            &&& p.stage_offset == bits_before(passes, i)
            &&& p.log_wg < p.log_pass
            &&& po2::is_po2(p.z_count as int)
            &&& p.z_count <= chunks(log_n, p.log_pass)
        }
}

/// Prefix sums of pass sizes never decrease.
pub proof fn lemma_bits_mono(passes: Seq<PassConfig>, a: int, b: int)
    requires
        0 <= a <= b,
    ensures
        0 <= bits_before(passes, a) <= bits_before(passes, b),
    decreases b,
{
    if a < b {
        lemma_bits_mono(passes, a, b - 1);
    } else if a > 0 {
        lemma_bits_mono(passes, a - 1, a - 1);
    }
}

/// A pass without violations keeps its constraints, and the violations of
/// a plan include those of each pass.
proof fn lemma_no_pass_errors(
    passes: Seq<PassConfig>,
    k: int,
    log_n: u32,
    limits: DeviceLimits,
    i: int,
)
    requires
        0 <= i < k,
        passes_errors(passes, k, log_n, limits).len() == 0,
    ensures
        pass_errors(i, passes[i], bits_before(passes, i), log_n, limits).len() == 0,
    decreases k,
{
    if i < k - 1 {
        lemma_no_pass_errors(passes, k - 1, log_n, limits, i);
    }
}

/// No violations in the first `k` passes, if none has any.
proof fn lemma_passes_clean(
    passes: Seq<PassConfig>,
    k: int,
    log_n: u32,
    limits: DeviceLimits,
)
    requires
        forall|i: int|
            0 <= i < k ==> (#[trigger] pass_errors(
                i,
                passes[i],
                bits_before(passes, i),
                log_n,
                limits,
            )).len() == 0,
    ensures
        passes_errors(passes, k, log_n, limits).len() == 0,
    decreases k,
{
    if k > 0 {
        lemma_passes_clean(passes, k - 1, log_n, limits);
        assert(pass_errors(
            k - 1,
            passes[k - 1],
            bits_before(passes, k - 1),
            log_n,
            limits,
        ).len() == 0);
    }
}

/// What a pass without violations satisfies.
proof fn lemma_clean_pass(
    i: int,
    p: PassConfig,
    start: int,
    log_n: u32,
    limits: DeviceLimits,
)
    ensures
        pass_errors(i, p, start, log_n, limits).len() == 0 <==> {
            &&& p.stage_offset == start
            &&& p.log_pass > 0
            &&& p.log_wg < p.log_pass
            &&& po2::p2(p.log_wg as nat) <= limits.max_threads_per_wg
            &&& po2::is_po2(p.z_count as int)
            &&& shared_bytes(p) <= limits.max_shared_mem_bytes
            &&& p.log_pass <= log_n ==> p.z_count <= chunks(log_n, p.log_pass)
        },
{
    reveal(when);
}

/// A plan has no violations exactly when neither it as a whole nor its
/// passes have any.
proof fn lemma_clean_plan(plan: PlanModel, limits: DeviceLimits)
    ensures
        plan_errors(plan, limits).len() == 0 <==> {
            let k = plan.passes.len() as int;
            &&& plan.log_n > 0
            &&& k > 0
            &&& bits_before(plan.passes, k) == plan.log_n
            &&& passes_errors(plan.passes, k, plan.log_n, limits).len() == 0
            &&& plan.sub_batch > 0
            &&& k > 1 ==> scratch_bytes_needed(plan) <= limits.scratch_bytes
        },
{
    reveal(when);
}

/// The passes of a plan have no violations exactly when each keeps its
/// constraints.
proof fn lemma_clean_passes(passes: Seq<PassConfig>, log_n: u32, limits: DeviceLimits)
    requires
        bits_before(passes, passes.len() as int) == log_n,
    ensures
        passes_errors(passes, passes.len() as int, log_n, limits).len() == 0 <==> forall|i: int|
            0 <= i < passes.len() ==> {
                let p = #[trigger] passes[i];
                &&& p.stage_offset == bits_before(passes, i)
                &&& p.log_wg < p.log_pass
                &&& po2::is_po2(p.z_count as int)
                &&& p.z_count <= chunks(log_n, p.log_pass)
                &&& po2::p2(p.log_wg as nat) <= limits.max_threads_per_wg
                &&& shared_bytes(p) <= limits.max_shared_mem_bytes
            },
{
    let k = passes.len() as int;
    if passes_errors(passes, k, log_n, limits).len() == 0 {
        assert forall|i: int| 0 <= i < k implies {
            let p = #[trigger] passes[i];
            &&& p.stage_offset == bits_before(passes, i)
            &&& p.log_wg < p.log_pass
            &&& po2::is_po2(p.z_count as int)
            &&& p.z_count <= chunks(log_n, p.log_pass)
            &&& po2::p2(p.log_wg as nat) <= limits.max_threads_per_wg
            &&& shared_bytes(p) <= limits.max_shared_mem_bytes
        } by {
            lemma_no_pass_errors(passes, k, log_n, limits, i);
            lemma_clean_pass(i, passes[i], bits_before(passes, i), log_n, limits);
            lemma_bits_mono(passes, i + 1, k);
            lemma_bits_mono(passes, 0, i);
        }
    }
    if forall|i: int|
        0 <= i < k ==> {
            let p = #[trigger] passes[i];
            &&& p.stage_offset == bits_before(passes, i)
            &&& p.log_wg < p.log_pass
            &&& po2::is_po2(p.z_count as int)
            &&& p.z_count <= chunks(log_n, p.log_pass)
            &&& po2::p2(p.log_wg as nat) <= limits.max_threads_per_wg
            &&& shared_bytes(p) <= limits.max_shared_mem_bytes
        } {
        assert forall|i: int| 0 <= i < k implies (#[trigger] pass_errors(
            i,
            passes[i],
            bits_before(passes, i),
            log_n,
            limits,
        )).len() == 0 by {
            lemma_clean_pass(i, passes[i], bits_before(passes, i), log_n, limits);
        }
        lemma_passes_clean(passes, k, log_n, limits);
    }
}

/// A plan is valid exactly when its passes tile the transform and can be
/// launched, and its threads, shared memory and scratch memory are within
/// the device's limits.
pub proof fn law_valid_plan(plan: PlanModel, limits: DeviceLimits)
    ensures
        plan_errors(plan, limits).len() == 0 <==> {
            &&& passes_tile(plan.log_n, plan.passes)
            &&& forall|i: int|
                0 <= i < plan.passes.len() ==> {
                    let p = #[trigger] plan.passes[i];
                    &&& po2::p2(p.log_wg as nat) <= limits.max_threads_per_wg
                    &&& shared_bytes(p) <= limits.max_shared_mem_bytes
                }
            &&& plan.sub_batch > 0
            &&& plan.passes.len() > 1 ==> scratch_bytes_needed(plan) <= limits.scratch_bytes
        },
{
    lemma_clean_plan(plan, limits);
    if bits_before(plan.passes, plan.passes.len() as int) == plan.log_n {
        lemma_clean_passes(plan.passes, plan.log_n, limits);
    }
}

/// `z` is a positive power of two.
fn is_power_of_two(z: u32) -> (r: bool)
    ensures
        r == po2::is_po2(z as int),
{
    if z == 0 {
        proof {
            if po2::is_po2(0) {
                let k = choose|k: nat| #[trigger] po2::p2(k) == 0;
                po2::lemma_p2(k);
            }
        }
        return false;
    }
    let l = po2::floor_log2(z as usize);
    let p = po2::pow2_usize(l);
    proof {
        if po2::is_po2(z as int) {
            let k = choose|k: nat| #[trigger] po2::p2(k) == z;
            po2::lemma_p2_mono(k, l as nat);
            po2::lemma_p2_mono(l as nat, k);
            po2::lemma_p2_mono(k, (l + 1) as nat);
        }
    }
    p == z as usize
}

/// The number of chunks of a pass, `2^(log_n - log_pass)`, saturated.
fn n_other(log_n: u32, log_pass: u32) -> (r: u32)
    requires
        log_pass <= log_n,
    ensures
        r == chunks(log_n, log_pass),
{
    if log_n - log_pass < 32 {
        po2::pow2_u32(log_n - log_pass)
    } else {
        u32::MAX
    }
}

/// Concatenation is associative.
proof fn lemma_concat(s: Seq<PlanError>, a: Seq<PlanError>, b: Seq<PlanError>)
    ensures
        s + a + b == s + (a + b),
{
    assert(s + a + b =~= s + (a + b));
}

/// Add `e` to `errors` if `c` holds.
fn push_when(errors: &mut Vec<PlanError>, c: bool, e: PlanError)
    ensures
        final(errors)@ == old(errors)@ + when(c, e),
{
    let ghost start = errors@;
    proof {
        reveal(when);
    }
    if c {
        errors.push(e);
    }
    assert(errors@ =~= start + when(c, e));
}

/// Check one pass, adding its violations to `errors`.
fn validate_pass(
    i: usize,
    pass: &PassConfig,
    cumulative: u32,
    log_n: u32,
    limits: &DeviceLimits,
    errors: &mut Vec<PlanError>,
)
    requires
        pass.log_pass > 0 ==> pass.log_wg < 32 && pass.log_pass < usize::BITS && shared_bytes(
            *pass,
        ) <= usize::MAX,
    ensures
        final(errors)@ == old(errors)@ + pass_errors(
            i as int,
            *pass,
            cumulative as int,
            log_n,
            *limits,
        ),
{
    let ghost start = errors@;
    // stage_offset must match the cumulative sum.
    push_when(
        errors,
        pass.stage_offset != cumulative,
        PlanError::StageOffsetMismatch {
            pass: i,
            expected: cumulative,
            got: pass.stage_offset,
        },
    );
    let ghost e0 = when(
        pass.stage_offset != cumulative,
        PlanError::StageOffsetMismatch {
            pass: i,
            expected: cumulative,
            got: pass.stage_offset,
        },
    );
    if pass.log_pass == 0 {
        errors.push(PlanError::LogPassZero { pass: i });
        proof {
            let tail = seq![PlanError::LogPassZero { pass: i }];
            assert(errors@ =~= start + e0 + tail);
            lemma_concat(start, e0, tail);
        }
        return ;
    }
    // At least two elements per thread for butterflies.
    push_when(
        errors,
        pass.log_wg > pass.log_pass - 1,
        PlanError::LogWgTooLarge { pass: i, log_wg: pass.log_wg, max: pass.log_pass - 1 },
    );
    // Thread count within the device limit.
    let threads = po2::pow2_u32(pass.log_wg);
    push_when(
        errors,
        threads > limits.max_threads_per_wg,
        PlanError::WorkgroupTooLarge { pass: i, threads, limit: limits.max_threads_per_wg },
    );
    // z_count must be a positive power of two.
    push_when(
        errors,
        !is_power_of_two(pass.z_count),
        PlanError::ZCountNotPo2 { pass: i, z_count: pass.z_count },
    );
    // Shared memory: z_count * 2^log_pass * elem_size.
    let n_pass = po2::pow2_usize(pass.log_pass);
    proof {
        assert(0 <= pass.z_count * n_pass) by (nonlinear_arith);
    }
    let shared_needed: usize = (pass.z_count as usize) * n_pass * ELEM_BYTES;
    push_when(
        errors,
        shared_needed > limits.max_shared_mem_bytes,
        PlanError::SharedMemExceeded {
            pass: i,
            needed: shared_needed,
            limit: limits.max_shared_mem_bytes,
        },
    );
    // z_count <= 2^(log_n - log_pass).
    if pass.log_pass <= log_n {
        let others = n_other(log_n, pass.log_pass);
        push_when(
            errors,
            pass.z_count > others,
            PlanError::ZCountExceedsNOther { pass: i, z_count: pass.z_count, n_other: others },
        );
    }
    proof {
        let e1 = when(
            pass.log_wg > pass.log_pass - 1,
            PlanError::LogWgTooLarge {
                pass: i,
                log_wg: pass.log_wg,
                max: (pass.log_pass - 1) as u32,
            },
        );
        let e2 = when(
            threads > limits.max_threads_per_wg,
            PlanError::WorkgroupTooLarge { pass: i, threads, limit: limits.max_threads_per_wg },
        );
        let e3 = when(
            !po2::is_po2(pass.z_count as int),
            PlanError::ZCountNotPo2 { pass: i, z_count: pass.z_count },
        );
        let e4 = when(
            shared_needed > limits.max_shared_mem_bytes,
            PlanError::SharedMemExceeded {
                pass: i,
                needed: shared_needed,
                limit: limits.max_shared_mem_bytes,
            },
        );
        let e5 = when(
            pass.log_pass <= log_n && pass.z_count > chunks(log_n, pass.log_pass),
            PlanError::ZCountExceedsNOther {
                pass: i,
                z_count: pass.z_count,
                n_other: chunks(log_n, pass.log_pass) as u32,
            },
        );
        let all = e0 + e1 + e2 + e3 + e4;
        if pass.log_pass > log_n {
            reveal(when);
            assert(start + all + e5 =~= start + all);
        }
        lemma_concat(start, e0, e1);
        lemma_concat(start, e0 + e1, e2);
        lemma_concat(start, e0 + e1 + e2, e3);
        lemma_concat(start, e0 + e1 + e2 + e3, e4);
        lemma_concat(start, all, e5);
    }
}

/// Validate a plan against device limits. Returns all constraint violations
/// found.
pub fn validate_plan(plan: &NttPlan, limits: &DeviceLimits) -> (r: Result<(), Vec<PlanError>>)
    requires
        plan.log_n >= 1 && plan.passes@.len() >= 1 ==> plan_measurable(plan@),
    ensures
        r is Ok <==> plan_errors(plan@, *limits).len() == 0,
        r is Err ==> r->Err_0@ == plan_errors(plan@, *limits),
{
    let mut errors: Vec<PlanError> = Vec::new();
    if plan.log_n == 0 {
        errors.push(PlanError::LogNZero);
        assert(errors@ =~= plan_errors(plan@, *limits));
        return Err(errors);
    }
    let k = plan.passes.len();
    if k == 0 {
        errors.push(PlanError::EmptyPlan);
        assert(errors@ =~= plan_errors(plan@, *limits));
        return Err(errors);
    }
    let ghost passes = plan.passes@;
    // Bits must sum to log_n.
    let mut total_bits: u32 = 0;
    let mut i: usize = 0;
    while i < k
        invariant
            i <= k,
            k == plan.passes@.len(),
            passes == plan.passes@,
            bits_before(passes, k as int) <= u32::MAX,
            total_bits == bits_before(passes, i as int),
        decreases k - i,
    {
        proof {
            lemma_bits_mono(passes, i + 1, k as int);
        }
        total_bits = total_bits + plan.passes[i].log_pass;
        i = i + 1;
    }
    push_when(
        &mut errors,
        total_bits != plan.log_n,
        PlanError::BitsMismatch { expected: plan.log_n, got: total_bits },
    );
    let ghost bits = errors@;
    proof {
        assert(bits =~= when(
            total_bits != plan.log_n,
            PlanError::BitsMismatch { expected: plan.log_n, got: total_bits },
        ));
        assert(bits + passes_errors(passes, 0, plan.log_n, *limits) =~= bits);
    }
    // Per-pass checks.
    let mut cumulative: u32 = 0;
    i = 0;
    while i < k
        invariant
            i <= k,
            k == plan.passes@.len(),
            passes == plan.passes@,
            plan_measurable(plan@),
            cumulative == bits_before(passes, i as int),
            errors@ == bits + passes_errors(passes, i as int, plan.log_n, *limits),
        decreases k - i,
    {
        let pass = &plan.passes[i];
        proof {
            assert(plan@.passes[i as int] == *pass);
            lemma_bits_mono(passes, i + 1, k as int);
        }
        let ghost before = errors@;
        validate_pass(i, pass, cumulative, plan.log_n, limits, &mut errors);
        proof {
            lemma_concat(
                bits,
                passes_errors(passes, i as int, plan.log_n, *limits),
                pass_errors(
                    i as int,
                    *pass,
                    bits_before(passes, i as int),
                    plan.log_n,
                    *limits,
                ),
            );
        }
        cumulative = cumulative + pass.log_pass;
        i = i + 1;
    }
    push_when(&mut errors, plan.sub_batch == 0, PlanError::SubBatchZero);
    // Scratch check (only for multi-pass).
    if k > 1 && plan.sub_batch > 0 {
        let n = po2::pow2_usize(plan.log_n);
        proof {
            assert(0 <= n * plan.sub_batch) by (nonlinear_arith);
        }
        let scratch_needed: usize = n * plan.sub_batch * ELEM_BYTES;
        push_when(
            &mut errors,
            scratch_needed > limits.scratch_bytes,
            PlanError::ScratchExceeded { needed: scratch_needed, limit: limits.scratch_bytes },
        );
    } else {
        proof {
            reveal(when);
            assert(errors@ + Seq::<PlanError>::empty() =~= errors@);
        }
    }
    if errors.len() == 0 {
        Ok(())
    } else {
        Err(errors)
    }
}

// ---------------------------------------------------------------------------
// The heuristic plan.
// ---------------------------------------------------------------------------

/// Heuristic score for a plan. Lower means predicted faster; a plan with a
/// `z_count` of zero sorts last.
///
/// The score is a binary64 number and comes as its bit pattern; patterns
/// compare as the numbers do.
///
/// Meant for ordering trial plans: score all candidates, sort ascending,
/// benchmark in that order.
pub fn heuristic_score(plan: &NttPlan) -> (r: u64)
    ensures
        r == score::score_of(plan.passes@),
        r <= INFINITY,
        r == INFINITY <==> exists|i: int|
            0 <= i < plan.passes@.len() && (#[trigger] plan.passes@[i]).z_count == 0,
{
    score_passes(&plan.passes)
}

/// Largest valid `log_wg` for a pass: at least two elements per thread, and
/// no more threads than the device allows.
pub open spec fn wg_limit(log_pass: int, limits: DeviceLimits) -> int {
    if log_pass - 1 < po2::flog(limits.max_threads_per_wg as int) {
        log_pass - 1
    } else {
        po2::flog(limits.max_threads_per_wg as int) as int
    }
}

/// Bytes of one chunk of a pass.
pub open spec fn chunk_bytes(log_pass: int) -> int {
    po2::p2(log_pass as nat) * ELEM_BYTES
}

/// Largest valid power-of-two `z_count` for a pass, capped: as many chunks
/// as shared memory holds, and no more than there are. Zero if not even one
/// fits.
pub open spec fn z_limit(log_pass: u32, log_n: u32, limits: DeviceLimits, cap: int) -> int {
    let fit = limits.max_shared_mem_bytes as int / chunk_bytes(log_pass as int);
    let most = if fit < chunks(log_n, log_pass) {
        fit
    } else {
        chunks(log_n, log_pass)
    };
    if chunk_bytes(log_pass as int) > limits.max_shared_mem_bytes {
        0
    } else if po2::p2(po2::flog(most)) < cap {
        po2::p2(po2::flog(most))
    } else {
        cap
    }
}

/// Part `i` when `log_n` is split into `k` balanced parts: the remainder
/// bits go to the earlier parts.
pub open spec fn split_part(log_n: int, k: int, i: int) -> int {
    log_n / k + if i < log_n % k {
        1int
    } else {
        0
    }
}

/// The parts before part `i`, together.
pub open spec fn split_offset(log_n: int, k: int, i: int) -> int {
    i * (log_n / k) + if i < log_n % k {
        i
    } else {
        log_n % k
    }
}

/// The `k`-pass candidate of the heuristic.
pub open spec fn split_passes(log_n: u32, k: int, limits: DeviceLimits) -> Seq<PassConfig> {
    Seq::new(
        k as nat,
        |i: int|
            PassConfig {
                log_pass: split_part(log_n as int, k, i) as u32,
                stage_offset: split_offset(log_n as int, k, i) as u32,
                z_count: z_limit(split_part(log_n as int, k, i) as u32, log_n, limits, 8) as u32,
                log_wg: wg_limit(split_part(log_n as int, k, i), limits) as u32,
            },
    )
}

/// The parts of the `k`-pass candidate fit in shared memory. The first part
/// is the largest.
pub open spec fn split_fits(log_n: u32, k: int, limits: DeviceLimits) -> bool {
    chunk_bytes(split_part(log_n as int, k, 0)) <= limits.max_shared_mem_bytes
}

/// The number of passes, up to `k`, of the candidate with the lowest score;
/// the earlier one of equals. Zero if none fits.
pub open spec fn best_split(log_n: u32, k: int, limits: DeviceLimits) -> int
    decreases k,
{
    if k <= 0 {
        0
    } else {
        let b = best_split(log_n, k - 1, limits);
        if split_fits(log_n, k, limits) && (b == 0 || score::score_of(
            split_passes(log_n, k, limits),
        ) < score::score_of(split_passes(log_n, b, limits))) {
            k
        } else {
            b
        }
    }
}

/// The most passes that the heuristic tries.
pub open spec fn most_passes(log_n: u32) -> int {
    if log_n < 4 {
        log_n as int
    } else {
        4
    }
}

/// How many transforms to run per launch group: all of them for one pass,
/// otherwise as many as scratch memory holds, and at least one.
pub open spec fn sub_batch_limit(
    log_n: u32,
    batch: int,
    num_passes: int,
    limits: DeviceLimits,
) -> int {
    let fit = limits.scratch_bytes as int / (po2::p2(log_n as nat) * ELEM_BYTES);
    let capped = if batch < fit {
        batch
    } else {
        fit
    };
    if num_passes <= 1 {
        batch
    } else if capped < 1 {
        1
    } else {
        capped
    }
}

/// The plan that the heuristic makes.
pub open spec fn heuristic_plan(log_n: u32, batch: usize, limits: DeviceLimits) -> PlanModel {
    let k = best_split(log_n, most_passes(log_n), limits);
    PlanModel {
        log_n,
        passes: split_passes(log_n, k, limits),
        sub_batch: sub_batch_limit(log_n, batch as int, k, limits) as usize,
    }
}

/// `2^(a + 2)` bytes are `2^a` elements, and can be counted.
proof fn lemma_elem_bytes(a: nat)
    requires
        a + 2 < usize::BITS,
    ensures
        po2::p2(a) * ELEM_BYTES == po2::p2(a + 2),
        0 < po2::p2(a) * ELEM_BYTES <= usize::MAX,
{
    po2::lemma_p2(a);
    po2::lemma_p2(a + 1);
    lemma_usize_pow2_no_overflow((a + 2) as nat);
}

/// Split `log_n` into `num_passes` balanced parts. Remainder bits go to the
/// earlier passes (front-loading).
pub fn balanced_split(log_n: u32, num_passes: usize) -> (r: Vec<u32>)
    requires
        1 <= num_passes <= u32::MAX,
    ensures
        r@.len() == num_passes,
        forall|i: int|
            0 <= i < num_passes ==> #[trigger] r@[i] == split_part(
                log_n as int,
                num_passes as int,
                i,
            ),
{
    let k: u32 = num_passes as u32;
    let base: u32 = log_n / k;
    let rem: u32 = log_n % k;
    proof {
        lemma_fundamental_div_mod(log_n as int, k as int);
        assert(rem > 0 ==> base < u32::MAX) by (nonlinear_arith)
            requires
                log_n == k * base + rem,
                k >= 1,
                log_n <= u32::MAX,
        ;
    }
    let mut out: Vec<u32> = Vec::new();
    let mut i: usize = 0;
    while i < num_passes
        invariant
            i <= num_passes <= u32::MAX,
            k == num_passes,
            base == log_n as int / k as int,
            rem == log_n as int % k as int,
            rem > 0 ==> base < u32::MAX,
            out@.len() == i,
            forall|j: int|
                0 <= j < i ==> #[trigger] out@[j] == split_part(
                    log_n as int,
                    num_passes as int,
                    j,
                ),
        decreases num_passes - i,
    {
        let part: u32 = if (i as u32) < rem {
            base + 1
        } else {
            base
        };
        out.push(part);
        i = i + 1;
    }
    out
}

/// Largest valid `log_wg` for a pass of size `log_pass` on this device.
pub fn best_log_wg(log_pass: u32, limits: &DeviceLimits) -> (r: u32)
    requires
        log_pass >= 1,
    ensures
        r == wg_limit(log_pass as int, *limits),
{
    let device_max: u32 = if limits.max_threads_per_wg <= 1 {
        0
    } else {
        po2::floor_log2(limits.max_threads_per_wg as usize)
    };
    if log_pass - 1 < device_max {
        log_pass - 1
    } else {
        device_max
    }
}

/// Largest valid power-of-two `z_count` for a pass, capped at 32.
pub fn best_z_count(log_pass: u32, log_n: u32, limits: &DeviceLimits) -> (r: u32)
    requires
        log_pass <= log_n,
        log_pass + 2 < usize::BITS,
    ensures
        r == z_limit(log_pass, log_n, *limits, 32),
{
    max_z_count(log_pass, log_n, limits, 32)
}

/// The `z_count` that the heuristic picks. Capped at 8: higher values take
/// shared memory from concurrent workgroups.
pub fn heuristic_z_count(log_pass: u32, log_n: u32, limits: &DeviceLimits) -> (r: u32)
    requires
        log_pass <= log_n,
        log_pass + 2 < usize::BITS,
    ensures
        r == z_limit(log_pass, log_n, *limits, 8),
{
    max_z_count(log_pass, log_n, limits, 8)
}

/// Largest power-of-two `z_count` that fits, at most `cap`.
pub fn max_z_count(log_pass: u32, log_n: u32, limits: &DeviceLimits, cap: u32) -> (r: u32)
    requires
        log_pass <= log_n,
        log_pass + 2 < usize::BITS,
    ensures
        r == z_limit(log_pass, log_n, *limits, cap as int),
{
    proof {
        lemma_elem_bytes(log_pass as nat);
    }
    let n_pass_bytes: usize = po2::pow2_usize(log_pass) * ELEM_BYTES;
    if n_pass_bytes > limits.max_shared_mem_bytes {
        return 0;
    }
    let max_from_shared: usize = limits.max_shared_mem_bytes / n_pass_bytes;
    let others = n_other(log_n, log_pass);
    proof {
        if log_n - log_pass < 32 {
            po2::lemma_p2((log_n - log_pass) as nat);
        }
        lemma_div_is_ordered(
            n_pass_bytes as int,
            limits.max_shared_mem_bytes as int,
            n_pass_bytes as int,
        );
        lemma_div_by_self(n_pass_bytes as int);
    }
    let max_z: u32 = if max_from_shared < others as usize {
        max_from_shared as u32
    } else {
        others
    };
    // Floor to a power of two.
    let log_z = po2::floor_log2(max_z as usize);
    proof {
        assert(log_z < 32) by {
            if log_z >= 32 {
                po2::lemma_p2_mono(32, log_z as nat);
                lemma2_to64();
            }
        }
    }
    let floor = po2::pow2_u32(log_z);
    if floor < cap {
        floor
    } else {
        cap
    }
}

/// How many transforms to process per launch group.
pub fn compute_sub_batch(
    log_n: u32,
    batch: usize,
    passes: &Vec<PassConfig>,
    limits: &DeviceLimits,
) -> (r: usize)
    requires
        passes@.len() > 1 ==> log_n + 2 < usize::BITS,
    ensures
        r == sub_batch_limit(log_n, batch as int, passes@.len() as int, *limits),
{
    if passes.len() <= 1 {
        // Single-pass: no scratch needed, process everything at once.
        batch
    } else {
        proof {
            lemma_elem_bytes(log_n as nat);
        }
        let n = po2::pow2_usize(log_n);
        let max_sub: usize = limits.scratch_bytes / (n * ELEM_BYTES);
        let capped: usize = if batch < max_sub {
            batch
        } else {
            max_sub
        };
        if capped < 1 {
            1
        } else {
            capped
        }
    }
}

/// Facts about a balanced split: parts are at least one and at most the
/// first, offsets add up.
proof fn lemma_split(log_n: int, k: int, i: int)
    requires
        1 <= k <= log_n,
        0 <= i < k,
    ensures
        1 <= split_part(log_n, k, i) <= split_part(log_n, k, 0) <= log_n,
        0 <= split_offset(log_n, k, i),
        split_offset(log_n, k, i) + split_part(log_n, k, i) == split_offset(log_n, k, i + 1),
        split_offset(log_n, k, i + 1) <= log_n,
        split_offset(log_n, k, 0) == 0,
        split_offset(log_n, k, k) == log_n,
{
    let q = log_n / k;
    let r = log_n % k;
    po2::lemma_join(log_n, k);
    assert(q >= 1) by (nonlinear_arith)
        requires
            log_n == q * k + r,
            0 <= r < k,
            k <= log_n,
    ;
    assert(0 * q == 0 && k * q == q * k) by (nonlinear_arith);
    assert((i + 1) * q == i * q + q) by (nonlinear_arith);
    assert(0 <= i * q && (i + 1) * q <= k * q) by (nonlinear_arith)
        requires
            0 <= i,
            i + 1 <= k,
            q >= 1,
    ;
    assert(q + 1 <= log_n || r == 0) by (nonlinear_arith)
        requires
            log_n == q * k + r,
            q >= 1,
            k >= 1,
            0 <= r,
    ;
    assert(q <= q * k) by (nonlinear_arith)
        requires
            q >= 1,
            k >= 1,
    ;
}

/// A larger chunk takes more bytes.
proof fn lemma_chunk_bytes_mono(a: int, b: int)
    requires
        0 <= a <= b,
    ensures
        0 < chunk_bytes(a) <= chunk_bytes(b),
{
    po2::lemma_p2_mono(a as nat, b as nat);
    po2::lemma_p2(a as nat);
}

/// `z_limit` is a power of two that fits, or zero.
pub proof fn lemma_z_limit(log_pass: u32, log_n: u32, limits: DeviceLimits, cap: int)
    requires
        log_pass <= log_n,
        po2::is_po2(cap),
        chunk_bytes(log_pass as int) <= limits.max_shared_mem_bytes,
    ensures
        po2::is_po2(z_limit(log_pass, log_n, limits, cap)),
        1 <= z_limit(log_pass, log_n, limits, cap) <= chunks(log_n, log_pass),
        z_limit(log_pass, log_n, limits, cap) <= cap,
        z_limit(log_pass, log_n, limits, cap) * po2::p2(log_pass as nat) * ELEM_BYTES
            <= limits.max_shared_mem_bytes,
        forall|z: int|
            #![trigger po2::is_po2(z)]
            po2::is_po2(z) && z <= cap && z <= chunks(log_n, log_pass) && z * po2::p2(
                log_pass as nat,
            ) * ELEM_BYTES <= limits.max_shared_mem_bytes ==> z <= z_limit(
                log_pass,
                log_n,
                limits,
                cap,
            ),
{
    let bytes = chunk_bytes(log_pass as int);
    let s = limits.max_shared_mem_bytes as int;
    lemma_chunk_bytes_mono(log_pass as int, log_pass as int);
    let fit = s / bytes;
    lemma_fundamental_div_mod(s, bytes);
    assert(fit >= 1) by (nonlinear_arith)
        requires
            s == bytes * fit + s % bytes,
            s % bytes < bytes,
            bytes <= s,
    ;
    if log_n - log_pass < 32 {
        po2::lemma_p2((log_n - log_pass) as nat);
    }
    let most = if fit < chunks(log_n, log_pass) {
        fit
    } else {
        chunks(log_n, log_pass)
    };
    po2::lemma_flog(most);
    po2::lemma_p2(po2::flog(most));
    let ck = choose|ck: nat| #[trigger] po2::p2(ck) == cap;
    po2::lemma_p2(ck);
    let zl = z_limit(log_pass, log_n, limits, cap);
    let pw = po2::p2(log_pass as nat);
    po2::lemma_p2(log_pass as nat);
    assert(zl * pw * ELEM_BYTES <= s) by (nonlinear_arith)
        requires
            zl <= fit,
            bytes == pw * ELEM_BYTES,
            s == bytes * fit + s % bytes,
            s % bytes >= 0,
            pw > 0,
    ;
    assert forall|z: int|
        #![trigger po2::is_po2(z)]
        po2::is_po2(z) && z <= cap && z <= chunks(log_n, log_pass) && z * pw * ELEM_BYTES
            <= s implies z <= zl by {
        assert(z <= fit) by (nonlinear_arith)
            requires
                z * pw * ELEM_BYTES <= s,
                bytes == pw * ELEM_BYTES,
                s == bytes * fit + s % bytes,
                s % bytes < bytes,
                bytes > 0,
        ;
        let zk = choose|zk: nat| #[trigger] po2::p2(zk) == z;
        po2::lemma_p2_mono(zk, po2::flog(most) + 1);
        po2::lemma_p2_mono(zk, po2::flog(most));
    }
}

/// The candidate's passes sum and tile as they should.
proof fn lemma_split_bits(log_n: u32, k: int, limits: DeviceLimits, i: int)
    requires
        1 <= k <= log_n,
        0 <= i <= k,
    ensures
        bits_before(split_passes(log_n, k, limits), i) == split_offset(log_n as int, k, i),
    decreases i,
{
    lemma_split(log_n as int, k, 0);
    if i > 0 {
        lemma_split_bits(log_n, k, limits, i - 1);
        lemma_split(log_n as int, k, i - 1);
    }
}

/// A candidate that fits can be launched and stays within the device's
/// threads and shared memory.
proof fn lemma_split_tiles(log_n: u32, k: int, limits: DeviceLimits)
    requires
        1 <= k <= log_n,
        k <= 4,
        split_fits(log_n, k, limits),
    ensures
        passes_tile(log_n, split_passes(log_n, k, limits)),
        forall|i: int|
            0 <= i < k ==> {
                let p = #[trigger] split_passes(log_n, k, limits)[i];
                &&& shared_bytes(p) <= limits.max_shared_mem_bytes
                &&& limits.max_threads_per_wg >= 1 ==> po2::p2(p.log_wg as nat)
                    <= limits.max_threads_per_wg
            },
{
    let passes = split_passes(log_n, k, limits);
    lemma_split_bits(log_n, k, limits, k);
    lemma_split(log_n as int, k, 0);
    po2::lemma_p2(0);
    po2::lemma_p2(1);
    po2::lemma_p2(2);
    assert(po2::p2(3) == 8);
    assert forall|i: int| 0 <= i < k implies {
        let p = #[trigger] passes[i];
        &&& p.stage_offset == bits_before(passes, i)
        &&& p.log_wg < p.log_pass
        &&& po2::is_po2(p.z_count as int)
        &&& p.z_count <= chunks(log_n, p.log_pass)
        &&& shared_bytes(p) <= limits.max_shared_mem_bytes
        &&& limits.max_threads_per_wg >= 1 ==> po2::p2(p.log_wg as nat)
            <= limits.max_threads_per_wg
    } by {
        lemma_split_bits(log_n, k, limits, i);
        lemma_split(log_n as int, k, i);
        let part = split_part(log_n as int, k, i);
        lemma_chunk_bytes_mono(part, split_part(log_n as int, k, 0));
        lemma_z_limit(part as u32, log_n, limits, 8);
        if limits.max_threads_per_wg >= 1 {
            po2::lemma_flog(limits.max_threads_per_wg as int);
            po2::lemma_p2_mono(
                wg_limit(part, limits) as nat,
                po2::flog(limits.max_threads_per_wg as int),
            );
        }
    }
}

/// The best split is a candidate that fits.
proof fn lemma_best_split(log_n: u32, k: int, limits: DeviceLimits)
    requires
        0 <= k <= log_n,
        k <= 4,
    ensures
        0 <= best_split(log_n, k, limits) <= k,
        best_split(log_n, k, limits) > 0 ==> split_fits(
            log_n,
            best_split(log_n, k, limits),
            limits,
        ),
    decreases k,
{
    if k > 0 {
        lemma_best_split(log_n, k - 1, limits);
    }
}

/// The best split has the lowest score of all candidates that fit, and the
/// fewest passes of those with that score.
pub proof fn law_heuristic_is_best_split(log_n: u32, k: int, limits: DeviceLimits, c: int)
    requires
        0 <= k <= most_passes(log_n),
        1 <= c <= k,
        split_fits(log_n, c, limits),
    ensures
        ({
            let b = best_split(log_n, k, limits);
            &&& 1 <= b <= k
            &&& split_fits(log_n, b, limits)
            &&& score::score_of(split_passes(log_n, b, limits)) <= score::score_of(
                split_passes(log_n, c, limits),
            )
            &&& c < b ==> score::score_of(split_passes(log_n, b, limits)) < score::score_of(
                split_passes(log_n, c, limits),
            )
        }),
    decreases k,
{
    lemma_best_split(log_n, k, limits);
    if c < k {
        law_heuristic_is_best_split(log_n, k - 1, limits, c);
    }
}

/// The heuristic's plan is a balanced split in which every pass has the
/// largest workgroup there is and the largest `z_count` up to eight. No
/// balanced split of the same kind that fits has a lower score, and none
/// with fewer passes has an equal one.
pub proof fn law_heuristic_plan_is_best(log_n: u32, batch: usize, limits: DeviceLimits, c: int)
    requires
        1 <= c <= most_passes(log_n),
        forall|i: int|
            0 <= i < c ==> chunk_bytes(#[trigger] split_part(log_n as int, c, i))
                <= limits.max_shared_mem_bytes,
    ensures
        ({
            let passes = heuristic_plan(log_n, batch, limits).passes;
            let b = passes.len() as int;
            &&& 1 <= b <= most_passes(log_n)
            &&& forall|i: int|
                0 <= i < b ==> {
                    let p = #[trigger] passes[i];
                    &&& p.log_pass == split_part(log_n as int, b, i)
                    &&& p.stage_offset == bits_before(passes, i)
                    &&& p.z_count == z_limit(p.log_pass, log_n, limits, 8)
                    &&& p.log_wg == wg_limit(p.log_pass as int, limits)
                }
            &&& score::score_of(passes) <= score::score_of(split_passes(log_n, c, limits))
            &&& c < b ==> score::score_of(passes) < score::score_of(split_passes(log_n, c, limits))
        }),
{
    assert(chunk_bytes(split_part(log_n as int, c, 0)) <= limits.max_shared_mem_bytes);
    law_heuristic_is_best_split(log_n, most_passes(log_n), limits, c);
    let b = best_split(log_n, most_passes(log_n), limits);
    lemma_split_tiles(log_n, b, limits);
    let passes = split_passes(log_n, b, limits);
    assert forall|i: int| 0 <= i < b implies {
        let p = #[trigger] passes[i];
        &&& p.log_pass == split_part(log_n as int, b, i)
        &&& p.stage_offset == bits_before(passes, i)
        &&& p.z_count == z_limit(p.log_pass, log_n, limits, 8)
        &&& p.log_wg == wg_limit(p.log_pass as int, limits)
    } by {
        lemma_split(log_n as int, b, i);
        lemma_split_pass(log_n, b, limits, i);
    }
}

/// The candidate's workgroups and `z_count`s are what they are named after.
proof fn lemma_split_pass(log_n: u32, k: int, limits: DeviceLimits, i: int)
    requires
        1 <= k <= log_n,
        split_fits(log_n, k, limits),
        0 <= i < k,
    ensures
        ({
            let p = split_passes(log_n, k, limits)[i];
            &&& p.z_count == z_limit(p.log_pass, log_n, limits, 8)
            &&& p.z_count >= 1
            &&& p.log_wg == wg_limit(p.log_pass as int, limits)
        }),
{
    lemma_split(log_n as int, k, i);
    let lp = split_part(log_n as int, k, i);
    lemma_chunk_bytes_mono(lp, split_part(log_n as int, k, 0));
    lemma_split_z(lp as u32, log_n, limits);
}

/// The heuristic's plan is valid, if there is something to transform, a
/// thread to run it, a split that fits in shared memory, and, unless one
/// pass does it, scratch memory for at least one transform.
pub proof fn law_heuristic_plan_is_valid(log_n: u32, batch: usize, limits: DeviceLimits)
    requires
        log_n >= 1,
        log_n + 2 < usize::BITS,
        batch >= 1,
        limits.max_threads_per_wg >= 1,
        best_split(log_n, most_passes(log_n), limits) > 0,
        best_split(log_n, most_passes(log_n), limits) > 1 ==> chunk_bytes(log_n as int)
            <= limits.scratch_bytes,
    ensures
        plan_errors(heuristic_plan(log_n, batch, limits), limits).len() == 0,
{
    let plan = heuristic_plan(log_n, batch, limits);
    let k = best_split(log_n, most_passes(log_n), limits);
    lemma_best_split(log_n, most_passes(log_n), limits);
    lemma_split_tiles(log_n, k, limits);
    lemma_sub_batch_fits(log_n, batch, k, limits);
    law_valid_plan(plan, limits);
}

/// The sub-batch fits in scratch memory if one transform does.
pub proof fn lemma_sub_batch_fits(log_n: u32, batch: usize, k: int, limits: DeviceLimits)
    requires
        log_n + 2 < usize::BITS,
    ensures
        0 <= sub_batch_limit(log_n, batch as int, k, limits) <= usize::MAX,
        k > 1 ==> sub_batch_limit(log_n, batch as int, k, limits) >= 1,
        k > 1 ==> {
            let needed = po2::p2(log_n as nat) * sub_batch_limit(log_n, batch as int, k, limits)
                * ELEM_BYTES;
            &&& needed <= limits.scratch_bytes || needed == chunk_bytes(log_n as int)
            &&& chunk_bytes(log_n as int) <= limits.scratch_bytes ==> needed
                <= limits.scratch_bytes
            &&& needed <= usize::MAX
        },
{
    lemma_elem_bytes(log_n as nat);
    let bytes = chunk_bytes(log_n as int);
    let s = limits.scratch_bytes as int;
    let fit = s / bytes;
    lemma_fundamental_div_mod(s, bytes);
    lemma_div_pos_is_pos(s, bytes);
    lemma_div_nonincreasing(s, bytes);
    let sb = sub_batch_limit(log_n, batch as int, k, limits);
    let n = po2::p2(log_n as nat);
    assert(n * sb * ELEM_BYTES == bytes * sb) by (nonlinear_arith)
        requires
            bytes == n * ELEM_BYTES,
    ;
    if k > 1 {
        if sb <= fit {
            assert(bytes * sb <= s) by (nonlinear_arith)
                requires
                    sb <= fit,
                    s == bytes * fit + s % bytes,
                    s % bytes >= 0,
                    bytes > 0,
            ;
        } else {
            assert(sb == 1);
            assert(bytes * 1 == bytes);
            if bytes <= s {
                lemma_div_is_ordered(bytes, s, bytes);
                lemma_div_by_self(bytes);
            }
        }
    }
}

/// Whether the passes of a plan tile the stages of its transform and can be
/// launched.
pub fn plan_tiles(plan: &NttPlan) -> (r: bool)
    ensures
        r == passes_tile(plan.log_n, plan.passes@),
{
    let k = plan.passes.len();
    let ghost passes = plan.passes@;
    if plan.log_n == 0 || k == 0 {
        return false;
    }
    let mut cumulative: u32 = 0;
    let mut i: usize = 0;
    while i < k
        invariant
            i <= k,
            k == passes.len(),
            passes == plan.passes@,
            plan.log_n >= 1,
            cumulative == bits_before(passes, i as int),
            cumulative <= plan.log_n,
            forall|j: int|
                0 <= j < i ==> {
                    let p = #[trigger] passes[j];
                    &&& p.stage_offset == bits_before(passes, j)
                    &&& p.log_wg < p.log_pass
                    &&& po2::is_po2(p.z_count as int)
                    &&& p.z_count <= chunks(plan.log_n, p.log_pass)
                },
        decreases k - i,
    {
        let p = plan.passes[i];
        proof {
            assert(passes[i as int] == p);
            lemma_bits_mono(passes, i + 1, k as int);
        }
        if p.stage_offset != cumulative || p.log_wg >= p.log_pass || p.log_pass > plan.log_n
            - cumulative {
            return false;
        }
        if !is_power_of_two(p.z_count) || p.z_count > n_other(plan.log_n, p.log_pass) {
            return false;
        }
        cumulative = cumulative + p.log_pass;
        i = i + 1;
    }
    cumulative == plan.log_n
}

/// Whether the heuristic finds a plan: whether some number of passes cuts
/// the transform into pieces that fit in shared memory.
pub fn has_plan(log_n: u32, limits: &DeviceLimits) -> (r: bool)
    requires
        log_n >= 1,
        log_n + 2 < usize::BITS,
    ensures
        r == (best_split(log_n, most_passes(log_n), *limits) > 0),
{
    let most: u32 = if log_n < 4 {
        log_n
    } else {
        4
    };
    let mut found: bool = false;
    let mut num_passes: u32 = 1;
    while num_passes <= most
        invariant
            1 <= num_passes <= most + 1,
            most == most_passes(log_n),
            1 <= most <= log_n,
            most <= 4,
            log_n + 2 < usize::BITS,
            found == (best_split(log_n, num_passes - 1, *limits) > 0),
        decreases most + 1 - num_passes,
    {
        proof {
            lemma_best_split(log_n, num_passes - 1, *limits);
            lemma_split(log_n as int, num_passes as int, 0);
        }
        let pass_sizes = balanced_split(log_n, num_passes as usize);
        let z = heuristic_z_count(pass_sizes[0], log_n, limits);
        proof {
            if chunk_bytes(pass_sizes@[0] as int) <= limits.max_shared_mem_bytes {
                lemma_split_z(pass_sizes@[0], log_n, *limits);
            }
        }
        if z != 0 {
            found = true;
        }
        num_passes = num_passes + 1;
    }
    found
}

/// The heuristic's candidate with `num_passes` passes, if it fits in shared
/// memory.
fn split_configs(log_n: u32, num_passes: u32, limits: &DeviceLimits) -> (r: Option<
    Vec<PassConfig>,
>)
    requires
        1 <= num_passes <= log_n,
        log_n + 2 < usize::BITS,
    ensures
        r is Some <==> split_fits(log_n, num_passes as int, *limits),
        r is Some ==> r->Some_0@ == split_passes(log_n, num_passes as int, *limits),
{
    let ghost k = num_passes as int;
    let ghost target = split_passes(log_n, k, *limits);
    let pass_sizes = balanced_split(log_n, num_passes as usize);
    let mut configs: Vec<PassConfig> = Vec::new();
    let mut stage_offset: u32 = 0;
    let mut i: usize = 0;
    proof {
        lemma_split(log_n as int, k, 0);
    }
    while i < pass_sizes.len()
        invariant
            i <= pass_sizes@.len(),
            pass_sizes@.len() == k,
            k == num_passes,
            1 <= k <= log_n,
            log_n + 2 < usize::BITS,
            forall|j: int|
                0 <= j < k ==> #[trigger] pass_sizes@[j] == split_part(log_n as int, k, j),
            target == split_passes(log_n, k, *limits),
            configs@ == target.take(i as int),
            stage_offset == split_offset(log_n as int, k, i as int),
            i == 0 || split_fits(log_n, k, *limits),
        decreases k - i,
    {
        let lp = pass_sizes[i];
        proof {
            lemma_split(log_n as int, k, i as int);
            lemma_chunk_bytes_mono(lp as int, split_part(log_n as int, k, 0));
        }
        let log_wg = best_log_wg(lp, limits);
        let z = heuristic_z_count(lp, log_n, limits);
        proof {
            if chunk_bytes(lp as int) <= limits.max_shared_mem_bytes {
                lemma_split_z(lp, log_n, *limits);
            }
        }
        if z == 0 {
            return None;
        }
        configs.push(PassConfig { log_pass: lp, stage_offset, z_count: z, log_wg });
        assert(configs@ =~= target.take(i + 1));
        stage_offset = stage_offset + lp;
        i = i + 1;
    }
    assert(target.take(k) =~= target);
    Some(configs)
}

/// The heuristic's `z_count` is not zero where a chunk fits.
proof fn lemma_split_z(log_pass: u32, log_n: u32, limits: DeviceLimits)
    requires
        log_pass <= log_n,
        chunk_bytes(log_pass as int) <= limits.max_shared_mem_bytes,
    ensures
        1 <= z_limit(log_pass, log_n, limits, 8) <= 8,
{
    lemma2_to64();
    assert(po2::p2(3) == 8);
    lemma_z_limit(log_pass, log_n, limits, 8);
}

/// Produce a reasonable plan without benchmarking.
///
/// Tries 1 to 4 pass decompositions with balanced splits and picks the best
/// by [`heuristic_score`]. Each pass gets the largest power-of-two `z_count`
/// that fits shared memory (capped) and the largest valid `log_wg`.
pub fn plan_heuristic(log_n: u32, batch: usize, limits: &DeviceLimits) -> (r: NttPlan)
    requires
        log_n >= 1,
        log_n + 2 < usize::BITS,
        best_split(log_n, most_passes(log_n), *limits) > 0,
    ensures
        r@ == heuristic_plan(log_n, batch, *limits),
        passes_tile(r.log_n, r.passes@),
        plan_measurable(r@),
{
    let most: u32 = if log_n < 4 {
        log_n
    } else {
        4
    };
    let mut best: Option<(Vec<PassConfig>, u64)> = None;
    let mut num_passes: u32 = 1;
    while num_passes <= most
        invariant
            1 <= num_passes <= most + 1,
            most == most_passes(log_n),
            1 <= most <= log_n,
            most <= 4,
            log_n + 2 < usize::BITS,
            ({
                let b = best_split(log_n, num_passes - 1, *limits);
                &&& best is None <==> b == 0
                &&& best is Some ==> {
                    &&& best->Some_0.0@ == split_passes(log_n, b, *limits)
                    &&& best->Some_0.1 == score::score_of(split_passes(log_n, b, *limits))
                }
            }),
        decreases most + 1 - num_passes,
    {
        let ghost k = num_passes as int;
        proof {
            lemma_best_split(log_n, k - 1, *limits);
        }
        match split_configs(log_n, num_passes, limits) {
            Some(configs) => {
                let score = score_passes(&configs);
                let better: bool = match &best {
                    None => true,
                    Some(b) => score < b.1,
                };
                if better {
                    best = Some((configs, score));
                }
            },
            None => {},
        }
        num_passes = num_passes + 1;
    }
    let ghost b = best_split(log_n, most as int, *limits);
    proof {
        lemma_best_split(log_n, most as int, *limits);
        lemma_split_tiles(log_n, b, *limits);
        lemma_sub_batch_fits(log_n, batch, b, *limits);
    }
    let passes = best.unwrap().0;
    let sub_batch = compute_sub_batch(log_n, batch, &passes, limits);
    let plan = NttPlan { log_n, passes, sub_batch };
    proof {
        assert(plan@.passes == split_passes(log_n, b, *limits));
        assert forall|i: int|
            0 <= i < plan@.passes.len() && (#[trigger] plan@.passes[i]).log_pass > 0 implies {
            &&& plan@.passes[i].log_wg < 32
            &&& plan@.passes[i].log_pass < usize::BITS
            &&& shared_bytes(plan@.passes[i]) <= usize::MAX
        } by {
            let p = split_passes(log_n, b, *limits)[i];
            lemma_split(log_n as int, b, i);
            assert(wg_limit(p.log_pass as int, *limits) < 32) by {
                if limits.max_threads_per_wg >= 1 {
                    po2::lemma_flog(limits.max_threads_per_wg as int);
                    lemma2_to64();
                    po2::lemma_p2_mono(32, po2::flog(limits.max_threads_per_wg as int));
                }
            }
        }
    }
    plan
}

// ---------------------------------------------------------------------------
// Plans in numbers.
// ---------------------------------------------------------------------------

/// The sub-batch of several passes is the largest that is useful and fits:
/// at least one transform, no more than the batch has, within scratch memory
/// unless it is a single one, and one more would exceed the batch or scratch
/// memory. A single pass takes the whole batch.
pub proof fn law_sub_batch_is_largest(log_n: u32, batch: int, k: int, limits: DeviceLimits)
    requires
        batch >= 0,
    ensures
        k <= 1 ==> sub_batch_limit(log_n, batch, k, limits) == batch,
        k > 1 ==> {
            let s = sub_batch_limit(log_n, batch, k, limits);
            &&& 1 <= s
            &&& s <= batch || s == 1
            &&& s == 1 || pow2(log_n as nat) * s * 4 <= limits.scratch_bytes
            &&& s + 1 > batch || pow2(log_n as nat) * (s + 1) * 4 > limits.scratch_bytes
        },
{
    let s = sub_batch_limit(log_n, batch, k, limits);
    let n = pow2(log_n as nat) as int;
    let bytes = n * 4;
    let room = limits.scratch_bytes as int;
    let fit = room / bytes;
    po2::lemma_p2(log_n as nat);
    lemma_fundamental_div_mod(room, bytes);
    lemma_mod_bound(room, bytes);
    if k > 1 {
        assert(n * s * 4 == bytes * s && n * (s + 1) * 4 == bytes * (s + 1)) by (nonlinear_arith)
            requires
                bytes == n * 4,
        ;
        if s <= fit {
            assert(bytes * s <= room) by (nonlinear_arith)
                requires
                    s <= fit,
                    room == bytes * fit + room % bytes,
                    room % bytes >= 0,
                    bytes > 0,
            ;
        }
        if s >= fit {
            assert(bytes * (s + 1) > room) by (nonlinear_arith)
                requires
                    s >= fit,
                    room == bytes * fit + room % bytes,
                    room % bytes < bytes,
                    bytes > 0,
            ;
        }
    }
}

/// Whether a pass may run `z_count` of its chunks at a time is whether so
/// many of them are no more than the transform has points.
proof fn lemma_chunks(log_n: u32, p: PassConfig)
    requires
        p.log_pass <= log_n,
    ensures
        p.z_count <= chunks(log_n, p.log_pass) <==> p.z_count * pow2(p.log_pass as nat) <= pow2(
            log_n as nat,
        ),
{
    let c = (log_n - p.log_pass) as nat;
    let w = po2::p2(p.log_pass as nat);
    let z = p.z_count as int;
    po2::lemma_p2(p.log_pass as nat);
    po2::lemma_p2(c);
    po2::lemma_p2_adds(c, p.log_pass as nat);
    let m = po2::p2(c);
    assert(po2::p2(log_n as nat) == m * w);
    if c >= 32 {
        po2::lemma_p2_mono(32, c);
        lemma2_to64();
        assert(z <= m);
    }
    assert(z <= m <==> z * w <= m * w) by (nonlinear_arith)
        requires
            w > 0,
    ;
}

/// What a valid plan is, written out: passes follow one another from stage
/// zero to the last, each with a workgroup of fewer threads than it has
/// points and no more than the device runs, with a power of two of chunks,
/// no more than there are, that fit in shared memory at four bytes a point;
/// and several passes need scratch memory for a sub-batch.
pub proof fn law_valid_plan_in_numbers(plan: PlanModel, limits: DeviceLimits)
    ensures
        plan_errors(plan, limits).len() == 0 <==> {
            let k = plan.passes.len() as int;
            &&& plan.log_n >= 1
            &&& k >= 1
            &&& plan.passes[0].stage_offset == 0
            &&& forall|i: int|
                0 <= i < k - 1 ==> #[trigger] plan.passes[i].stage_offset
                    + plan.passes[i].log_pass == plan.passes[i + 1].stage_offset
            &&& plan.passes[k - 1].stage_offset + plan.passes[k - 1].log_pass == plan.log_n
            &&& forall|i: int|
                0 <= i < k ==> {
                    let p = #[trigger] plan.passes[i];
                    &&& p.log_wg < p.log_pass
                    &&& pow2(p.log_wg as nat) <= limits.max_threads_per_wg
                    &&& exists|a: nat| #[trigger] pow2(a) == p.z_count
                    &&& p.z_count * pow2(p.log_pass as nat) * 4 <= limits.max_shared_mem_bytes
                    &&& p.z_count * pow2(p.log_pass as nat) <= pow2(plan.log_n as nat)
                }
            &&& plan.sub_batch >= 1
            &&& k > 1 ==> pow2(plan.log_n as nat) * plan.sub_batch * 4 <= limits.scratch_bytes
        },
{
    law_valid_plan(plan, limits);
    law_tiling_in_numbers(plan.log_n, plan.passes);
}

/// Where passes follow one another, an offset is the sum of the passes
/// before it.
proof fn lemma_offsets_add(passes: Seq<PassConfig>, i: int)
    requires
        0 <= i < passes.len(),
        passes[0].stage_offset == 0,
        forall|j: int|
            0 <= j < passes.len() - 1 ==> #[trigger] passes[j].stage_offset + passes[j].log_pass
                == passes[j + 1].stage_offset,
    ensures
        passes[i].stage_offset == bits_before(passes, i),
    decreases i,
{
    if i > 0 {
        lemma_offsets_add(passes, i - 1);
        assert(passes[i - 1].stage_offset + passes[i - 1].log_pass == passes[i - 1
            + 1].stage_offset);
    }
}

/// How many chunks a workgroup takes: none if not even one fits in shared
/// memory, else the largest power of two that fits there and is no more than
/// the pass has, cut at the cap.
pub proof fn law_z_count_is_largest(log_pass: u32, log_n: u32, limits: DeviceLimits, cap: int)
    requires
        log_pass <= log_n,
    ensures
        pow2(log_pass as nat) * 4 > limits.max_shared_mem_bytes ==> z_limit(
            log_pass,
            log_n,
            limits,
            cap,
        ) == 0,
        pow2(log_pass as nat) * 4 <= limits.max_shared_mem_bytes ==> exists|a: nat|
            {
                let m = #[trigger] pow2(a) as int;
                let z = z_limit(log_pass, log_n, limits, cap);
                &&& z == if m < cap {
                    m
                } else {
                    cap
                }
                &&& m < 0x1_0000_0000
                &&& m * pow2(log_pass as nat) * 4 <= limits.max_shared_mem_bytes
                &&& m * pow2(log_pass as nat) <= pow2(log_n as nat)
                &&& {
                    ||| 2 * m * pow2(log_pass as nat) * 4 > limits.max_shared_mem_bytes
                    ||| 2 * m * pow2(log_pass as nat) > pow2(log_n as nat)
                    ||| 2 * m >= 0x1_0000_0000
                }
            },
{
    let w = pow2(log_pass as nat) as int;
    let bytes = w * 4;
    let room = limits.max_shared_mem_bytes as int;
    po2::lemma_p2(log_pass as nat);
    if bytes <= room {
        let fit = room / bytes;
        lemma_fundamental_div_mod(room, bytes);
        lemma_mod_bound(room, bytes);
        assert(fit >= 1) by (nonlinear_arith)
            requires
                room == bytes * fit + room % bytes,
                room % bytes < bytes,
                bytes <= room,
        ;
        let c = (log_n - log_pass) as nat;
        po2::lemma_p2(c);
        po2::lemma_p2_adds(c, log_pass as nat);
        let all = po2::p2(c);
        if c >= 32 {
            po2::lemma_p2_mono(32, c);
        }
        lemma2_to64();
        if c < 32 {
            po2::lemma_p2_mono(c, 31);
        }
        let most = if fit < chunks(log_n, log_pass) {
            fit
        } else {
            chunks(log_n, log_pass)
        };
        po2::lemma_flog(most);
        let a = po2::flog(most);
        po2::lemma_p2(a);
        let m = pow2(a) as int;
        assert(m <= most < 2 * m);
        assert(m * w * 4 <= room) by (nonlinear_arith)
            requires
                m <= fit,
                w > 0,
                bytes == w * 4,
                room == bytes * fit + room % bytes,
                room % bytes >= 0,
        ;
        assert(m * w <= all * w) by (nonlinear_arith)
            requires
                m <= all,
                w > 0,
        ;
        if most == fit {
            assert(2 * m * w * 4 > room) by (nonlinear_arith)
                requires
                    2 * m >= fit + 1,
                    w > 0,
                    bytes == w * 4,
                    room == bytes * fit + room % bytes,
                    room % bytes < bytes,
            ;
        } else if c < 32 {
            assert(2 * m * w > all * w) by (nonlinear_arith)
                requires
                    2 * m > all,
                    w > 0,
            ;
        } else {
            assert(2 * m > 0xffff_ffff);
        }
        assert(pow2(a) as int == m);
    }
}

/// The workgroup of a pass: at most one thread for two points, no more than
/// the device runs, and twice as many would break one of the two. A device
/// without threads is treated as one with a single thread.
pub proof fn law_workgroup_is_largest(log_pass: int, limits: DeviceLimits)
    requires
        log_pass >= 1,
    ensures
        ({
            let w = wg_limit(log_pass, limits);
            let threads = if limits.max_threads_per_wg == 0 {
                1
            } else {
                limits.max_threads_per_wg as int
            };
            &&& 0 <= w < log_pass
            &&& pow2(w as nat) <= threads
            &&& w + 1 == log_pass || pow2((w + 1) as nat) > threads
        }),
{
    let t = limits.max_threads_per_wg as int;
    let w = wg_limit(log_pass, limits);
    lemma2_to64();
    if t >= 1 {
        po2::lemma_flog(t);
        let a = po2::flog(t);
        po2::lemma_p2(a);
        po2::lemma_p2_mono(w as nat, a);
    }
}

/// A balanced split cuts `log_n` stages into `k` parts: part `i` is what is
/// left at `i` divided by `k`, rounded up, and starts where the one before it
/// ends.
pub proof fn law_split_is_balanced(log_n: int, k: int, i: int)
    requires
        log_n >= 0,
        k >= 1,
        0 <= i < k,
    ensures
        k * split_part(log_n, k, i) >= log_n - i,
        k * (split_part(log_n, k, i) - 1) < log_n - i,
        split_offset(log_n, k, 0) == 0,
        split_offset(log_n, k, i + 1) == split_offset(log_n, k, i) + split_part(log_n, k, i),
        split_offset(log_n, k, k) == log_n,
{
    let q = log_n / k;
    let r = log_n % k;
    po2::lemma_join(log_n, k);
    assert(k * (q + 1) == q * k + k && k * q == q * k && k * (q - 1) == q * k - k && (i + 1) * q
        == i * q + q && 0 * q == 0) by (nonlinear_arith);
}

/// There is a heuristic plan exactly when some number of passes, up to four
/// and no more than there are stages, can share the stages so that a part's
/// points fit in shared memory at four bytes each.
pub proof fn law_plan_exists(log_n: u32, limits: DeviceLimits)
    ensures
        best_split(log_n, most_passes(log_n), limits) > 0 <==> exists|c: int, e: nat|
            1 <= c <= 4 && c <= log_n && #[trigger] (c * e) >= log_n && pow2(e) * 4
                <= limits.max_shared_mem_bytes,
{
    let k = most_passes(log_n);
    lemma_best_split(log_n, k, limits);
    let b = best_split(log_n, k, limits);
    if b > 0 {
        law_split_is_balanced(log_n as int, b, 0);
        lemma_split(log_n as int, b, 0);
        let e = split_part(log_n as int, b, 0) as nat;
        assert(b * e >= log_n);
        assert(pow2(e) * 4 <= limits.max_shared_mem_bytes);
    }
    if exists|c: int, e: nat|
        1 <= c <= 4 && c <= log_n && #[trigger] (c * e) >= log_n && pow2(e) * 4
            <= limits.max_shared_mem_bytes {
        let (c, e) = choose|c: int, e: nat|
            1 <= c <= 4 && c <= log_n && #[trigger] (c * e) >= log_n && pow2(e) * 4
                <= limits.max_shared_mem_bytes;
        law_split_is_balanced(log_n as int, c, 0);
        lemma_split(log_n as int, c, 0);
        let part = split_part(log_n as int, c, 0);
        assert(part - 1 < e) by (nonlinear_arith)
            requires
                c * (part - 1) < log_n,
                c * e >= log_n,
                c >= 1,
        ;
        lemma_chunk_bytes_mono(part, e as int);
        law_heuristic_is_best_split(log_n, k, limits, c);
    }
}

/// The heuristic's plan, of all balanced splits into at most four passes
/// that fit, has the lowest score, and the fewest passes of those.
pub proof fn law_heuristic_beats_every_split(
    log_n: u32,
    batch: usize,
    limits: DeviceLimits,
    passes: Seq<PassConfig>,
)
    requires
        1 <= passes.len() <= 4,
        passes.len() <= log_n,
        forall|i: int|
            0 <= i < passes.len() ==> {
                let p = #[trigger] passes[i];
                let k = passes.len() as int;
                &&& k * p.log_pass >= log_n - i
                &&& k * (p.log_pass - 1) < log_n - i
                &&& p.stage_offset == bits_before(passes, i)
                &&& p.z_count == z_limit(p.log_pass, log_n, limits, 8)
                &&& p.log_wg == wg_limit(p.log_pass as int, limits)
                &&& pow2(p.log_pass as nat) * 4 <= limits.max_shared_mem_bytes
            },
    ensures
        ({
            let best = heuristic_plan(log_n, batch, limits).passes;
            &&& 1 <= best.len() <= 4
            &&& best.len() <= log_n
            &&& score::score_of(best) <= score::score_of(passes)
            &&& passes.len() < best.len() ==> score::score_of(best) < score::score_of(passes)
            &&& passes.len() == best.len() ==> passes == best
            &&& heuristic_plan(log_n, batch, limits).log_n == log_n
        }),
{
    let k = passes.len() as int;
    assert forall|i: int| 0 <= i < k implies {
        &&& (#[trigger] passes[i]).log_pass == split_part(log_n as int, k, i)
    } by {
        law_split_is_balanced(log_n as int, k, i);
        let a = passes[i].log_pass as int;
        let b = split_part(log_n as int, k, i);
        assert(a == b) by (nonlinear_arith)
            requires
                k >= 1,
                k * a >= log_n - i,
                k * (a - 1) < log_n - i,
                k * b >= log_n - i,
                k * (b - 1) < log_n - i,
        ;
    }
    assert(passes[0].log_pass == split_part(log_n as int, k, 0));
    assert(split_fits(log_n, k, limits));
    let split = split_passes(log_n, k, limits);
    assert forall|i: int| 0 <= i < k implies #[trigger] passes[i] == split[i] by {
        lemma_split_pass(log_n, k, limits, i);
        lemma_split_bits(log_n, k, limits, i);
        lemma_split(log_n as int, k, i);
        lemma_same_bits_before(passes, split, i);
    }
    assert(passes =~= split);
    law_heuristic_is_best_split(log_n, most_passes(log_n), limits, k);
    lemma_best_split(log_n, most_passes(log_n), limits);
}

/// Passes of equal sizes start at equal stages.
proof fn lemma_same_bits_before(a: Seq<PassConfig>, b: Seq<PassConfig>, i: int)
    requires
        0 <= i <= a.len(),
        a.len() == b.len(),
        forall|j: int| 0 <= j < a.len() ==> (#[trigger] a[j]).log_pass == b[j].log_pass,
    ensures
        bits_before(a, i) == bits_before(b, i),
    decreases i,
{
    if i > 0 {
        lemma_same_bits_before(a, b, i - 1);
        assert(a[i - 1].log_pass == b[i - 1].log_pass);
    }
}

/// The stages before the first pass are none, and each pass adds its own.
pub proof fn law_stages_add_up(passes: Seq<PassConfig>, k: int)
    requires
        0 <= k < passes.len(),
    ensures
        bits_before(passes, 0) == 0,
        bits_before(passes, k + 1) == bits_before(passes, k) + passes[k].log_pass,
{
}

/// The violations of a pass.
proof fn lemma_errors_of_pass(
    i: int,
    p: PassConfig,
    start: int,
    log_n: u32,
    limits: DeviceLimits,
    e: PlanError,
)
    ensures
        pass_errors(i, p, start, log_n, limits).contains(e) <==> {
            ||| p.stage_offset != start && e == (PlanError::StageOffsetMismatch {
                pass: i as usize,
                expected: start as u32,
                got: p.stage_offset,
            })
            ||| p.log_pass == 0 && e == (PlanError::LogPassZero { pass: i as usize })
            ||| p.log_pass > 0 && p.log_wg >= p.log_pass && e == (PlanError::LogWgTooLarge {
                pass: i as usize,
                log_wg: p.log_wg,
                max: (p.log_pass - 1) as u32,
            })
            ||| p.log_pass > 0 && po2::p2(p.log_wg as nat) > limits.max_threads_per_wg && e == (
            PlanError::WorkgroupTooLarge {
                pass: i as usize,
                threads: po2::p2(p.log_wg as nat) as u32,
                limit: limits.max_threads_per_wg,
            })
            ||| p.log_pass > 0 && !po2::is_po2(p.z_count as int) && e == (PlanError::ZCountNotPo2 {
                pass: i as usize,
                z_count: p.z_count,
            })
            ||| p.log_pass > 0 && shared_bytes(p) > limits.max_shared_mem_bytes && e == (
            PlanError::SharedMemExceeded {
                pass: i as usize,
                needed: shared_bytes(p) as usize,
                limit: limits.max_shared_mem_bytes,
            })
            ||| 0 < p.log_pass <= log_n && p.z_count > chunks(log_n, p.log_pass) && e == (
            PlanError::ZCountExceedsNOther {
                pass: i as usize,
                z_count: p.z_count,
                n_other: chunks(log_n, p.log_pass) as u32,
            })
        },
{
    let offset = when(
        p.stage_offset != start,
        PlanError::StageOffsetMismatch {
            pass: i as usize,
            expected: start as u32,
            got: p.stage_offset,
        },
    );
    lemma_when_contains(
        p.stage_offset != start,
        PlanError::StageOffsetMismatch {
            pass: i as usize,
            expected: start as u32,
            got: p.stage_offset,
        },
        e,
    );
    if p.log_pass == 0 {
        let zero = PlanError::LogPassZero { pass: i as usize };
        assert(seq![zero][0] == zero);
        lemma_concat_contains(offset, seq![zero], e);
    } else {
        let wg = PlanError::LogWgTooLarge {
            pass: i as usize,
            log_wg: p.log_wg,
            max: (p.log_pass - 1) as u32,
        };
        let threads = PlanError::WorkgroupTooLarge {
            pass: i as usize,
            threads: po2::p2(p.log_wg as nat) as u32,
            limit: limits.max_threads_per_wg,
        };
        let po2 = PlanError::ZCountNotPo2 { pass: i as usize, z_count: p.z_count };
        let shared = PlanError::SharedMemExceeded {
            pass: i as usize,
            needed: shared_bytes(p) as usize,
            limit: limits.max_shared_mem_bytes,
        };
        let other = PlanError::ZCountExceedsNOther {
            pass: i as usize,
            z_count: p.z_count,
            n_other: chunks(log_n, p.log_pass) as u32,
        };
        let c1 = p.log_wg > p.log_pass - 1;
        let c2 = po2::p2(p.log_wg as nat) > limits.max_threads_per_wg;
        let c3 = !po2::is_po2(p.z_count as int);
        let c4 = shared_bytes(p) > limits.max_shared_mem_bytes;
        let c5 = p.log_pass <= log_n && p.z_count > chunks(log_n, p.log_pass);
        lemma_when_contains(c1, wg, e);
        lemma_when_contains(c2, threads, e);
        lemma_when_contains(c3, po2, e);
        lemma_when_contains(c4, shared, e);
        lemma_when_contains(c5, other, e);
        let s1 = offset + when(c1, wg);
        let s2 = s1 + when(c2, threads);
        let s3 = s2 + when(c3, po2);
        let s4 = s3 + when(c4, shared);
        lemma_concat_contains(offset, when(c1, wg), e);
        lemma_concat_contains(s1, when(c2, threads), e);
        lemma_concat_contains(s2, when(c3, po2), e);
        lemma_concat_contains(s3, when(c4, shared), e);
        lemma_concat_contains(s4, when(c5, other), e);
    }
}

/// A conditional violation is there when its condition holds.
proof fn lemma_when_contains(c: bool, e: PlanError, f: PlanError)
    ensures
        c && e == f <==> when(c, e).contains(f),
{
    reveal(when);
    if c {
        assert(seq![e][0] == e);
    }
}

/// What two lists of violations hold together.
proof fn lemma_concat_contains(a: Seq<PlanError>, b: Seq<PlanError>, e: PlanError)
    ensures
        (a + b).contains(e) <==> a.contains(e) || b.contains(e),
{
    let s = a + b;
    if a.contains(e) {
        let i = choose|i: int| 0 <= i < a.len() && a[i] == e;
        assert(s[i] == e);
    }
    if b.contains(e) {
        let i = choose|i: int| 0 <= i < b.len() && b[i] == e;
        assert(s[a.len() + i] == e);
    }
    if s.contains(e) {
        let i = choose|i: int| 0 <= i < s.len() && s[i] == e;
        if i < a.len() {
            assert(a[i] == e);
        } else {
            assert(b[i - a.len()] == e);
        }
    }
}

/// The violations of the passes are those of each.
proof fn lemma_errors_of_passes(
    passes: Seq<PassConfig>,
    k: int,
    log_n: u32,
    limits: DeviceLimits,
    e: PlanError,
)
    ensures
        passes_errors(passes, k, log_n, limits).contains(e) <==> exists|i: int|
            0 <= i < k && #[trigger] pass_errors(
                i,
                passes[i],
                bits_before(passes, i),
                log_n,
                limits,
            ).contains(e),
    decreases k,
{
    if k > 0 {
        lemma_errors_of_passes(passes, k - 1, log_n, limits, e);
        lemma_concat_contains(
            passes_errors(passes, k - 1, log_n, limits),
            pass_errors(k - 1, passes[k - 1], bits_before(passes, k - 1), log_n, limits),
            e,
        );
        if pass_errors(
            k - 1,
            passes[k - 1],
            bits_before(passes, k - 1),
            log_n,
            limits,
        ).contains(e) {
        }
    }
}

/// Which violations a plan has, written out for each: with the stages, bytes,
/// threads and chunks that it reports. A pass without stages is reported as
/// such, and for its offset, but not measured further.
pub proof fn law_reported_violations(plan: PlanModel, limits: DeviceLimits, e: PlanError)
    requires
        plan.log_n >= 1,
        1 <= plan.passes.len() <= usize::MAX,
        bits_before(plan.passes, plan.passes.len() as int) <= u32::MAX,
        plan.passes.len() > 1 ==> pow2(plan.log_n as nat) * plan.sub_batch * 4 <= usize::MAX,
        forall|i: int|
            0 <= i < plan.passes.len() ==> {
                let p = #[trigger] plan.passes[i];
                &&& p.log_wg < 32
                &&& p.z_count * pow2(p.log_pass as nat) * 4 <= usize::MAX
            },
    ensures
        plan_errors(plan, limits).contains(e) <==> match e {
            PlanError::LogNZero => false,
            PlanError::EmptyPlan => false,
            PlanError::LogPassZero { pass } => {
                &&& pass < plan.passes.len()
                &&& plan.passes[pass as int].log_pass == 0
            },
            PlanError::BitsMismatch { expected, got } => {
                &&& expected == plan.log_n
                &&& got == bits_before(plan.passes, plan.passes.len() as int)
                &&& got != expected
            },
            PlanError::StageOffsetMismatch { pass, expected, got } => {
                &&& pass < plan.passes.len()
                &&& expected == bits_before(plan.passes, pass as int)
                &&& got == plan.passes[pass as int].stage_offset
                &&& got != expected
            },
            PlanError::SharedMemExceeded { pass, needed, limit } => {
                let p = plan.passes[pass as int];
                &&& pass < plan.passes.len()
                &&& p.log_pass >= 1
                &&& needed == p.z_count * pow2(p.log_pass as nat) * 4
                &&& limit == limits.max_shared_mem_bytes
                &&& needed > limit
            },
            PlanError::WorkgroupTooLarge { pass, threads, limit } => {
                let p = plan.passes[pass as int];
                &&& pass < plan.passes.len()
                &&& p.log_pass >= 1
                &&& threads == pow2(p.log_wg as nat)
                &&& limit == limits.max_threads_per_wg
                &&& threads > limit
            },
            PlanError::LogWgTooLarge { pass, log_wg, max } => {
                let p = plan.passes[pass as int];
                &&& pass < plan.passes.len()
                &&& p.log_pass >= 1
                &&& log_wg == p.log_wg
                &&& max + 1 == p.log_pass
                &&& log_wg > max
            },
            PlanError::ZCountNotPo2 { pass, z_count } => {
                let p = plan.passes[pass as int];
                &&& pass < plan.passes.len()
                &&& p.log_pass >= 1
                &&& z_count == p.z_count
                &&& forall|a: nat| #[trigger] pow2(a) != z_count
            },
            PlanError::ZCountExceedsNOther { pass, z_count, n_other } => {
                let p = plan.passes[pass as int];
                &&& pass < plan.passes.len()
                &&& 1 <= p.log_pass <= plan.log_n
                &&& z_count == p.z_count
                &&& n_other * pow2(p.log_pass as nat) == pow2(plan.log_n as nat)
                &&& z_count > n_other
            },
            PlanError::ScratchExceeded { needed, limit } => {
                &&& plan.passes.len() > 1
                &&& plan.sub_batch >= 1
                &&& needed == pow2(plan.log_n as nat) * plan.sub_batch * 4
                &&& limit == limits.scratch_bytes
                &&& needed > limit
            },
            PlanError::SubBatchZero => plan.sub_batch == 0,
        },
{
    let k = plan.passes.len() as int;
    let ps = plan.passes;
    let total = bits_before(ps, k);
    let bits = PlanError::BitsMismatch { expected: plan.log_n, got: total as u32 };
    let scratch = PlanError::ScratchExceeded {
        needed: scratch_bytes_needed(plan) as usize,
        limit: limits.scratch_bytes,
    };
    let c = k > 1 && plan.sub_batch > 0 && scratch_bytes_needed(plan) > limits.scratch_bytes;
    lemma_bits_mono(ps, 0, k);
    let a = when(total != plan.log_n, bits);
    let b = passes_errors(ps, k, plan.log_n, limits);
    lemma_when_contains(total != plan.log_n, bits, e);
    lemma_when_contains(plan.sub_batch == 0, PlanError::SubBatchZero, e);
    lemma_when_contains(c, scratch, e);
    lemma_concat_contains(a, b, e);
    lemma_concat_contains(a + b, when(plan.sub_batch == 0, PlanError::SubBatchZero), e);
    lemma_concat_contains(
        a + b + when(plan.sub_batch == 0, PlanError::SubBatchZero),
        when(c, scratch),
        e,
    );
    lemma_errors_of_passes(ps, k, plan.log_n, limits, e);
    assert forall|i: int| 0 <= i < k implies (#[trigger] pass_errors(
        i,
        ps[i],
        bits_before(ps, i),
        plan.log_n,
        limits,
    ).contains(e) <==> reported_for(plan, limits, i, e)) by {
        lemma_reported_for(plan, limits, i, e);
    }
    let pass = pass_of(e);
    if 0 <= pass < k && reported_for(plan, limits, pass, e) {
        assert(pass_errors(pass, ps[pass], bits_before(ps, pass), plan.log_n, limits).contains(e));
    }
}

/// The pass that a violation belongs to, if it belongs to one.
pub open spec fn pass_of(e: PlanError) -> int {
    match e {
        PlanError::LogPassZero { pass } => pass as int,
        PlanError::StageOffsetMismatch { pass, .. } => pass as int,
        PlanError::SharedMemExceeded { pass, .. } => pass as int,
        PlanError::WorkgroupTooLarge { pass, .. } => pass as int,
        PlanError::LogWgTooLarge { pass, .. } => pass as int,
        PlanError::ZCountNotPo2 { pass, .. } => pass as int,
        PlanError::ZCountExceedsNOther { pass, .. } => pass as int,
        _ => -1,
    }
}

/// The violations of pass `i`, written out.
spec fn reported_for(plan: PlanModel, limits: DeviceLimits, i: int, e: PlanError) -> bool {
    let p = plan.passes[i];
    match e {
        PlanError::LogPassZero { pass } => pass == i && p.log_pass == 0,
        PlanError::StageOffsetMismatch { pass, expected, got } => {
            &&& pass == i
            &&& expected == bits_before(plan.passes, i)
            &&& got == p.stage_offset
            &&& got != expected
        },
        PlanError::SharedMemExceeded { pass, needed, limit } => {
            &&& pass == i
            &&& p.log_pass >= 1
            &&& needed == p.z_count * pow2(p.log_pass as nat) * 4
            &&& limit == limits.max_shared_mem_bytes
            &&& needed > limit
        },
        PlanError::WorkgroupTooLarge { pass, threads, limit } => {
            &&& pass == i
            &&& p.log_pass >= 1
            &&& threads == pow2(p.log_wg as nat)
            &&& limit == limits.max_threads_per_wg
            &&& threads > limit
        },
        PlanError::LogWgTooLarge { pass, log_wg, max } => {
            &&& pass == i
            &&& p.log_pass >= 1
            &&& log_wg == p.log_wg
            &&& max + 1 == p.log_pass
            &&& log_wg > max
        },
        PlanError::ZCountNotPo2 { pass, z_count } => {
            &&& pass == i
            &&& p.log_pass >= 1
            &&& z_count == p.z_count
            &&& forall|a: nat| #[trigger] pow2(a) != z_count
        },
        PlanError::ZCountExceedsNOther { pass, z_count, n_other } => {
            &&& pass == i
            &&& 1 <= p.log_pass <= plan.log_n
            &&& z_count == p.z_count
            &&& n_other * pow2(p.log_pass as nat) == pow2(plan.log_n as nat)
            &&& z_count > n_other
        },
        _ => false,
    }
}

/// The violations of one pass of a plan.
proof fn lemma_reported_for(plan: PlanModel, limits: DeviceLimits, i: int, e: PlanError)
    requires
        0 <= i < plan.passes.len() <= usize::MAX,
        bits_before(plan.passes, plan.passes.len() as int) <= u32::MAX,
        plan.passes[i].log_wg < 32,
        plan.passes[i].z_count * pow2(plan.passes[i].log_pass as nat) * 4 <= usize::MAX,
    ensures
        pass_errors(
            i,
            plan.passes[i],
            bits_before(plan.passes, i),
            plan.log_n,
            limits,
        ).contains(e) <==> reported_for(plan, limits, i, e),
{
    let p = plan.passes[i];
    lemma_errors_of_pass(i, p, bits_before(plan.passes, i), plan.log_n, limits, e);
    lemma_bits_mono(plan.passes, i, plan.passes.len() as int);
    lemma_bits_mono(plan.passes, 0, i);
    lemma2_to64();
    po2::lemma_p2(p.log_pass as nat);
    po2::lemma_p2(p.log_wg as nat);
    po2::lemma_p2_mono(p.log_wg as nat, 31);
    assert(0 <= p.z_count * pow2(p.log_pass as nat)) by (nonlinear_arith);
    assert(po2::is_po2(p.z_count as int) <==> exists|a: nat| #[trigger] pow2(a) == p.z_count) by {
        if po2::is_po2(p.z_count as int) {
            let a = choose|a: nat| #[trigger] po2::p2(a) == p.z_count;
            assert(pow2(a) == p.z_count);
        }
        if exists|a: nat| #[trigger] pow2(a) == p.z_count {
            let a = choose|a: nat| #[trigger] pow2(a) == p.z_count;
            assert(po2::p2(a) == p.z_count);
        }
    }
    if p.log_pass <= plan.log_n {
        let c = (plan.log_n - p.log_pass) as nat;
        let w = pow2(p.log_pass as nat) as int;
        po2::lemma_p2(c);
        po2::lemma_p2_adds(c, p.log_pass as nat);
        let m = po2::p2(c);
        if c < 32 {
            po2::lemma_p2_mono(c, 31);
        } else {
            po2::lemma_p2_mono(32, c);
        }
        if let PlanError::ZCountExceedsNOther { n_other, .. } = e {
            let n = n_other as int;
            assert(n * w == m * w ==> n == m) by (nonlinear_arith)
                requires
                    w > 0,
            ;
        }
    }
}

/// Where a violation stands in the list: first what concerns the sum of the
/// passes, then the passes in turn, then the sub-batch.
pub open spec fn section_of(e: PlanError) -> int {
    match e {
        PlanError::LogNZero => 0,
        PlanError::EmptyPlan => 0,
        PlanError::BitsMismatch { .. } => 0,
        PlanError::SubBatchZero => 2,
        PlanError::ScratchExceeded { .. } => 2,
        _ => 1,
    }
}

/// The order of the violations of one section or pass.
pub open spec fn rank_of(e: PlanError) -> int {
    match e {
        PlanError::StageOffsetMismatch { .. } => 0,
        PlanError::LogPassZero { .. } => 1,
        PlanError::LogWgTooLarge { .. } => 2,
        PlanError::WorkgroupTooLarge { .. } => 3,
        PlanError::ZCountNotPo2 { .. } => 4,
        PlanError::SharedMemExceeded { .. } => 5,
        PlanError::ZCountExceedsNOther { .. } => 6,
        PlanError::SubBatchZero => 7,
        PlanError::ScratchExceeded { .. } => 8,
        _ => 0,
    }
}

/// One violation is reported before another.
pub open spec fn precedes(a: PlanError, b: PlanError) -> bool {
    ||| section_of(a) < section_of(b)
    ||| section_of(a) == section_of(b) && pass_of(a) < pass_of(b)
    ||| section_of(a) == section_of(b) && pass_of(a) == pass_of(b) && rank_of(a) < rank_of(b)
}

/// A list of violations is in order.
pub open spec fn in_order(s: Seq<PlanError>) -> bool {
    forall|i: int, j: int| 0 <= i < j < s.len() ==> precedes(#[trigger] s[i], #[trigger] s[j])
}

/// Two lists in order, one before the other, are in order together.
proof fn lemma_in_order(a: Seq<PlanError>, b: Seq<PlanError>)
    requires
        in_order(a),
        in_order(b),
        forall|i: int, j: int|
            0 <= i < a.len() && 0 <= j < b.len() ==> precedes(#[trigger] a[i], #[trigger] b[j]),
    ensures
        in_order(a + b),
{
    let s = a + b;
    assert forall|i: int, j: int| 0 <= i < j < s.len() implies precedes(
        #[trigger] s[i],
        #[trigger] s[j],
    ) by {
        if j < a.len() {
            assert(precedes(a[i], a[j]));
        } else if i < a.len() {
            assert(precedes(a[i], b[j - a.len()]));
        } else {
            assert(precedes(b[i - a.len()], b[j - a.len()]));
        }
    }
}

/// Violations of pass `i`, in order, none beyond rank `r`.
spec fn in_order_to(s: Seq<PlanError>, i: int, r: int) -> bool {
    &&& in_order(s)
    &&& forall|j: int|
        0 <= j < s.len() ==> section_of(#[trigger] s[j]) == 1 && pass_of(s[j]) == i && rank_of(s[j])
            <= r
}

/// One more violation of the pass, of a later rank.
proof fn lemma_one_more(s: Seq<PlanError>, i: int, r: int, c: bool, e: PlanError)
    requires
        in_order_to(s, i, r),
        r < rank_of(e),
        section_of(e) == 1,
        pass_of(e) == i,
    ensures
        in_order_to(s + when(c, e), i, rank_of(e)),
{
    reveal(when);
    let b = when(c, e);
    assert forall|x: int, y: int| 0 <= x < s.len() && 0 <= y < b.len() implies precedes(
        #[trigger] s[x],
        #[trigger] b[y],
    ) by {}
    lemma_in_order(s, b);
    assert forall|j: int| 0 <= j < (s + b).len() implies section_of(#[trigger] (s + b)[j]) == 1
        && pass_of((s + b)[j]) == i && rank_of((s + b)[j]) <= rank_of(e) by {
        if j < s.len() {
            assert((s + b)[j] == s[j]);
        } else {
            assert((s + b)[j] == b[j - s.len()]);
        }
    }
}

/// The violations of one pass are in order.
proof fn lemma_pass_in_order(i: int, p: PassConfig, start: int, log_n: u32, limits: DeviceLimits)
    requires
        0 <= i <= usize::MAX,
    ensures
        in_order_to(pass_errors(i, p, start, log_n, limits), i, 6),
{
    let none = Seq::<PlanError>::empty();
    let pass = i as usize;
    let e0 = PlanError::StageOffsetMismatch {
        pass,
        expected: start as u32,
        got: p.stage_offset,
    };
    let offset = when(p.stage_offset != start, e0);
    lemma_one_more(none, i, -1, p.stage_offset != start, e0);
    assert(none + offset =~= offset);
    if p.log_pass == 0 {
        let zero = PlanError::LogPassZero { pass };
        lemma_one_more(offset, i, 0, true, zero);
        reveal(when);
    } else {
        let c1 = p.log_wg > p.log_pass - 1;
        let e1 = PlanError::LogWgTooLarge {
            pass,
            log_wg: p.log_wg,
            max: (p.log_pass - 1) as u32,
        };
        let c2 = po2::p2(p.log_wg as nat) > limits.max_threads_per_wg;
        let e2 = PlanError::WorkgroupTooLarge {
            pass,
            threads: po2::p2(p.log_wg as nat) as u32,
            limit: limits.max_threads_per_wg,
        };
        let c3 = !po2::is_po2(p.z_count as int);
        let e3 = PlanError::ZCountNotPo2 { pass, z_count: p.z_count };
        let c4 = shared_bytes(p) > limits.max_shared_mem_bytes;
        let e4 = PlanError::SharedMemExceeded {
            pass,
            needed: shared_bytes(p) as usize,
            limit: limits.max_shared_mem_bytes,
        };
        let c5 = p.log_pass <= log_n && p.z_count > chunks(log_n, p.log_pass);
        let e5 = PlanError::ZCountExceedsNOther {
            pass,
            z_count: p.z_count,
            n_other: chunks(log_n, p.log_pass) as u32,
        };
        lemma_one_more(offset, i, 0, c1, e1);
        let s1 = offset + when(c1, e1);
        lemma_one_more(s1, i, 2, c2, e2);
        let s2 = s1 + when(c2, e2);
        lemma_one_more(s2, i, 3, c3, e3);
        let s3 = s2 + when(c3, e3);
        lemma_one_more(s3, i, 4, c4, e4);
        lemma_one_more(s3 + when(c4, e4), i, 5, c5, e5);
    }
}

/// The violations of the passes are in order.
proof fn lemma_passes_in_order(
    passes: Seq<PassConfig>,
    k: int,
    log_n: u32,
    limits: DeviceLimits,
)
    requires
        0 <= k <= passes.len() <= usize::MAX,
    ensures
        in_order(passes_errors(passes, k, log_n, limits)),
        forall|j: int|
            0 <= j < passes_errors(passes, k, log_n, limits).len() ==> section_of(
                #[trigger] passes_errors(passes, k, log_n, limits)[j],
            ) == 1 && 0 <= pass_of(passes_errors(passes, k, log_n, limits)[j]) < k,
    decreases k,
{
    if k > 0 {
        lemma_passes_in_order(passes, k - 1, log_n, limits);
        let a = passes_errors(passes, k - 1, log_n, limits);
        let b = pass_errors(k - 1, passes[k - 1], bits_before(passes, k - 1), log_n, limits);
        lemma_pass_in_order(k - 1, passes[k - 1], bits_before(passes, k - 1), log_n, limits);
        lemma_in_order(a, b);
        let s = passes_errors(passes, k, log_n, limits);
        assert forall|j: int| 0 <= j < s.len() implies section_of(#[trigger] s[j]) == 1 && 0
            <= pass_of(s[j]) < k by {
            if j < a.len() {
                assert(s[j] == a[j]);
            } else {
                assert(s[j] == b[j - a.len()]);
            }
        }
    }
}

/// Violations are reported in order, none of them twice.
pub proof fn law_violations_in_order(plan: PlanModel, limits: DeviceLimits)
    requires
        plan.passes.len() <= usize::MAX,
    ensures
        plan.log_n == 0 ==> plan_errors(plan, limits) == seq![PlanError::LogNZero],
        plan.log_n > 0 && plan.passes.len() == 0 ==> plan_errors(plan, limits)
            == seq![PlanError::EmptyPlan],
        in_order(plan_errors(plan, limits)),
{
    let k = plan.passes.len() as int;
    if plan.log_n > 0 && k > 0 {
        let total = bits_before(plan.passes, k);
        let a = when(
            total != plan.log_n,
            PlanError::BitsMismatch { expected: plan.log_n, got: total as u32 },
        );
        let b = passes_errors(plan.passes, k, plan.log_n, limits);
        let c = when(plan.sub_batch == 0, PlanError::SubBatchZero);
        let d = when(
            k > 1 && plan.sub_batch > 0 && scratch_bytes_needed(plan) > limits.scratch_bytes,
            PlanError::ScratchExceeded {
                needed: scratch_bytes_needed(plan) as usize,
                limit: limits.scratch_bytes,
            },
        );
        lemma_passes_in_order(plan.passes, k, plan.log_n, limits);
        reveal(when);
        lemma_in_order(a, b);
        assert forall|i: int| 0 <= i < (a + b).len() implies section_of(#[trigger] (a + b)[i])
            <= 1 by {
            if i >= a.len() {
                assert((a + b)[i] == b[i - a.len()]);
            }
        }
        lemma_in_order(a + b, c);
        lemma_in_order(a + b + c, d);
    }
}

/// A chunk of `2^log_pass` points takes four bytes a point.
pub proof fn law_chunk_bytes(log_pass: int)
    requires
        log_pass >= 0,
    ensures
        chunk_bytes(log_pass) == pow2(log_pass as nat) * 4,
{
}

/// What it is for passes to tile a transform, written out: they follow one
/// another from stage zero to the last, each with a workgroup of fewer
/// threads than it has points, and with a power of two of chunks, no more
/// than there are.
pub proof fn law_tiling_in_numbers(log_n: u32, ps: Seq<PassConfig>)
    ensures
        passes_tile(log_n, ps) <==> {
            let k = ps.len() as int;
            &&& log_n >= 1
            &&& k >= 1
            &&& ps[0].stage_offset == 0
            &&& forall|i: int|
                0 <= i < k - 1 ==> #[trigger] ps[i].stage_offset + ps[i].log_pass == ps[i
                    + 1].stage_offset
            &&& ps[k - 1].stage_offset + ps[k - 1].log_pass == log_n
            &&& forall|i: int|
                0 <= i < k ==> {
                    let p = #[trigger] ps[i];
                    &&& p.log_wg < p.log_pass
                    &&& exists|a: nat| #[trigger] pow2(a) == p.z_count
                    &&& p.z_count * pow2(p.log_pass as nat) <= pow2(log_n as nat)
                }
        },
{
    let k = ps.len() as int;
    assert forall|z: int| #[trigger] po2::is_po2(z) <==> exists|a: nat| #[trigger] pow2(a) == z by {
        if po2::is_po2(z) {
            let a = choose|a: nat| #[trigger] po2::p2(a) == z;
            assert(pow2(a) == z);
        }
        if exists|a: nat| #[trigger] pow2(a) == z {
            let a = choose|a: nat| #[trigger] pow2(a) == z;
            assert(po2::p2(a) == z);
        }
    }
    if passes_tile(log_n, ps) {
        assert forall|i: int| 0 <= i < k implies {
            let p = #[trigger] ps[i];
            &&& p.log_pass <= log_n
            &&& p.z_count * pow2(p.log_pass as nat) <= pow2(log_n as nat)
            &&& p.stage_offset + p.log_pass == bits_before(ps, i + 1)
        } by {
            lemma_bits_mono(ps, i + 1, k);
            lemma_bits_mono(ps, 0, i);
            lemma_chunks(log_n, ps[i]);
            assert(po2::is_po2(ps[i].z_count as int));
        }
        assert(bits_before(ps, 0) == 0);
    }
    if {
        &&& log_n >= 1
        &&& k >= 1
        &&& ps[0].stage_offset == 0
        &&& forall|i: int|
            0 <= i < k - 1 ==> #[trigger] ps[i].stage_offset + ps[i].log_pass == ps[i
                + 1].stage_offset
        &&& ps[k - 1].stage_offset + ps[k - 1].log_pass == log_n
        &&& forall|i: int|
            0 <= i < k ==> {
                let p = #[trigger] ps[i];
                &&& p.log_wg < p.log_pass
                &&& exists|a: nat| #[trigger] pow2(a) == p.z_count
                &&& p.z_count * pow2(p.log_pass as nat) <= pow2(log_n as nat)
            }
    } {
        assert forall|i: int| 0 <= i < k implies {
            let p = #[trigger] ps[i];
            &&& p.stage_offset == bits_before(ps, i)
            &&& po2::is_po2(p.z_count as int)
            &&& p.z_count <= chunks(log_n, p.log_pass)
        } by {
            lemma_offsets_add(ps, i);
            lemma_offsets_add(ps, k - 1);
            lemma_bits_mono(ps, i + 1, k);
            lemma_bits_mono(ps, 0, i);
            lemma_chunks(log_n, ps[i]);
        }
        lemma_offsets_add(ps, k - 1);
    }
}

/// Which plans can be measured: those whose stages, threads, shared memory
/// and scratch memory can be counted.
pub proof fn law_measurable_plans(plan: PlanModel)
    ensures
        plan_measurable(plan) <==> {
            &&& bits_before(plan.passes, plan.passes.len() as int) <= u32::MAX
            &&& forall|i: int|
                0 <= i < plan.passes.len() && (#[trigger] plan.passes[i]).log_pass > 0 ==> {
                    &&& plan.passes[i].log_wg < 32
                    &&& plan.passes[i].log_pass < usize::BITS
                    &&& plan.passes[i].z_count * pow2(plan.passes[i].log_pass as nat) * 4
                        <= usize::MAX
                }
            &&& plan.passes.len() > 1 && plan.sub_batch > 0 ==> {
                &&& plan.log_n < usize::BITS
                &&& pow2(plan.log_n as nat) * plan.sub_batch * 4 <= usize::MAX
            }
        },
{
}

/// The heuristic's sub-batch is the largest that is useful and fits.
pub proof fn law_heuristic_sub_batch(log_n: u32, batch: usize, limits: DeviceLimits)
    requires
        log_n + 2 < usize::BITS,
    ensures
        ({
            let plan = heuristic_plan(log_n, batch, limits);
            let s = plan.sub_batch as int;
            &&& plan.passes.len() <= 1 ==> s == batch
            &&& plan.passes.len() > 1 ==> {
                &&& 1 <= s
                &&& s <= batch || s == 1
                &&& s == 1 || pow2(log_n as nat) * s * 4 <= limits.scratch_bytes
                &&& s + 1 > batch || pow2(log_n as nat) * (s + 1) * 4 > limits.scratch_bytes
            }
        }),
{
    let k = best_split(log_n, most_passes(log_n), limits);
    lemma_best_split(log_n, most_passes(log_n), limits);
    lemma_sub_batch_fits(log_n, batch, k, limits);
    law_sub_batch_is_largest(log_n, batch as int, k, limits);
}

} // verus!
