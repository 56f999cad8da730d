//! NTT planner with a fixed decomposition: precomputed twiddle tables, a
//! scratch budget, and a simple `forward`/`inverse` API.

use vstd::arithmetic::div_mod::*;
use vstd::arithmetic::power2::*;
use vstd::prelude::*;

use crate::field::monty::MontyParameters;
use crate::po2;

use super::executor;
use super::executor::{Direction, NttTables};
use super::plan;
use super::plan::{NttPlan, PassConfig};
use super::tile;

verus! {

/// Default scratch buffer size in elements: 64 MiB of words.
pub const DEFAULT_SCRATCH_ELEMS: usize = 16_777_216;

/// Chunks per workgroup of a multi-pass transform.
pub const MULTI_PASS_Z: u32 = 8;

/// The sizes of the passes: one pass up to 10 stages, two up to 20,
/// otherwise three, as even as possible with the larger ones first (of two,
/// the larger one last).
pub open spec fn pass_sizes(log_n: int) -> Seq<int> {
    if log_n <= 10 {
        seq![log_n]
    } else if log_n <= 20 {
        seq![log_n / 2, log_n - log_n / 2]
    } else {
        seq![
            log_n / 3 + (if log_n % 3 > 0 { 1int } else { 0 }),
            log_n / 3 + (if log_n % 3 > 1 { 1int } else { 0 }),
            log_n / 3,
        ]
    }
}

/// Decompose `log_n` into pass sizes. Returns the sizes and their count.
pub fn decompose_passes(log_n: u32) -> (r: ([u32; 4], usize))
    ensures
        r.1 == pass_sizes(log_n as int).len(),
        forall|i: int|
            0 <= i < 4 ==> #[trigger] r.0@[i] == (if i < r.1 {
                pass_sizes(log_n as int)[i]
            } else {
                0
            }),
{
    if log_n <= 10 {
        ([log_n, 0, 0, 0], 1)
    } else if log_n <= 20 {
        let half: u32 = log_n / 2;
        ([half, log_n - half, 0, 0], 2)
    } else {
        let third: u32 = log_n / 3;
        let rem: u32 = log_n % 3;
        let first: u32 = if rem > 0 {
            third + 1
        } else {
            third
        };
        let second: u32 = if rem > 1 {
            third + 1
        } else {
            third
        };
        ([first, second, third, 0], 3)
    }
}

/// Workgroup size exponent of a pass: at least two elements per thread, and
/// at most 256 threads.
pub open spec fn wg_for(log_pass: int) -> int {
    if log_pass < 1 {
        0
    } else if log_pass - 1 < 8 {
        log_pass - 1
    } else {
        8
    }
}

/// Pick the workgroup size exponent of a pass.
pub fn pick_log_wg(log_pass: u32) -> (r: u32)
    ensures
        r == wg_for(log_pass as int),
{
    let most: u32 = log_pass.saturating_sub(1);
    if most < 8 {
        most
    } else {
        8
    }
}

/// The sum of the first `i` pass sizes.
pub open spec fn sizes_before(log_n: int, i: int) -> int
    decreases i,
{
    if i <= 0 {
        0
    } else {
        sizes_before(log_n, i - 1) + pass_sizes(log_n)[i - 1]
    }
}

/// The pass sizes tile the stages.
pub proof fn law_passes_add_up(log_n: int)
    requires
        log_n >= 1,
    ensures
        sizes_before(log_n, pass_sizes(log_n).len() as int) == log_n,
        forall|i: int| 0 <= i < pass_sizes(log_n).len() ==> #[trigger] pass_sizes(log_n)[i] >= 1,
{
    reveal_with_fuel(sizes_before, 4);
    let s = pass_sizes(log_n);
    assert forall|i: int| 0 <= i < s.len() implies #[trigger] s[i] >= 1 by {
        assert(i == 0 || i == 1 || i == 2);
    }
}

/// Precomputed NTT state for a specific field.
///
/// Holds twiddle tables and a scratch budget. Call [`forward`](Self::forward)
/// and [`inverse`](Self::inverse) to perform transforms.
pub struct NttPlanner<P: MontyParameters> {
    tables: NttTables<P>,
    /// Scratch capacity in elements.
    scratch_len: usize,
}

impl<P: MontyParameters> NttPlanner<P> {
    /// The tables are those of the field.
    pub closed spec fn wf(&self) -> bool {
        self.tables.wf()
    }

    /// The scratch budget, in elements.
    pub closed spec fn scratch_elems(&self) -> int {
        self.scratch_len as int
    }

    /// Create a new planner, precomputing all twiddle tables.
    ///
    /// `scratch_elems`: size of the scratch buffer in elements. Pass 0 for
    /// the default (64 MiB).
    pub fn new(scratch_elems: usize) -> (r: Self)
        ensures
            r.wf(),
            r.scratch_elems() == (if scratch_elems == 0 {
                DEFAULT_SCRATCH_ELEMS
            } else {
                scratch_elems
            }),
    {
        let scratch_len: usize = if scratch_elems == 0 {
            DEFAULT_SCRATCH_ELEMS
        } else {
            scratch_elems
        };
        NttPlanner { tables: NttTables::<P>::new(), scratch_len }
    }

    /// The plan for transforms of `2^log_n` points.
    fn plan_for(&self, log_n: u32, batch: usize) -> (r: NttPlan)
        requires
            1 <= log_n <= executor::max_log_n::<P>(),
            log_n > 10 ==> po2::p2(log_n as nat) <= self.scratch_len,
        ensures
            r.log_n == log_n,
            plan::passes_tile(log_n, r.passes@),
            r.passes@.len() == pass_sizes(log_n as int).len(),
            forall|i: int|
                0 <= i < r.passes@.len() ==> {
                    let p = #[trigger] r.passes@[i];
                    &&& p.log_pass == pass_sizes(log_n as int)[i]
                    &&& p.stage_offset == sizes_before(log_n as int, i)
                    &&& p.z_count == (if r.passes@.len() == 1 {
                        1
                    } else {
                        MULTI_PASS_Z
                    })
                    &&& p.log_wg == wg_for(p.log_pass as int)
                },
            r.passes@.len() > 1 ==> r.sub_batch == self.scratch_len as int / po2::p2(
                log_n as nat,
            ) && r.sub_batch > 0,
            r.passes@.len() == 1 ==> r.sub_batch == batch,
    {
        let (sizes, num_passes) = decompose_passes(log_n);
        let z: u32 = if num_passes == 1 {
            1
        } else {
            MULTI_PASS_Z
        };
        let ghost log = log_n as int;
        proof {
            law_passes_add_up(log);
            lemma_z_counts();
        }
        let mut passes: Vec<PassConfig> = Vec::new();
        let mut stage_offset: u32 = 0;
        let mut pass_idx: usize = 0;
        while pass_idx < num_passes
            invariant
                pass_idx <= num_passes <= 3,
                log == log_n,
                1 <= log_n <= 24,
                num_passes == pass_sizes(log).len(),
                forall|i: int|
                    0 <= i < 4 ==> #[trigger] sizes@[i] == (if i < num_passes {
                        pass_sizes(log)[i]
                    } else {
                        0
                    }),
                z == if num_passes == 1 {
                    1u32
                } else {
                    MULTI_PASS_Z
                },
                passes@.len() == pass_idx,
                stage_offset == sizes_before(log, pass_idx as int),
                sizes_before(log, pass_idx as int) <= log,
                forall|i: int|
                    0 <= i < pass_idx ==> {
                        let p = #[trigger] passes@[i];
                        &&& p.log_pass == pass_sizes(log)[i]
                        &&& p.stage_offset == sizes_before(log, i)
                        &&& p.z_count == z
                        &&& p.log_wg == wg_for(p.log_pass as int)
                    },
            decreases num_passes - pass_idx,
        {
            let log_pass = sizes[pass_idx];
            let log_wg = pick_log_wg(log_pass);
            proof {
                let i = pass_idx as int;
                assert(log_pass == pass_sizes(log)[i]);
                reveal_with_fuel(sizes_before, 4);
                assert(i == 0 || i == 1 || i == 2);
                assert(sizes_before(log, i + 1) <= log);
            }
            passes.push(PassConfig { log_pass, stage_offset, z_count: z, log_wg });
            stage_offset = stage_offset + log_pass;
            pass_idx = pass_idx + 1;
        }
        proof {
            lemma_same_sums(log, passes@, num_passes as int);
            assert forall|i: int| 0 <= i < passes@.len() implies {
                let p = #[trigger] passes@[i];
                &&& p.stage_offset == plan::bits_before(passes@, i)
                &&& p.log_wg < p.log_pass
                &&& po2::is_po2(p.z_count as int)
                &&& p.z_count <= plan::chunks(log_n, p.log_pass)
            } by {
                let p = passes@[i];
                assert(pass_sizes(log)[i] >= 1);
                lemma_same_sums(log, passes@, i);
                assert(i == 0 || i == 1 || i == 2);
                if num_passes == 1 {
                    po2::lemma_p2(0);
                    assert((log_n - p.log_pass) as nat == 0);
                } else {
                    po2::lemma_p2_mono(3, (log_n - p.log_pass) as nat);
                }
            }
        }
        let sub_batch: usize = if num_passes == 1 {
            batch
        } else {
            let n = po2::pow2_usize(log_n);
            proof {
                lemma_div_is_ordered(n as int, self.scratch_len as int, n as int);
                lemma_div_by_self(n as int);
            }
            self.scratch_len / n
        };
        NttPlan { log_n, passes, sub_batch }
    }

    /// Forward NTT: bit-reversed coefficients in, natural-order evaluations
    /// out, in place on `batch` polynomials of `2^log_n` words each.
    pub fn forward(&self, buf: &mut [u32], log_n: u32, batch: usize)
        requires
            self.wf(),
            1 <= log_n <= executor::max_log_n::<P>(),
            log_n > 10 ==> po2::p2(log_n as nat) <= self.scratch_elems(),
            batch * po2::p2(log_n as nat) <= old(buf)@.len(),
            tile::tile_reduced::<P>(old(buf)@, 0, batch * po2::p2(log_n as nat)),
        ensures
            final(buf)@.len() == old(buf)@.len(),
            tile::tile_reduced::<P>(final(buf)@, 0, batch * po2::p2(log_n as nat)),
            executor::rows_transformed::<P>(
                Direction::Forward,
                log_n as nat,
                old(buf)@,
                final(buf)@,
                0,
                batch as int,
            ),
            forall|k: int|
                batch * po2::p2(log_n as nat) <= k < old(buf)@.len() ==> #[trigger] final(buf)@[k]
                    == old(buf)@[k],
    {
        let plan = self.plan_for(log_n, batch);
        self.tables.run_batched(buf, &plan, batch, Direction::Forward);
    }

    /// Inverse NTT: natural-order evaluations in, bit-reversed coefficients
    /// out, in place on `batch` polynomials of `2^log_n` words each.
    pub fn inverse(&self, buf: &mut [u32], log_n: u32, batch: usize)
        requires
            self.wf(),
            1 <= log_n <= executor::max_log_n::<P>(),
            log_n > 10 ==> po2::p2(log_n as nat) <= self.scratch_elems(),
            batch * po2::p2(log_n as nat) <= old(buf)@.len(),
            tile::tile_reduced::<P>(old(buf)@, 0, batch * po2::p2(log_n as nat)),
        ensures
            final(buf)@.len() == old(buf)@.len(),
            tile::tile_reduced::<P>(final(buf)@, 0, batch * po2::p2(log_n as nat)),
            executor::rows_transformed::<P>(
                Direction::Inverse,
                log_n as nat,
                old(buf)@,
                final(buf)@,
                0,
                batch as int,
            ),
            forall|k: int|
                batch * po2::p2(log_n as nat) <= k < old(buf)@.len() ==> #[trigger] final(buf)@[k]
                    == old(buf)@[k],
    {
        let plan = self.plan_for(log_n, batch);
        self.tables.run_batched(buf, &plan, batch, Direction::Inverse);
    }
}

/// One and eight are powers of two.
proof fn lemma_z_counts()
    ensures
        po2::is_po2(1),
        po2::is_po2(8),
        po2::p2(3) == 8,
{
    lemma2_to64();
    assert(po2::p2(0) == 1);
    assert(po2::p2(3) == 8);
}

/// The passes' sizes sum as the decomposition does.
proof fn lemma_same_sums(log: int, passes: Seq<PassConfig>, k: int)
    requires
        0 <= k <= passes.len(),
        forall|i: int|
            0 <= i < passes.len() ==> (#[trigger] passes[i]).log_pass == pass_sizes(log)[i],
    ensures
        plan::bits_before(passes, k) == sizes_before(log, k),
    decreases k,
{
    if k > 0 {
        lemma_same_sums(log, passes, k - 1);
    }
}

/// How the passes share the stages: as few passes as there can be with ten
/// stages each, at most three, none with more than one stage more than
/// another; of two the later is the larger, of three the earlier ones are.
pub proof fn law_pass_sizes(log_n: int)
    requires
        log_n >= 0,
    ensures
        ({
            let s = pass_sizes(log_n);
            let k = s.len() as int;
            &&& 1 <= k <= 3
            &&& k == 3 || log_n <= 10 * k
            &&& k == 1 || log_n > 10 * (k - 1)
            &&& k == 1 ==> s[0] == log_n
            &&& k == 2 ==> s[0] + s[1] == log_n && s[0] <= s[1] <= s[0] + 1
            &&& k == 3 ==> s[0] + s[1] + s[2] == log_n && s[0] >= s[1] >= s[2] >= s[0] - 1
        }),
{
}

/// The workgroup for a pass: half its points, at most 256 threads.
pub proof fn law_workgroup_for(log_pass: int)
    requires
        log_pass >= 0,
    ensures
        log_pass == 0 ==> wg_for(log_pass) == 0,
        log_pass >= 1 ==> 0 <= wg_for(log_pass) <= log_pass - 1,
        wg_for(log_pass) <= 8,
        log_pass >= 1 ==> wg_for(log_pass) == 8 || wg_for(log_pass) == log_pass - 1,
{
}

/// The stages before a pass are those of the passes before it.
pub proof fn law_sizes_before(log_n: int, i: int)
    requires
        0 <= i < pass_sizes(log_n).len(),
    ensures
        sizes_before(log_n, 0) == 0,
        sizes_before(log_n, i + 1) == sizes_before(log_n, i) + pass_sizes(log_n)[i],
{
}

/// A planner's scratch memory has 64 MiB of words by default, and a workgroup
/// of several passes takes eight chunks.
pub proof fn law_planner_defaults()
    ensures
        DEFAULT_SCRATCH_ELEMS * 4 == 64 * 1024 * 1024,
        MULTI_PASS_Z == 8,
{
}

} // verus!
