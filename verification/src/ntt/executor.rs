//! NTT executor: owns the precomputed tables and runs kernels according to
//! a plan.

use core::marker::PhantomData;

use vstd::arithmetic::mul::*;
use vstd::arithmetic::power::*;
use vstd::arithmetic::power2::*;
use vstd::prelude::*;

use crate::cube::device::Device;
use crate::field::binomial;
use crate::field::ext;
use crate::field::ext::{ExtField, ExtShape};
use crate::field::monty;
use crate::field::monty::MontyParameters;
use crate::field::ring;
use crate::po2;
use crate::poly;
use crate::zmod;

use super::fwd_pass;
use super::fwd_pass::ntt_fwd_pass;
use super::inv_pass::ntt_inv_pass;
use super::layout;
use super::plan;
use super::plan::{plan_heuristic, DeviceLimits, NttPlan, PassConfig};
use super::tile;
use super::transform;
use super::twiddles;
use super::twiddles::{build_partial_fwd_twiddles, build_partial_inv_twiddles, n_inv};

verus! {

/// Which way a transform runs.
#[derive(Debug, Copy, Clone)]
pub enum Direction {
    Forward,
    Inverse,
}

/// The largest `log_n` that an executor supports: 24, capped by the field's
/// 2-adicity.
pub open spec fn max_log_n<P: MontyParameters>() -> int {
    if P::TWO_ADICITY < 24 {
        P::TWO_ADICITY as int
    } else {
        24
    }
}

/// What a transform makes of one polynomial.
pub open spec fn transformed<P: MontyParameters>(
    dir: Direction,
    l: nat,
    x: Seq<int>,
) -> Seq<int> {
    match dir {
        Direction::Forward => transform::ntt(P::PRIME as int, twiddles::omega::<P>(l), l, x),
        Direction::Inverse => transform::intt(
            P::PRIME as int,
            twiddles::inv_omega::<P>(l),
            twiddles::size_inv::<P>(l),
            l,
            x,
        ),
    }
}

/// The stages `from..to` of a direction.
pub open spec fn stages<P: MontyParameters>(
    dir: Direction,
    l: nat,
    x: Seq<int>,
    from: nat,
    to: nat,
) -> Seq<int> {
    match dir {
        Direction::Forward => transform::dit(
            P::PRIME as int,
            twiddles::omega::<P>(l),
            l,
            x,
            from,
            to,
        ),
        Direction::Inverse => transform::dif(
            P::PRIME as int,
            twiddles::inv_omega::<P>(l),
            l,
            x,
            from,
            to,
        ),
    }
}

/// How many index bits stand at the top after `so` stages.
pub open spec fn moved_bits(dir: Direction, l: nat, so: nat) -> nat {
    match dir {
        Direction::Forward => so,
        Direction::Inverse => (l - so) as nat,
    }
}

/// What the first stage starts from: the inverse transform scales first.
pub open spec fn prepared<P: MontyParameters>(dir: Direction, l: nat, x: Seq<int>) -> Seq<int> {
    match dir {
        Direction::Forward => x,
        Direction::Inverse => poly::scale(P::PRIME as int, twiddles::size_inv::<P>(l), x),
    }
}

/// What a pass at `so` loads of a row.
pub open spec fn loaded<P: MontyParameters>(
    dir: Direction,
    l: nat,
    so: nat,
    row: Seq<int>,
) -> Seq<int> {
    if so == 0 {
        prepared::<P>(dir, l, row)
    } else {
        row
    }
}

/// The rows of a buffer hold the transforms of another buffer's rows, from
/// `base` on.
pub open spec fn rows_transformed<P: MontyParameters>(
    dir: Direction,
    l: nat,
    before: Seq<u32>,
    after: Seq<u32>,
    base: int,
    rows: int,
) -> bool {
    forall|r: int|
        0 <= r < rows ==> #[trigger] tile::tile_values::<P>(after, base + r * po2::p2(l), l)
            == transformed::<P>(
            dir,
            l,
            tile::tile_values::<P>(before, base + r * po2::p2(l), l),
        )
}

/// The forward and then the inverse transform of a polynomial of the field
/// give it back, and so do the inverse and then the forward.
pub proof fn law_transforms_round_trip<P: MontyParameters>(l: nat, x: Seq<int>)
    requires
        1 <= l <= P::TWO_ADICITY,
        x.len() == po2::p2(l),
        poly::all_reduced(P::PRIME as int, x),
    ensures
        transformed::<P>(
            Direction::Inverse,
            l,
            transformed::<P>(Direction::Forward, l, x),
        ) == x,
        transformed::<P>(
            Direction::Forward,
            l,
            transformed::<P>(Direction::Inverse, l, x),
        ) == x,
{
    twiddles::lemma_roots::<P>(l);
    let m = P::PRIME as int;
    let w = twiddles::omega::<P>(l);
    let wi = twiddles::inv_omega::<P>(l);
    let ni = twiddles::size_inv::<P>(l);
    transform::law_inverse_undoes_forward(m, w, wi, ni, l, x);
    transform::law_forward_undoes_inverse(m, w, wi, ni, l, x);
}

/// What [`NttExec::forward_ext`] computes: result `k` of polynomial `b` is
/// the value, at the `k`-th power of the base field's generator, of the
/// polynomial over the extension whose coefficients stood in the buffer in
/// bit-reversed order.
pub proof fn law_forward_ext_evaluates<F: ExtShape>(
    l: nat,
    before: Seq<u32>,
    after: Seq<u32>,
    batch: int,
    b: int,
    k: int,
)
    requires
        rows_transformed::<F::Base>(Direction::Forward, l, before, after, 0, batch * F::DEGREE),
        0 <= b < batch,
        0 <= k < po2::p2(l),
    ensures
        ext::poly_at::<F>(after, b, po2::p2(l))[k] == ext::ring::<F>().eval(
            po2::bit_reversed(l, ext::poly_at::<F>(before, b, po2::p2(l))),
            binomial::constant(
                F::DEGREE as nat,
                pow(
                    <F::Base as MontyParameters>::TWO_ADIC_GENERATORS@[l as int] as int,
                    k as nat,
                ) % (<F::Base as MontyParameters>::PRIME as int),
            ),
        ),
{
    let n = po2::p2(l);
    let m = ext::prime::<F>();
    let d = F::DEGREE as int;
    let x = zmod::power(m, twiddles::omega::<F::Base>(l), k as nat);
    let point = binomial::constant(d as nat, x);
    let over = ext::ring::<F>();
    let p = po2::bit_reversed(l, ext::poly_at::<F>(before, b, n));
    let base = ext::row_base::<F>(b, n);
    let got = ext::poly_at::<F>(after, b, n)[k];
    po2::lemma_p2(l);
    ext::lemma_limbs(
        ext::elem_at::<F>(after, base, k, n),
        ext::elem_at::<F>(after, base, k, n),
    );
    ext::lemma_elem::<F>(after, base, k, n);
    assert forall|i: int| 0 <= i < n implies over.has(#[trigger] p[i]) by {
        po2::lemma_rev_range(l, i);
        let e = ext::elem_at::<F>(before, base, po2::rev(l, i), n);
        ext::lemma_limbs(e, e);
    }
    ring::lemma_eval(over, p, point);
    assert forall|c: int| 0 <= c < d implies got[c] == #[trigger] over.eval(p, point)[c] by {
        let r = b * d + c;
        po2::lemma_within(b, batch, d, c);
        assert(base + c * n == 0 + r * n) by (nonlinear_arith)
            requires
                base == b * (n * d),
                r == b * d + c,
        ;
        let row = tile::tile_values::<F::Base>(before, 0 + r * n, l);
        assert(tile::tile_values::<F::Base>(after, 0 + r * n, l)[k] == got[c]);
        ring::law_evaluation_is_componentwise(over, p, x, c);
        assert(ring::component(p, c) =~= po2::bit_reversed(l, row)) by {
            assert forall|i: int| 0 <= i < n implies p[i][c] == #[trigger] po2::bit_reversed(
                l,
                row,
            )[i] by {
                po2::lemma_rev_range(l, i);
                ext::lemma_elem::<F>(before, base, po2::rev(l, i), n);
            }
        }
    }
    assert(got =~= over.eval(p, point));
}

/// Running [`NttExec::forward`] and then [`NttExec::inverse`] on a buffer
/// (or the other way round) gives the very same words back.
pub proof fn law_buffers_round_trip<P: MontyParameters>(
    dir: Direction,
    l: nat,
    batch: int,
    start: Seq<u32>,
    mid: Seq<u32>,
    end: Seq<u32>,
)
    requires
        1 <= l <= P::TWO_ADICITY,
        start.len() == mid.len(),
        mid.len() == end.len(),
        0 <= batch,
        batch * po2::p2(l) <= start.len(),
        tile::tile_reduced::<P>(start, 0, batch * po2::p2(l)),
        tile::tile_reduced::<P>(end, 0, batch * po2::p2(l)),
        rows_transformed::<P>(dir, l, start, mid, 0, batch),
        rows_transformed::<P>(
            match dir {
                Direction::Forward => Direction::Inverse,
                Direction::Inverse => Direction::Forward,
            },
            l,
            mid,
            end,
            0,
            batch,
        ),
        forall|k: int|
            batch * po2::p2(l) <= k < start.len() ==> #[trigger] mid[k] == start[k],
        forall|k: int| batch * po2::p2(l) <= k < start.len() ==> #[trigger] end[k] == mid[k],
    ensures
        end == start,
{
    let n = po2::p2(l);
    po2::lemma_p2(l);
    assert forall|k: int| 0 <= k < start.len() implies #[trigger] end[k] == start[k] by {
        if k < batch * n {
            let r = k / n;
            let i = k % n;
            po2::lemma_join(k, n);
            po2::lemma_quotient_below(k, batch, n);
            po2::lemma_within(r, batch, n, i);
            let x = tile::tile_values::<P>(start, 0 + r * n, l);
            let y = tile::tile_values::<P>(mid, 0 + r * n, l);
            let z = tile::tile_values::<P>(end, 0 + r * n, l);
            assert(poly::all_reduced(P::PRIME as int, x)) by {
                assert forall|j: int| 0 <= j < x.len() implies 0 <= #[trigger] x[j]
                    < P::PRIME by {
                    monty::lemma_round_trip::<P>(start[0 + r * n + j] as int);
                }
            }
            law_transforms_round_trip::<P>(l, x);
            assert(z == x);
            assert(z[i] == monty::from_mont::<P>(end[k] as int));
            assert(x[i] == monty::from_mont::<P>(start[k] as int));
            monty::lemma_from_mont_injective::<P>(end[k] as int, start[k] as int);
        }
    }
    assert(end =~= start);
}

/// All stages of a direction compute its transform.
proof fn lemma_all_stages<P: MontyParameters>(dir: Direction, l: nat, x: Seq<int>)
    requires
        1 <= l <= P::TWO_ADICITY,
        x.len() == po2::p2(l),
        poly::all_reduced(P::PRIME as int, x),
    ensures
        stages::<P>(dir, l, prepared::<P>(dir, l, x), 0, l) == transformed::<P>(dir, l, x),
{
    twiddles::lemma_roots::<P>(l);
    match dir {
        Direction::Forward => {
            transform::theorem_dit_is_ntt(P::PRIME as int, twiddles::omega::<P>(l), l, x);
        },
        Direction::Inverse => {
            transform::theorem_dif_is_intt(
                P::PRIME as int,
                twiddles::inv_omega::<P>(l),
                twiddles::size_inv::<P>(l),
                l,
                x,
            );
        },
    }
}

/// A pass continues where the stages before it stopped.
proof fn lemma_next_stages<P: MontyParameters>(
    dir: Direction,
    l: nat,
    x: Seq<int>,
    so: nat,
    to: nat,
)
    requires
        so <= to,
    ensures
        stages::<P>(dir, l, stages::<P>(dir, l, x, 0, so), so, to) == stages::<P>(
            dir,
            l,
            x,
            0,
            to,
        ),
{
    match dir {
        Direction::Forward => {
            transform::lemma_dit_compose(
                P::PRIME as int,
                twiddles::omega::<P>(l),
                l,
                x,
                0,
                so,
                to,
            );
        },
        Direction::Inverse => {
            transform::lemma_dif_compose(
                P::PRIME as int,
                twiddles::inv_omega::<P>(l),
                l,
                x,
                0,
                so,
                to,
            );
        },
    }
}

/// The values of reduced words are reduced.
proof fn lemma_values_reduced<P: MontyParameters>(v: Seq<u32>, base: int, l: nat)
    ensures
        poly::all_reduced(P::PRIME as int, tile::tile_values::<P>(v, base, l)),
        tile::tile_values::<P>(v, base, l).len() == po2::p2(l),
{
    let x = tile::tile_values::<P>(v, base, l);
    assert forall|j: int| 0 <= j < x.len() implies 0 <= #[trigger] x[j] < P::PRIME by {
        monty::lemma_round_trip::<P>(v[base + j] as int);
    }
}

/// The tables of one size are those of the field.
#[verifier::opaque]
pub open spec fn tables_of_size<P: MontyParameters>(
    fwd: Seq<u32>,
    inv: Seq<u32>,
    inv_n: Seq<u32>,
    l: nat,
) -> bool {
    &&& twiddles::is_partial_table::<P>(fwd, twiddles::omega::<P>(l))
    &&& twiddles::is_partial_table::<P>(inv, twiddles::inv_omega::<P>(l))
    &&& inv_n.len() == 1
    &&& inv_n[0] < P::PRIME
    &&& monty::from_mont::<P>(inv_n[0] as int) == twiddles::size_inv::<P>(l)
}

/// Precomputed forward and inverse twiddle tables, one per supported
/// `log_n`, with the inverses of the transform sizes.
pub struct NttTables<P: MontyParameters> {
    fwd_twiddles: Vec<Vec<u32>>,
    inv_twiddles: Vec<Vec<u32>>,
    inv_n_table: Vec<Vec<u32>>,
    max_log_n: u32,
    _p: PhantomData<P>,
}

impl<P: MontyParameters> NttTables<P> {
    /// The tables are those of the field, for every supported size.
    pub closed spec fn wf(&self) -> bool {
        &&& self.max_log_n == max_log_n::<P>()
        &&& self.fwd_twiddles@.len() == self.max_log_n + 1
        &&& self.inv_twiddles@.len() == self.max_log_n + 1
        &&& self.inv_n_table@.len() == self.max_log_n + 1
        &&& forall|l: int|
            1 <= l <= self.max_log_n ==> tables_of_size::<P>(
                (#[trigger] self.fwd_twiddles@[l])@,
                self.inv_twiddles@[l]@,
                self.inv_n_table@[l]@,
                l as nat,
            )
    }

    /// Precompute the tables for every supported `log_n`.
    pub fn new() -> (r: Self)
        ensures
            r.wf(),
    {
        let max_log_n: u32 = if P::TWO_ADICITY < 24 {
            P::TWO_ADICITY
        } else {
            24
        };
        let mut fwd_twiddles: Vec<Vec<u32>> = Vec::new();
        let mut inv_twiddles: Vec<Vec<u32>> = Vec::new();
        let mut inv_n_table: Vec<Vec<u32>> = Vec::new();
        // Index 0 is unused (no NTT of size 1), but filled for indexing ease.
        fwd_twiddles.push(Vec::new());
        inv_twiddles.push(Vec::new());
        inv_n_table.push(Vec::new());
        proof {
            P::consistent();
        }
        let mut log_n: u32 = 1;
        while log_n <= max_log_n
            invariant
                1 <= log_n <= max_log_n + 1,
                max_log_n == self::max_log_n::<P>(),
                max_log_n <= 24,
                fwd_twiddles@.len() == log_n,
                inv_twiddles@.len() == log_n,
                inv_n_table@.len() == log_n,
                forall|l: int|
                    1 <= l < log_n ==> tables_of_size::<P>(
                        (#[trigger] fwd_twiddles@[l])@,
                        inv_twiddles@[l]@,
                        inv_n_table@[l]@,
                        l as nat,
                    ),
            decreases max_log_n + 1 - log_n,
        {
            let fwd = build_partial_fwd_twiddles::<P>(log_n);
            let inv = build_partial_inv_twiddles::<P>(log_n);
            let mut inv_n: Vec<u32> = Vec::new();
            inv_n.push(n_inv::<P>(log_n));
            proof {
                reveal(tables_of_size);
                assert(tables_of_size::<P>(fwd@, inv@, inv_n@, log_n as nat));
            }
            fwd_twiddles.push(fwd);
            inv_twiddles.push(inv);
            inv_n_table.push(inv_n);
            log_n = log_n + 1;
        }
        NttTables { fwd_twiddles, inv_twiddles, inv_n_table, max_log_n, _p: PhantomData }
    }

    /// Run a plan on all polynomials: at once for a single pass, otherwise
    /// in sub-batches that fit in scratch memory.
    pub(crate) fn run_batched(&self, buf: &mut [u32], plan: &NttPlan, batch: usize, dir: Direction)
        requires
            self.wf(),
            1 <= plan.log_n <= max_log_n::<P>(),
            plan::passes_tile(plan.log_n, plan.passes@),
            plan.passes@.len() > 1 ==> plan.sub_batch > 0,
            batch * po2::p2(plan.log_n as nat) <= old(buf)@.len(),
            tile::tile_reduced::<P>(old(buf)@, 0, batch * po2::p2(plan.log_n as nat)),
        ensures
            final(buf)@.len() == old(buf)@.len(),
            tile::tile_reduced::<P>(final(buf)@, 0, batch * po2::p2(plan.log_n as nat)),
            rows_transformed::<P>(
                dir,
                plan.log_n as nat,
                old(buf)@,
                final(buf)@,
                0,
                batch as int,
            ),
            forall|k: int|
                batch * po2::p2(plan.log_n as nat) <= k < old(buf)@.len()
                    ==> #[trigger] final(buf)@[k] == old(buf)@[k],
    {
        let ghost l = plan.log_n as nat;
        let ghost n = po2::p2(l);
        let ghost orig = buf@;
        let ghost passes = plan.passes@;
        proof {
            P::consistent();
            po2::lemma_p2(l);
        }
        if plan.passes.len() == 1 {
            // Single pass: in place, no scratch needed.
            let pass = plan.passes[0];
            let input = vstd::slice::slice_to_vec(buf);
            proof {
                lemma_pass_fits(plan.log_n, passes, 0);
                assert(plan::bits_before(passes, 0) == 0);
                assert(plan::bits_before(passes, 1) == plan::bits_before(passes, 0)
                    + passes[0].log_pass);
            }
            self.launch_pass(&input, buf, plan.log_n, &pass, batch, dir);
            proof {
                assert forall|r: int| 0 <= r < batch implies #[trigger] tile::tile_values::<P>(
                    buf@,
                    0 + r * n,
                    l,
                ) == transformed::<P>(dir, l, tile::tile_values::<P>(orig, 0 + r * n, l)) by {
                    let x = layout::row_values::<P>(orig, l, r);
                    let y = layout::row_values::<P>(buf@, l, r);
                    lemma_values_reduced::<P>(orig, r * n, l);
                    lemma_ends::<P>(dir, l, prepared::<P>(dir, l, x), y);
                    lemma_all_stages::<P>(dir, l, x);
                }
            }
            return ;
        }
        // Multi-pass: sub-batches through scratch.
        let row_len = po2::pow2_usize(plan.log_n);
        let total = buf.len();
        let mut done: usize = 0;
        let mut offset: usize = 0;
        while done < batch
            invariant
                done <= batch,
                offset == done * n,
                row_len == n,
                n == po2::p2(l),
                n > 0,
                l == plan.log_n,
                self.wf(),
                1 <= plan.log_n <= max_log_n::<P>(),
                plan::passes_tile(plan.log_n, plan.passes@),
                plan.passes@.len() > 1,
                plan.sub_batch > 0,
                batch * n <= total,
                orig.len() == total,
                buf@.len() == total,
                tile::tile_reduced::<P>(buf@, 0, batch * n),
                rows_transformed::<P>(dir, l, orig, buf@, 0, done as int),
                forall|k: int| done * n <= k < total ==> #[trigger] buf@[k] == orig[k],
            decreases batch - done,
        {
            let remaining: usize = batch - done;
            let sub_batch: usize = if remaining < plan.sub_batch {
                remaining
            } else {
                plan.sub_batch
            };
            let ghost before = buf@;
            proof {
                assert((done + sub_batch) * n == done * n + sub_batch * n && (done + sub_batch)
                    * n <= batch * n && 0 <= sub_batch * n) by (nonlinear_arith)
                    requires
                        done + sub_batch <= batch,
                        n > 0,
                ;
            }
            self.launch_passes(buf, offset, plan, sub_batch, dir);
            proof {
                assert forall|r: int| 0 <= r < done + sub_batch implies #[trigger]
                    tile::tile_values::<P>(buf@, 0 + r * n, l) == transformed::<P>(
                    dir,
                    l,
                    tile::tile_values::<P>(orig, 0 + r * n, l),
                ) by {
                    if r < done {
                        po2::lemma_within(r, done as int, n, 0);
                        assert(tile::tile_values::<P>(buf@, 0 + r * n, l)
                            =~= tile::tile_values::<P>(before, 0 + r * n, l));
                    } else {
                        let q = r - done;
                        assert(r * n == done * n + q * n) by (nonlinear_arith)
                            requires
                                r == done + q,
                        ;
                        po2::lemma_within(q, sub_batch as int, n, 0);
                        assert(tile::tile_values::<P>(buf@, offset + q * n, l)
                            == transformed::<P>(
                            dir,
                            l,
                            tile::tile_values::<P>(before, offset + q * n, l),
                        ));
                        assert(tile::tile_values::<P>(before, offset + q * n, l)
                            =~= tile::tile_values::<P>(orig, offset + q * n, l));
                    }
                }
                assert forall|i: int| 0 <= i < batch * n implies #[trigger] buf@[i]
                    < P::PRIME by {
                    assert(before[i] < P::PRIME);
                }
            }
            offset = offset + sub_batch * row_len;
            done = done + sub_batch;
        }
    }

    /// Run all passes of a plan on `sub_batch` polynomials from
    /// `buf[buf_offset]` on, ping-ponging with a scratch buffer.
    fn launch_passes(
        &self,
        buf: &mut [u32],
        buf_offset: usize,
        plan: &NttPlan,
        sub_batch: usize,
        dir: Direction,
    )
        requires
            self.wf(),
            1 <= plan.log_n <= max_log_n::<P>(),
            plan::passes_tile(plan.log_n, plan.passes@),
            buf_offset + sub_batch * po2::p2(plan.log_n as nat) <= old(buf)@.len(),
            tile::tile_reduced::<P>(
                old(buf)@,
                buf_offset as int,
                sub_batch * po2::p2(plan.log_n as nat),
            ),
        ensures
            final(buf)@.len() == old(buf)@.len(),
            tile::tile_reduced::<P>(
                final(buf)@,
                buf_offset as int,
                sub_batch * po2::p2(plan.log_n as nat),
            ),
            rows_transformed::<P>(
                dir,
                plan.log_n as nat,
                old(buf)@,
                final(buf)@,
                buf_offset as int,
                sub_batch as int,
            ),
            forall|k: int|
                0 <= k < old(buf)@.len() && !(buf_offset <= k < buf_offset + sub_batch * po2::p2(
                    plan.log_n as nat,
                )) ==> #[trigger] final(buf)@[k] == old(buf)@[k],
    {
        let ghost l = plan.log_n as nat;
        let ghost n = po2::p2(l);
        let ghost passes = plan.passes@;
        let ghost orig = buf@;
        proof {
            P::consistent();
            po2::lemma_p2(l);
            assert(0 <= sub_batch * n) by (nonlinear_arith)
                requires
                    sub_batch >= 0,
                    n > 0,
            ;
        }
        let buf_len = buf.len();
        let total: usize = sub_batch * po2::pow2_usize(plan.log_n);
        // The user's rows, and scratch.
        let mut front: Vec<u32> = Vec::new();
        let mut back: Vec<u32> = Vec::new();
        let mut i: usize = 0;
        while i < total
            invariant
                i <= total,
                buf_offset + total <= buf_len == buf@.len(),
                front@.len() == i,
                back@.len() == i,
                forall|k: int| 0 <= k < i ==> #[trigger] front@[k] == buf@[buf_offset + k],
            decreases total - i,
        {
            front.push(buf[buf_offset + i]);
            back.push(0);
            i = i + 1;
        }
        let ghost start = front@;
        proof {
            assert forall|k: int| 0 <= k < total implies #[trigger] start[k] < P::PRIME by {
                assert(orig[buf_offset + k] < P::PRIME);
            }
        }
        let num_passes = plan.passes.len();
        let mut pass_idx: usize = 0;
        proof {
            reveal(rows_progress);
            assert forall|r: int| 0 <= r < sub_batch implies #[trigger] progress::<P>(
                dir,
                l,
                start,
                start,
                r,
                0,
            ) by {
                lemma_start::<P>(dir, l, start, r);
            }
        }
        while pass_idx < num_passes
            invariant
                pass_idx <= num_passes,
                num_passes == passes.len(),
                passes == plan.passes@,
                l == plan.log_n,
                n == po2::p2(l),
                total == sub_batch * n,
                self.wf(),
                1 <= plan.log_n <= max_log_n::<P>(),
                plan::passes_tile(plan.log_n, passes),
                front@.len() == total,
                back@.len() == total,
                tile::tile_reduced::<P>(front@, 0, total as int),
                rows_progress::<P>(
                    dir,
                    l,
                    start,
                    front@,
                    sub_batch as int,
                    plan::bits_before(passes, pass_idx as int) as nat,
                ),
            decreases num_passes - pass_idx,
        {
            self.next_pass(&front, &mut back, plan, pass_idx, sub_batch, dir, Ghost(start));
            // What was written is what the next pass reads.
            std::mem::swap(&mut front, &mut back);
            pass_idx = pass_idx + 1;
        }
        let ghost result = front@;
        copy_to_user(&front, buf, buf_offset, total);
        proof {
            assert(plan::bits_before(passes, num_passes as int) as nat == l);
            assert(rows_progress::<P>(dir, l, start, result, sub_batch as int, l));
            reveal(rows_progress);
            assert forall|r: int| 0 <= r < sub_batch implies #[trigger] tile::tile_values::<P>(
                buf@,
                buf_offset + r * n,
                l,
            ) == transformed::<P>(
                dir,
                l,
                tile::tile_values::<P>(orig, buf_offset + r * n, l),
            ) by {
                po2::lemma_within(r, sub_batch as int, n, 0);
                assert(progress::<P>(dir, l, start, result, r, l));
                reveal(progress);
                let x = layout::row_values::<P>(start, l, r);
                let y = layout::row_values::<P>(result, l, r);
                assert(tile::tile_values::<P>(buf@, buf_offset + r * n, l) =~= y);
                assert(tile::tile_values::<P>(orig, buf_offset + r * n, l) =~= x);
                lemma_values_reduced::<P>(start, r * n, l);
                lemma_ends::<P>(dir, l, prepared::<P>(dir, l, x), y);
                lemma_all_stages::<P>(dir, l, x);
            }
            assert forall|k: int| buf_offset <= k < buf_offset + total implies #[trigger] buf@[k]
                < P::PRIME by {
                assert(result[k - buf_offset] < P::PRIME);
            }
        }
    }

    /// Run pass number `i` of a plan from `src` to `dst`, on rows that
    /// have come as far as the passes before it go.
    fn next_pass(
        &self,
        src: &Vec<u32>,
        dst: &mut Vec<u32>,
        plan: &NttPlan,
        i: usize,
        sub_batch: usize,
        dir: Direction,
        Ghost(start): Ghost<Seq<u32>>,
    )
        requires
            self.wf(),
            1 <= plan.log_n <= max_log_n::<P>(),
            plan::passes_tile(plan.log_n, plan.passes@),
            i < plan.passes@.len(),
            src@.len() == sub_batch * po2::p2(plan.log_n as nat),
            old(dst)@.len() == src@.len(),
            tile::tile_reduced::<P>(src@, 0, src@.len() as int),
            rows_progress::<P>(
                dir,
                plan.log_n as nat,
                start,
                src@,
                sub_batch as int,
                plan::bits_before(plan.passes@, i as int) as nat,
            ),
        ensures
            final(dst)@.len() == src@.len(),
            tile::tile_reduced::<P>(final(dst)@, 0, src@.len() as int),
            rows_progress::<P>(
                dir,
                plan.log_n as nat,
                start,
                final(dst)@,
                sub_batch as int,
                plan::bits_before(plan.passes@, i + 1) as nat,
            ),
    {
        let pass = plan.passes[i];
        let ghost l = plan.log_n as nat;
        let ghost so = plan::bits_before(plan.passes@, i as int) as nat;
        let ghost to = plan::bits_before(plan.passes@, i + 1) as nat;
        proof {
            P::consistent();
            lemma_pass_fits(plan.log_n, plan.passes@, i as int);
        }
        self.launch_pass(src, dst, plan.log_n, &pass, sub_batch, dir);
        proof {
            reveal(rows_progress);
            assert forall|r: int| 0 <= r < sub_batch implies #[trigger] progress::<P>(
                dir,
                l,
                start,
                dst@,
                r,
                to,
            ) by {
                assert(progress::<P>(dir, l, start, src@, r, so));
                assert(layout::row_values::<P>(dst@, l, r) == layout::row_values::<P>(
                    dst@,
                    l,
                    r,
                ));
                lemma_progress::<P>(dir, l, start, src@, dst@, r, so, to);
            }
        }
    }

    /// Run one pass from `src` to `dst`.
    fn launch_pass(
        &self,
        src: &Vec<u32>,
        dst: &mut [u32],
        log_n: u32,
        pass: &PassConfig,
        sub_batch: usize,
        dir: Direction,
    )
        requires
            self.wf(),
            1 <= log_n <= max_log_n::<P>(),
            fwd_pass::launch_fits(
                log_n,
                pass.log_pass,
                pass.stage_offset,
                pass.log_wg,
                pass.z_count,
            ),
            sub_batch * po2::p2(log_n as nat) <= src@.len(),
            sub_batch * po2::p2(log_n as nat) <= old(dst)@.len(),
            tile::tile_reduced::<P>(src@, 0, sub_batch * po2::p2(log_n as nat)),
        ensures
            final(dst)@.len() == old(dst)@.len(),
            tile::tile_reduced::<P>(final(dst)@, 0, sub_batch * po2::p2(log_n as nat)),
            forall|r: int|
                0 <= r < sub_batch ==> layout::natural(
                    log_n as nat,
                    moved_bits(dir, log_n as nat, (pass.stage_offset + pass.log_pass) as nat),
                    #[trigger] layout::row_values::<P>(final(dst)@, log_n as nat, r),
                ) == stages::<P>(
                    dir,
                    log_n as nat,
                    layout::natural(
                        log_n as nat,
                        moved_bits(dir, log_n as nat, pass.stage_offset as nat),
                        loaded::<P>(
                            dir,
                            log_n as nat,
                            pass.stage_offset as nat,
                            layout::row_values::<P>(src@, log_n as nat, r),
                        ),
                    ),
                    pass.stage_offset as nat,
                    (pass.stage_offset + pass.log_pass) as nat,
                ),
            forall|k: int|
                sub_batch * po2::p2(log_n as nat) <= k < old(dst)@.len()
                    ==> #[trigger] final(dst)@[k] == old(dst)@[k],
    {
        proof {
            P::consistent();
            assert(tables_of_size::<P>(
                self.fwd_twiddles@[log_n as int]@,
                self.inv_twiddles@[log_n as int]@,
                self.inv_n_table@[log_n as int]@,
                log_n as nat,
            ));
            reveal(tables_of_size);
        }
        match dir {
            Direction::Forward => {
                ntt_fwd_pass::<P>(
                    src,
                    dst,
                    &self.fwd_twiddles[log_n as usize],
                    log_n,
                    pass.log_pass,
                    pass.stage_offset,
                    pass.log_wg,
                    pass.z_count,
                    sub_batch,
                );
            },
            Direction::Inverse => {
                ntt_inv_pass::<P>(
                    src,
                    dst,
                    &self.inv_twiddles[log_n as usize],
                    &self.inv_n_table[log_n as usize],
                    log_n,
                    pass.log_pass,
                    pass.stage_offset,
                    pass.log_wg,
                    pass.z_count,
                    sub_batch,
                );
            },
        }
    }
}

/// NTT executor.
///
/// Owns precomputed tables and the limits of the device that plans are made
/// for. Construct one per `(device, field)` and reuse it across calls.
///
/// Run an NTT with [`forward`](Self::forward) or [`inverse`](Self::inverse);
/// both pick a plan internally via the heuristic. For fine-grained control
/// use [`forward_with_plan`](Self::forward_with_plan) and
/// [`inverse_with_plan`](Self::inverse_with_plan).
pub struct NttExec<P: MontyParameters> {
    tables: NttTables<P>,
    limits: DeviceLimits,
}

impl<P: MontyParameters> NttExec<P> {
    /// The tables are those of the field.
    pub closed spec fn wf(&self) -> bool {
        self.tables.wf()
    }

    /// The device limits that plans are made for.
    pub closed spec fn device_limits(&self) -> DeviceLimits {
        self.limits
    }

    /// Construct an executor for `device`, precomputing twiddle tables for
    /// every supported `log_n` (1 to 24, capped by `P::TWO_ADICITY`).
    ///
    /// Multi-pass NTTs ping-pong through scratch memory; each in-flight
    /// polynomial of size `2^log_n` takes `4 << log_n` bytes, so the
    /// device's scratch budget sets the sub-batch ceiling of multi-pass
    /// plans.
    pub fn new(device: &Device) -> (r: Self)
        ensures
            r.wf(),
            r.device_limits() == (DeviceLimits {
                max_shared_mem_bytes: device.properties.max_shared_memory_size,
                max_threads_per_wg: device.properties.max_units_per_cube,
                scratch_bytes: device.scratch_bytes,
            }),
    {
        let limits = DeviceLimits {
            max_shared_mem_bytes: device.properties.max_shared_memory_size,
            max_threads_per_wg: device.properties.max_units_per_cube,
            scratch_bytes: device.scratch_bytes(),
        };
        NttExec { tables: NttTables::<P>::new(), limits }
    }

    /// Device limits the planner sees (shared memory, max threads per
    /// workgroup, scratch bytes).
    pub fn limits(&self) -> (r: &DeviceLimits)
        ensures
            *r == self.device_limits(),
    {
        &self.limits
    }

    /// Forward NTT of `batch` polynomials of size `2^log_n`, in place on
    /// `buf`.
    ///
    /// `buf` holds `batch * 2^log_n` Montgomery-form words laid out as
    /// `batch` contiguous polynomials in bit-reversed coefficient order. On
    /// return, each polynomial holds its natural-order evaluations. The
    /// plan is built by the heuristic.
    pub fn forward(&self, buf: &mut [u32], log_n: u32, batch: usize)
        requires
            self.wf(),
            1 <= log_n <= max_log_n::<P>(),
            plan::best_split(log_n, plan::most_passes(log_n), self.device_limits()) > 0,
            batch * po2::p2(log_n as nat) <= old(buf)@.len(),
            tile::tile_reduced::<P>(old(buf)@, 0, batch * po2::p2(log_n as nat)),
        ensures
            final(buf)@.len() == old(buf)@.len(),
            tile::tile_reduced::<P>(final(buf)@, 0, batch * po2::p2(log_n as nat)),
            rows_transformed::<P>(
                Direction::Forward,
                log_n as nat,
                old(buf)@,
                final(buf)@,
                0,
                batch as int,
            ),
            forall|k: int|
                batch * po2::p2(log_n as nat) <= k < old(buf)@.len() ==> #[trigger] final(buf)@[k]
                    == old(buf)@[k],
    {
        let plan = plan_heuristic(log_n, batch, &self.limits);
        proof {
            plan::lemma_sub_batch_fits(
                log_n,
                batch,
                plan.passes@.len() as int,
                self.limits,
            );
        }
        self.tables.run_batched(buf, &plan, batch, Direction::Forward);
    }

    /// Inverse NTT of `batch` polynomials of size `2^log_n`, in place on
    /// `buf`.
    ///
    /// Reads natural-order evaluations and writes bit-reversed coefficients
    /// (with the `N^{-1}` scaling already applied). The plan is built by
    /// the heuristic.
    pub fn inverse(&self, buf: &mut [u32], log_n: u32, batch: usize)
        requires
            self.wf(),
            1 <= log_n <= max_log_n::<P>(),
            plan::best_split(log_n, plan::most_passes(log_n), self.device_limits()) > 0,
            batch * po2::p2(log_n as nat) <= old(buf)@.len(),
            tile::tile_reduced::<P>(old(buf)@, 0, batch * po2::p2(log_n as nat)),
        ensures
            final(buf)@.len() == old(buf)@.len(),
            tile::tile_reduced::<P>(final(buf)@, 0, batch * po2::p2(log_n as nat)),
            rows_transformed::<P>(
                Direction::Inverse,
                log_n as nat,
                old(buf)@,
                final(buf)@,
                0,
                batch as int,
            ),
            forall|k: int|
                batch * po2::p2(log_n as nat) <= k < old(buf)@.len() ==> #[trigger] final(buf)@[k]
                    == old(buf)@[k],
    {
        let plan = plan_heuristic(log_n, batch, &self.limits);
        proof {
            plan::lemma_sub_batch_fits(
                log_n,
                batch,
                plan.passes@.len() as int,
                self.limits,
            );
        }
        self.tables.run_batched(buf, &plan, batch, Direction::Inverse);
    }

    /// Forward NTT for `batch` polynomials of length `2^log_n` whose elements
    /// are in the field `F`, where `F` is the base field `P` or any
    /// extension over `P` laid out transposed (component-major within each
    /// polynomial).
    ///
    /// The same as [`forward`](Self::forward) of `batch * F::DEGREE`
    /// polynomials: a degree-`D` extension polynomial of length `N` is word
    /// for word `D` consecutive base-field polynomials of length `N`. This
    /// method binds the extension type at the call site, so that an
    /// extension of another base field is a type error.
    pub fn forward_ext<F: ExtField<Base = P>>(&self, buf: &mut [u32], log_n: u32, batch: usize)
        requires
            self.wf(),
            1 <= log_n <= max_log_n::<P>(),
            plan::best_split(log_n, plan::most_passes(log_n), self.device_limits()) > 0,
            batch * F::DEGREE * po2::p2(log_n as nat) <= old(buf)@.len(),
            tile::tile_reduced::<P>(
                old(buf)@,
                0,
                batch * F::DEGREE * po2::p2(log_n as nat),
            ),
        ensures
            final(buf)@.len() == old(buf)@.len(),
            tile::tile_reduced::<P>(
                final(buf)@,
                0,
                batch * F::DEGREE * po2::p2(log_n as nat),
            ),
            rows_transformed::<P>(
                Direction::Forward,
                log_n as nat,
                old(buf)@,
                final(buf)@,
                0,
                batch * F::DEGREE,
            ),
            forall|k: int|
                batch * F::DEGREE * po2::p2(log_n as nat) <= k < old(buf)@.len() ==> #[trigger]
                    final(buf)@[k] == old(buf)@[k],
    {
        let len = buf.len();
        proof {
            let n = po2::p2(log_n as nat);
            po2::lemma_p2(log_n as nat);
            assert(0 <= batch * F::DEGREE <= batch * F::DEGREE * n) by (nonlinear_arith)
                requires
                    n >= 1,
                    batch >= 0,
                    F::DEGREE >= 0,
            ;
        }
        self.forward(buf, log_n, batch * F::DEGREE as usize);
    }

    /// Inverse NTT counterpart to [`forward_ext`](Self::forward_ext).
    pub fn inverse_ext<F: ExtField<Base = P>>(&self, buf: &mut [u32], log_n: u32, batch: usize)
        requires
            self.wf(),
            1 <= log_n <= max_log_n::<P>(),
            plan::best_split(log_n, plan::most_passes(log_n), self.device_limits()) > 0,
            batch * F::DEGREE * po2::p2(log_n as nat) <= old(buf)@.len(),
            tile::tile_reduced::<P>(
                old(buf)@,
                0,
                batch * F::DEGREE * po2::p2(log_n as nat),
            ),
        ensures
            final(buf)@.len() == old(buf)@.len(),
            tile::tile_reduced::<P>(
                final(buf)@,
                0,
                batch * F::DEGREE * po2::p2(log_n as nat),
            ),
            rows_transformed::<P>(
                Direction::Inverse,
                log_n as nat,
                old(buf)@,
                final(buf)@,
                0,
                batch * F::DEGREE,
            ),
            forall|k: int|
                batch * F::DEGREE * po2::p2(log_n as nat) <= k < old(buf)@.len() ==> #[trigger]
                    final(buf)@[k] == old(buf)@[k],
    {
        let len = buf.len();
        proof {
            let n = po2::p2(log_n as nat);
            po2::lemma_p2(log_n as nat);
            assert(0 <= batch * F::DEGREE <= batch * F::DEGREE * n) by (nonlinear_arith)
                requires
                    n >= 1,
                    batch >= 0,
                    F::DEGREE >= 0,
            ;
        }
        self.inverse(buf, log_n, batch * F::DEGREE as usize);
    }

    /// Forward NTT using an explicit [`NttPlan`]. Build plans via
    /// [`plan_heuristic`] or
    /// [`enumerate_valid_plans`](super::enumerate::enumerate_valid_plans).
    pub fn forward_with_plan(&self, buf: &mut [u32], plan: &NttPlan, batch: usize)
        requires
            self.wf(),
            1 <= plan.log_n <= max_log_n::<P>(),
            plan::passes_tile(plan.log_n, plan.passes@),
            plan.passes@.len() > 1 ==> plan.sub_batch > 0,
            batch * po2::p2(plan.log_n as nat) <= old(buf)@.len(),
            tile::tile_reduced::<P>(old(buf)@, 0, batch * po2::p2(plan.log_n as nat)),
        ensures
            final(buf)@.len() == old(buf)@.len(),
            tile::tile_reduced::<P>(final(buf)@, 0, batch * po2::p2(plan.log_n as nat)),
            rows_transformed::<P>(
                Direction::Forward,
                plan.log_n as nat,
                old(buf)@,
                final(buf)@,
                0,
                batch as int,
            ),
            forall|k: int|
                batch * po2::p2(plan.log_n as nat) <= k < old(buf)@.len()
                    ==> #[trigger] final(buf)@[k] == old(buf)@[k],
    {
        self.tables.run_batched(buf, plan, batch, Direction::Forward);
    }

    /// Inverse NTT using an explicit [`NttPlan`]. See
    /// [`forward_with_plan`](Self::forward_with_plan).
    pub fn inverse_with_plan(&self, buf: &mut [u32], plan: &NttPlan, batch: usize)
        requires
            self.wf(),
            1 <= plan.log_n <= max_log_n::<P>(),
            plan::passes_tile(plan.log_n, plan.passes@),
            plan.passes@.len() > 1 ==> plan.sub_batch > 0,
            batch * po2::p2(plan.log_n as nat) <= old(buf)@.len(),
            tile::tile_reduced::<P>(old(buf)@, 0, batch * po2::p2(plan.log_n as nat)),
        ensures
            final(buf)@.len() == old(buf)@.len(),
            tile::tile_reduced::<P>(final(buf)@, 0, batch * po2::p2(plan.log_n as nat)),
            rows_transformed::<P>(
                Direction::Inverse,
                plan.log_n as nat,
                old(buf)@,
                final(buf)@,
                0,
                batch as int,
            ),
            forall|k: int|
                batch * po2::p2(plan.log_n as nat) <= k < old(buf)@.len()
                    ==> #[trigger] final(buf)@[k] == old(buf)@[k],
    {
        self.tables.run_batched(buf, plan, batch, Direction::Inverse);
    }
}

/// Copy the first `count` words of `src` to `dst[offset]` on.
fn copy_to_user(src: &Vec<u32>, dst: &mut [u32], offset: usize, count: usize)
    requires
        count <= src@.len(),
        offset + count <= old(dst)@.len(),
    ensures
        final(dst)@.len() == old(dst)@.len(),
        forall|k: int|
            0 <= k < old(dst)@.len() ==> #[trigger] final(dst)@[k] == (if offset <= k < offset
                + count {
                src@[k - offset]
            } else {
                old(dst)@[k]
            }),
{
    let ghost orig = dst@;
    let len = dst.len();
    let mut i: usize = 0;
    while i < count
        invariant
            i <= count,
            count <= src@.len(),
            offset + count <= len == orig.len(),
            dst@.len() == orig.len(),
            forall|k: int|
                0 <= k < orig.len() ==> #[trigger] dst@[k] == (if offset <= k < offset + i {
                    src@[k - offset]
                } else {
                    orig[k]
                }),
        decreases count - i,
    {
        dst[offset + i] = src[i];
        i = i + 1;
    }
}

/// Row `r` of `buf` is where the first `so` stages leave row `r` of
/// `start`.
#[verifier::opaque]
pub open spec fn progress<P: MontyParameters>(
    dir: Direction,
    l: nat,
    start: Seq<u32>,
    buf: Seq<u32>,
    r: int,
    so: nat,
) -> bool {
    layout::natural(
        l,
        moved_bits(dir, l, so),
        loaded::<P>(dir, l, so, layout::row_values::<P>(buf, l, r)),
    ) == stages::<P>(
        dir,
        l,
        prepared::<P>(dir, l, layout::row_values::<P>(start, l, r)),
        0,
        so,
    )
}

/// The first `rows` rows have all come as far.
#[verifier::opaque]
pub open spec fn rows_progress<P: MontyParameters>(
    dir: Direction,
    l: nat,
    start: Seq<u32>,
    buf: Seq<u32>,
    rows: int,
    so: nat,
) -> bool {
    forall|r: int| 0 <= r < rows ==> #[trigger] progress::<P>(dir, l, start, buf, r, so)
}

/// Before the first pass there is no progress.
proof fn lemma_start<P: MontyParameters>(dir: Direction, l: nat, start: Seq<u32>, r: int)
    ensures
        progress::<P>(dir, l, start, start, r, 0),
{
    reveal(progress);
    let x = prepared::<P>(dir, l, layout::row_values::<P>(start, l, r));
    layout::lemma_natural_ends(l, x);
    assert((l - 0) as nat == l);
}

/// With all stages done, entries stand at their indices.
proof fn lemma_ends<P: MontyParameters>(dir: Direction, l: nat, x: Seq<int>, y: Seq<int>)
    requires
        y.len() == po2::p2(l),
        x.len() == po2::p2(l),
    ensures
        layout::natural(l, moved_bits(dir, l, l), y) == y,
        layout::natural(l, moved_bits(dir, l, 0), x) == x,
{
    layout::lemma_natural_ends(l, y);
    layout::lemma_natural_ends(l, x);
    assert((l - l) as nat == 0);
    assert((l - 0) as nat == l);
}

/// A pass makes progress.
proof fn lemma_progress<P: MontyParameters>(
    dir: Direction,
    l: nat,
    start: Seq<u32>,
    src: Seq<u32>,
    dst: Seq<u32>,
    r: int,
    so: nat,
    to: nat,
)
    requires
        so < to,
        progress::<P>(dir, l, start, src, r, so),
        layout::natural(
            l,
            moved_bits(dir, l, to),
            layout::row_values::<P>(dst, l, r),
        ) == stages::<P>(
            dir,
            l,
            layout::natural(
                l,
                moved_bits(dir, l, so),
                loaded::<P>(dir, l, so, layout::row_values::<P>(src, l, r)),
            ),
            so,
            to,
        ),
    ensures
        progress::<P>(dir, l, start, dst, r, to),
{
    reveal(progress);
    lemma_next_stages::<P>(
        dir,
        l,
        prepared::<P>(dir, l, layout::row_values::<P>(start, l, r)),
        so,
        to,
    );
}

/// Each pass of a tiling can be launched.
proof fn lemma_pass_fits(log_n: u32, passes: Seq<PassConfig>, i: int)
    requires
        log_n < 32,
        plan::passes_tile(log_n, passes),
        0 <= i < passes.len(),
    ensures
        fwd_pass::launch_fits(
            log_n,
            passes[i].log_pass,
            passes[i].stage_offset,
            passes[i].log_wg,
            passes[i].z_count,
        ),
        passes[i].stage_offset == plan::bits_before(passes, i),
        plan::bits_before(passes, i + 1) == passes[i].stage_offset + passes[i].log_pass,
        passes[i].log_pass >= 1,
{
    plan::lemma_bits_mono(passes, i + 1, passes.len() as int);
    plan::lemma_bits_mono(passes, 0, i);
}

/// An executor supports every size up to `2^24` that the field's roots reach.
pub proof fn law_supported_sizes<P: MontyParameters>(l: int)
    ensures
        l <= max_log_n::<P>() <==> l <= 24 && l <= P::TWO_ADICITY,
{
}

/// What a forward transform leaves in its buffer, in words: where word
/// `rev(j)` of a row held coefficient `j` of a polynomial, word `k` holds
/// the polynomial's value at the `k`-th power of the field's own generator
/// of order `2^l`.
pub proof fn law_forward_words<P: MontyParameters>(
    l: nat,
    before: Seq<u32>,
    after: Seq<u32>,
    base: int,
    rows: int,
    r: int,
    coeffs: Seq<int>,
    k: int,
)
    requires
        1 <= l <= P::TWO_ADICITY,
        rows_transformed::<P>(Direction::Forward, l, before, after, base, rows),
        0 <= r < rows,
        0 <= k < pow2(l),
        coeffs.len() == pow2(l),
        forall|j: int|
            0 <= j < pow2(l) ==> #[trigger] coeffs[j] == monty::from_mont::<P>(
                before[base + r * pow2(l) + po2::rev(l, j)] as int,
            ),
    ensures
        monty::from_mont::<P>(after[base + r * pow2(l) + k] as int) == poly::eval(
            P::PRIME as int,
            coeffs,
            pow(P::TWO_ADIC_GENERATORS@[l as int] as int, k as nat) % (P::PRIME as int),
        ),
{
    let start = base + r * po2::p2(l);
    let x = tile::tile_values::<P>(before, start, l);
    let y = tile::tile_values::<P>(after, start, l);
    assert forall|j: int| 0 <= j < pow2(l) implies #[trigger] coeffs[j] == x[po2::rev(l, j)] by {
        po2::lemma_rev_range(l, j);
    }
    assert(y == transformed::<P>(Direction::Forward, l, x));
    transform::law_forward_values(
        P::PRIME as int,
        P::TWO_ADIC_GENERATORS@[l as int] as int,
        l,
        x,
        coeffs,
        k,
    );
    assert(y[k] == monty::from_mont::<P>(after[start + k] as int));
}

/// The forward transform of a single power `x^j` holds the powers of the
/// field's own generator: `g^(j * k)` at word `k`. The transform of `x` has
/// the generator itself at word one.
pub proof fn law_forward_of_power<P: MontyParameters>(
    l: nat,
    before: Seq<u32>,
    after: Seq<u32>,
    base: int,
    rows: int,
    r: int,
    j: int,
    k: int,
)
    requires
        1 <= l <= P::TWO_ADICITY,
        rows_transformed::<P>(Direction::Forward, l, before, after, base, rows),
        0 <= r < rows,
        0 <= j < pow2(l),
        0 <= k < pow2(l),
        forall|i: int|
            0 <= i < pow2(l) ==> monty::from_mont::<P>(
                before[base + r * pow2(l) + #[trigger] po2::rev(l, i)] as int,
            ) == if i == j {
                1int
            } else {
                0
            },
    ensures
        monty::from_mont::<P>(after[base + r * pow2(l) + k] as int) == pow(
            P::TWO_ADIC_GENERATORS@[l as int] as int,
            (j * k) as nat,
        ) % (P::PRIME as int),
        j == 1 && k == 1 ==> monty::from_mont::<P>(after[base + r * pow2(l) + k] as int)
            == P::TWO_ADIC_GENERATORS@[l as int],
{
    P::consistent();
    let m = P::PRIME as int;
    let g = P::TWO_ADIC_GENERATORS@[l as int] as int;
    let coeffs = Seq::new(
        pow2(l),
        |i: int| monty::from_mont::<P>(before[base + r * pow2(l) + po2::rev(l, i)] as int),
    );
    law_forward_words::<P>(l, before, after, base, rows, r, coeffs, k);
    let z = pow(g, k as nat) % m;
    poly::law_value_of_power(m, coeffs, j, z);
    // (g^k mod m)^j and g^(j * k) have the same residue.
    zmod::lemma_power_absorbs(m, pow(g, k as nat), j as nat);
    lemma_pow_multiplies(g, k as nat, j as nat);
    lemma_mul_is_commutative(j, k);
    if j == 1 && k == 1 {
        lemma_pow1(g);
        twiddles::lemma_roots::<P>(l);
        zmod::lemma_reduced(m, g);
    }
}

/// The inverse transform is the forward transform run backwards: whatever
/// turned a buffer into another by the inverse, the forward transform turns
/// the other into the first.
pub proof fn law_inverse_is_forward_backwards<P: MontyParameters>(
    l: nat,
    before: Seq<u32>,
    after: Seq<u32>,
    base: int,
    rows: int,
)
    requires
        1 <= l <= P::TWO_ADICITY,
        rows_transformed::<P>(Direction::Inverse, l, before, after, base, rows),
    ensures
        rows_transformed::<P>(Direction::Forward, l, after, before, base, rows),
{
    assert forall|r: int| 0 <= r < rows implies #[trigger] tile::tile_values::<P>(
        before,
        base + r * po2::p2(l),
        l,
    ) == transformed::<P>(
        Direction::Forward,
        l,
        tile::tile_values::<P>(after, base + r * po2::p2(l), l),
    ) by {
        let x = tile::tile_values::<P>(before, base + r * po2::p2(l), l);
        lemma_values_reduced::<P>(before, base + r * po2::p2(l), l);
        law_transforms_round_trip::<P>(l, x);
        assert(tile::tile_values::<P>(after, base + r * po2::p2(l), l) == transformed::<P>(
            Direction::Inverse,
            l,
            x,
        ));
    }
}

/// What an inverse transform leaves in its buffer, in words: the
/// coefficients, coefficient `j` at word `rev(j)`, of the polynomial whose
/// value at the `k`-th power of the field's own generator was word `k`.
pub proof fn law_inverse_words<P: MontyParameters>(
    l: nat,
    before: Seq<u32>,
    after: Seq<u32>,
    base: int,
    rows: int,
    r: int,
    coeffs: Seq<int>,
    k: int,
)
    requires
        1 <= l <= P::TWO_ADICITY,
        rows_transformed::<P>(Direction::Inverse, l, before, after, base, rows),
        0 <= r < rows,
        0 <= k < pow2(l),
        coeffs.len() == pow2(l),
        forall|j: int|
            0 <= j < pow2(l) ==> #[trigger] coeffs[j] == monty::from_mont::<P>(
                after[base + r * pow2(l) + po2::rev(l, j)] as int,
            ),
    ensures
        monty::from_mont::<P>(before[base + r * pow2(l) + k] as int) == poly::eval(
            P::PRIME as int,
            coeffs,
            pow(P::TWO_ADIC_GENERATORS@[l as int] as int, k as nat) % (P::PRIME as int),
        ),
{
    law_inverse_is_forward_backwards::<P>(l, before, after, base, rows);
    law_forward_words::<P>(l, after, before, base, rows, r, coeffs, k);
}

} // verus!
