//! Two-pass inverse NTT in the natural (non-transposed) memory layout.
//!
//! The inverse iterates decimation-in-frequency stages in
//! descending-stride order:
//!
//! - [`intt_pass1`]: strided `N2`-slab at base `i_low`, stride `N1`. Applies
//!   the stages of stride `N/2..N1`, and the `N^{-1}` scaling at the load
//!   step.
//! - [`intt_pass2`]: contiguous `N1`-chunk at offset `block_id * N1`.
//!   Applies the stages of stride `N1/2..1`.
//!
//! Both are safe in place: each workgroup reads and writes the same
//! positions.

use vstd::arithmetic::div_mod::*;
use vstd::arithmetic::mul::*;
use vstd::arithmetic::power2::*;
use vstd::prelude::*;

use crate::field::monty;
use crate::field::monty::MontyParameters;
use crate::po2;
use crate::poly;

use super::inv_pass::inv_stages;
use super::layout;
use super::tile;
use super::tile::{load_lane, store_lane, TwiddleTable};
use super::transform;
use super::twiddles;

verus! {

/// Inverse pass 1 on one row: one workgroup per column `i_low`.
fn pass1_row<P: MontyParameters>(
    data: &mut [u32],
    tw: &TwiddleTable<'_>,
    n_inv_value: u32,
    log_n: u32,
    log_n1: u32,
    log_wg: u32,
    batch_offset: usize,
    Ghost(w): Ghost<int>,
)
    requires
        log_n < 32,
        log_n1 + log_wg < log_n,
        batch_offset + po2::p2(log_n as nat) <= old(data)@.len(),
        tile::tile_reduced::<P>(old(data)@, batch_offset as int, po2::p2(log_n as nat)),
        n_inv_value < P::PRIME,
        tw.serves::<P>(w, log_n as nat),
    ensures
        final(data)@.len() == old(data)@.len(),
        tile::tile_reduced::<P>(final(data)@, batch_offset as int, po2::p2(log_n as nat)),
        tile::tile_values::<P>(final(data)@, batch_offset as int, log_n as nat)
            == transform::dif(
            P::PRIME as int,
            w,
            log_n as nat,
            poly::scale(
                P::PRIME as int,
                monty::from_mont::<P>(n_inv_value as int),
                tile::tile_values::<P>(old(data)@, batch_offset as int, log_n as nat),
            ),
            0,
            (log_n - log_n1) as nat,
        ),
        forall|k: int|
            0 <= k < old(data)@.len() && !(batch_offset <= k < batch_offset + po2::p2(
                log_n as nat,
            )) ==> #[trigger] final(data)@[k] == old(data)@[k],
{
    let ghost m = P::PRIME as int;
    let ghost l = log_n as nat;
    let log_n2: u32 = log_n - log_n1;
    let ghost lp = log_n2 as nat;
    let ghost sh = log_n1 as nat;
    let ghost ni = monty::from_mont::<P>(n_inv_value as int);
    let ghost orig = data@;
    let ghost base = batch_offset as int;
    let ghost x = tile::tile_values::<P>(orig, base, l);
    let ghost sx = poly::scale(m, ni, x);
    let ghost y = transform::dif(m, w, l, sx, 0, lp);
    let n1 = po2::pow2_usize(log_n1);
    let ghost n2 = po2::p2(lp);
    let ghost n = po2::p2(l);
    let total = data.len();
    proof {
        po2::lemma_p2_adds(lp, sh);
        assert(lp + sh == l);
        po2::lemma_p2(0);
        assert((l - sh - lp) as nat == 0);
        assert(n == n2 * n1);
        po2::lemma_p2(lp);
    }
    let mut i_low: usize = 0;
    while i_low < n1
        invariant
            i_low <= n1,
            m == P::PRIME,
            l == log_n,
            log_n < 32,
            log_n2 == log_n - log_n1,
            lp == log_n2,
            sh == log_n1,
            log_wg < log_n2,
            log_n1 <= log_n,
            (l - sh - lp) as nat == 0,
            po2::p2(0) == 1,
            n1 == po2::p2(sh),
            n2 == po2::p2(lp),
            n2 > 0,
            n == n2 * n1,
            n == po2::p2(l),
            base == batch_offset,
            batch_offset + n <= total == orig.len(),
            data@.len() == orig.len(),
            n_inv_value < P::PRIME,
            ni == monty::from_mont::<P>(n_inv_value as int),
            tw.serves::<P>(w, l),
            tile::tile_reduced::<P>(orig, base, n),
            x == tile::tile_values::<P>(orig, base, l),
            sx == poly::scale(m, ni, x),
            y == transform::dif(m, w, l, sx, 0, lp),
            forall|k: int|
                0 <= k < orig.len() ==> {
                    let v = #[trigger] data@[k];
                    if base <= k < base + n && (k - base) % (n1 as int) < i_low {
                        &&& v < P::PRIME
                        &&& monty::from_mont::<P>(v as int) == y[k - base]
                    } else {
                        v == orig[k]
                    }
                },
        decreases n1 - i_low,
    {
        let ghost c = i_low as int;
        let ghost before = data@;
        proof {
            assert((n2 - 1) * n1 + n1 == n) by (nonlinear_arith)
                requires
                    n == n2 * n1,
            ;
            assert forall|j: int| 0 <= j < n2 implies #[trigger] before[(base + c) + j * n1] == orig[base
                + c + j * n1] && orig[base + c + j * n1] < P::PRIME by {
                po2::lemma_within(j, n2, n1 as int, c);
                po2::lemma_split(j, n1 as int, c);
                assert(base + c + j * n1 - base == j * n1 + c);
            }
            assert forall|j: int| 0 <= j < n2 implies #[trigger] data@[(batch_offset + i_low) + j
                * n1] < P::PRIME by {
                assert(before[(base + c) + j * n1] == orig[base + c + j * n1]);
            }
        }
        let mut shared = load_lane::<P>(
            data,
            batch_offset + i_low,
            n1,
            log_n2,
            log_wg,
            Some(n_inv_value),
        );
        let ghost loaded = shared@;
        proof {
            assert(1 * po2::p2(lp) == po2::p2(lp) && 0 * po2::p2(lp) == 0);
        }
        inv_stages::<P>(&mut shared, tw, log_n, log_n2, 0, log_wg, 1, i_low, Ghost(w));
        let ghost done = shared@;
        store_lane(data, batch_offset + i_low, n1, log_n2, log_wg, &shared);
        proof {
            let ln = tile::lane(lp, sh, 0, c, sx);
            // What was loaded is the lane.
            let got = tile::tile_values::<P>(loaded, 0, lp);
            assert forall|b: int| 0 <= b < n2 implies got[b] == ln[b] by {
                po2::lemma_within(b, n2, n1 as int, c);
                assert(before[(base + c) + b * n1] == orig[base + c + b * n1]);
                assert(0 * po2::p2(sh + lp) == 0);
                assert(base + c + b * n1 == base + (b * n1 + c));
            }
            assert(got =~= ln);
            assert(tile::tile_values::<P>(done, 0 * po2::p2(lp), lp) == tile::tile_dif(
                m,
                w,
                l,
                lp,
                (log_n - 0 - log_n2) as nat,
                (i_low * 1 + 0) / po2::p2(0),
                tile::tile_values::<P>(loaded, 0 * po2::p2(lp), lp),
                lp,
            ));
            assert(c / 1 == c);
            tile::lemma_lane_dif(m, w, l, lp, sh, 0, c, sx, lp);
            assert(tile::tile_values::<P>(done, 0, lp) == tile::lane(lp, sh, 0, c, y));
            assert forall|k: int| 0 <= k < orig.len() implies {
                let v = #[trigger] data@[k];
                if base <= k < base + n && (k - base) % (n1 as int) < i_low + 1 {
                    &&& v < P::PRIME
                    &&& monty::from_mont::<P>(v as int) == y[k - base]
                } else {
                    v == orig[k]
                }
            } by {
                let r = k - base;
                if base <= k < base + n {
                    po2::lemma_join(r, n1 as int);
                    po2::lemma_quotient_below(r, n2, n1 as int);
                    let b = r / n1 as int;
                    if r % (n1 as int) == c {
                        assert(k - (base + c) == b * n1);
                        po2::lemma_split(b, n1 as int, 0);
                        assert(tile::on_stride(k, base + c, n1 as int, n2));
                        assert(data@[k] == done[b]);
                        assert(tile::tile_values::<P>(done, 0, lp)[b] == monty::from_mont::<P>(
                            done[b] as int,
                        ));
                        assert(0 * po2::p2(sh + lp) == 0);
                        assert(tile::lane(lp, sh, 0, c, y)[b] == y[r]);
                    } else {
                        assert(!tile::on_stride(k, base + c, n1 as int, n2)) by {
                            if tile::on_stride(k, base + c, n1 as int, n2) {
                                let q = (k - (base + c)) / (n1 as int);
                                po2::lemma_join(k - (base + c), n1 as int);
                                po2::lemma_split(q, n1 as int, c);
                            }
                        }
                    }
                } else {
                    assert(!tile::on_stride(k, base + c, n1 as int, n2)) by {
                        if tile::on_stride(k, base + c, n1 as int, n2) {
                            let q = (k - (base + c)) / (n1 as int);
                            po2::lemma_join(k - (base + c), n1 as int);
                            po2::lemma_within(q, n2, n1 as int, c);
                        }
                    }
                }
            }
        }
        i_low = i_low + 1;
    }
    proof {
        let out = tile::tile_values::<P>(data@, base, l);
        assert forall|r: int| 0 <= r < n implies out[r] == y[r] && data@[base + r]
            < P::PRIME by {
            lemma_mod_bound(r, n1 as int);
            assert(base + r - base == r);
        }
        assert(y.len() == n);
        assert(out =~= y);
        assert forall|i: int| base <= i < base + n implies #[trigger] data@[i] < P::PRIME by {
            assert(data@[base + (i - base)] < P::PRIME);
        }
    }
}

/// Inverse pass 2 on one row: one workgroup per chunk `block_id`.
fn pass2_row<P: MontyParameters>(
    data: &mut [u32],
    tw: &TwiddleTable<'_>,
    log_n: u32,
    log_n1: u32,
    log_wg: u32,
    batch_offset: usize,
    Ghost(w): Ghost<int>,
)
    requires
        log_n < 32,
        log_wg < log_n1 <= log_n,
        batch_offset + po2::p2(log_n as nat) <= old(data)@.len(),
        tile::tile_reduced::<P>(old(data)@, batch_offset as int, po2::p2(log_n as nat)),
        tw.serves::<P>(w, log_n as nat),
    ensures
        final(data)@.len() == old(data)@.len(),
        tile::tile_reduced::<P>(final(data)@, batch_offset as int, po2::p2(log_n as nat)),
        tile::tile_values::<P>(final(data)@, batch_offset as int, log_n as nat)
            == transform::dif(
            P::PRIME as int,
            w,
            log_n as nat,
            tile::tile_values::<P>(old(data)@, batch_offset as int, log_n as nat),
            (log_n - log_n1) as nat,
            log_n as nat,
        ),
        forall|k: int|
            0 <= k < old(data)@.len() && !(batch_offset <= k < batch_offset + po2::p2(
                log_n as nat,
            )) ==> #[trigger] final(data)@[k] == old(data)@[k],
{
    let ghost m = P::PRIME as int;
    let ghost l = log_n as nat;
    let log_n2: u32 = log_n - log_n1;
    let ghost lp = log_n1 as nat;
    let ghost from = log_n2 as nat;
    let ghost orig = data@;
    let ghost base = batch_offset as int;
    let ghost x = tile::tile_values::<P>(orig, base, l);
    let ghost y = transform::dif(m, w, l, x, from, l);
    let n1 = po2::pow2_usize(log_n1);
    let n2 = po2::pow2_usize(log_n2);
    let ghost n = po2::p2(l);
    let total = data.len();
    proof {
        po2::lemma_p2_adds(from, lp);
        assert(from + lp == l);
        po2::lemma_p2(0);
        assert((l - 0 - lp) as nat == from);
    }
    let mut block_id: usize = 0;
    while block_id < n2
        invariant
            block_id <= n2,
            m == P::PRIME,
            l == log_n,
            log_n < 32,
            log_n2 == log_n - log_n1,
            lp == log_n1,
            from == log_n2,
            from + lp == l,
            log_wg < log_n1 <= log_n,
            (l - 0 - lp) as nat == from,
            po2::p2(0) == 1,
            n1 == po2::p2(lp),
            n1 > 0,
            n2 == po2::p2(from),
            n == n2 * n1,
            n == po2::p2(l),
            base == batch_offset,
            batch_offset + n <= total == orig.len(),
            data@.len() == orig.len(),
            tw.serves::<P>(w, l),
            tile::tile_reduced::<P>(orig, base, n),
            x == tile::tile_values::<P>(orig, base, l),
            y == transform::dif(m, w, l, x, from, l),
            forall|k: int|
                0 <= k < orig.len() ==> {
                    let v = #[trigger] data@[k];
                    if base <= k < base + block_id * n1 {
                        &&& v < P::PRIME
                        &&& monty::from_mont::<P>(v as int) == y[k - base]
                    } else {
                        v == orig[k]
                    }
                },
        decreases n2 - block_id,
    {
        let ghost hi = block_id as int;
        let ghost before = data@;
        proof {
            po2::lemma_within(hi, n2 as int, n1 as int, 0);
            assert((hi + 1) * n1 == hi * n1 + n1) by (nonlinear_arith);
            assert((n1 - 1) * 1 == n1 - 1);
        }
        let block_offset: usize = batch_offset + block_id * n1;
        proof {
            assert forall|j: int| 0 <= j < n1 implies #[trigger] data@[block_offset + j * 1]
                < P::PRIME by {
                assert(data@[block_offset + j] == orig[block_offset + j]);
            }
        }
        let mut shared = load_lane::<P>(data, block_offset, 1, log_n1, log_wg, None);
        let ghost loaded = shared@;
        proof {
            assert(1 * po2::p2(lp) == po2::p2(lp) && 0 * po2::p2(lp) == 0);
        }
        inv_stages::<P>(&mut shared, tw, log_n, log_n1, log_n2, log_wg, 1, block_id, Ghost(w));
        let ghost done = shared@;
        store_lane(data, block_offset, 1, log_n1, log_wg, &shared);
        proof {
            let ln = tile::lane(lp, 0, hi, 0, x);
            let got = tile::tile_values::<P>(loaded, 0, lp);
            assert forall|b: int| 0 <= b < n1 implies got[b] == ln[b] by {
                assert(before[block_offset + b] == orig[block_offset + b]);
                assert(b * 1 == b);
                assert(0 + lp == lp);
                assert(tile::lane_index(lp, 0, hi, 0, b) == hi * n1 + b);
            }
            assert(got =~= ln);
            assert(tile::tile_values::<P>(done, 0 * po2::p2(lp), lp) == tile::tile_dif(
                m,
                w,
                l,
                lp,
                (log_n - log_n2 - log_n1) as nat,
                (block_id * 1 + 0) / po2::p2(from),
                tile::tile_values::<P>(loaded, 0 * po2::p2(lp), lp),
                lp,
            ));
            lemma_basic_div(hi, n2 as int);
            tile::lemma_lane_dif(m, w, l, lp, 0, hi, 0, x, lp);
            assert((l - 0 - lp + lp) as nat == l);
            assert(tile::tile_values::<P>(done, 0, lp) == tile::lane(lp, 0, hi, 0, y));
            assert forall|k: int| 0 <= k < orig.len() implies {
                let v = #[trigger] data@[k];
                if base <= k < base + (block_id + 1) * n1 {
                    &&& v < P::PRIME
                    &&& monty::from_mont::<P>(v as int) == y[k - base]
                } else {
                    v == orig[k]
                }
            } by {
                let b = k - block_offset;
                assert(b % 1 == 0 && b / 1 == b);
                if 0 <= b < n1 {
                    assert(tile::on_stride(k, block_offset as int, 1, n1 as int));
                    assert(data@[k] == done[b]);
                    assert(tile::tile_values::<P>(done, 0, lp)[b] == monty::from_mont::<P>(
                        done[b] as int,
                    ));
                    assert(b * 1 == b);
                    assert(0 + lp == lp);
                    assert(tile::lane_index(lp, 0, hi, 0, b) == hi * n1 + b);
                }
            }
        }
        block_id = block_id + 1;
    }
    proof {
        let out = tile::tile_values::<P>(data@, base, l);
        assert forall|r: int| 0 <= r < n implies out[r] == y[r] by {
            assert(base + r - base == r);
        }
        assert(y.len() == n);
        assert(out =~= y);
    }
}

/// Inverse pass 1: strided-slab decimation-in-frequency stages, in place on
/// each of `batch` polynomials.
pub fn intt_pass1<P: MontyParameters>(
    data: &mut [u32],
    inv_twiddles: &[u32],
    inv_n: &[u32],
    log_n: u32,
    log_n1: u32,
    log_wg: u32,
    batch: usize,
)
    requires
        log_n < 32,
        log_n1 + log_wg < log_n,
        twiddles::is_flat_table::<P>(
            inv_twiddles@,
            twiddles::inv_omega::<P>(log_n as nat),
            log_n as nat,
        ),
        inv_n@.len() >= 1,
        inv_n@[0] < P::PRIME,
        batch * po2::p2(log_n as nat) <= old(data)@.len(),
        tile::tile_reduced::<P>(old(data)@, 0, batch * po2::p2(log_n as nat)),
    ensures
        final(data)@.len() == old(data)@.len(),
        tile::tile_reduced::<P>(final(data)@, 0, batch * po2::p2(log_n as nat)),
        forall|r: int|
            0 <= r < batch ==> #[trigger] layout::row_values::<P>(final(data)@, log_n as nat, r)
                == transform::dif(
                P::PRIME as int,
                twiddles::inv_omega::<P>(log_n as nat),
                log_n as nat,
                poly::scale(
                    P::PRIME as int,
                    monty::from_mont::<P>(inv_n@[0] as int),
                    layout::row_values::<P>(old(data)@, log_n as nat, r),
                ),
                0,
                (log_n - log_n1) as nat,
            ),
        forall|k: int|
            batch * po2::p2(log_n as nat) <= k < old(data)@.len() ==> #[trigger] final(data)@[k]
                == old(data)@[k],
{
    let ghost m = P::PRIME as int;
    let ghost l = log_n as nat;
    let ghost w = twiddles::inv_omega::<P>(l);
    let ghost ni = monty::from_mont::<P>(inv_n@[0] as int);
    let ghost orig = data@;
    let ghost n = po2::p2(l);
    let n_inv_value = inv_n[0];
    let tw = TwiddleTable::Flat(inv_twiddles);
    let row_len = po2::pow2_usize(log_n);
    let total = data.len();
    let mut row: usize = 0;
    while row < batch
        invariant
            row <= batch,
            m == P::PRIME,
            l == log_n,
            log_n < 32,
            log_n1 + log_wg < log_n,
            n == po2::p2(l),
            n > 0,
            row_len == n,
            n_inv_value < P::PRIME,
            ni == monty::from_mont::<P>(n_inv_value as int),
            tw.serves::<P>(w, l),
            batch * n <= total == orig.len(),
            data@.len() == orig.len(),
            tile::tile_reduced::<P>(orig, 0, batch * n),
            tile::tile_reduced::<P>(data@, 0, batch * n),
            forall|r: int|
                0 <= r < row ==> #[trigger] layout::row_values::<P>(data@, l, r)
                    == transform::dif(
                    m,
                    w,
                    l,
                    poly::scale(m, ni, layout::row_values::<P>(orig, l, r)),
                    0,
                    (log_n - log_n1) as nat,
                ),
            forall|k: int| row * n <= k < orig.len() ==> #[trigger] data@[k] == orig[k],
        decreases batch - row,
    {
        proof {
            po2::lemma_within(row as int, batch as int, n, 0);
            assert((row + 1) * n == row * n + n) by (nonlinear_arith);
        }
        let ghost before = data@;
        pass1_row::<P>(
            data,
            &tw,
            n_inv_value,
            log_n,
            log_n1,
            log_wg,
            row * row_len,
            Ghost(w),
        );
        proof {
            assert(layout::row_values::<P>(before, l, row as int) =~= layout::row_values::<P>(
                orig,
                l,
                row as int,
            ));
            assert forall|r: int| 0 <= r < row + 1 implies #[trigger] layout::row_values::<P>(
                data@,
                l,
                r,
            ) == transform::dif(
                m,
                w,
                l,
                poly::scale(m, ni, layout::row_values::<P>(orig, l, r)),
                0,
                (log_n - log_n1) as nat,
            ) by {
                if r < row {
                    po2::lemma_within(r, row as int, n, 0);
                    assert(layout::row_values::<P>(data@, l, r) =~= layout::row_values::<P>(
                        before,
                        l,
                        r,
                    ));
                }
            }
            assert forall|i: int| 0 <= i < batch * n implies #[trigger] data@[i] < P::PRIME by {
                assert(before[i] < P::PRIME);
            }
        }
        row = row + 1;
    }
}

/// Inverse pass 2: contiguous-chunk decimation-in-frequency stages, in
/// place on each of `batch` polynomials.
pub fn intt_pass2<P: MontyParameters>(
    data: &mut [u32],
    inv_twiddles: &[u32],
    log_n: u32,
    log_n1: u32,
    log_wg: u32,
    batch: usize,
)
    requires
        log_n < 32,
        log_wg < log_n1 <= log_n,
        twiddles::is_flat_table::<P>(
            inv_twiddles@,
            twiddles::inv_omega::<P>(log_n as nat),
            log_n as nat,
        ),
        batch * po2::p2(log_n as nat) <= old(data)@.len(),
        tile::tile_reduced::<P>(old(data)@, 0, batch * po2::p2(log_n as nat)),
    ensures
        final(data)@.len() == old(data)@.len(),
        tile::tile_reduced::<P>(final(data)@, 0, batch * po2::p2(log_n as nat)),
        forall|r: int|
            0 <= r < batch ==> #[trigger] layout::row_values::<P>(final(data)@, log_n as nat, r)
                == transform::dif(
                P::PRIME as int,
                twiddles::inv_omega::<P>(log_n as nat),
                log_n as nat,
                layout::row_values::<P>(old(data)@, log_n as nat, r),
                (log_n - log_n1) as nat,
                log_n as nat,
            ),
        forall|k: int|
            batch * po2::p2(log_n as nat) <= k < old(data)@.len() ==> #[trigger] final(data)@[k]
                == old(data)@[k],
{
    let ghost m = P::PRIME as int;
    let ghost l = log_n as nat;
    let ghost w = twiddles::inv_omega::<P>(l);
    let ghost orig = data@;
    let ghost n = po2::p2(l);
    let tw = TwiddleTable::Flat(inv_twiddles);
    let row_len = po2::pow2_usize(log_n);
    let total = data.len();
    let mut row: usize = 0;
    while row < batch
        invariant
            row <= batch,
            m == P::PRIME,
            l == log_n,
            log_n < 32,
            log_wg < log_n1 <= log_n,
            n == po2::p2(l),
            n > 0,
            row_len == n,
            tw.serves::<P>(w, l),
            batch * n <= total == orig.len(),
            data@.len() == orig.len(),
            tile::tile_reduced::<P>(orig, 0, batch * n),
            tile::tile_reduced::<P>(data@, 0, batch * n),
            forall|r: int|
                0 <= r < row ==> #[trigger] layout::row_values::<P>(data@, l, r)
                    == transform::dif(
                    m,
                    w,
                    l,
                    layout::row_values::<P>(orig, l, r),
                    (log_n - log_n1) as nat,
                    l,
                ),
            forall|k: int| row * n <= k < orig.len() ==> #[trigger] data@[k] == orig[k],
        decreases batch - row,
    {
        proof {
            po2::lemma_within(row as int, batch as int, n, 0);
            assert((row + 1) * n == row * n + n) by (nonlinear_arith);
        }
        let ghost before = data@;
        pass2_row::<P>(data, &tw, log_n, log_n1, log_wg, row * row_len, Ghost(w));
        proof {
            assert(layout::row_values::<P>(before, l, row as int) =~= layout::row_values::<P>(
                orig,
                l,
                row as int,
            ));
            assert forall|r: int| 0 <= r < row + 1 implies #[trigger] layout::row_values::<P>(
                data@,
                l,
                r,
            ) == transform::dif(
                m,
                w,
                l,
                layout::row_values::<P>(orig, l, r),
                (log_n - log_n1) as nat,
                l,
            ) by {
                if r < row {
                    po2::lemma_within(r, row as int, n, 0);
                    assert(layout::row_values::<P>(data@, l, r) =~= layout::row_values::<P>(
                        before,
                        l,
                        r,
                    ));
                }
            }
            assert forall|i: int| 0 <= i < batch * n implies #[trigger] data@[i] < P::PRIME by {
                assert(before[i] < P::PRIME);
            }
        }
        row = row + 1;
    }
}

/// Pass 1 and then pass 2 compute the inverse transform.
pub proof fn law_two_passes_invert<P: MontyParameters>(
    log_n: nat,
    log_n1: nat,
    ni: int,
    x: Seq<int>,
)
    requires
        1 <= log_n <= P::TWO_ADICITY,
        log_n1 <= log_n,
        x.len() == po2::p2(log_n),
    ensures
        ({
            let m = P::PRIME as int;
            let w = twiddles::inv_omega::<P>(log_n);
            let mid = (log_n - log_n1) as nat;
            let first = transform::dif(m, w, log_n, poly::scale(m, ni, x), 0, mid);
            transform::dif(m, w, log_n, first, mid, log_n) == transform::intt(
                m,
                w,
                ni,
                log_n,
                x,
            )
        }),
{
    let m = P::PRIME as int;
    let w = twiddles::inv_omega::<P>(log_n);
    twiddles::lemma_roots::<P>(log_n);
    transform::lemma_dif_compose(
        m,
        w,
        log_n,
        poly::scale(m, ni, x),
        0,
        (log_n - log_n1) as nat,
        log_n,
    );
    transform::theorem_dif_is_intt(m, w, ni, log_n, x);
}

} // verus!
