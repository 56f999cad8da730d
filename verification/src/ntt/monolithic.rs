//! Monolithic NTT kernels (forward and inverse).
//!
//! A single workgroup processes the entire `2^log_n`-point transform
//! through shared memory, in place: the data is loaded, butterflied through
//! all `log_n` stages, then written back.
//!
//! Per-stage twiddles are read from flat tables `[w^0, ..., w^(N/2 - 1)]`
//! (or inverse ones).

use vstd::arithmetic::power2::*;
use vstd::prelude::*;

use crate::field::monty;
use crate::field::monty::MontyParameters;
use crate::po2;
use crate::poly;

use super::fwd_pass::fwd_stages;
use super::inv_pass::inv_stages;
use super::tile;
use super::tile::{load_lane, store_lane, TwiddleTable};
use super::transform;
use super::twiddles;

verus! {

/// With all bits in the lane, the lane is the whole transform.
proof fn lemma_whole_lane(m: int, w: int, l: nat, x: Seq<int>)
    requires
        x.len() == po2::p2(l),
    ensures
        tile::tile_dit(m, w, l, l, 0, 0, x, l) == transform::dit(m, w, l, x, 0, l),
        tile::tile_dif(m, w, l, l, 0, 0, x, l) == transform::dif(m, w, l, x, 0, l),
{
    po2::lemma_p2(0);
    assert((l - 0 - l) as nat == 0);
    assert forall|y: Seq<int>| y.len() == po2::p2(l) implies #[trigger] tile::lane(l, 0, 0, 0, y)
        == y by {
        assert forall|b: int| 0 <= b < po2::p2(l) implies tile::lane_index(l, 0, 0, 0, b)
            == b by {
            assert(0 * po2::p2(0 + l) == 0 && b * 1 == b);
        }
        assert(tile::lane(l, 0, 0, 0, y) =~= y);
    }
    tile::lemma_lane_dit(m, w, l, l, 0, 0, 0, x, l);
    tile::lemma_lane_dif(m, w, l, l, 0, 0, 0, x, l);
}

/// Monolithic forward NTT: bit-reversed coefficients in, natural-order
/// evaluations out.
///
/// Decimation-in-time butterflies `(a + w b, a - w b)` of ascending stride.
pub fn ntt_monolithic<P: MontyParameters>(
    data: &mut [u32],
    twiddles: &[u32],
    log_n: u32,
    log_wg: u32,
)
    requires
        1 <= log_n <= P::TWO_ADICITY,
        log_wg < log_n,
        po2::p2(log_n as nat) <= old(data)@.len(),
        tile::tile_reduced::<P>(old(data)@, 0, po2::p2(log_n as nat)),
        twiddles::is_flat_table::<P>(
            twiddles@,
            twiddles::omega::<P>(log_n as nat),
            log_n as nat,
        ),
    ensures
        final(data)@.len() == old(data)@.len(),
        tile::tile_reduced::<P>(final(data)@, 0, po2::p2(log_n as nat)),
        tile::tile_values::<P>(final(data)@, 0, log_n as nat) == transform::ntt(
            P::PRIME as int,
            twiddles::omega::<P>(log_n as nat),
            log_n as nat,
            tile::tile_values::<P>(old(data)@, 0, log_n as nat),
        ),
        forall|k: int|
            po2::p2(log_n as nat) <= k < old(data)@.len() ==> #[trigger] final(data)@[k]
                == old(data)@[k],
{
    let ghost m = P::PRIME as int;
    let ghost l = log_n as nat;
    let ghost w = twiddles::omega::<P>(l);
    let ghost orig = data@;
    let ghost x = tile::tile_values::<P>(orig, 0, l);
    proof {
        P::consistent();
        po2::lemma_p2(l);
        po2::lemma_p2(0);
        assert((po2::p2(l) - 1) * 1 == po2::p2(l) - 1);
        assert forall|i: int| 0 <= i < po2::p2(l) implies #[trigger] orig[0 + i * 1]
            < P::PRIME by {
            assert(orig[i] < P::PRIME);
        }
    }
    let mut shared = load_lane::<P>(data, 0, 1, log_n, log_wg, None);
    let tw = TwiddleTable::Flat(twiddles);
    let ghost loaded = shared@;
    proof {
        assert(1 * po2::p2(l) == po2::p2(l) && 0 * po2::p2(l) == 0);
        assert(tile::strided_values::<P>(orig, 0, 1, l) =~= x);
        assert(po2::p2((log_n - log_n) as nat) == 1);
    }
    fwd_stages::<P>(&mut shared, &tw, log_n, log_n, 0, log_wg, 1, 0, Ghost(w));
    let ghost done = shared@;
    store_lane(data, 0, 1, log_n, log_wg, &shared);
    proof {
        assert(tile::tile_values::<P>(done, 0 * po2::p2(l), l) == tile::tile_dit(
            m,
            w,
            l,
            l,
            0,
            (0int * 1 + 0) / po2::p2((log_n - 0 - log_n) as nat),
            tile::tile_values::<P>(loaded, 0 * po2::p2(l), l),
            l,
        ));
        assert(0int / 1int == 0);
        lemma_whole_lane(m, w, l, x);
        twiddles::lemma_roots::<P>(l);
        assert(poly::all_reduced(m, x)) by {
            assert forall|i: int| 0 <= i < x.len() implies 0 <= #[trigger] x[i] < m by {
                monty::lemma_round_trip::<P>(orig[i] as int);
            }
        }
        transform::theorem_dit_is_ntt(m, w, l, x);
        assert forall|k: int| 0 <= k < orig.len() implies #[trigger] data@[k] == (if k
            < po2::p2(l) {
            done[k]
        } else {
            orig[k]
        }) by {
            assert((k - 0) % 1 == 0 && (k - 0) / 1 == k);
        }
        assert(tile::tile_values::<P>(data@, 0, l) =~= tile::tile_values::<P>(done, 0, l));
    }
}

/// Monolithic inverse NTT: natural-order evaluations in, bit-reversed
/// coefficients out.
///
/// Decimation-in-frequency butterflies `(a + b, (a - b) w)` of descending
/// stride. Inverse twiddles are passed as a flat table; the `N^{-1}`
/// scaling, from the single-element `inv_n`, is folded into the load step.
pub fn ntt_monolithic_inverse<P: MontyParameters>(
    data: &mut [u32],
    inv_twiddles: &[u32],
    inv_n: &[u32],
    log_n: u32,
    log_wg: u32,
)
    requires
        1 <= log_n <= P::TWO_ADICITY,
        log_wg < log_n,
        po2::p2(log_n as nat) <= old(data)@.len(),
        tile::tile_reduced::<P>(old(data)@, 0, po2::p2(log_n as nat)),
        twiddles::is_flat_table::<P>(
            inv_twiddles@,
            twiddles::inv_omega::<P>(log_n as nat),
            log_n as nat,
        ),
        inv_n@.len() >= 1,
        inv_n@[0] < P::PRIME,
    ensures
        final(data)@.len() == old(data)@.len(),
        tile::tile_reduced::<P>(final(data)@, 0, po2::p2(log_n as nat)),
        tile::tile_values::<P>(final(data)@, 0, log_n as nat) == transform::intt(
            P::PRIME as int,
            twiddles::inv_omega::<P>(log_n as nat),
            monty::from_mont::<P>(inv_n@[0] as int),
            log_n as nat,
            tile::tile_values::<P>(old(data)@, 0, log_n as nat),
        ),
        forall|k: int|
            po2::p2(log_n as nat) <= k < old(data)@.len() ==> #[trigger] final(data)@[k]
                == old(data)@[k],
{
    let ghost m = P::PRIME as int;
    let ghost l = log_n as nat;
    let ghost w = twiddles::inv_omega::<P>(l);
    let ghost ni = monty::from_mont::<P>(inv_n@[0] as int);
    let ghost orig = data@;
    let ghost x = tile::tile_values::<P>(orig, 0, l);
    let ghost sx = poly::scale(m, ni, x);
    proof {
        P::consistent();
        po2::lemma_p2(l);
        po2::lemma_p2(0);
        assert((po2::p2(l) - 1) * 1 == po2::p2(l) - 1);
        assert forall|i: int| 0 <= i < po2::p2(l) implies #[trigger] orig[0 + i * 1]
            < P::PRIME by {
            assert(orig[i] < P::PRIME);
        }
    }
    let mut shared = load_lane::<P>(data, 0, 1, log_n, log_wg, Some(inv_n[0]));
    let tw = TwiddleTable::Flat(inv_twiddles);
    let ghost loaded = shared@;
    proof {
        assert(1 * po2::p2(l) == po2::p2(l) && 0 * po2::p2(l) == 0);
        assert(tile::strided_values::<P>(orig, 0, 1, l) =~= x);
        assert(po2::p2((log_n - log_n) as nat) == 1);
    }
    inv_stages::<P>(&mut shared, &tw, log_n, log_n, 0, log_wg, 1, 0, Ghost(w));
    let ghost done = shared@;
    store_lane(data, 0, 1, log_n, log_wg, &shared);
    proof {
        assert(tile::tile_values::<P>(done, 0 * po2::p2(l), l) == tile::tile_dif(
            m,
            w,
            l,
            l,
            (log_n - 0 - log_n) as nat,
            (0int * 1 + 0) / po2::p2(0),
            tile::tile_values::<P>(loaded, 0 * po2::p2(l), l),
            l,
        ));
        assert(0int / 1int == 0);
        lemma_whole_lane(m, w, l, sx);
        twiddles::lemma_roots::<P>(l);
        transform::theorem_dif_is_intt(m, w, ni, l, x);
        assert forall|k: int| 0 <= k < orig.len() implies #[trigger] data@[k] == (if k
            < po2::p2(l) {
            done[k]
        } else {
            orig[k]
        }) by {
            assert((k - 0) % 1 == 0 && (k - 0) / 1 == k);
        }
        assert(tile::tile_values::<P>(data@, 0, l) =~= tile::tile_values::<P>(done, 0, l));
    }
}

} // verus!
