//! Plane- and block-level inclusive prefix scans and reduces, generic over
//! [`Monoid`].
//!
//! A function here computes what all the threads of a plane, or of a
//! workgroup, compute together: it takes the values of the threads in
//! thread order and returns their results in the same order.
//!
//! Internally these scans operate on [`Monoid::Repr`] and only cross back
//! to `Self` for the algebraic `combine` and at the function boundary.

use vstd::arithmetic::mul::*;
use vstd::prelude::*;

use super::monoid;
use super::monoid::Monoid;
use crate::po2;
use crate::po2::pow2_usize;

verus! {

/// Combine two `Repr` values via `M::combine`, with one round-trip through
/// `Self`.
pub(crate) fn combine_via<M: Monoid>(left: M::Repr, right: M::Repr) -> (r: M::Repr)
    requires
        M::unpacked(left).valid(),
        M::unpacked(right).valid(),
    ensures
        r == M::packed(M::op(M::unpacked(left), M::unpacked(right))),
{
    let l = M::from_repr(left);
    let r = M::from_repr(right);
    proof {
        M::laws(l, r, r);
    }
    M::to_repr(M::combine(l, r))
}

/// After the shuffles by all powers of two below `off`, every lane holds
/// the combination of the last `off` values up to its own.
#[verifier::opaque]
pub open spec fn shuffled<M: Monoid>(values: Seq<M>, v: Seq<M::Repr>, off: int) -> bool {
    &&& v.len() == values.len()
    &&& forall|lane: int|
        0 <= lane < values.len() ==> #[trigger] v[lane] == M::packed(
            window(values, lane, off),
        )
}

/// The combination of the last `off` values up to `lane`.
pub open spec fn window<M: Monoid>(values: Seq<M>, lane: int, off: int) -> M {
    monoid::fold(
        values,
        if lane + 1 >= off {
            lane + 1 - off
        } else {
            0
        },
        lane + 1,
    )
}

/// Two adjacent windows make one of twice the width.
proof fn lemma_window<M: Monoid>(values: Seq<M>, lane: int, off: int)
    requires
        monoid::all_valid(values),
        0 <= lane < values.len(),
        off >= 1,
    ensures
        window(values, lane, off).valid(),
        lane >= off ==> window(values, lane, 2 * off) == M::op(
            window(values, lane - off, off),
            window(values, lane, off),
        ),
        lane < off ==> window(values, lane, 2 * off) == window(values, lane, off),
{
    let lo = if lane + 1 >= off {
        lane + 1 - off
    } else {
        0
    };
    monoid::lemma_fold_valid(values, lo, lane + 1);
    if lane >= off {
        let start = if lane + 1 >= 2 * off {
            lane + 1 - 2 * off
        } else {
            0
        };
        monoid::lemma_fold_split(values, start, lo, lane + 1);
    }
}

/// One step of a plane scan: every lane from `off` on combines the value
/// that lies `off` lanes below with its own.
fn shuffle_up<M: Monoid>(Ghost(values): Ghost<Seq<M>>, v: Vec<M::Repr>, off: usize) -> (r: Vec<
    M::Repr,
>)
    requires
        monoid::all_valid(values),
        shuffled(values, v@, off as int),
        off >= 1,
    ensures
        shuffled(values, r@, 2 * off),
{
    reveal(shuffled);
    let size = v.len();
    let mut w: Vec<M::Repr> = Vec::with_capacity(size);
    let mut lane: usize = 0;
    while lane < size
        invariant
            monoid::all_valid(values),
            shuffled(values, v@, off as int),
            off >= 1,
            lane <= size,
            size == v@.len(),
            size == values.len(),
            w@.len() == lane,
            forall|i: int|
                0 <= i < lane ==> #[trigger] w@[i] == M::packed(window(values, i, 2 * off)),
        decreases size - lane,
    {
        proof {
            reveal(shuffled);
            lemma_window(values, lane as int, off as int);
        }
        let own = v[lane];
        if lane >= off {
            proof {
                lemma_window(values, lane - off, off as int);
                let a = window(values, lane - off, off as int);
                let b = window(values, lane as int, off as int);
                M::laws(a, b, b);
                M::laws(b, b, b);
            }
            let other = v[lane - off];
            w.push(combine_via::<M>(other, own));
        } else {
            w.push(own);
        }
        lane = lane + 1;
    }
    w
}

/// Inclusive prefix scan within a single plane (warp).
///
/// In the result, every lane holds the `combine` of all values from lane 0
/// through itself. `log_warp` is the base-2 log of the plane size.
pub fn plane_inclusive_scan<M: Monoid>(values: &[M], log_warp: u32) -> (r: Vec<M>)
    requires
        values@.len() == po2::p2(log_warp as nat),
        monoid::all_valid(values@),
    ensures
        r@.len() == values@.len(),
        forall|lane: int|
            0 <= lane < r@.len() ==> #[trigger] r@[lane] == monoid::fold(values@, 0, lane + 1),
{
    let size = values.len();
    let mut v: Vec<M::Repr> = Vec::with_capacity(size);
    let mut i: usize = 0;
    while i < size
        invariant
            monoid::all_valid(values@),
            i <= size,
            size == values@.len(),
            v@.len() == i,
            forall|k: int| 0 <= k < i ==> #[trigger] v@[k] == M::packed(values@[k]),
        decreases size - i,
    {
        v.push(M::to_repr(values[i]));
        i = i + 1;
    }
    proof {
        po2::lemma_p2(0);
        assert(shuffled(values@, v@, 1)) by {
            reveal(shuffled);
            assert forall|k: int| 0 <= k < size implies #[trigger] v@[k] == M::packed(
                window(values@, k, 1),
            ) by {
                monoid::lemma_fold_single(values@, k);
            }
        }
    }
    let mut s: u32 = 0;
    while s < log_warp
        invariant
            monoid::all_valid(values@),
            s <= log_warp,
            values@.len() == po2::p2(log_warp as nat),
            values@.len() <= usize::MAX,
            shuffled(values@, v@, po2::p2(s as nat)),
        decreases log_warp - s,
    {
        proof {
            po2::lemma_exponent_fits(log_warp as nat, values@.len() as int);
            po2::lemma_p2(s as nat);
        }
        let off = pow2_usize(s);
        v = shuffle_up::<M>(Ghost(values@), v, off);
        s = s + 1;
    }
    proof {
        reveal(shuffled);
    }
    let mut r: Vec<M> = Vec::with_capacity(size);
    let mut k: usize = 0;
    while k < size
        invariant
            monoid::all_valid(values@),
            k <= size,
            size == values@.len(),
            shuffled(values@, v@, size as int),
            r@.len() == k,
            forall|lane: int|
                0 <= lane < k ==> #[trigger] r@[lane] == monoid::fold(values@, 0, lane + 1),
        decreases size - k,
    {
        proof {
            reveal(shuffled);
            lemma_window(values@, k as int, size as int);
            let whole = window(values@, k as int, size as int);
            M::laws(whole, whole, whole);
            assert(whole == monoid::fold(values@, 0, k + 1));
        }
        r.push(M::from_repr(v[k]));
        k = k + 1;
    }
    r
}

/// Every thread holds the combination of its plane's values up to its own.
#[verifier::opaque]
pub open spec fn planes_scanned<M: Monoid>(
    values: Seq<M>,
    v: Seq<M::Repr>,
    warp_size: int,
) -> bool {
    forall|i: int|
        0 <= i < v.len() ==> #[trigger] v[i] == M::packed(
            monoid::fold(values, (i / warp_size) * warp_size, i + 1),
        )
}

/// The first `count` slots hold the totals of the planes.
pub open spec fn holds_totals<M: Monoid>(
    values: Seq<M>,
    scratch: Seq<M::Repr>,
    warp_size: int,
    count: int,
) -> bool {
    forall|w: int|
        0 <= w < count ==> #[trigger] scratch[w] == M::packed(
            monoid::fold(values, w * warp_size, (w + 1) * warp_size),
        )
}

/// The first `count` slots hold the prefixes through the planes.
pub open spec fn holds_prefixes<M: Monoid>(
    values: Seq<M>,
    scratch: Seq<M::Repr>,
    warp_size: int,
    count: int,
) -> bool {
    forall|w: int|
        0 <= w < count ==> #[trigger] scratch[w] == M::packed(
            monoid::fold(values, 0, (w + 1) * warp_size),
        )
}

/// A workgroup of `2^log_wg` threads is made of planes that one plane can
/// scan the totals of, and the scratch has room for these.
pub open spec fn block_fits(threads: int, slots: int, log_warp: u32, log_wg: u32) -> bool {
    &&& log_warp <= log_wg <= 2 * log_warp
    &&& threads == po2::p2(log_wg as nat)
    &&& slots >= po2::p2((log_wg - log_warp) as nat)
}

/// The sizes of a workgroup and its planes.
proof fn lemma_block_sizes(threads: int, slots: int, log_warp: u32, log_wg: u32)
    requires
        block_fits(threads, slots, log_warp, log_wg),
        threads <= usize::MAX,
    ensures
        log_warp < usize::BITS,
        log_wg < usize::BITS,
        threads == po2::p2((log_wg - log_warp) as nat) * po2::p2(log_warp as nat),
        1 <= po2::p2((log_wg - log_warp) as nat) <= po2::p2(log_warp as nat),
{
    po2::lemma_exponent_fits(log_wg as nat, threads);
    po2::lemma_p2_adds((log_wg - log_warp) as nat, log_warp as nat);
    po2::lemma_p2_mono((log_wg - log_warp) as nat, log_warp as nat);
}

/// Scan within each plane of a workgroup.
fn scan_planes<M: Monoid>(values: &[M], warp_size: usize, num_warps: usize, log_warp: u32) -> (r:
    Vec<M::Repr>)
    requires
        monoid::all_valid(values@),
        warp_size == po2::p2(log_warp as nat),
        values@.len() == num_warps * warp_size,
    ensures
        r@.len() == values@.len(),
        planes_scanned(values@, r@, warp_size as int),
{
    let mut v: Vec<M::Repr> = Vec::with_capacity(values.len());
    proof {
        po2::lemma_p2(log_warp as nat);
        reveal(planes_scanned);
    }
    let mut warp: usize = 0;
    while warp < num_warps
        invariant
            monoid::all_valid(values@),
            warp_size == po2::p2(log_warp as nat),
            warp_size > 0,
            values@.len() == num_warps * warp_size,
            values@.len() <= usize::MAX,
            warp <= num_warps,
            v@.len() == warp * warp_size,
            planes_scanned(values@, v@, warp_size as int),
        decreases num_warps - warp,
    {
        proof {
            po2::lemma_within(warp as int, num_warps as int, warp_size as int, 0);
        }
        let base: usize = warp * warp_size;
        let plane = vstd::slice::slice_subrange(values, base, base + warp_size);
        let scanned = plane_inclusive_scan::<M>(plane, log_warp);
        let mut lane: usize = 0;
        while lane < warp_size
            invariant
                monoid::all_valid(values@),
                warp_size > 0,
                lane <= warp_size,
                base == warp * warp_size,
                base + warp_size <= values@.len(),
                plane@ == values@.subrange(base as int, base + warp_size),
                scanned@.len() == warp_size,
                forall|k: int|
                    0 <= k < scanned@.len() ==> #[trigger] scanned@[k] == monoid::fold(
                        plane@,
                        0,
                        k + 1,
                    ),
                v@.len() == base + lane,
                planes_scanned(values@, v@, warp_size as int),
            decreases warp_size - lane,
        {
            proof {
                let i = base + lane;
                po2::lemma_split(warp as int, warp_size as int, lane as int);
                monoid::lemma_fold_shift(plane@, values@, 0, lane + 1, base as int);
                monoid::lemma_fold_valid(values@, base as int, i + 1);
            }
            v.push(M::to_repr(scanned[lane]));
            proof {
                reveal(planes_scanned);
            }
            lane = lane + 1;
        }
        proof {
            lemma_mul_is_distributive_add_other_way(
                warp_size as int,
                warp as int,
                1,
            );
        }
        warp = warp + 1;
    }
    v
}

/// The last lane of each plane publishes its plane's total.
fn publish_totals<M: Monoid>(
    Ghost(values): Ghost<Seq<M>>,
    scanned: &Vec<M::Repr>,
    scratch: &mut Vec<M::Repr>,
    warp_size: usize,
    num_warps: usize,
)
    requires
        warp_size > 0,
        scanned@.len() == num_warps * warp_size,
        planes_scanned(values, scanned@, warp_size as int),
        old(scratch)@.len() >= num_warps,
    ensures
        final(scratch)@.len() == old(scratch)@.len(),
        holds_totals(values, final(scratch)@, warp_size as int, num_warps as int),
        forall|k: int|
            num_warps <= k < old(scratch)@.len()
                ==> #[trigger] final(scratch)@[k] == old(scratch)@[k],
{
    let size = scanned.len();
    let mut warp: usize = 0;
    while warp < num_warps
        invariant
            warp_size > 0,
            scanned@.len() == num_warps * warp_size,
            scanned@.len() == size,
            planes_scanned(values, scanned@, warp_size as int),
            scratch@.len() == old(scratch)@.len(),
            old(scratch)@.len() >= num_warps,
            warp <= num_warps,
            holds_totals(values, scratch@, warp_size as int, warp as int),
            forall|k: int|
                warp <= k < old(scratch)@.len() ==> #[trigger] scratch@[k] == old(scratch)@[k],
        decreases num_warps - warp,
    {
        proof {
            reveal(planes_scanned);
            po2::lemma_within(warp as int, num_warps as int, warp_size as int, warp_size - 1);
            po2::lemma_split(warp as int, warp_size as int, warp_size - 1);
            lemma_mul_is_distributive_add_other_way(
                warp_size as int,
                warp as int,
                1,
            );
        }
        let last = scanned[warp * warp_size + (warp_size - 1)];
        scratch.set(warp, last);
        warp = warp + 1;
    }
}

/// Plane 0 scans the totals of the planes, with identities in the lanes
/// that have none.
fn scan_totals<M: Monoid>(
    Ghost(values): Ghost<Seq<M>>,
    scratch: &Vec<M::Repr>,
    warp_size: usize,
    num_warps: usize,
    log_warp: u32,
) -> (r: Vec<M>)
    requires
        monoid::all_valid(values),
        warp_size == po2::p2(log_warp as nat),
        num_warps <= warp_size,
        values.len() == num_warps * warp_size,
        num_warps <= scratch@.len(),
        holds_totals(values, scratch@, warp_size as int, num_warps as int),
    ensures
        r@.len() == warp_size,
        forall|w: int|
            0 <= w < num_warps ==> #[trigger] r@[w] == monoid::fold(
                values,
                0,
                (w + 1) * warp_size,
            ) && r@[w].valid(),
{
    let mut plane: Vec<M> = Vec::with_capacity(warp_size);
    let mut lane: usize = 0;
    while lane < warp_size
        invariant
            monoid::all_valid(values),
            num_warps <= warp_size,
            values.len() == num_warps * warp_size,
            num_warps <= scratch@.len(),
            holds_totals(values, scratch@, warp_size as int, num_warps as int),
            lane <= warp_size,
            plane@.len() == lane,
            monoid::all_valid(plane@),
            forall|w: int|
                0 <= w < lane && w < num_warps ==> #[trigger] plane@[w] == monoid::fold(
                    values,
                    w * warp_size,
                    (w + 1) * warp_size,
                ),
        decreases warp_size - lane,
    {
        if lane < num_warps {
            proof {
                let lo = lane * warp_size;
                lemma_mul_is_distributive_add_other_way(
                    warp_size as int,
                    lane as int,
                    1,
                );
                po2::lemma_within(lane as int, num_warps as int, warp_size as int, 0);
                monoid::lemma_fold_valid(values, lo, lo + warp_size);
                let total = monoid::fold(values, lo, lo + warp_size);
                M::laws(total, total, total);
            }
            plane.push(M::from_repr(scratch[lane]));
        } else {
            proof {
                M::laws(M::unit(), M::unit(), M::unit());
            }
            plane.push(M::identity());
        }
        lane = lane + 1;
    }
    let r = plane_inclusive_scan::<M>(plane.as_slice(), log_warp);
    proof {
        assert forall|w: int| 0 <= w < num_warps implies #[trigger] r@[w] == monoid::fold(
            values,
            0,
            (w + 1) * warp_size,
        ) && r@[w].valid() by {
            lemma_mul_inequality(
                w + 1,
                num_warps as int,
                warp_size as int,
            );
            monoid::lemma_fold_chunks(values, plane@, warp_size as int, 0, w + 1);
            monoid::lemma_fold_valid(plane@, 0, w + 1);
        }
    }
    r
}

/// Inclusive prefix scan across an entire workgroup.
///
/// Each thread gets its own cumulative scan result. `scratch` must hold at
/// least `1 << (log_wg - log_warp)` `M::Repr` values. With more than one
/// plane it ends up holding the prefix through each plane.
///
/// Constraint: `wg_size <= warp_size^2`, so that plane 0 can scan the
/// per-plane totals in a single plane scan.
pub fn block_inclusive_scan<M: Monoid>(
    values: &[M],
    scratch: &mut Vec<M::Repr>,
    log_warp: u32,
    log_wg: u32,
) -> (r: Vec<M>)
    requires
        block_fits(values@.len() as int, old(scratch)@.len() as int, log_warp, log_wg),
        monoid::all_valid(values@),
    ensures
        r@.len() == values@.len(),
        forall|i: int|
            0 <= i < r@.len() ==> #[trigger] r@[i] == monoid::fold(values@, 0, i + 1),
        final(scratch)@.len() == old(scratch)@.len(),
        log_warp == log_wg ==> final(scratch)@ == old(scratch)@,
        log_warp < log_wg ==> holds_prefixes(
            values@,
            final(scratch)@,
            po2::p2(log_warp as nat),
            po2::p2((log_wg - log_warp) as nat),
        ) && forall|k: int|
            po2::p2((log_wg - log_warp) as nat) <= k < old(scratch)@.len()
                ==> #[trigger] final(scratch)@[k] == old(scratch)@[k],
{
    let size = values.len();
    proof {
        lemma_block_sizes(size as int, scratch@.len() as int, log_warp, log_wg);
        po2::lemma_p2(0);
        po2::lemma_p2_mono(0, (log_wg - log_warp) as nat);
    }
    let warp_size = pow2_usize(log_warp);
    let num_warps = pow2_usize(log_wg - log_warp);
    let scanned = scan_planes::<M>(values, warp_size, num_warps, log_warp);
    if num_warps > 1 {
        publish_totals::<M>(Ghost(values@), &scanned, scratch, warp_size, num_warps);
        let sums = scan_totals::<M>(Ghost(values@), scratch, warp_size, num_warps, log_warp);
        let mut k: usize = 0;
        while k < num_warps
            invariant
                k <= num_warps <= warp_size,
                num_warps <= scratch@.len(),
                scratch@.len() == old(scratch)@.len(),
                sums@.len() == warp_size,
                forall|w: int|
                    0 <= w < num_warps ==> #[trigger] sums@[w] == monoid::fold(
                        values@,
                        0,
                        (w + 1) * warp_size,
                    ) && sums@[w].valid(),
                holds_prefixes(values@, scratch@, warp_size as int, k as int),
                forall|i: int|
                    num_warps <= i < old(scratch)@.len()
                        ==> #[trigger] scratch@[i] == old(scratch)@[i],
            decreases num_warps - k,
        {
            let prefix = M::to_repr(sums[k]);
            scratch.set(k, prefix);
            k = k + 1;
        }
    }
    let mut r: Vec<M> = Vec::with_capacity(size);
    let mut i: usize = 0;
    while i < size
        invariant
            i <= size,
            size == values@.len(),
            size == num_warps * warp_size,
            warp_size > 0,
            num_warps <= scratch@.len(),
            monoid::all_valid(values@),
            scanned@.len() == size,
            planes_scanned(values@, scanned@, warp_size as int),
            num_warps > 1 ==> holds_prefixes(
                values@,
                scratch@,
                warp_size as int,
                num_warps as int,
            ),
            r@.len() == i,
            forall|k: int| 0 <= k < i ==> #[trigger] r@[k] == monoid::fold(values@, 0, k + 1),
        decreases size - i,
    {
        let warp: usize = i / warp_size;
        proof {
            reveal(planes_scanned);
            let ws = warp_size as int;
            po2::lemma_join(i as int, ws);
            po2::lemma_quotient_below(i as int, num_warps as int, ws);
            lemma_mul_nonnegative(warp as int, ws);
            let own = monoid::fold(values@, warp * ws, i + 1);
            let carry = monoid::fold(values@, 0, warp * ws);
            monoid::lemma_fold_valid(values@, warp * ws, i + 1);
            monoid::lemma_fold_valid(values@, 0, warp * ws);
            monoid::lemma_fold_split(values@, 0, warp * ws, i + 1);
            M::laws(own, own, own);
            M::laws(carry, own, own);
            M::laws(M::op(carry, own), own, own);
            assert((warp - 1 + 1) * ws == warp * ws);
            lemma_mul_basics(ws);
            assert(scanned@[i as int] == M::packed(own));
        }
        let own = scanned[i];
        if warp > 0 {
            let carry = scratch[warp - 1];
            r.push(M::from_repr(combine_via::<M>(carry, own)));
        } else {
            r.push(M::from_repr(own));
        }
        i = i + 1;
    }
    r
}

/// Inclusive reduce across an entire workgroup: the total that every thread
/// gets.
///
/// Cheaper than [`block_inclusive_scan`]: no per-lane carry phase. The
/// block total ends up in slot 0 of `scratch`; the totals of the other
/// planes stay in their slots.
pub fn block_inclusive_reduce<M: Monoid>(
    values: &[M],
    scratch: &mut Vec<M::Repr>,
    log_warp: u32,
    log_wg: u32,
) -> (r: M)
    requires
        block_fits(values@.len() as int, old(scratch)@.len() as int, log_warp, log_wg),
        monoid::all_valid(values@),
    ensures
        r == monoid::fold(values@, 0, values@.len() as int),
        final(scratch)@.len() == old(scratch)@.len(),
        final(scratch)@[0] == M::packed(r),
        forall|w: int|
            1 <= w < po2::p2((log_wg - log_warp) as nat) ==> #[trigger] final(scratch)@[w]
                == M::packed(
                monoid::fold(
                    values@,
                    w * po2::p2(log_warp as nat),
                    (w + 1) * po2::p2(log_warp as nat),
                ),
            ),
        forall|k: int|
            po2::p2((log_wg - log_warp) as nat) <= k < old(scratch)@.len()
                ==> #[trigger] final(scratch)@[k] == old(scratch)@[k],
{
    let size = values.len();
    proof {
        lemma_block_sizes(size as int, scratch@.len() as int, log_warp, log_wg);
        monoid::lemma_fold_valid(values@, 0, values@.len() as int);
        let total = monoid::fold(values@, 0, values@.len() as int);
        M::laws(total, total, total);
    }
    let warp_size = pow2_usize(log_warp);
    let num_warps = pow2_usize(log_wg - log_warp);
    let scanned = scan_planes::<M>(values, warp_size, num_warps, log_warp);
    publish_totals::<M>(Ghost(values@), &scanned, scratch, warp_size, num_warps);
    if num_warps > 1 {
        let sums = scan_totals::<M>(Ghost(values@), scratch, warp_size, num_warps, log_warp);
        let total = M::to_repr(sums[num_warps - 1]);
        scratch.set(0, total);
    } else {
        proof {
            assert(scratch@[0] == M::packed(
                monoid::fold(values@, 0 * warp_size, (0 + 1) * warp_size),
            ));
        }
    }
    M::from_repr(scratch[0])
}

/// What a block scan leaves in its scratch memory: at `w`, the combination
/// of all values of the planes up to `w`.
pub proof fn law_scratch_holds_prefixes<M: Monoid>(
    values: Seq<M>,
    scratch: Seq<M::Repr>,
    warp_size: int,
    count: int,
    w: int,
)
    requires
        holds_prefixes(values, scratch, warp_size, count),
        0 <= w < count,
    ensures
        scratch[w] == M::packed(monoid::fold(values, 0, (w + 1) * warp_size)),
{
}

/// What a block scan asks of its sizes: at least one plane and no more than
/// a plane has threads, as many values as the workgroup has threads, and a
/// slot of scratch memory for each plane.
pub proof fn law_block_sizes(threads: int, slots: int, log_warp: u32, log_wg: u32)
    ensures
        block_fits(threads, slots, log_warp, log_wg) <==> {
            &&& log_warp <= log_wg
            &&& log_wg <= log_warp + log_warp
            &&& threads == vstd::arithmetic::power2::pow2(log_wg as nat)
            &&& slots >= vstd::arithmetic::power2::pow2((log_wg - log_warp) as nat)
        },
{
}

} // verus!
