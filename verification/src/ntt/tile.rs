//! Butterfly stages on one workgroup's tile.
//!
//! A pass runs some consecutive stages of a transform. Those stages only
//! mix entries whose indices agree outside a window of bits, so the
//! transform falls apart into independent *lanes* of `2^lp` entries:
//! `x[hi * 2^(sh + lp) + b * 2^sh + lo]` for `b` in `0..2^lp`. A workgroup
//! gathers a lane into a tile of shared memory and runs the stages there.

use vstd::arithmetic::div_mod::*;
use vstd::arithmetic::mul::*;
use vstd::arithmetic::power2::*;
use vstd::prelude::*;

use crate::field::monty;
use crate::field::monty::{monty_add, monty_mul, monty_sub, MontyParameters};
use crate::po2;
use crate::poly;
use crate::zmod;

use super::pass_common;
use super::transform;
use super::twiddles;

verus! {

/// The `2^lp` field elements that stand from `v[base]` on.
pub open spec fn tile_values<P: MontyParameters>(v: Seq<u32>, base: int, lp: nat) -> Seq<int> {
    Seq::new(pow2(lp), |i: int| monty::from_mont::<P>(v[base + i] as int))
}

/// The `n` raw values from `v[base]` on are reduced.
pub open spec fn tile_reduced<P: MontyParameters>(v: Seq<u32>, base: int, n: int) -> bool {
    forall|i: int| base <= i < base + n ==> #[trigger] v[i] < P::PRIME
}

/// Where entry `b` of a lane stands.
pub open spec fn lane_index(lp: nat, sh: nat, hi: int, lo: int, b: int) -> int {
    hi * po2::p2(sh + lp) + b * po2::p2(sh) + lo
}

/// The lane at `(hi, lo)`.
pub open spec fn lane(lp: nat, sh: nat, hi: int, lo: int, x: Seq<int>) -> Seq<int> {
    Seq::new(pow2(lp), |b: int| x[lane_index(lp, sh, hi, lo, b)])
}

/// The twiddle exponent of butterfly `j` in a lane, for a stage whose
/// twiddles are powers of `w^(2^k)`.
pub open spec fn lane_exponent(sh: nat, lo: int, k: nat, j: int) -> int {
    (j * po2::p2(sh) + lo) * po2::p2(k)
}

/// Entry `i` of a lane after its decimation-in-time stage `s`.
pub open spec fn tile_dit_at(
    m: int,
    w: int,
    l: nat,
    sh: nat,
    lo: int,
    x: Seq<int>,
    s: nat,
    i: int,
) -> int {
    let d = po2::p2(s);
    let tw = zmod::power(m, w, lane_exponent(sh, lo, (l - 1 - sh - s) as nat, i % d) as nat);
    if (i / d) % 2 == 0 {
        zmod::plus(m, x[i], zmod::times(m, tw, x[i + d]))
    } else {
        zmod::minus(m, x[i - d], zmod::times(m, tw, x[i]))
    }
}

/// A lane after its first `s` decimation-in-time stages.
pub open spec fn tile_dit(
    m: int,
    w: int,
    l: nat,
    lp: nat,
    sh: nat,
    lo: int,
    x: Seq<int>,
    s: nat,
) -> Seq<int>
    decreases s,
{
    if s == 0 {
        x
    } else {
        let y = tile_dit(m, w, l, lp, sh, lo, x, (s - 1) as nat);
        Seq::new(pow2(lp), |i: int| tile_dit_at(m, w, l, sh, lo, y, (s - 1) as nat, i))
    }
}

/// Entry `i` of a lane after its decimation-in-frequency stage `s`.
pub open spec fn tile_dif_at(
    m: int,
    w: int,
    l: nat,
    lp: nat,
    sh: nat,
    lo: int,
    x: Seq<int>,
    s: nat,
    i: int,
) -> int {
    let d = po2::p2((lp - 1 - s) as nat);
    let tw = zmod::power(m, w, lane_exponent(sh, lo, (l - sh - lp + s) as nat, i % d) as nat);
    if (i / d) % 2 == 0 {
        zmod::plus(m, x[i], x[i + d])
    } else {
        zmod::times(m, zmod::minus(m, x[i - d], x[i]), tw)
    }
}

/// A lane after its first `s` decimation-in-frequency stages.
pub open spec fn tile_dif(
    m: int,
    w: int,
    l: nat,
    lp: nat,
    sh: nat,
    lo: int,
    x: Seq<int>,
    s: nat,
) -> Seq<int>
    decreases s,
{
    if s == 0 {
        x
    } else {
        let y = tile_dif(m, w, l, lp, sh, lo, x, (s - 1) as nat);
        Seq::new(pow2(lp), |i: int| tile_dif_at(m, w, l, lp, sh, lo, y, (s - 1) as nat, i))
    }
}

// ---------------------------------------------------------------------------
// Lanes are independent.
// ---------------------------------------------------------------------------

/// A lane stays inside the transform, and local stride `2^s` in the lane
/// is global stride `2^(sh + s)`.
pub proof fn lemma_lane_stage(l: nat, lp: nat, sh: nat, hi: int, lo: int, s: nat, b: int)
    requires
        sh + lp <= l,
        0 <= hi < po2::p2((l - sh - lp) as nat),
        0 <= lo < po2::p2(sh),
        s < lp,
        0 <= b < po2::p2(lp),
    ensures
        ({
            let d = po2::p2(s);
            let big = po2::p2(sh + s);
            let u = lane_index(lp, sh, hi, lo, b);
            &&& 0 <= u < po2::p2(l)
            &&& u % big == (b % d) * po2::p2(sh) + lo
            &&& (u / big) % 2 == (b / d) % 2
            &&& u + big == lane_index(lp, sh, hi, lo, b + d)
            &&& u - big == lane_index(lp, sh, hi, lo, b - d)
            &&& (b / d) % 2 == 0 ==> b + d < po2::p2(lp)
            &&& (b / d) % 2 != 0 ==> b - d >= 0
        }),
{
    let d = po2::p2(s);
    let e = po2::p2(sh);
    let big = po2::p2(sh + s);
    let u = lane_index(lp, sh, hi, lo, b);
    po2::lemma_p2_adds(sh, s);
    po2::lemma_p2_adds(sh + s, (lp - s) as nat);
    assert((sh + s) + (lp - s) as nat == sh + lp);
    let q = b / d;
    let r = b % d;
    po2::lemma_join(b, d);
    let c = po2::p2((lp - s) as nat);
    let half = po2::p2((lp - s - 1) as nat);
    po2::lemma_p2((lp - s - 1) as nat);
    assert((lp - s - 1) as nat + 1 == (lp - s) as nat);
    // u = (hi * c + q) * big + (r * e + lo)
    assert(u == (hi * c + q) * big + (r * e + lo)) by (nonlinear_arith)
        requires
            u == hi * po2::p2(sh + lp) + b * e + lo,
            po2::p2(sh + lp) == big * c,
            big == e * d,
            b == q * d + r,
    ;
    po2::lemma_within(r, d, e, lo);
    lemma_mul_is_commutative(e, d);
    po2::lemma_split(hi * c + q, big, r * e + lo);
    assert((hi * c + q) % 2 == q % 2) by {
        assert(hi * c + q == 2 * (hi * half) + q) by (nonlinear_arith)
            requires
                c == 2 * half,
        ;
    }
    assert((b + d) * e == b * e + big && (b - d) * e == b * e - big) by (nonlinear_arith)
        requires
            big == e * d,
    ;
    // The lane is inside.
    po2::lemma_p2_adds(s, (lp - s) as nat);
    assert(s + (lp - s) as nat == lp);
    lemma_mul_is_commutative(d, c);
    po2::lemma_quotient_below(b, c, d);
    po2::lemma_within(hi, po2::p2((l - sh - lp) as nat), c, q);
    po2::lemma_within(hi * c + q, po2::p2((l - sh - lp) as nat) * c, big, r * e + lo);
    assert(po2::p2((l - sh - lp) as nat) * c * big == po2::p2(l)) by {
        po2::lemma_p2_adds((l - sh - lp) as nat, sh + lp);
        assert((l - sh - lp) as nat + (sh + lp) == l);
        assert(po2::p2((l - sh - lp) as nat) * c * big == po2::p2((l - sh - lp) as nat) * (big
            * c)) by (nonlinear_arith);
    }
    if q % 2 == 0 {
        assert(q + 1 < c);
        po2::lemma_within(q + 1, c, d, r);
        assert((q + 1) * d == q * d + d) by (nonlinear_arith);
    } else {
        assert(q >= 1);
        assert((q - 1) * d == q * d - d && (q - 1) * d >= 0) by (nonlinear_arith)
            requires
                q >= 1,
                d > 0,
        ;
    }
}

/// Global decimation-in-time stages act on each lane by itself.
pub proof fn lemma_lane_dit(
    m: int,
    w: int,
    l: nat,
    lp: nat,
    sh: nat,
    hi: int,
    lo: int,
    x: Seq<int>,
    s: nat,
)
    requires
        sh + lp <= l,
        0 <= hi < po2::p2((l - sh - lp) as nat),
        0 <= lo < po2::p2(sh),
        s <= lp,
    ensures
        lane(lp, sh, hi, lo, transform::dit(m, w, l, x, sh, sh + s)) == tile_dit(
            m,
            w,
            l,
            lp,
            sh,
            lo,
            lane(lp, sh, hi, lo, x),
            s,
        ),
    decreases s,
{
    if s > 0 {
        let h = (s - 1) as nat;
        lemma_lane_dit(m, w, l, lp, sh, hi, lo, x, h);
        let g = transform::dit(m, w, l, x, sh, sh + h);
        let y = lane(lp, sh, hi, lo, g);
        let after = transform::dit(m, w, l, x, sh, sh + s);
        assert((sh + s - 1) as nat == sh + h);
        assert(after == transform::dit_stage(m, w, l, g, sh + h));
        let left = lane(lp, sh, hi, lo, after);
        let right = tile_dit(m, w, l, lp, sh, lo, lane(lp, sh, hi, lo, x), s);
        assert forall|b: int| 0 <= b < po2::p2(lp) implies left[b] == right[b] by {
            lemma_lane_stage(l, lp, sh, hi, lo, h, b);
            assert((l - 1 - (sh + h)) as nat == (l - 1 - sh - h) as nat);
        }
        assert(left =~= right);
    }
}

/// Global decimation-in-frequency stages act on each lane by itself.
pub proof fn lemma_lane_dif(
    m: int,
    w: int,
    l: nat,
    lp: nat,
    sh: nat,
    hi: int,
    lo: int,
    x: Seq<int>,
    s: nat,
)
    requires
        sh + lp <= l,
        0 <= hi < po2::p2((l - sh - lp) as nat),
        0 <= lo < po2::p2(sh),
        s <= lp,
    ensures
        lane(
            lp,
            sh,
            hi,
            lo,
            transform::dif(m, w, l, x, (l - sh - lp) as nat, (l - sh - lp + s) as nat),
        ) == tile_dif(m, w, l, lp, sh, lo, lane(lp, sh, hi, lo, x), s),
    decreases s,
{
    if s > 0 {
        let h = (s - 1) as nat;
        let f = (l - sh - lp) as nat;
        lemma_lane_dif(m, w, l, lp, sh, hi, lo, x, h);
        let g = transform::dif(m, w, l, x, f, f + h);
        let y = lane(lp, sh, hi, lo, g);
        let after = transform::dif(m, w, l, x, f, f + s);
        assert((f + s - 1) as nat == f + h);
        assert(after == transform::dif_stage(m, w, l, g, f + h));
        let left = lane(lp, sh, hi, lo, after);
        let right = tile_dif(m, w, l, lp, sh, lo, lane(lp, sh, hi, lo, x), s);
        let sl = (lp - 1 - h) as nat;
        assert forall|b: int| 0 <= b < po2::p2(lp) implies left[b] == right[b] by {
            lemma_lane_stage(l, lp, sh, hi, lo, sl, b);
            assert((l - 1 - (f + h)) as nat == sh + sl);
        }
        assert(left =~= right);
    }
}

// ---------------------------------------------------------------------------
// Butterflies within a tile.
// ---------------------------------------------------------------------------

/// The butterfly, counted over the tile, that entry `i` takes part in for
/// stride `d`.
pub open spec fn butterfly_of(d: int, i: int) -> int {
    ((i / d) / 2) * d + i % d
}

/// The two entries of butterfly `bf` are `lo` and `lo + d`, and no others.
proof fn lemma_butterfly(d: int, bf: int, lo: int, i: int)
    requires
        d > 0,
        bf >= 0,
        lo == (bf / d) * (2 * d) + bf % d,
        i >= 0,
    ensures
        lo >= 0,
        lo / d == 2 * (bf / d),
        lo % d == bf % d,
        (lo + d) / d == 2 * (bf / d) + 1,
        (lo + d) % d == bf % d,
        butterfly_of(d, lo) == bf,
        butterfly_of(d, lo + d) == bf,
        butterfly_of(d, i) == bf ==> i == lo || i == lo + d,
{
    let g = bf / d;
    let j = bf % d;
    po2::lemma_join(bf, d);
    assert(lo == (2 * g) * d + j && lo + d == (2 * g + 1) * d + j && lo >= 0)
        by (nonlinear_arith)
        requires
            lo == g * (2 * d) + j,
            g >= 0,
            d > 0,
            j >= 0,
    ;
    po2::lemma_split(2 * g, d, j);
    po2::lemma_split(2 * g + 1, d, j);
    if butterfly_of(d, i) == bf {
        po2::lemma_join(i, d);
        po2::lemma_split((i / d) / 2, d, i % d);
        assert(i / d == 2 * g || i / d == 2 * g + 1);
    }
}

/// Every entry of the tile is in a butterfly below `half`, and the two
/// entries of such a butterfly are in the tile.
proof fn lemma_butterfly_range(lp: nat, s: nat, bf: int, i: int)
    requires
        s < lp,
        0 <= bf < po2::p2((lp - 1) as nat),
        0 <= i < po2::p2(lp),
    ensures
        (bf / po2::p2(s)) * (2 * po2::p2(s)) + bf % po2::p2(s) + po2::p2(s) < po2::p2(lp),
        0 <= butterfly_of(po2::p2(s), i) < po2::p2((lp - 1) as nat),
{
    let d = po2::p2(s);
    let c = po2::p2((lp - 1 - s) as nat);
    po2::lemma_p2_adds((lp - 1 - s) as nat, s);
    assert((lp - 1 - s) as nat + s == (lp - 1) as nat);
    po2::lemma_p2((lp - 1) as nat);
    assert(c * d == po2::p2((lp - 1) as nat));
    po2::lemma_quotient_below(bf, c, d);
    po2::lemma_join(bf, d);
    let g = bf / d;
    let j = bf % d;
    assert(g * (2 * d) + j + d < 2 * (c * d)) by (nonlinear_arith)
        requires
            0 <= g <= c - 1,
            0 <= j < d,
    ;
    assert(2 * (c * d) == (2 * c) * d) by (nonlinear_arith);
    po2::lemma_quotient_below(i, 2 * c, d);
    po2::lemma_join(i, d);
    po2::lemma_within((i / d) / 2, c, d, i % d);
}

/// Twiddle exponents of a lane stay below `2^(l - 1)`.
proof fn lemma_lane_exponent(l: nat, sh: nat, lo: int, k: nat, s: nat, j: int)
    requires
        sh + k + s + 1 == l,
        0 <= lo < po2::p2(sh),
        0 <= j < po2::p2(s),
    ensures
        lane_exponent(sh, lo, k, j) == j * po2::p2(sh + k) + lo * po2::p2(k),
        0 <= j * po2::p2(sh + k),
        0 <= lo * po2::p2(k),
        lane_exponent(sh, lo, k, j) < po2::p2((l - 1) as nat),
{
    let e = po2::p2(sh);
    let f = po2::p2(k);
    po2::lemma_p2_adds(sh, k);
    po2::lemma_p2_adds(s, sh);
    po2::lemma_p2_adds(s + sh, k);
    assert(s + sh + k == (l - 1) as nat);
    po2::lemma_within(j, po2::p2(s), e, lo);
    assert((j * e + lo) * f == j * (e * f) + lo * f) by (nonlinear_arith);
    assert(0 <= j * (e * f) && 0 <= lo * f) by (nonlinear_arith)
        requires
            j >= 0,
            lo >= 0,
            e > 0,
            f > 0,
    ;
    assert((j * e + lo) * f < (po2::p2(s) * e) * f) by (nonlinear_arith)
        requires
            j * e + lo < po2::p2(s) * e,
            f > 0,
    ;
}

/// `v` starts with the twiddles of a stage of a lane.
pub open spec fn are_stage_twiddles<P: MontyParameters>(
    v: Seq<u32>,
    w: int,
    sh: nat,
    lo: int,
    k: nat,
) -> bool {
    forall|j: int|
        0 <= j < v.len() ==> {
            &&& #[trigger] v[j] < P::PRIME
            &&& monty::from_mont::<P>(v[j] as int) == zmod::power(
                P::PRIME as int,
                w,
                lane_exponent(sh, lo, k, j) as nat,
            )
        }
}

/// A source of twiddles: a flat table, or a windowed table and the number
/// of windows to read.
pub enum TwiddleTable<'a> {
    Flat(&'a [u32]),
    Windowed(&'a [u32], u32),
}

impl<'a> TwiddleTable<'a> {
    /// The table serves a transform of `2^l` points with root `w`.
    pub open spec fn serves<P: MontyParameters>(self, w: int, l: nat) -> bool {
        match self {
            TwiddleTable::Flat(t) => twiddles::is_flat_table::<P>(t@, w, l),
            TwiddleTable::Windowed(t, num_windows) => {
                &&& twiddles::is_partial_table::<P>(t@, w)
                &&& 1 <= num_windows <= 3
                &&& l - 1 <= num_windows * 10
            },
        }
    }

    /// `w^k`.
    #[inline]
    fn at<P: MontyParameters>(&self, k: u32, Ghost(w): Ghost<int>, Ghost(l): Ghost<nat>) -> (r:
        u32)
        requires
            self.serves::<P>(w, l),
            l >= 1,
            k < po2::p2((l - 1) as nat),
        ensures
            r < P::PRIME,
            monty::from_mont::<P>(r as int) == zmod::power(P::PRIME as int, w, k as nat),
    {
        match self {
            TwiddleTable::Flat(t) => t[k as usize],
            TwiddleTable::Windowed(t, num_windows) => {
                proof {
                    po2::lemma_p2_mono((l - 1) as nat, (num_windows * 10) as nat);
                    lemma_small_mod(k as nat, pow2((num_windows * 10) as nat));
                }
                pass_common::reconstruct_twiddle::<P>(t, k, *num_windows)
            },
        }
    }

    /// The twiddles of one stage of a lane: entry `j` is
    /// `w^(j * 2^(sh + k) + lo * 2^k)`.
    fn stage<P: MontyParameters>(
        &self,
        log_n: u32,
        sh: u32,
        lo: u32,
        k: u32,
        log_d: u32,
        Ghost(w): Ghost<int>,
    ) -> (r: Vec<u32>)
        requires
            self.serves::<P>(w, log_n as nat),
            sh + k + log_d + 1 == log_n < 32,
            lo < po2::p2(sh as nat),
        ensures
            r@.len() == po2::p2(log_d as nat),
            are_stage_twiddles::<P>(r@, w, sh as nat, lo as int, k as nat),
    {
        let ghost l = log_n as nat;
        let d = po2::pow2_u32(log_d);
        let inner_step = po2::pow2_u32(sh + k);
        let outer_step = po2::pow2_u32(k);
        proof {
            lemma_lane_exponent(l, sh as nat, lo as int, k as nat, log_d as nat, 0);
            po2::lemma_p2_mono((l - 1) as nat, 30);
            lemma2_to64();
        }
        let lo_term: u32 = lo * outer_step;
        let mut r: Vec<u32> = Vec::with_capacity(d as usize);
        let mut j: u32 = 0;
        while j < d
            invariant
                j <= d,
                l == log_n,
                d == po2::p2(log_d as nat),
                sh + k + log_d + 1 == l,
                lo < po2::p2(sh as nat),
                inner_step == po2::p2(sh as nat + k as nat),
                lo_term == lo * po2::p2(k as nat),
                po2::p2((l - 1) as nat) <= 0x4000_0000,
                self.serves::<P>(w, l),
                r@.len() == j,
                are_stage_twiddles::<P>(r@, w, sh as nat, lo as int, k as nat),
            decreases d - j,
        {
            proof {
                lemma_lane_exponent(l, sh as nat, lo as int, k as nat, log_d as nat, j as int);
            }
            let tw_exp: u32 = lo_term + j * inner_step;
            r.push(self.at::<P>(tw_exp, Ghost(w), Ghost(l)));
            j = j + 1;
        }
        r
    }
}

/// Run decimation-in-time stage `s` of a lane on the tile at `base`:
/// butterflies `(a + w b, a - w b)` of stride `2^s`.
pub(crate) fn dit_tile_stage<P: MontyParameters>(
    shared: &mut Vec<u32>,
    base: usize,
    tw: &TwiddleTable<'_>,
    log_n: u32,
    log_pass: u32,
    sh: u32,
    lo: u32,
    s: u32,
    log_wg: u32,
    Ghost(w): Ghost<int>,
)
    requires
        s < log_pass,
        log_wg < log_pass,
        sh + log_pass <= log_n < 32,
        lo < po2::p2(sh as nat),
        base + po2::p2(log_pass as nat) <= old(shared)@.len(),
        tile_reduced::<P>(old(shared)@, base as int, po2::p2(log_pass as nat)),
        tw.serves::<P>(w, log_n as nat),
    ensures
        final(shared)@.len() == old(shared)@.len(),
        tile_reduced::<P>(final(shared)@, base as int, po2::p2(log_pass as nat)),
        tile_values::<P>(final(shared)@, base as int, log_pass as nat) == Seq::new(
            pow2(log_pass as nat),
            |i: int|
                tile_dit_at(
                    P::PRIME as int,
                    w,
                    log_n as nat,
                    sh as nat,
                    lo as int,
                    tile_values::<P>(old(shared)@, base as int, log_pass as nat),
                    s as nat,
                    i,
                ),
        ),
        forall|i: int|
            0 <= i < old(shared)@.len() && !(base <= i < base + po2::p2(log_pass as nat))
                ==> #[trigger] final(shared)@[i] == old(shared)@[i],
{
    let ghost m = P::PRIME as int;
    let ghost l = log_n as nat;
    let ghost lp = log_pass as nat;
    let ghost kk = (l - 1 - sh - s) as nat;
    let ghost orig = shared@;
    let ghost x = tile_values::<P>(shared@, base as int, lp);
    let total = shared.len();
    let d = po2::pow2_usize(s);
    let wg_size = po2::pow2_usize(log_wg);
    let butt_per_thread = po2::pow2_usize(log_pass - 1 - log_wg);
    proof {
        po2::lemma_p2_adds((log_pass - 1 - log_wg) as nat, log_wg as nat);
        assert((log_pass - 1 - log_wg) as nat + log_wg as nat == (lp - 1) as nat);
        po2::lemma_p2(s as nat);
        po2::lemma_p2_mono((l - 1) as nat, 30);
        po2::lemma_p2_mono((lp - 1) as nat, (l - 1) as nat);
        po2::lemma_p2_mono(s as nat, (lp - 1) as nat);
        lemma2_to64();
    }
    let stage_tw = tw.stage::<P>(log_n, sh, lo, log_n - 1 - sh - s, s, Ghost(w));
    let ghost half = po2::p2((lp - 1) as nat);
    let mut k: usize = 0;
    while k < butt_per_thread
        invariant
            k <= butt_per_thread,
            m == P::PRIME,
            l == log_n,
            lp == log_pass,
            log_n < 32,
            s < log_pass,
            sh + log_pass <= log_n,
            lo < po2::p2(sh as nat),
            kk == (l - 1 - sh - s) as nat,
            d == po2::p2(s as nat),
            half == po2::p2((lp - 1) as nat),
            butt_per_thread * wg_size == half,
            wg_size > 0,
            d <= half <= 0x4000_0000,
            stage_tw@.len() == d,
            are_stage_twiddles::<P>(stage_tw@, w, sh as nat, lo as int, kk),
            base + po2::p2(lp) <= orig.len() == total,
            shared@.len() == orig.len(),
            x == tile_values::<P>(orig, base as int, lp),
            tile_reduced::<P>(shared@, base as int, po2::p2(lp)),
            forall|i: int|
                0 <= i < po2::p2(lp) ==> {
                    let v = #[trigger] shared@[base + i];
                    if butterfly_of(d as int, i) < k * wg_size {
                        monty::from_mont::<P>(v as int) == tile_dit_at(
                            m,
                            w,
                            l,
                            sh as nat,
                            lo as int,
                            x,
                            s as nat,
                            i,
                        )
                    } else {
                        v == orig[base + i]
                    }
                },
            forall|i: int|
                0 <= i < orig.len() && !(base <= i < base + po2::p2(lp)) ==> #[trigger] shared@[i]
                    == orig[i],
        decreases butt_per_thread - k,
    {
        let mut tid: usize = 0;
        proof {
            po2::lemma_within(k as int, butt_per_thread as int, wg_size as int, 0);
        }
        while tid < wg_size
            invariant
                tid <= wg_size,
                k < butt_per_thread,
                m == P::PRIME,
                l == log_n,
                lp == log_pass,
                log_n < 32,
                s < log_pass,
                sh + log_pass <= log_n,
                lo < po2::p2(sh as nat),
                kk == (l - 1 - sh - s) as nat,
                d == po2::p2(s as nat),
                half == po2::p2((lp - 1) as nat),
                butt_per_thread * wg_size == half,
                0 <= k * wg_size,
                k * wg_size + wg_size <= half,
                d <= half <= 0x4000_0000,
                stage_tw@.len() == d,
                are_stage_twiddles::<P>(stage_tw@, w, sh as nat, lo as int, kk),
                base + po2::p2(lp) <= orig.len() == total,
                shared@.len() == orig.len(),
                x == tile_values::<P>(orig, base as int, lp),
                tile_reduced::<P>(shared@, base as int, po2::p2(lp)),
                forall|i: int|
                    0 <= i < po2::p2(lp) ==> {
                        let v = #[trigger] shared@[base + i];
                        if butterfly_of(d as int, i) < k * wg_size + tid {
                            monty::from_mont::<P>(v as int) == tile_dit_at(
                                m,
                                w,
                                l,
                                sh as nat,
                                lo as int,
                                x,
                                s as nat,
                                i,
                            )
                        } else {
                            v == orig[base + i]
                        }
                    },
                forall|i: int|
                    0 <= i < orig.len() && !(base <= i < base + po2::p2(lp)) ==> #[trigger]
                        shared@[i] == orig[i],
            decreases wg_size - tid,
        {
            proof {
                po2::lemma_p2((lp - 1) as nat);
            }
            let butt_idx: usize = tid + k * wg_size;
            let group = po2::shr_usize(butt_idx, s);
            let j = po2::low_usize(butt_idx, s);
            let ghost bf = butt_idx as int;
            proof {
                lemma_butterfly(d as int, bf, (bf / d as int) * (2 * d) + bf % d as int, 0);
                lemma_butterfly_range(lp, s as nat, bf, 0);
                lemma_mul_is_commutative(group as int, 2 * d as int);
                assert(0 <= group * (2 * d)) by (nonlinear_arith)
                    requires
                        group >= 0,
                        d > 0,
                ;
            }
            let i_lo: usize = group * (2 * d) + j;
            let i_hi: usize = i_lo + d;
            let t_w = stage_tw[j];
            let a = shared[base + i_lo];
            let b = shared[base + i_hi];
            let t = monty_mul::<P>(t_w, b);
            let new_lo = monty_add::<P>(a, t);
            let new_hi = monty_sub::<P>(a, t);
            let ghost before = shared@;
            shared.set(base + i_lo, new_lo);
            shared.set(base + i_hi, new_hi);
            proof {
                let after = shared@;
                assert(before[base + i_lo as int] == orig[base + i_lo as int]);
                assert(before[base + i_hi as int] == orig[base + i_hi as int]);
                assert(x[i_lo as int] == monty::from_mont::<P>(a as int));
                assert(x[i_hi as int] == monty::from_mont::<P>(b as int));
                assert(i_lo as int + d == i_hi as int);
                assert forall|i: int| 0 <= i < po2::p2(lp) implies {
                    let v = #[trigger] after[base + i];
                    if butterfly_of(d as int, i) < k * wg_size + tid + 1 {
                        monty::from_mont::<P>(v as int) == tile_dit_at(
                            m,
                            w,
                            l,
                            sh as nat,
                            lo as int,
                            x,
                            s as nat,
                            i,
                        )
                    } else {
                        v == orig[base + i]
                    }
                } by {
                    lemma_butterfly(d as int, bf, i_lo as int, i);
                    if i == i_lo {
                        assert(after[base + i] == new_lo);
                    } else if i == i_hi {
                        assert(after[base + i] == new_hi);
                    } else {
                        assert(after[base + i] == before[base + i]);
                        assert(butterfly_of(d as int, i) != bf);
                    }
                }
                assert forall|i: int| base <= i < base + po2::p2(lp) implies #[trigger] after[i]
                    < P::PRIME by {
                    assert(before[i] < P::PRIME);
                }
            }
            tid = tid + 1;
        }
        proof {
            assert((k + 1) * wg_size == k * wg_size + wg_size) by (nonlinear_arith);
        }
        k = k + 1;
    }
    proof {
        let y = tile_values::<P>(shared@, base as int, lp);
        assert forall|i: int| 0 <= i < po2::p2(lp) implies y[i] == tile_dit_at(
            m,
            w,
            l,
            sh as nat,
            lo as int,
            x,
            s as nat,
            i,
        ) by {
            lemma_butterfly_range(lp, s as nat, 0, i);
        }
        assert(y =~= Seq::new(
            pow2(lp),
            |i: int| tile_dit_at(m, w, l, sh as nat, lo as int, x, s as nat, i),
        ));
    }
}

/// Run decimation-in-frequency stage `s` of a lane on the tile at `base`:
/// butterflies `(a + b, (a - b) w)` of stride `2^(log_pass - 1 - s)`.
pub(crate) fn dif_tile_stage<P: MontyParameters>(
    shared: &mut Vec<u32>,
    base: usize,
    tw: &TwiddleTable<'_>,
    log_n: u32,
    log_pass: u32,
    sh: u32,
    lo: u32,
    s: u32,
    log_wg: u32,
    Ghost(w): Ghost<int>,
)
    requires
        s < log_pass,
        log_wg < log_pass,
        sh + log_pass <= log_n < 32,
        lo < po2::p2(sh as nat),
        base + po2::p2(log_pass as nat) <= old(shared)@.len(),
        tile_reduced::<P>(old(shared)@, base as int, po2::p2(log_pass as nat)),
        tw.serves::<P>(w, log_n as nat),
    ensures
        final(shared)@.len() == old(shared)@.len(),
        tile_reduced::<P>(final(shared)@, base as int, po2::p2(log_pass as nat)),
        tile_values::<P>(final(shared)@, base as int, log_pass as nat) == Seq::new(
            pow2(log_pass as nat),
            |i: int|
                tile_dif_at(
                    P::PRIME as int,
                    w,
                    log_n as nat,
                    log_pass as nat,
                    sh as nat,
                    lo as int,
                    tile_values::<P>(old(shared)@, base as int, log_pass as nat),
                    s as nat,
                    i,
                ),
        ),
        forall|i: int|
            0 <= i < old(shared)@.len() && !(base <= i < base + po2::p2(log_pass as nat))
                ==> #[trigger] final(shared)@[i] == old(shared)@[i],
{
    let ghost m = P::PRIME as int;
    let ghost l = log_n as nat;
    let ghost lp = log_pass as nat;
    let ghost kk = (l - sh - lp + s) as nat;
    let ghost orig = shared@;
    let ghost x = tile_values::<P>(shared@, base as int, lp);
    let total = shared.len();
    let log_d: u32 = log_pass - 1 - s;
    let d = po2::pow2_usize(log_d);
    let wg_size = po2::pow2_usize(log_wg);
    let butt_per_thread = po2::pow2_usize(log_pass - 1 - log_wg);
    proof {
        po2::lemma_p2_adds((log_pass - 1 - log_wg) as nat, log_wg as nat);
        assert((log_pass - 1 - log_wg) as nat + log_wg as nat == (lp - 1) as nat);
        po2::lemma_p2(log_d as nat);
        po2::lemma_p2_mono((l - 1) as nat, 30);
        po2::lemma_p2_mono((lp - 1) as nat, (l - 1) as nat);
        po2::lemma_p2_mono(log_d as nat, (lp - 1) as nat);
        lemma2_to64();
    }
    let stage_tw = tw.stage::<P>(log_n, sh, lo, log_n - sh - log_pass + s, log_d, Ghost(w));
    let ghost half = po2::p2((lp - 1) as nat);
    let mut k: usize = 0;
    while k < butt_per_thread
        invariant
            k <= butt_per_thread,
            m == P::PRIME,
            l == log_n,
            lp == log_pass,
            log_n < 32,
            s < log_pass,
            sh + log_pass <= log_n,
            lo < po2::p2(sh as nat),
            kk == (l - sh - lp + s) as nat,
            log_d == log_pass - 1 - s,
            d == po2::p2(log_d as nat),
            half == po2::p2((lp - 1) as nat),
            butt_per_thread * wg_size == half,
            wg_size > 0,
            d <= half <= 0x4000_0000,
            stage_tw@.len() == d,
            are_stage_twiddles::<P>(stage_tw@, w, sh as nat, lo as int, kk),
            base + po2::p2(lp) <= orig.len() == total,
            shared@.len() == orig.len(),
            x == tile_values::<P>(orig, base as int, lp),
            tile_reduced::<P>(shared@, base as int, po2::p2(lp)),
            forall|i: int|
                0 <= i < po2::p2(lp) ==> {
                    let v = #[trigger] shared@[base + i];
                    if butterfly_of(d as int, i) < k * wg_size {
                        monty::from_mont::<P>(v as int) == tile_dif_at(
                            m,
                            w,
                            l,
                            lp,
                            sh as nat,
                            lo as int,
                            x,
                            s as nat,
                            i,
                        )
                    } else {
                        v == orig[base + i]
                    }
                },
            forall|i: int|
                0 <= i < orig.len() && !(base <= i < base + po2::p2(lp)) ==> #[trigger] shared@[i]
                    == orig[i],
        decreases butt_per_thread - k,
    {
        let mut tid: usize = 0;
        proof {
            po2::lemma_within(k as int, butt_per_thread as int, wg_size as int, 0);
        }
        while tid < wg_size
            invariant
                tid <= wg_size,
                k < butt_per_thread,
                m == P::PRIME,
                l == log_n,
                lp == log_pass,
                log_n < 32,
                s < log_pass,
                sh + log_pass <= log_n,
                lo < po2::p2(sh as nat),
                kk == (l - sh - lp + s) as nat,
                log_d == log_pass - 1 - s,
                d == po2::p2(log_d as nat),
                half == po2::p2((lp - 1) as nat),
                butt_per_thread * wg_size == half,
                0 <= k * wg_size,
                k * wg_size + wg_size <= half,
                d <= half <= 0x4000_0000,
                stage_tw@.len() == d,
                are_stage_twiddles::<P>(stage_tw@, w, sh as nat, lo as int, kk),
                base + po2::p2(lp) <= orig.len() == total,
                shared@.len() == orig.len(),
                x == tile_values::<P>(orig, base as int, lp),
                tile_reduced::<P>(shared@, base as int, po2::p2(lp)),
                forall|i: int|
                    0 <= i < po2::p2(lp) ==> {
                        let v = #[trigger] shared@[base + i];
                        if butterfly_of(d as int, i) < k * wg_size + tid {
                            monty::from_mont::<P>(v as int) == tile_dif_at(
                                m,
                                w,
                                l,
                                lp,
                                sh as nat,
                                lo as int,
                                x,
                                s as nat,
                                i,
                            )
                        } else {
                            v == orig[base + i]
                        }
                    },
                forall|i: int|
                    0 <= i < orig.len() && !(base <= i < base + po2::p2(lp)) ==> #[trigger]
                        shared@[i] == orig[i],
            decreases wg_size - tid,
        {
            proof {
                po2::lemma_p2((lp - 1) as nat);
            }
            let butt_idx: usize = tid + k * wg_size;
            let group = po2::shr_usize(butt_idx, log_d);
            let j = po2::low_usize(butt_idx, log_d);
            let ghost bf = butt_idx as int;
            proof {
                lemma_butterfly(d as int, bf, (bf / d as int) * (2 * d) + bf % d as int, 0);
                lemma_butterfly_range(lp, log_d as nat, bf, 0);
                lemma_mul_is_commutative(group as int, 2 * d as int);
                assert(0 <= group * (2 * d)) by (nonlinear_arith)
                    requires
                        group >= 0,
                        d > 0,
                ;
            }
            let i_lo: usize = group * (2 * d) + j;
            let i_hi: usize = i_lo + d;
            let t_w = stage_tw[j];
            let a = shared[base + i_lo];
            let b = shared[base + i_hi];
            let new_lo = monty_add::<P>(a, b);
            let diff = monty_sub::<P>(a, b);
            let new_hi = monty_mul::<P>(diff, t_w);
            let ghost before = shared@;
            shared.set(base + i_lo, new_lo);
            shared.set(base + i_hi, new_hi);
            proof {
                let after = shared@;
                assert(before[base + i_lo as int] == orig[base + i_lo as int]);
                assert(before[base + i_hi as int] == orig[base + i_hi as int]);
                assert(x[i_lo as int] == monty::from_mont::<P>(a as int));
                assert(x[i_hi as int] == monty::from_mont::<P>(b as int));
                assert(i_lo as int + d == i_hi as int);
                assert forall|i: int| 0 <= i < po2::p2(lp) implies {
                    let v = #[trigger] after[base + i];
                    if butterfly_of(d as int, i) < k * wg_size + tid + 1 {
                        monty::from_mont::<P>(v as int) == tile_dif_at(
                            m,
                            w,
                            l,
                            lp,
                            sh as nat,
                            lo as int,
                            x,
                            s as nat,
                            i,
                        )
                    } else {
                        v == orig[base + i]
                    }
                } by {
                    lemma_butterfly(d as int, bf, i_lo as int, i);
                    if i == i_lo {
                        assert(after[base + i] == new_lo);
                    } else if i == i_hi {
                        assert(after[base + i] == new_hi);
                    } else {
                        assert(after[base + i] == before[base + i]);
                        assert(butterfly_of(d as int, i) != bf);
                    }
                }
                assert forall|i: int| base <= i < base + po2::p2(lp) implies #[trigger] after[i]
                    < P::PRIME by {
                    assert(before[i] < P::PRIME);
                }
            }
            tid = tid + 1;
        }
        proof {
            assert((k + 1) * wg_size == k * wg_size + wg_size) by (nonlinear_arith);
        }
        k = k + 1;
    }
    proof {
        let y = tile_values::<P>(shared@, base as int, lp);
        assert forall|i: int| 0 <= i < po2::p2(lp) implies y[i] == tile_dif_at(
            m,
            w,
            l,
            lp,
            sh as nat,
            lo as int,
            x,
            s as nat,
            i,
        ) by {
            lemma_butterfly_range(lp, log_d as nat, 0, i);
        }
        assert(y =~= Seq::new(
            pow2(lp),
            |i: int| tile_dif_at(m, w, l, lp, sh as nat, lo as int, x, s as nat, i),
        ));
    }
}

/// The `2^lp` field elements at `v[start], v[start + stride], ...`.
pub open spec fn strided_values<P: MontyParameters>(
    v: Seq<u32>,
    start: int,
    stride: int,
    lp: nat,
) -> Seq<int> {
    Seq::new(pow2(lp), |i: int| monty::from_mont::<P>(v[start + i * stride] as int))
}

/// Entry `k` is one of the `n` entries with `stride` from `start` on.
pub open spec fn on_stride(k: int, start: int, stride: int, n: int) -> bool {
    &&& k >= start
    &&& (k - start) % stride == 0
    &&& (k - start) / stride < n
}

/// Strided entries are distinct and inside the range.
pub proof fn lemma_on_stride(start: int, stride: int, n: int, i: int)
    requires
        stride > 0,
        0 <= i < n,
    ensures
        on_stride(start + i * stride, start, stride, n),
        (start + i * stride - start) / stride == i,
        0 <= i * stride <= (n - 1) * stride,
{
    po2::lemma_split(i, stride, 0);
    assert(0 <= i * stride <= (n - 1) * stride) by (nonlinear_arith)
        requires
            0 <= i <= n - 1,
            stride > 0,
    ;
}

/// Load `2^log_len` entries with `stride` from `start` on into shared
/// memory, each multiplied by `scale` if there is one: a workgroup of
/// `2^log_wg` threads, each loading every `2^log_wg`-th entry.
pub(crate) fn load_lane<P: MontyParameters>(
    data: &[u32],
    start: usize,
    stride: usize,
    log_len: u32,
    log_wg: u32,
    scale: Option<u32>,
) -> (r: Vec<u32>)
    requires
        log_wg <= log_len < 32,
        stride > 0,
        start + (po2::p2(log_len as nat) - 1) * stride < data@.len(),
        forall|i: int|
            0 <= i < po2::p2(log_len as nat) ==> #[trigger] data@[start + i * stride]
                < P::PRIME,
        scale is Some ==> scale->Some_0 < P::PRIME,
    ensures
        r@.len() == po2::p2(log_len as nat),
        tile_reduced::<P>(r@, 0, po2::p2(log_len as nat)),
        tile_values::<P>(r@, 0, log_len as nat) == (match scale {
            Some(c) => poly::scale(
                P::PRIME as int,
                monty::from_mont::<P>(c as int),
                strided_values::<P>(data@, start as int, stride as int, log_len as nat),
            ),
            None => strided_values::<P>(data@, start as int, stride as int, log_len as nat),
        }),
{
    let ghost len = po2::p2(log_len as nat);
    let ghost m = P::PRIME as int;
    let ghost want = match scale {
        Some(c) => poly::scale(
            m,
            monty::from_mont::<P>(c as int),
            strided_values::<P>(data@, start as int, stride as int, log_len as nat),
        ),
        None => strided_values::<P>(data@, start as int, stride as int, log_len as nat),
    };
    let wg_size = po2::pow2_usize(log_wg);
    let loads_per_thread = po2::pow2_usize(log_len - log_wg);
    let total = data.len();
    proof {
        po2::lemma_p2_adds((log_len - log_wg) as nat, log_wg as nat);
        assert((log_len - log_wg) as nat + log_wg as nat == log_len as nat);
    }
    let mut shared: Vec<u32> = Vec::new();
    let mut k: usize = 0;
    while k < loads_per_thread
        invariant
            k <= loads_per_thread,
            m == P::PRIME,
            len == loads_per_thread * wg_size,
            wg_size > 0,
            stride > 0,
            start + (len - 1) * stride < total == data@.len(),
            forall|i: int| 0 <= i < len ==> #[trigger] data@[start + i * stride] < P::PRIME,
            scale is Some ==> scale->Some_0 < P::PRIME,
            len == po2::p2(log_len as nat),
            want == (match scale {
                Some(c) => poly::scale(
                    m,
                    monty::from_mont::<P>(c as int),
                    strided_values::<P>(data@, start as int, stride as int, log_len as nat),
                ),
                None => strided_values::<P>(data@, start as int, stride as int, log_len as nat),
            }),
            shared@.len() == k * wg_size,
            forall|i: int|
                0 <= i < shared@.len() ==> {
                    &&& #[trigger] shared@[i] < P::PRIME
                    &&& monty::from_mont::<P>(shared@[i] as int) == want[i]
                },
        decreases loads_per_thread - k,
    {
        proof {
            po2::lemma_within(k as int, loads_per_thread as int, wg_size as int, 0);
            assert((k + 1) * wg_size == k * wg_size + wg_size) by (nonlinear_arith);
        }
        let mut tid: usize = 0;
        while tid < wg_size
            invariant
                tid <= wg_size,
                0 <= k * wg_size,
                k * wg_size + wg_size <= len,
                m == P::PRIME,
                stride > 0,
                start + (len - 1) * stride < total == data@.len(),
                forall|i: int| 0 <= i < len ==> #[trigger] data@[start + i * stride] < P::PRIME,
                scale is Some ==> scale->Some_0 < P::PRIME,
                len == po2::p2(log_len as nat),
                want == (match scale {
                    Some(c) => poly::scale(
                        m,
                        monty::from_mont::<P>(c as int),
                        strided_values::<P>(data@, start as int, stride as int, log_len as nat),
                    ),
                    None => strided_values::<P>(
                        data@,
                        start as int,
                        stride as int,
                        log_len as nat,
                    ),
                }),
                shared@.len() == k * wg_size + tid,
                forall|i: int|
                    0 <= i < shared@.len() ==> {
                        &&& #[trigger] shared@[i] < P::PRIME
                        &&& monty::from_mont::<P>(shared@[i] as int) == want[i]
                    },
            decreases wg_size - tid,
        {
            proof {
                lemma_on_stride(start as int, stride as int, len, k * wg_size + tid);
                po2::lemma_p2_mono(log_len as nat, 31);
                lemma2_to64();
            }
            let local_idx: usize = tid + k * wg_size;
            let x = data[start + local_idx * stride];
            let ghost i = local_idx as int;
            proof {
                assert(data@[start + i * stride] < P::PRIME);
                assert(strided_values::<P>(data@, start as int, stride as int, log_len as nat)[i]
                    == monty::from_mont::<P>(x as int));
            }
            let loaded: u32 = match scale {
                Some(c) => {
                    proof {
                        zmod::lemma_times_comm(
                            m,
                            monty::from_mont::<P>(x as int),
                            monty::from_mont::<P>(c as int),
                        );
                    }
                    monty_mul::<P>(x, c)
                },
                None => x,
            };
            shared.push(loaded);
            tid = tid + 1;
        }
        k = k + 1;
    }
    proof {
        assert(tile_values::<P>(shared@, 0, log_len as nat) =~= want);
    }
    shared
}

/// Store shared memory back to the entries that [`load_lane`] read.
pub(crate) fn store_lane(
    data: &mut [u32],
    start: usize,
    stride: usize,
    log_len: u32,
    log_wg: u32,
    shared: &Vec<u32>,
)
    requires
        log_wg <= log_len < 32,
        stride > 0,
        start + (po2::p2(log_len as nat) - 1) * stride < old(data)@.len(),
        shared@.len() == po2::p2(log_len as nat),
    ensures
        final(data)@.len() == old(data)@.len(),
        forall|k: int|
            0 <= k < old(data)@.len() ==> #[trigger] final(data)@[k] == (if on_stride(
                k,
                start as int,
                stride as int,
                po2::p2(log_len as nat),
            ) {
                shared@[(k - start) / stride as int]
            } else {
                old(data)@[k]
            }),
{
    let ghost len = po2::p2(log_len as nat);
    let ghost orig = data@;
    let wg_size = po2::pow2_usize(log_wg);
    let loads_per_thread = po2::pow2_usize(log_len - log_wg);
    let total = data.len();
    proof {
        po2::lemma_p2_adds((log_len - log_wg) as nat, log_wg as nat);
        assert((log_len - log_wg) as nat + log_wg as nat == log_len as nat);
        assert forall|k: int| 0 <= k < orig.len() implies !#[trigger] on_stride(
            k,
            start as int,
            stride as int,
            0,
        ) by {
            if k >= start {
                po2::lemma_join(k - start, stride as int);
            }
        }
    }
    let mut it: usize = 0;
    while it < loads_per_thread
        invariant
            it <= loads_per_thread,
            len == loads_per_thread * wg_size,
            wg_size > 0,
            stride > 0,
            len == po2::p2(log_len as nat),
            log_len < 32,
            start + (len - 1) * stride < total == orig.len(),
            data@.len() == orig.len(),
            shared@.len() == len,
            forall|k: int|
                0 <= k < orig.len() ==> #[trigger] data@[k] == (if on_stride(
                    k,
                    start as int,
                    stride as int,
                    it * wg_size,
                ) {
                    shared@[(k - start) / stride as int]
                } else {
                    orig[k]
                }),
        decreases loads_per_thread - it,
    {
        proof {
            po2::lemma_within(it as int, loads_per_thread as int, wg_size as int, 0);
            assert((it + 1) * wg_size == it * wg_size + wg_size) by (nonlinear_arith);
        }
        let mut tid: usize = 0;
        while tid < wg_size
            invariant
                tid <= wg_size,
                0 <= it * wg_size,
                it * wg_size + wg_size <= len,
                stride > 0,
                len == po2::p2(log_len as nat),
                log_len < 32,
                start + (len - 1) * stride < total == orig.len(),
                data@.len() == orig.len(),
                shared@.len() == len,
                forall|k: int|
                    0 <= k < orig.len() ==> #[trigger] data@[k] == (if on_stride(
                        k,
                        start as int,
                        stride as int,
                        it * wg_size + tid,
                    ) {
                        shared@[(k - start) / stride as int]
                    } else {
                        orig[k]
                    }),
            decreases wg_size - tid,
        {
            proof {
                lemma_on_stride(start as int, stride as int, len, it * wg_size + tid);
                po2::lemma_p2_mono(log_len as nat, 31);
                lemma2_to64();
            }
            let local_idx: usize = tid + it * wg_size;
            let at: usize = start + local_idx * stride;
            let ghost before = data@;
            data[at] = shared[local_idx];
            proof {
                let i = local_idx as int;
                assert forall|k: int| 0 <= k < orig.len() implies #[trigger] data@[k] == (
                if on_stride(k, start as int, stride as int, it * wg_size + tid + 1) {
                    shared@[(k - start) / stride as int]
                } else {
                    orig[k]
                }) by {
                    if k != at {
                        assert(data@[k] == before[k]);
                        if k >= start {
                            po2::lemma_join(k - start, stride as int);
                        }
                    }
                }
            }
            tid = tid + 1;
        }
        it = it + 1;
    }
}

/// Words are reduced when each is below the prime.
pub proof fn law_reduced_words<P: MontyParameters>(v: Seq<u32>, base: int, n: int)
    ensures
        tile_reduced::<P>(v, base, n) <==> forall|i: int|
            base <= i < base + n ==> #[trigger] v[i] < P::PRIME,
{
}

} // verus!
