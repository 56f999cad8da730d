//! Where a multi-pass transform keeps its entries between passes.
//!
//! Each pass moves the transform's entries so that the next one finds its
//! lanes again. After `t` bits of the index are done, entry `u` stands at
//! [`pos`]`(l, t, u)`: the `t` low bits of the index have moved to the top.

use vstd::arithmetic::div_mod::*;
use vstd::arithmetic::mul::*;
use vstd::arithmetic::power2::*;
use vstd::prelude::*;

use crate::field::monty;
use crate::field::monty::MontyParameters;
use crate::po2;

use super::tile;
use super::transform;

verus! {

/// Where entry `u` of a `2^l`-point transform stands when its `t` low bits
/// are at the top.
pub open spec fn pos(l: nat, t: nat, u: int) -> int {
    (u % po2::p2(t)) * po2::p2((l - t) as nat) + u / po2::p2(t)
}

/// The entries of `row` put back in the order of their indices.
pub open spec fn natural(l: nat, t: nat, row: Seq<int>) -> Seq<int> {
    Seq::new(pow2(l), |u: int| row[pos(l, t, u)])
}

/// Row `r` of a buffer of `2^l`-point rows, as field elements.
pub open spec fn row_values<P: MontyParameters>(buf: Seq<u32>, l: nat, r: int) -> Seq<int> {
    tile::tile_values::<P>(buf, r * po2::p2(l), l)
}

/// Every index is an entry of exactly one lane.
pub proof fn lemma_lane_decompose(l: nat, lp: nat, sh: nat, u: int)
    requires
        sh + lp <= l,
        0 <= u < po2::p2(l),
    ensures
        ({
            let hi = u / po2::p2(sh + lp);
            let b = (u / po2::p2(sh)) % po2::p2(lp);
            let lo = u % po2::p2(sh);
            &&& u == tile::lane_index(lp, sh, hi, lo, b)
            &&& 0 <= hi < po2::p2((l - sh - lp) as nat)
            &&& 0 <= b < po2::p2(lp)
            &&& 0 <= lo < po2::p2(sh)
        }),
{
    let e = po2::p2(sh);
    let n = po2::p2(lp);
    po2::lemma_p2_adds(sh, lp);
    po2::lemma_p2_adds((l - sh - lp) as nat, sh + lp);
    assert((l - sh - lp) as nat + (sh + lp) == l);
    po2::lemma_join(u, e);
    po2::lemma_join(u / e, n);
    lemma_div_denominator(u, e, n);
    po2::lemma_quotient_below(u, po2::p2((l - sh - lp) as nat), e * n);
    let hi = u / (e * n);
    let b = (u / e) % n;
    assert(u == hi * (e * n) + b * e + u % e) by (nonlinear_arith)
        requires
            u == (u / e) * e + u % e,
            u / e == hi * n + b,
    ;
}

/// The two places of a lane's entries: together in one contiguous chunk
/// `g`, or spread with stride `2^(l - lp)` from entry `g` on.
pub proof fn lemma_positions(l: nat, lp: nat, sh: nat, hi: int, lo: int, b: int)
    requires
        sh + lp <= l,
        0 <= hi < po2::p2((l - sh - lp) as nat),
        0 <= lo < po2::p2(sh),
        0 <= b < po2::p2(lp),
    ensures
        ({
            let u = tile::lane_index(lp, sh, hi, lo, b);
            let g = lo * po2::p2((l - sh - lp) as nat) + hi;
            &&& pos(l, sh, u) == g * po2::p2(lp) + b
            &&& pos(l, sh + lp, u) == b * po2::p2((l - lp) as nat) + g
            &&& 0 <= g < po2::p2((l - lp) as nat)
            &&& g / po2::p2((l - sh - lp) as nat) == lo
        }),
{
    let u = tile::lane_index(lp, sh, hi, lo, b);
    let rem = (l - sh - lp) as nat;
    let e = po2::p2(sh);
    let n = po2::p2(lp);
    let f = po2::p2(rem);
    let g = lo * f + hi;
    po2::lemma_p2_adds(sh, lp);
    po2::lemma_p2_adds(rem, lp);
    assert(rem + lp == (l - sh) as nat);
    po2::lemma_p2_adds(sh, rem);
    assert(sh + rem == (l - lp) as nat);
    assert((l - (sh + lp)) as nat == rem);
    // u = (hi n + b) e + lo
    assert(u == (hi * n + b) * e + lo && u == hi * (e * n) + (b * e + lo)) by (nonlinear_arith)
        requires
            u == hi * (e * n) + b * e + lo,
    ;
    po2::lemma_split(hi * n + b, e, lo);
    po2::lemma_within(b, n, e, lo);
    lemma_mul_is_commutative(e, n);
    po2::lemma_split(hi, e * n, b * e + lo);
    assert(lo * (f * n) + (hi * n + b) == g * n + b) by (nonlinear_arith)
        requires
            g == lo * f + hi,
    ;
    assert((b * e + lo) * f + hi == b * (e * f) + g) by (nonlinear_arith)
        requires
            g == lo * f + hi,
    ;
    po2::lemma_within(lo, e, f, hi);
    po2::lemma_split(lo, f, hi);
}

/// Entry `k` of a row after a forward pass over stages `so..so + lp`: the
/// pass reads chunk `g = k mod 2^(l - lp)`, runs the stages on it, and
/// spreads the results with stride `2^(l - lp)`.
pub open spec fn fwd_pass_at(
    m: int,
    w: int,
    l: nat,
    lp: nat,
    so: nat,
    row: Seq<int>,
    k: int,
) -> int {
    let n_other = po2::p2((l - lp) as nat);
    let g = k % n_other;
    tile::tile_dit(
        m,
        w,
        l,
        lp,
        so,
        g / po2::p2((l - so - lp) as nat),
        transform::block(row, po2::p2(lp), g),
        lp,
    )[k / n_other]
}

/// The entries of a row with stride `s` from entry `g` on.
pub open spec fn strided(row: Seq<int>, n: nat, s: int, g: int) -> Seq<int> {
    Seq::new(n, |b: int| row[b * s + g])
}

/// Entry `k` of a row after an inverse pass over stages `so..so + lp`: the
/// pass gathers with stride `2^(l - lp)` from entry `g = k / 2^lp` on, runs
/// the stages, and stores the results together as chunk `g`.
pub open spec fn inv_pass_at(
    m: int,
    w: int,
    l: nat,
    lp: nat,
    so: nat,
    row: Seq<int>,
    k: int,
) -> int {
    let g = k / po2::p2(lp);
    tile::tile_dif(
        m,
        w,
        l,
        lp,
        (l - so - lp) as nat,
        g / po2::p2(so),
        strided(row, pow2(lp), po2::p2((l - lp) as nat), g),
        lp,
    )[k % po2::p2(lp)]
}

/// A forward pass runs its stages of the transform, and leaves the entries
/// where the next pass expects them.
pub proof fn lemma_fwd_pass(
    m: int,
    w: int,
    l: nat,
    lp: nat,
    so: nat,
    row: Seq<int>,
    out: Seq<int>,
)
    requires
        so + lp <= l,
        lp >= 1,
        forall|k: int|
            0 <= k < po2::p2(l) ==> #[trigger] out[k] == fwd_pass_at(m, w, l, lp, so, row, k),
    ensures
        natural(l, so + lp, out) == transform::dit(m, w, l, natural(l, so, row), so, so + lp),
{
    let x = natural(l, so, row);
    let y = transform::dit(m, w, l, x, so, so + lp);
    let z = natural(l, so + lp, out);
    assert forall|u: int| 0 <= u < po2::p2(l) implies z[u] == y[u] by {
        let hi = u / po2::p2(so + lp);
        let b = (u / po2::p2(so)) % po2::p2(lp);
        let lo = u % po2::p2(so);
        lemma_lane_decompose(l, lp, so, u);
        lemma_positions(l, lp, so, hi, lo, b);
        let g = lo * po2::p2((l - so - lp) as nat) + hi;
        // The lane is chunk g.
        let ln = tile::lane(lp, so, hi, lo, x);
        let ch = transform::block(row, po2::p2(lp), g);
        assert forall|c: int| 0 <= c < po2::p2(lp) implies ln[c] == ch[c] by {
            lemma_positions(l, lp, so, hi, lo, c);
            tile::lemma_lane_stage(l, lp, so, hi, lo, 0, c);
        }
        assert(ln =~= ch);
        tile::lemma_lane_dit(m, w, l, lp, so, hi, lo, x, lp);
        assert(y[u] == tile::lane(lp, so, hi, lo, y)[b]);
        let k = pos(l, so + lp, u);
        po2::lemma_split(b, po2::p2((l - lp) as nat), g);
        lemma_pos_range(l, so + lp, u);
        assert(out[k] == fwd_pass_at(m, w, l, lp, so, row, k));
    }
    lemma_dit_len(m, w, l, x, so, so + lp);
    assert(z =~= y);
}

/// An inverse pass runs its stages of the transform, and leaves the entries
/// where the next pass expects them.
pub proof fn lemma_inv_pass(
    m: int,
    w: int,
    l: nat,
    lp: nat,
    so: nat,
    row: Seq<int>,
    out: Seq<int>,
)
    requires
        so + lp <= l,
        lp >= 1,
        forall|k: int|
            0 <= k < po2::p2(l) ==> #[trigger] out[k] == inv_pass_at(m, w, l, lp, so, row, k),
    ensures
        natural(l, (l - so - lp) as nat, out) == transform::dif(
            m,
            w,
            l,
            natural(l, (l - so) as nat, row),
            so,
            so + lp,
        ),
{
    let sh = (l - so - lp) as nat;
    assert(sh + lp == (l - so) as nat);
    assert((l - sh - lp) as nat == so);
    let x = natural(l, sh + lp, row);
    let y = transform::dif(m, w, l, x, so, so + lp);
    let z = natural(l, sh, out);
    assert forall|u: int| 0 <= u < po2::p2(l) implies z[u] == y[u] by {
        let hi = u / po2::p2(sh + lp);
        let b = (u / po2::p2(sh)) % po2::p2(lp);
        let lo = u % po2::p2(sh);
        lemma_lane_decompose(l, lp, sh, u);
        lemma_positions(l, lp, sh, hi, lo, b);
        let g = lo * po2::p2(so) + hi;
        // The lane is spread from entry g on.
        let ln = tile::lane(lp, sh, hi, lo, x);
        let ch = strided(row, pow2(lp), po2::p2((l - lp) as nat), g);
        assert forall|c: int| 0 <= c < po2::p2(lp) implies ln[c] == ch[c] by {
            lemma_positions(l, lp, sh, hi, lo, c);
            tile::lemma_lane_stage(l, lp, sh, hi, lo, 0, c);
        }
        assert(ln =~= ch);
        tile::lemma_lane_dif(m, w, l, lp, sh, hi, lo, x, lp);
        assert(y[u] == tile::lane(lp, sh, hi, lo, y)[b]);
        let k = pos(l, sh, u);
        po2::lemma_split(g, po2::p2(lp), b);
        lemma_pos_range(l, sh, u);
        assert(out[k] == inv_pass_at(m, w, l, lp, so, row, k));
    }
    lemma_dif_len(m, w, l, x, so, so + lp);
    assert(z =~= y);
}

/// Positions stay inside the row.
pub proof fn lemma_pos_range(l: nat, t: nat, u: int)
    requires
        t <= l,
        0 <= u < po2::p2(l),
    ensures
        0 <= pos(l, t, u) < po2::p2(l),
{
    let d = po2::p2(t);
    let e = po2::p2((l - t) as nat);
    po2::lemma_p2_adds(t, (l - t) as nat);
    assert(t + (l - t) as nat == l);
    lemma_mul_is_commutative(d, e);
    po2::lemma_quotient_below(u, e, d);
    po2::lemma_join(u, d);
    po2::lemma_within(u % d, d, e, u / d);
}

/// With no bits moved, or all of them, entries stand at their indices.
pub proof fn lemma_natural_ends(l: nat, row: Seq<int>)
    requires
        row.len() == po2::p2(l),
    ensures
        natural(l, 0, row) == row,
        natural(l, l, row) == row,
{
    po2::lemma_p2(0);
    assert forall|u: int| 0 <= u < po2::p2(l) implies pos(l, 0, u) == u && pos(l, l, u) == u by {
        lemma_small_mod(u as nat, pow2(l));
        lemma_basic_div(u, po2::p2(l));
        assert(u % 1 == 0 && u / 1 == u);
        assert(0 * po2::p2(l) == 0 && u * 1 == u);
        assert((l - l) as nat == 0 && (l - 0) as nat == l);
    }
    assert(natural(l, 0, row) =~= row);
    assert(natural(l, l, row) =~= row);
}

proof fn lemma_dit_len(m: int, w: int, l: nat, x: Seq<int>, from: nat, to: nat)
    requires
        x.len() == po2::p2(l),
    ensures
        transform::dit(m, w, l, x, from, to).len() == po2::p2(l),
{
}

proof fn lemma_dif_len(m: int, w: int, l: nat, x: Seq<int>, from: nat, to: nat)
    requires
        x.len() == po2::p2(l),
    ensures
        transform::dif(m, w, l, x, from, to).len() == po2::p2(l),
{
}

/// Where elements stand when `t` bits have been moved to the front: the
/// element whose index has `lo` in its lowest `t` bits and `hi` above them
/// is at `lo * 2^(l - t) + hi`.
pub proof fn law_moved_positions(l: nat, t: nat, row: Seq<int>, hi: int, lo: int)
    requires
        t <= l,
        0 <= lo < pow2(t),
        0 <= hi < pow2((l - t) as nat),
    ensures
        natural(l, t, row).len() == pow2(l),
        natural(l, t, row)[hi * pow2(t) + lo] == row[lo * pow2((l - t) as nat) + hi],
{
    po2::lemma_p2(t);
    po2::lemma_p2((l - t) as nat);
    po2::lemma_p2_adds((l - t) as nat, t);
    po2::lemma_split(hi, po2::p2(t), lo);
    po2::lemma_within(hi, po2::p2((l - t) as nat), po2::p2(t), lo);
    vstd::arithmetic::mul::lemma_mul_nonnegative(hi, pow2(t) as int);
}

/// The values of a row are those of its words, `2^l` of them.
pub proof fn law_row_words<P: MontyParameters>(buf: Seq<u32>, l: nat, r: int, i: int)
    requires
        0 <= i < pow2(l),
    ensures
        row_values::<P>(buf, l, r).len() == pow2(l),
        row_values::<P>(buf, l, r)[i] == monty::from_mont::<P>(buf[r * pow2(l) + i] as int),
        tile::tile_values::<P>(buf, r * pow2(l), l)[i] == monty::from_mont::<P>(
            buf[r * pow2(l) + i] as int,
        ),
{
}

} // verus!
