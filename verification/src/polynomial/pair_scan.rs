//! `PairScan<F>`: the monoid for division-by-`(x - z)` style scans.
//!
//! Synthetic division `Q <- z Q + c` is the running product of the affine
//! matrices `M_c = [[z, c]; [0, 1]]`. Encoded as a pair `(p, a)` for `[[p,
//! a]; [0, 1]]` the combine is
//!
//! ```text
//! (p_L, a_L) + (p_R, a_R) = (p_L p_R,  p_R a_L + a_R)
//! ```
//!
//! associative, non-commutative, with identity `(1, 0)`.
//!
//! The wire format of a pair is a vector of lanes whose number depends on
//! the field: 2 for a base field, 8 for degree 4, and 16 for degree 5, where
//! 10 words are padded with zeros because devices only have vectors of
//! power-of-two sizes. That knowledge lives in [`PairScanLayout`].

use core::marker::PhantomData;

use vstd::prelude::*;

use crate::cube::monoid::Monoid;
use crate::field::baby_bear::{BabyBear4Parameters, BabyBear5Parameters, BabyBearParameters};
use crate::field::binomial;
use crate::field::ext;
use crate::field::ext::{base_elem_from_raw, BaseElem, ExtField};
use crate::field::ext4::{ext4_from_raws, Ext4};
use crate::field::ext5::{ext5_from_raws, Ext5};
use crate::field::koala_bear::{KoalaBear4Parameters, KoalaBearParameters};
use crate::field::monty::MontyParameters;

verus! {

/// The pair-scan monoid value `(p, a)` representing the affine matrix
/// `[[p, a]; [0, 1]]`. Lifting `c` against scalar `z` is `(z, c)`.
pub struct PairScan<F: ExtField> {
    pub p: F,
    pub a: F,
}

impl<F: ExtField> Copy for PairScan<F> {

}

impl<F: ExtField> Clone for PairScan<F> {
    fn clone(&self) -> (r: Self)
        ensures
            r == *self,
    {
        *self
    }
}

/// Construction helper.
pub fn pair<F: ExtField>(p: F, a: F) -> (r: PairScan<F>)
    ensures
        r.p == p,
        r.a == a,
{
    PairScan { p, a }
}

/// Per-field layout for [`PairScan`]: lane count, pack and unpack between
/// `(p, a)` and a fixed-size vector of lanes, and scratch allocation.
pub trait PairScanLayout: ExtField {
    /// The vector of lanes.
    type Line: Copy + Clone + Sized + Send + Sync + 'static;

    /// Number of lanes. Always a power of two; `2 DEGREE` rounded up.
    const LANES: u32;

    /// The lanes of a pair: the limbs of `p`, then those of `a`, then zeros.
    spec fn packed(value: PairScan<Self>) -> Self::Line;

    /// The pair in the first lanes.
    spec fn unpacked(line: Self::Line) -> PairScan<Self>;

    /// The lanes hold the whole pair.
    proof fn round_trip(value: PairScan<Self>)
        ensures
            Self::LANES >= 1,
            Self::unpacked(Self::packed(value)) == value,
    ;

    /// Pack `(p, a)` into a single vector of `LANES` lanes. Padding lanes
    /// are zero.
    fn pack(value: PairScan<Self>) -> (r: Self::Line)
        ensures
            r == Self::packed(value),
    ;

    /// Inverse of [`pack`](Self::pack).
    fn unpack(line: Self::Line) -> (r: PairScan<Self>)
        ensures
            r == Self::unpacked(line),
    ;

    /// Allocate scratch for `count` vectors.
    fn alloc_scratch(count: u32) -> (r: Vec<Self::Line>)
        ensures
            r@.len() == count,
    ;
}

/// The ring operations behind a combine.
pub proof fn lemma_combine<F: ExtField>(a: PairScan<F>, b: PairScan<F>)
    requires
        ext::wf(a.p) && ext::wf(a.a),
        ext::wf(b.p) && ext::wf(b.a),
    ensures
        ({
            let p = binomial::times(
                ext::prime::<F>(),
                F::non_residue(),
                ext::limbs(a.p),
                ext::limbs(b.p),
            );
            let s = binomial::plus(
                ext::prime::<F>(),
                binomial::times(
                    ext::prime::<F>(),
                    F::non_residue(),
                    ext::limbs(b.p),
                    ext::limbs(a.a),
                ),
                ext::limbs(b.a),
            );
            &&& ext::wf(ext::of_limbs::<F>(p))
            &&& ext::limbs(ext::of_limbs::<F>(p)) == p
            &&& ext::wf(ext::of_limbs::<F>(s))
            &&& ext::limbs(ext::of_limbs::<F>(s)) == s
        }),
{
    let m = ext::prime::<F>();
    let w = F::non_residue();
    let d = F::DEGREE as nat;
    ext::lemma_limbs(a.p, a.a);
    ext::lemma_limbs(a.a, a.a);
    ext::lemma_limbs(b.p, b.a);
    ext::lemma_limbs(b.a, b.a);
    binomial::lemma_closed(m, w, d, ext::limbs(a.p), ext::limbs(b.p));
    binomial::lemma_closed(m, w, d, ext::limbs(b.p), ext::limbs(a.a));
    let carried = binomial::times(m, w, ext::limbs(b.p), ext::limbs(a.a));
    binomial::lemma_closed(m, w, d, carried, ext::limbs(b.a));
    ext::lemma_of_limbs(a.p, binomial::times(m, w, ext::limbs(a.p), ext::limbs(b.p)));
    ext::lemma_of_limbs(a.p, binomial::plus(m, carried, ext::limbs(b.a)));
}

/// The identity pair.
pub proof fn lemma_identity<F: ExtField>(x: F)
    ensures
        ext::wf(ext::of_limbs::<F>(binomial::vone(F::DEGREE as nat))),
        ext::limbs(ext::of_limbs::<F>(binomial::vone(F::DEGREE as nat))) == binomial::vone(
            F::DEGREE as nat,
        ),
        ext::wf(ext::of_limbs::<F>(binomial::vzero(F::DEGREE as nat))),
        ext::limbs(ext::of_limbs::<F>(binomial::vzero(F::DEGREE as nat))) == binomial::vzero(
            F::DEGREE as nat,
        ),
{
    let d = F::DEGREE as nat;
    ext::lemma_limbs(x, x);
    binomial::lemma_closed(ext::prime::<F>(), 0, d, ext::limbs(x), ext::limbs(x));
    ext::lemma_of_limbs(x, binomial::vone(d));
    ext::lemma_of_limbs(x, binomial::vzero(d));
}

impl<F: PairScanLayout> Monoid for PairScan<F> {
    type Repr = F::Line;

    const REPR_LANES: u32 = F::LANES;

    open spec fn valid(self) -> bool {
        ext::wf(self.p) && ext::wf(self.a)
    }

    open spec fn unit() -> Self {
        PairScan {
            p: ext::of_limbs::<F>(binomial::vone(F::DEGREE as nat)),
            a: ext::of_limbs::<F>(binomial::vzero(F::DEGREE as nat)),
        }
    }

    open spec fn op(left: Self, right: Self) -> Self {
        PairScan {
            p: ext::of_limbs::<F>(
                binomial::times(
                    ext::prime::<F>(),
                    F::non_residue(),
                    ext::limbs(left.p),
                    ext::limbs(right.p),
                ),
            ),
            a: ext::of_limbs::<F>(
                binomial::plus(
                    ext::prime::<F>(),
                    binomial::times(
                        ext::prime::<F>(),
                        F::non_residue(),
                        ext::limbs(right.p),
                        ext::limbs(left.a),
                    ),
                    ext::limbs(right.a),
                ),
            ),
        }
    }

    open spec fn packed(value: Self) -> F::Line {
        F::packed(value)
    }

    open spec fn unpacked(repr: F::Line) -> Self {
        F::unpacked(repr)
    }

    proof fn laws(a: Self, b: Self, c: Self) {
        let m = ext::prime::<F>();
        let w = F::non_residue();
        let d = F::DEGREE as nat;
        F::round_trip(a);
        lemma_identity::<F>(a.p);
        ext::lemma_limbs(a.p, a.p);
        let unit = Self::unit();
        if a.valid() {
            ext::lemma_limbs(a.a, a.a);
            lemma_combine(a, unit);
            lemma_combine(unit, a);
            let (ap, aa) = (ext::limbs(a.p), ext::limbs(a.a));
            binomial::law_ring(m, w, d, ap, aa, aa);
            binomial::law_ring(m, w, d, aa, ap, ap);
            ext::lemma_of_limbs(a.p, ap);
            ext::lemma_of_limbs(a.a, aa);
        }
        if a.valid() && b.valid() {
            lemma_combine(a, b);
        }
        if a.valid() && b.valid() && c.valid() {
            lemma_combine(b, c);
            let ab = Self::op(a, b);
            let bc = Self::op(b, c);
            lemma_combine(ab, c);
            lemma_combine(a, bc);
            ext::lemma_limbs(b.p, b.p);
            ext::lemma_limbs(b.a, b.a);
            ext::lemma_limbs(c.p, c.p);
            ext::lemma_limbs(c.a, c.a);
            ext::lemma_limbs(a.a, a.a);
            lemma_affine(
                m,
                w,
                d,
                ext::limbs(a.p),
                ext::limbs(a.a),
                ext::limbs(b.p),
                ext::limbs(b.a),
                ext::limbs(c.p),
                ext::limbs(c.a),
            );
        }
    }

    fn identity() -> (r: Self) {
        let p = F::one();
        let a = F::zero();
        proof {
            ext::lemma_of_limbs(p, ext::limbs(p));
            ext::lemma_of_limbs(a, ext::limbs(a));
        }
        pair::<F>(p, a)
    }

    fn combine(left: Self, right: Self) -> (r: Self) {
        let p = F::mul(left.p, right.p);
        let a = F::add(F::mul(right.p, left.a), right.a);
        proof {
            ext::lemma_of_limbs(p, ext::limbs(p));
            ext::lemma_of_limbs(a, ext::limbs(a));
        }
        pair::<F>(p, a)
    }

    fn to_repr(value: Self) -> (r: F::Line) {
        F::pack(value)
    }

    fn from_repr(repr: F::Line) -> (r: Self) {
        F::unpack(repr)
    }

    fn alloc_scratch(count: u32) -> (r: Vec<F::Line>) {
        F::alloc_scratch(count)
    }
}

/// Composing affine maps is associative: `(ap bp) cp = ap (bp cp)` and
/// `cp (bp aa + ba) + ca = (bp cp) aa + (cp ba + ca)`.
proof fn lemma_affine(
    m: int,
    w: int,
    d: nat,
    ap: Seq<int>,
    aa: Seq<int>,
    bp: Seq<int>,
    ba: Seq<int>,
    cp: Seq<int>,
    ca: Seq<int>,
)
    requires
        m > 1,
        d >= 1,
        binomial::is_elem(m, d, ap),
        binomial::is_elem(m, d, aa),
        binomial::is_elem(m, d, bp),
        binomial::is_elem(m, d, ba),
        binomial::is_elem(m, d, cp),
        binomial::is_elem(m, d, ca),
    ensures
        binomial::times(m, w, binomial::times(m, w, ap, bp), cp) == binomial::times(
            m,
            w,
            ap,
            binomial::times(m, w, bp, cp),
        ),
        binomial::plus(
            m,
            binomial::times(
                m,
                w,
                cp,
                binomial::plus(m, binomial::times(m, w, bp, aa), ba),
            ),
            ca,
        ) == binomial::plus(
            m,
            binomial::times(m, w, binomial::times(m, w, bp, cp), aa),
            binomial::plus(m, binomial::times(m, w, cp, ba), ca),
        ),
{
    binomial::law_ring(m, w, d, ap, bp, cp);
    binomial::lemma_closed(m, w, d, bp, aa);
    binomial::lemma_closed(m, w, d, cp, ba);
    let bpaa = binomial::times(m, w, bp, aa);
    let cpba = binomial::times(m, w, cp, ba);
    binomial::lemma_closed(m, w, d, cp, bpaa);
    let cpbpaa = binomial::times(m, w, cp, bpaa);
    // cp (bp aa + ba) = cp bp aa + cp ba.
    binomial::law_ring(m, w, d, cp, bpaa, ba);
    binomial::law_ring(m, w, d, cpbpaa, cpba, ca);
    // cp (bp aa) = (bp cp) aa.
    binomial::law_ring(m, w, d, cp, bp, aa);
}

/// A vector of 2 lanes.
#[derive(Debug, Copy, Clone, PartialEq, Eq)]
pub struct Line2 {
    pub l0: u32,
    pub l1: u32,
}

/// A vector of 8 lanes.
#[derive(Debug, Copy, Clone, PartialEq, Eq)]
pub struct Line8 {
    pub l0: u32,
    pub l1: u32,
    pub l2: u32,
    pub l3: u32,
    pub l4: u32,
    pub l5: u32,
    pub l6: u32,
    pub l7: u32,
}

/// A vector of 16 lanes.
#[derive(Debug, Copy, Clone, PartialEq, Eq)]
pub struct Line16 {
    pub l0: u32,
    pub l1: u32,
    pub l2: u32,
    pub l3: u32,
    pub l4: u32,
    pub l5: u32,
    pub l6: u32,
    pub l7: u32,
    pub l8: u32,
    pub l9: u32,
    pub l10: u32,
    pub l11: u32,
    pub l12: u32,
    pub l13: u32,
    pub l14: u32,
    pub l15: u32,
}

impl PairScanLayout for BaseElem<BabyBearParameters> {
    type Line = Line2;

    const LANES: u32 = 2;

    open spec fn packed(value: PairScan<Self>) -> Line2 {
        Line2 {
            l0: value.p.raw,
            l1: value.a.raw,
        }
    }

    open spec fn unpacked(line: Line2) -> PairScan<Self> {
        PairScan {
            p: BaseElem {
                raw: line.l0,
                _p: PhantomData,
            },
            a: BaseElem {
                raw: line.l1,
                _p: PhantomData,
            },
        }
    }

    proof fn round_trip(value: PairScan<Self>) {
    }

    fn pack(value: PairScan<Self>) -> (r: Line2) {
        Line2 {
            l0: value.p.raw,
            l1: value.a.raw,
        }
    }

    fn unpack(line: Line2) -> (r: PairScan<Self>) {
        pair::<BaseElem<BabyBearParameters>>(
            base_elem_from_raw::<BabyBearParameters>(line.l0),
            base_elem_from_raw::<BabyBearParameters>(line.l1),
        )
    }

    fn alloc_scratch(count: u32) -> (r: Vec<Line2>) {
        let empty = Line2 {
            l0: 0,
            l1: 0,
        };
        vec![empty; count as usize]
    }
}

impl PairScanLayout for BaseElem<KoalaBearParameters> {
    type Line = Line2;

    const LANES: u32 = 2;

    open spec fn packed(value: PairScan<Self>) -> Line2 {
        Line2 {
            l0: value.p.raw,
            l1: value.a.raw,
        }
    }

    open spec fn unpacked(line: Line2) -> PairScan<Self> {
        PairScan {
            p: BaseElem {
                raw: line.l0,
                _p: PhantomData,
            },
            a: BaseElem {
                raw: line.l1,
                _p: PhantomData,
            },
        }
    }

    proof fn round_trip(value: PairScan<Self>) {
    }

    fn pack(value: PairScan<Self>) -> (r: Line2) {
        Line2 {
            l0: value.p.raw,
            l1: value.a.raw,
        }
    }

    fn unpack(line: Line2) -> (r: PairScan<Self>) {
        pair::<BaseElem<KoalaBearParameters>>(
            base_elem_from_raw::<KoalaBearParameters>(line.l0),
            base_elem_from_raw::<KoalaBearParameters>(line.l1),
        )
    }

    fn alloc_scratch(count: u32) -> (r: Vec<Line2>) {
        let empty = Line2 {
            l0: 0,
            l1: 0,
        };
        vec![empty; count as usize]
    }
}

impl PairScanLayout for Ext4<BabyBear4Parameters> {
    type Line = Line8;

    const LANES: u32 = 8;

    open spec fn packed(value: PairScan<Self>) -> Line8 {
        Line8 {
            l0: value.p.c0,
            l1: value.p.c1,
            l2: value.p.c2,
            l3: value.p.c3,
            l4: value.a.c0,
            l5: value.a.c1,
            l6: value.a.c2,
            l7: value.a.c3,
        }
    }

    open spec fn unpacked(line: Line8) -> PairScan<Self> {
        PairScan {
            p: Ext4 {
                c0: line.l0,
                c1: line.l1,
                c2: line.l2,
                c3: line.l3,
                _p: PhantomData,
            },
            a: Ext4 {
                c0: line.l4,
                c1: line.l5,
                c2: line.l6,
                c3: line.l7,
                _p: PhantomData,
            },
        }
    }

    proof fn round_trip(value: PairScan<Self>) {
    }

    fn pack(value: PairScan<Self>) -> (r: Line8) {
        Line8 {
            l0: value.p.c0,
            l1: value.p.c1,
            l2: value.p.c2,
            l3: value.p.c3,
            l4: value.a.c0,
            l5: value.a.c1,
            l6: value.a.c2,
            l7: value.a.c3,
        }
    }

    fn unpack(line: Line8) -> (r: PairScan<Self>) {
        pair::<Ext4<BabyBear4Parameters>>(
            ext4_from_raws::<BabyBear4Parameters>(line.l0, line.l1, line.l2, line.l3),
            ext4_from_raws::<BabyBear4Parameters>(line.l4, line.l5, line.l6, line.l7),
        )
    }

    fn alloc_scratch(count: u32) -> (r: Vec<Line8>) {
        let empty = Line8 {
            l0: 0,
            l1: 0,
            l2: 0,
            l3: 0,
            l4: 0,
            l5: 0,
            l6: 0,
            l7: 0,
        };
        vec![empty; count as usize]
    }
}

impl PairScanLayout for Ext4<KoalaBear4Parameters> {
    type Line = Line8;

    const LANES: u32 = 8;

    open spec fn packed(value: PairScan<Self>) -> Line8 {
        Line8 {
            l0: value.p.c0,
            l1: value.p.c1,
            l2: value.p.c2,
            l3: value.p.c3,
            l4: value.a.c0,
            l5: value.a.c1,
            l6: value.a.c2,
            l7: value.a.c3,
        }
    }

    open spec fn unpacked(line: Line8) -> PairScan<Self> {
        PairScan {
            p: Ext4 {
                c0: line.l0,
                c1: line.l1,
                c2: line.l2,
                c3: line.l3,
                _p: PhantomData,
            },
            a: Ext4 {
                c0: line.l4,
                c1: line.l5,
                c2: line.l6,
                c3: line.l7,
                _p: PhantomData,
            },
        }
    }

    proof fn round_trip(value: PairScan<Self>) {
    }

    fn pack(value: PairScan<Self>) -> (r: Line8) {
        Line8 {
            l0: value.p.c0,
            l1: value.p.c1,
            l2: value.p.c2,
            l3: value.p.c3,
            l4: value.a.c0,
            l5: value.a.c1,
            l6: value.a.c2,
            l7: value.a.c3,
        }
    }

    fn unpack(line: Line8) -> (r: PairScan<Self>) {
        pair::<Ext4<KoalaBear4Parameters>>(
            ext4_from_raws::<KoalaBear4Parameters>(line.l0, line.l1, line.l2, line.l3),
            ext4_from_raws::<KoalaBear4Parameters>(line.l4, line.l5, line.l6, line.l7),
        )
    }

    fn alloc_scratch(count: u32) -> (r: Vec<Line8>) {
        let empty = Line8 {
            l0: 0,
            l1: 0,
            l2: 0,
            l3: 0,
            l4: 0,
            l5: 0,
            l6: 0,
            l7: 0,
        };
        vec![empty; count as usize]
    }
}

impl PairScanLayout for Ext5<BabyBear5Parameters> {
    type Line = Line16;

    const LANES: u32 = 16;

    open spec fn packed(value: PairScan<Self>) -> Line16 {
        Line16 {
            l0: value.p.c0,
            l1: value.p.c1,
            l2: value.p.c2,
            l3: value.p.c3,
            l4: value.p.c4,
            l5: value.a.c0,
            l6: value.a.c1,
            l7: value.a.c2,
            l8: value.a.c3,
            l9: value.a.c4,
            l10: 0,
            l11: 0,
            l12: 0,
            l13: 0,
            l14: 0,
            l15: 0,
        }
    }

    open spec fn unpacked(line: Line16) -> PairScan<Self> {
        PairScan {
            p: Ext5 {
                c0: line.l0,
                c1: line.l1,
                c2: line.l2,
                c3: line.l3,
                c4: line.l4,
                _p: PhantomData,
            },
            a: Ext5 {
                c0: line.l5,
                c1: line.l6,
                c2: line.l7,
                c3: line.l8,
                c4: line.l9,
                _p: PhantomData,
            },
        }
    }

    proof fn round_trip(value: PairScan<Self>) {
    }

    fn pack(value: PairScan<Self>) -> (r: Line16) {
        Line16 {
            l0: value.p.c0,
            l1: value.p.c1,
            l2: value.p.c2,
            l3: value.p.c3,
            l4: value.p.c4,
            l5: value.a.c0,
            l6: value.a.c1,
            l7: value.a.c2,
            l8: value.a.c3,
            l9: value.a.c4,
            l10: 0,
            l11: 0,
            l12: 0,
            l13: 0,
            l14: 0,
            l15: 0,
        }
    }

    fn unpack(line: Line16) -> (r: PairScan<Self>) {
        pair::<Ext5<BabyBear5Parameters>>(
            ext5_from_raws::<BabyBear5Parameters>(line.l0, line.l1, line.l2, line.l3, line.l4),
            ext5_from_raws::<BabyBear5Parameters>(line.l5, line.l6, line.l7, line.l8, line.l9),
        )
    }

    fn alloc_scratch(count: u32) -> (r: Vec<Line16>) {
        let empty = Line16 {
            l0: 0,
            l1: 0,
            l2: 0,
            l3: 0,
            l4: 0,
            l5: 0,
            l6: 0,
            l7: 0,
            l8: 0,
            l9: 0,
            l10: 0,
            l11: 0,
            l12: 0,
            l13: 0,
            l14: 0,
            l15: 0,
        };
        vec![empty; count as usize]
    }
}

/// How many lanes the pairs over each field have.
pub proof fn law_lanes()
    ensures
        PairScan::<BaseElem<BabyBearParameters>>::REPR_LANES == 2,
        PairScan::<BaseElem<KoalaBearParameters>>::REPR_LANES == 2,
        PairScan::<Ext4<BabyBear4Parameters>>::REPR_LANES == 8,
        PairScan::<Ext4<KoalaBear4Parameters>>::REPR_LANES == 8,
        PairScan::<Ext5<BabyBear5Parameters>>::REPR_LANES == 16,
{
}

/// A pair stands for the map `x -> p x + a`, and combining composes: the
/// combination of two maps sends every `x` where the right one sends what
/// the left one makes of it. The identity sends it to itself.
pub proof fn law_pairs_compose<F: PairScanLayout>(
    left: PairScan<F>,
    right: PairScan<F>,
    x: Seq<int>,
)
    requires
        ext::wf(left.p) && ext::wf(left.a),
        ext::wf(right.p) && ext::wf(right.a),
        binomial::is_elem(ext::prime::<F>(), F::DEGREE as nat, x),
    ensures
        ({
            let m = <F::Base as MontyParameters>::PRIME as int;
            let w = F::non_residue();
            let both = <PairScan<F> as Monoid>::op(left, right);
            let unit = <PairScan<F> as Monoid>::unit();
            let y = binomial::plus(
                m,
                binomial::times(m, w, ext::limbs(left.p), x),
                ext::limbs(left.a),
            );
            &&& binomial::plus(
                m,
                binomial::times(m, w, ext::limbs(both.p), x),
                ext::limbs(both.a),
            ) == binomial::plus(
                m,
                binomial::times(m, w, ext::limbs(right.p), y),
                ext::limbs(right.a),
            )
            &&& binomial::plus(
                m,
                binomial::times(m, w, ext::limbs(unit.p), x),
                ext::limbs(unit.a),
            ) == x
        }),
{
    let m = ext::prime::<F>();
    let w = F::non_residue();
    let d = F::DEGREE as nat;
    lemma_combine(left, right);
    lemma_identity::<F>(left.p);
    ext::lemma_limbs(left.p, left.p);
    ext::lemma_limbs(left.a, left.a);
    ext::lemma_limbs(right.p, right.p);
    ext::lemma_limbs(right.a, right.a);
    lemma_affine(
        m,
        w,
        d,
        x,
        x,
        ext::limbs(left.p),
        ext::limbs(left.a),
        ext::limbs(right.p),
        ext::limbs(right.a),
    );
    binomial::law_ring(m, w, d, x, x, x);
}

/// The lanes of a packed pair over a base field: its `p`, then its `a`.
pub proof fn law_packed_base(
    v: PairScan<BaseElem<BabyBearParameters>>,
    u: PairScan<BaseElem<KoalaBearParameters>>,
)
    ensures
        <BaseElem<BabyBearParameters> as PairScanLayout>::packed(v).l0 == v.p.raw,
        <BaseElem<BabyBearParameters> as PairScanLayout>::packed(v).l1 == v.a.raw,
        <BaseElem<KoalaBearParameters> as PairScanLayout>::packed(u).l0 == u.p.raw,
        <BaseElem<KoalaBearParameters> as PairScanLayout>::packed(u).l1 == u.a.raw,
{
}

/// The lanes of a packed pair over an extension of degree four: the limbs of
/// its `p`, then those of its `a`.
pub proof fn law_packed_four(value: PairScan<Ext4<BabyBear4Parameters>>)
    ensures
        <Ext4<BabyBear4Parameters> as PairScanLayout>::packed(value).l0 == value.p.c0,
        <Ext4<BabyBear4Parameters> as PairScanLayout>::packed(value).l1 == value.p.c1,
        <Ext4<BabyBear4Parameters> as PairScanLayout>::packed(value).l2 == value.p.c2,
        <Ext4<BabyBear4Parameters> as PairScanLayout>::packed(value).l3 == value.p.c3,
        <Ext4<BabyBear4Parameters> as PairScanLayout>::packed(value).l4 == value.a.c0,
        <Ext4<BabyBear4Parameters> as PairScanLayout>::packed(value).l5 == value.a.c1,
        <Ext4<BabyBear4Parameters> as PairScanLayout>::packed(value).l6 == value.a.c2,
        <Ext4<BabyBear4Parameters> as PairScanLayout>::packed(value).l7 == value.a.c3,
{
}

/// The lanes of a packed pair over KoalaBear's extension.
pub proof fn law_packed_koala_four(value: PairScan<Ext4<KoalaBear4Parameters>>)
    ensures
        <Ext4<KoalaBear4Parameters> as PairScanLayout>::packed(value).l0 == value.p.c0,
        <Ext4<KoalaBear4Parameters> as PairScanLayout>::packed(value).l1 == value.p.c1,
        <Ext4<KoalaBear4Parameters> as PairScanLayout>::packed(value).l2 == value.p.c2,
        <Ext4<KoalaBear4Parameters> as PairScanLayout>::packed(value).l3 == value.p.c3,
        <Ext4<KoalaBear4Parameters> as PairScanLayout>::packed(value).l4 == value.a.c0,
        <Ext4<KoalaBear4Parameters> as PairScanLayout>::packed(value).l5 == value.a.c1,
        <Ext4<KoalaBear4Parameters> as PairScanLayout>::packed(value).l6 == value.a.c2,
        <Ext4<KoalaBear4Parameters> as PairScanLayout>::packed(value).l7 == value.a.c3,
{
}

/// The lanes of a packed pair over an extension of degree five: the limbs of
/// its `p`, then those of its `a`, then zeros.
pub proof fn law_packed_five(value: PairScan<Ext5<BabyBear5Parameters>>)
    ensures
        <Ext5<BabyBear5Parameters> as PairScanLayout>::packed(value).l0 == value.p.c0,
        <Ext5<BabyBear5Parameters> as PairScanLayout>::packed(value).l1 == value.p.c1,
        <Ext5<BabyBear5Parameters> as PairScanLayout>::packed(value).l2 == value.p.c2,
        <Ext5<BabyBear5Parameters> as PairScanLayout>::packed(value).l3 == value.p.c3,
        <Ext5<BabyBear5Parameters> as PairScanLayout>::packed(value).l4 == value.p.c4,
        <Ext5<BabyBear5Parameters> as PairScanLayout>::packed(value).l5 == value.a.c0,
        <Ext5<BabyBear5Parameters> as PairScanLayout>::packed(value).l6 == value.a.c1,
        <Ext5<BabyBear5Parameters> as PairScanLayout>::packed(value).l7 == value.a.c2,
        <Ext5<BabyBear5Parameters> as PairScanLayout>::packed(value).l8 == value.a.c3,
        <Ext5<BabyBear5Parameters> as PairScanLayout>::packed(value).l9 == value.a.c4,
        <Ext5<BabyBear5Parameters> as PairScanLayout>::packed(value).l10 == 0,
        <Ext5<BabyBear5Parameters> as PairScanLayout>::packed(value).l11 == 0,
        <Ext5<BabyBear5Parameters> as PairScanLayout>::packed(value).l12 == 0,
        <Ext5<BabyBear5Parameters> as PairScanLayout>::packed(value).l13 == 0,
        <Ext5<BabyBear5Parameters> as PairScanLayout>::packed(value).l14 == 0,
        <Ext5<BabyBear5Parameters> as PairScanLayout>::packed(value).l15 == 0,
{
}

} // verus!
