//! Algebraic interface for the generic scan primitives.
//!
//! A [`Monoid`] is the bare minimum a value needs to flow through the scans
//! of [`scan`](super::scan): an identity, an associative `combine`, and a
//! lossless round-trip through a wire format.
//!
//! `combine` need not be commutative: the scan primitives feed `(left,
//! right)` in lane order (lower lane is `left`). What they compute is
//! stated with [`fold`], the combination of a range of a sequence.
//!
//! Implementations live with the type the monoid wraps.

use vstd::arithmetic::mul::*;
use vstd::prelude::*;

verus! {

/// An algebraic monoid usable with the scan primitives.
pub trait Monoid: Copy + Clone + Sized + Send + Sync + 'static {
    /// Wire format for this monoid value. The scan primitives shuffle and
    /// keep values of this type; only `combine` happens at the `Self`
    /// level.
    type Repr: Copy + Clone + Sized + Send + Sync + 'static;

    /// Number of 32-bit lanes of a [`Repr`](Self::Repr).
    const REPR_LANES: u32;

    /// The value belongs to the monoid.
    spec fn valid(self) -> bool;

    /// The identity.
    spec fn unit() -> Self;

    /// The associative operation.
    spec fn op(left: Self, right: Self) -> Self;

    /// The wire format of a value.
    spec fn packed(value: Self) -> Self::Repr;

    /// The value of a wire format.
    spec fn unpacked(repr: Self::Repr) -> Self;

    /// The monoid laws, on valid values, and that the wire format loses
    /// nothing.
    proof fn laws(a: Self, b: Self, c: Self)
        ensures
            Self::REPR_LANES >= 1,
            Self::unit().valid(),
            a.valid() && b.valid() ==> Self::op(a, b).valid(),
            a.valid() && b.valid() && c.valid() ==> Self::op(Self::op(a, b), c) == Self::op(
                a,
                Self::op(b, c),
            ),
            a.valid() ==> Self::op(Self::unit(), a) == a,
            a.valid() ==> Self::op(a, Self::unit()) == a,
            a.valid() ==> Self::unpacked(Self::packed(a)) == a,
    ;

    /// Identity: `combine(identity(), x) == x == combine(x, identity())`.
    fn identity() -> (r: Self)
        ensures
            r == Self::unit(),
    ;

    /// Associative binary operation. `left` is to the lower index, `right`
    /// to the higher; need not be commutative.
    fn combine(left: Self, right: Self) -> (r: Self)
        requires
            left.valid(),
            right.valid(),
        ensures
            r == Self::op(left, right),
    ;

    /// Pack this monoid value into its [`Repr`](Self::Repr) wire format.
    fn to_repr(value: Self) -> (r: Self::Repr)
        requires
            value.valid(),
        ensures
            r == Self::packed(value),
    ;

    /// Inverse of [`to_repr`](Self::to_repr).
    fn from_repr(repr: Self::Repr) -> (r: Self)
        ensures
            r == Self::unpacked(repr),
    ;

    /// Scratch space for `count` values in wire format.
    fn alloc_scratch(count: u32) -> (r: Vec<Self::Repr>)
        ensures
            r@.len() == count,
    ;
}

/// Every entry is valid.
pub open spec fn all_valid<M: Monoid>(s: Seq<M>) -> bool {
    forall|i: int| 0 <= i < s.len() ==> (#[trigger] s[i]).valid()
}

/// The combination of `s[lo..hi]` in order, the identity if `hi <= lo`.
pub open spec fn fold<M: Monoid>(s: Seq<M>, lo: int, hi: int) -> M
    decreases hi - lo,
{
    if hi <= lo {
        M::unit()
    } else {
        M::op(fold(s, lo, hi - 1), s[hi - 1])
    }
}

/// The combination of valid values is valid.
pub proof fn lemma_fold_valid<M: Monoid>(s: Seq<M>, lo: int, hi: int)
    requires
        all_valid(s),
        0 <= lo,
        hi <= s.len(),
    ensures
        fold(s, lo, hi).valid(),
    decreases hi - lo,
{
    if hi <= lo {
        M::laws(M::unit(), M::unit(), M::unit());
    } else {
        lemma_fold_valid(s, lo, hi - 1);
        M::laws(fold(s, lo, hi - 1), s[hi - 1], s[hi - 1]);
    }
}

/// A range is combined by combining its two halves.
pub proof fn lemma_fold_split<M: Monoid>(s: Seq<M>, lo: int, mid: int, hi: int)
    requires
        all_valid(s),
        0 <= lo <= mid <= hi <= s.len(),
    ensures
        fold(s, lo, hi) == M::op(fold(s, lo, mid), fold(s, mid, hi)),
    decreases hi - mid,
{
    lemma_fold_valid(s, lo, mid);
    if mid == hi {
        M::laws(fold(s, lo, mid), M::unit(), M::unit());
    } else {
        lemma_fold_split(s, lo, mid, hi - 1);
        lemma_fold_valid(s, mid, hi - 1);
        M::laws(fold(s, lo, mid), fold(s, mid, hi - 1), s[hi - 1]);
    }
}

/// One value combined is that value.
pub proof fn lemma_fold_single<M: Monoid>(s: Seq<M>, i: int)
    requires
        all_valid(s),
        0 <= i < s.len(),
    ensures
        fold(s, i, i + 1) == s[i],
{
    assert(fold(s, i, i) == M::unit());
    M::laws(s[i], s[i], s[i]);
}

/// Equal ranges of two sequences combine to the same.
pub proof fn lemma_fold_shift<M: Monoid>(s: Seq<M>, t: Seq<M>, lo: int, hi: int, by: int)
    requires
        forall|i: int| lo <= i < hi ==> s[i] == #[trigger] t[i + by],
    ensures
        fold(s, lo, hi) == fold(t, lo + by, hi + by),
    decreases hi - lo,
{
    if hi > lo {
        lemma_fold_shift(s, t, lo, hi - 1, by);
        assert(s[hi - 1] == t[hi - 1 + by]);
    }
}

/// Identities at the end add nothing.
pub proof fn lemma_fold_padding<M: Monoid>(s: Seq<M>, lo: int, mid: int, hi: int)
    requires
        all_valid(s),
        0 <= lo <= mid <= hi <= s.len(),
        forall|i: int| mid <= i < hi ==> #[trigger] s[i] == M::unit(),
    ensures
        fold(s, lo, hi) == fold(s, lo, mid),
    decreases hi - mid,
{
    if hi > mid {
        lemma_fold_padding(s, lo, mid, hi - 1);
        lemma_fold_valid(s, lo, hi - 1);
        M::laws(fold(s, lo, hi - 1), M::unit(), M::unit());
    }
}

/// Where `chunks[i]` combines `s[i * span..(i + 1) * span]`, combining a
/// range of chunks combines the range of `s` that they cover.
pub proof fn lemma_fold_chunks<M: Monoid>(s: Seq<M>, chunks: Seq<M>, span: int, lo: int, hi: int)
    requires
        all_valid(s),
        span >= 0,
        0 <= lo <= hi <= chunks.len(),
        hi * span <= s.len(),
        forall|i: int|
            lo <= i < hi ==> #[trigger] chunks[i] == fold(s, i * span, (i + 1) * span),
    ensures
        0 <= lo * span <= hi * span,
        fold(chunks, lo, hi) == fold(s, lo * span, hi * span),
    decreases hi - lo,
{
    lemma_mul_inequality(lo, hi, span);
    lemma_mul_nonnegative(lo, span);
    if hi > lo {
        lemma_mul_is_distributive_add_other_way(span, hi - 1, 1);
        lemma_mul_inequality(lo, hi - 1, span);
        lemma_fold_chunks(s, chunks, span, lo, hi - 1);
        lemma_fold_split(s, lo * span, (hi - 1) * span, hi * span);
    }
}

/// Combining a range: nothing gives the identity, a single value itself, and
/// a range cut anywhere the combination of the two parts, the lower on the
/// left.
pub proof fn law_combining_ranges<M: Monoid>(s: Seq<M>, lo: int, mid: int, hi: int)
    requires
        all_valid(s),
        0 <= lo <= mid <= hi <= s.len(),
    ensures
        fold(s, lo, lo) == M::unit(),
        lo < s.len() ==> fold(s, lo, lo + 1) == s[lo],
        fold(s, lo, hi) == M::op(fold(s, lo, mid), fold(s, mid, hi)),
{
    lemma_fold_split(s, lo, mid, hi);
    if lo < s.len() {
        lemma_fold_single(s, lo);
    }
}

} // verus!
