//! Every valid plan.
//!
//! [`enumerate_valid_plans`] lists the constraint-valid plans for given
//! parameters: every composition of the stages into passes, and for each
//! pass every valid `(z_count, log_wg)`.

use vstd::arithmetic::div_mod::*;
use vstd::arithmetic::mul::*;
use vstd::arithmetic::power2::*;
use vstd::prelude::*;

use crate::po2;

use super::plan;
use super::plan::{
    best_log_wg, compute_sub_batch, max_z_count, validate_plan, DeviceLimits, NttPlan,
    PassConfig, PlanModel, ELEM_BYTES,
};

verus! {

// ---------------------------------------------------------------------------
// Compositions.
// ---------------------------------------------------------------------------

/// `first` in front of each of `rest`.
pub open spec fn prepend(first: int, rest: Seq<Seq<u32>>) -> Seq<Seq<u32>> {
    Seq::new(rest.len(), |i: int| seq![first as u32] + rest[i])
}

/// The compositions of `n` into `k` parts in `[lo, hi]` whose first part is
/// below `f`, in lexicographic order.
pub open spec fn compositions_below(n: int, k: nat, lo: int, hi: int, f: int) -> Seq<Seq<u32>>
    decreases k, f - lo,
{
    if k == 0 {
        if n == 0 {
            seq![Seq::<u32>::empty()]
        } else {
            seq![]
        }
    } else if f <= lo {
        seq![]
    } else {
        compositions_below(n, k, lo, hi, f - 1) + prepend(
            f - 1,
            compositions_below(n - (f - 1), (k - 1) as nat, lo, hi, hi + 1),
        )
    }
}

/// The compositions of `n` into `k` parts in `[lo, hi]`, in lexicographic
/// order.
pub open spec fn compositions_of(n: int, k: nat, lo: int, hi: int) -> Seq<Seq<u32>> {
    compositions_below(n, k, lo, hi, hi + 1)
}

/// The sum of the first `k` parts.
pub open spec fn parts_before(parts: Seq<u32>, k: int) -> int
    decreases k,
{
    if k <= 0 {
        0
    } else {
        parts_before(parts, k - 1) + parts[k - 1]
    }
}

/// `parts` is a composition of `n` into `k` parts in `[lo, hi]`.
pub open spec fn is_composition(parts: Seq<u32>, n: int, k: nat, lo: int, hi: int) -> bool {
    &&& parts.len() == k
    &&& parts_before(parts, k as int) == n
    &&& forall|i: int| 0 <= i < k ==> lo <= #[trigger] parts[i] <= hi
}

/// The contents of the inner vectors.
pub open spec fn inner_views<T>(v: Seq<Vec<T>>) -> Seq<Seq<T>> {
    Seq::new(v.len(), |i: int| v[i]@)
}

/// A part in front adds to every sum.
proof fn lemma_parts_prepend(first: u32, rest: Seq<u32>, k: int)
    requires
        0 <= k <= rest.len(),
    ensures
        parts_before(seq![first] + rest, k + 1) == first + parts_before(rest, k),
    decreases k,
{
    let all = seq![first] + rest;
    if k > 0 {
        lemma_parts_prepend(first, rest, k - 1);
        assert(all[k] == rest[k - 1]);
    } else {
        assert(parts_before(all, 0) == 0);
        assert(all[0] == first);
    }
}

/// Every listed sequence is a composition.
proof fn lemma_compositions_sound(n: int, k: nat, lo: int, hi: int, f: int, i: int)
    requires
        0 <= lo,
        f <= hi + 1,
        hi <= u32::MAX,
        0 <= i < compositions_below(n, k, lo, hi, f).len(),
    ensures
        is_composition(compositions_below(n, k, lo, hi, f)[i], n, k, lo, hi),
        k > 0 ==> compositions_below(n, k, lo, hi, f)[i][0] < f,
    decreases k, f - lo,
{
    if k > 0 && f > lo {
        let head = compositions_below(n, k, lo, hi, f - 1);
        let tails = compositions_below(n - (f - 1), (k - 1) as nat, lo, hi, hi + 1);
        if i < head.len() {
            lemma_compositions_sound(n, k, lo, hi, f - 1, i);
        } else {
            let t = i - head.len();
            lemma_compositions_sound(n - (f - 1), (k - 1) as nat, lo, hi, hi + 1, t);
            let parts = compositions_below(n, k, lo, hi, f)[i];
            assert(parts == seq![(f - 1) as u32] + tails[t]);
            lemma_parts_prepend((f - 1) as u32, tails[t], k - 1);
            assert forall|q: int| 0 <= q < k implies lo <= #[trigger] parts[q] <= hi by {
                if q > 0 {
                    assert(parts[q] == tails[t][q - 1]);
                }
            }
        }
    } else if k == 0 {
        assert(parts_before(Seq::<u32>::empty(), 0) == 0);
    }
}

/// Every composition whose first part is below `f` is listed.
proof fn lemma_compositions_complete(
    n: int,
    k: nat,
    lo: int,
    hi: int,
    f: int,
    parts: Seq<u32>,
) -> (i: int)
    requires
        0 <= lo,
        f <= hi + 1,
        is_composition(parts, n, k, lo, hi),
        k > 0 ==> parts[0] < f,
    ensures
        0 <= i < compositions_below(n, k, lo, hi, f).len(),
        compositions_below(n, k, lo, hi, f)[i] == parts,
    decreases k, f - lo,
{
    if k == 0 {
        assert(parts =~= Seq::<u32>::empty());
        0
    } else if parts[0] < f - 1 {
        lemma_compositions_complete(n, k, lo, hi, f - 1, parts)
    } else {
        let head = compositions_below(n, k, lo, hi, f - 1);
        let tails = compositions_below(n - (f - 1), (k - 1) as nat, lo, hi, hi + 1);
        let rest = parts.drop_first();
        assert(parts =~= seq![parts[0]] + rest);
        lemma_parts_prepend(parts[0], rest, k - 1);
        assert forall|q: int| 0 <= q < k - 1 implies lo <= #[trigger] rest[q] <= hi by {
            assert(rest[q] == parts[q + 1]);
        }
        let t = lemma_compositions_complete(
            n - (f - 1),
            (k - 1) as nat,
            lo,
            hi,
            hi + 1,
            rest,
        );
        let i = head.len() + t;
        assert(compositions_below(n, k, lo, hi, f)[i] == prepend(f - 1, tails)[t]);
        i
    }
}

/// The list holds exactly the compositions.
pub proof fn law_compositions(n: int, k: nat, lo: int, hi: int, parts: Seq<u32>)
    requires
        0 <= lo,
        hi <= u32::MAX,
    ensures
        compositions_of(n, k, lo, hi).contains(parts) <==> is_composition(parts, n, k, lo, hi),
{
    let all = compositions_of(n, k, lo, hi);
    if all.contains(parts) {
        let i = choose|i: int| 0 <= i < all.len() && all[i] == parts;
        lemma_compositions_sound(n, k, lo, hi, hi + 1, i);
    }
    if is_composition(parts, n, k, lo, hi) {
        let i = lemma_compositions_complete(n, k, lo, hi, hi + 1, parts);
    }
}

/// `a` comes before `b` in lexicographic order.
pub open spec fn precedes(a: Seq<u32>, b: Seq<u32>) -> bool {
    exists|p: int|
        0 <= p < a.len() && p < b.len() && #[trigger] a[p] < b[p] && forall|q: int|
            0 <= q < p ==> #[trigger] a[q] == b[q]
}

/// Sequences stay in order when the same part is put in front of both.
proof fn lemma_precedes_prepend(first: u32, a: Seq<u32>, b: Seq<u32>)
    requires
        precedes(a, b),
    ensures
        precedes(seq![first] + a, seq![first] + b),
{
    let p = choose|p: int|
        0 <= p < a.len() && p < b.len() && #[trigger] a[p] < b[p] && forall|q: int|
            0 <= q < p ==> #[trigger] a[q] == b[q];
    let x = seq![first] + a;
    let y = seq![first] + b;
    assert(x[p + 1] < y[p + 1]);
    assert forall|q: int| 0 <= q < p + 1 implies #[trigger] x[q] == y[q] by {
        if q > 0 {
            assert(a[q - 1] == b[q - 1]);
        }
    }
}

/// What is listed with first parts below `f` is in order.
proof fn lemma_compositions_ordered(n: int, k: nat, lo: int, hi: int, f: int, i: int, j: int)
    requires
        0 <= lo,
        f <= hi + 1,
        hi <= u32::MAX,
        0 <= i < j < compositions_below(n, k, lo, hi, f).len(),
    ensures
        precedes(
            compositions_below(n, k, lo, hi, f)[i],
            compositions_below(n, k, lo, hi, f)[j],
        ),
    decreases k, f - lo,
{
    if k > 0 && f > lo {
        let all = compositions_below(n, k, lo, hi, f);
        let head = compositions_below(n, k, lo, hi, f - 1);
        let tails = compositions_below(n - (f - 1), (k - 1) as nat, lo, hi, hi + 1);
        let first = (f - 1) as u32;
        let h = head.len() as int;
        if j < h {
            lemma_compositions_ordered(n, k, lo, hi, f - 1, i, j);
        } else {
            assert(all[j] == seq![first] + tails[j - h]);
            if i < h {
                lemma_compositions_sound(n, k, lo, hi, f - 1, i);
                assert(all[i] == head[i]);
                assert(all[i][0] < all[j][0]);
            } else {
                assert(all[i] == seq![first] + tails[i - h]);
                lemma_compositions_ordered(
                    n - (f - 1),
                    (k - 1) as nat,
                    lo,
                    hi,
                    hi + 1,
                    i - h,
                    j - h,
                );
                lemma_precedes_prepend(first, tails[i - h], tails[j - h]);
            }
        }
    }
}

/// The compositions are listed in lexicographic order, so none is listed
/// twice.
pub proof fn law_compositions_are_ordered(n: int, k: nat, lo: int, hi: int, i: int, j: int)
    requires
        0 <= lo,
        hi <= u32::MAX,
        0 <= i < j < compositions_of(n, k, lo, hi).len(),
    ensures
        precedes(compositions_of(n, k, lo, hi)[i], compositions_of(n, k, lo, hi)[j]),
        compositions_of(n, k, lo, hi)[i] != compositions_of(n, k, lo, hi)[j],
        ({
            let a = compositions_of(n, k, lo, hi)[i];
            let b = compositions_of(n, k, lo, hi)[j];
            exists|p: int|
                0 <= p < a.len() && p < b.len() && #[trigger] a[p] < b[p] && forall|q: int|
                    0 <= q < p ==> #[trigger] a[q] == b[q]
        }),
{
    lemma_compositions_ordered(n, k, lo, hi, hi + 1, i, j);
}

/// Parts of at least `lo` cannot sum to less than `k * lo`.
proof fn lemma_compositions_empty(n: int, k: nat, lo: int, hi: int, f: int)
    requires
        0 <= lo,
        n < k * lo,
        f <= hi + 1,
        hi <= u32::MAX,
    ensures
        compositions_below(n, k, lo, hi, f).len() == 0,
{
    if compositions_below(n, k, lo, hi, f).len() > 0 {
        lemma_compositions_sound(n, k, lo, hi, f, 0);
        let parts = compositions_below(n, k, lo, hi, f)[0];
        lemma_parts_at_least(parts, k as int, lo);
    }
}

proof fn lemma_parts_at_least(parts: Seq<u32>, k: int, lo: int)
    requires
        0 <= k <= parts.len(),
        forall|i: int| 0 <= i < k ==> lo <= #[trigger] parts[i],
    ensures
        parts_before(parts, k) >= k * lo,
    decreases k,
{
    if k > 0 {
        lemma_parts_at_least(parts, k - 1, lo);
        assert(k * lo == (k - 1) * lo + lo) by (nonlinear_arith);
    } else {
        assert(0 * lo == 0) by (nonlinear_arith);
    }
}

/// First parts beyond `u` leave too little for the rest.
proof fn lemma_first_bounded(n: int, k: nat, lo: int, hi: int, u: int, f: int)
    requires
        k >= 1,
        0 <= lo,
        hi <= u32::MAX,
        u + 1 <= f <= hi + 1,
        n - u <= (k - 1) * lo,
    ensures
        compositions_below(n, k, lo, hi, f) == compositions_below(n, k, lo, hi, u + 1),
    decreases f - u,
{
    if f > u + 1 {
        lemma_first_bounded(n, k, lo, hi, u, f - 1);
        if f > lo {
            lemma_compositions_empty(n - (f - 1), (k - 1) as nat, lo, hi, hi + 1);
            assert(compositions_below(n, k, lo, hi, f) =~= compositions_below(
                n,
                k,
                lo,
                hi,
                f - 1,
            ));
        }
    }
}

/// Compositions into one part.
proof fn lemma_one_part(n: int, lo: int, hi: int, f: int)
    requires
        f <= hi + 1,
    ensures
        compositions_below(n, 1, lo, hi, f) == (if lo <= n < f {
            seq![seq![n as u32]]
        } else {
            seq![]
        }),
    decreases f - lo,
{
    if f > lo {
        lemma_one_part(n, lo, hi, f - 1);
        let tails = compositions_below(n - (f - 1), 0, lo, hi, hi + 1);
        if n == f - 1 {
            assert(seq![n as u32] + Seq::<u32>::empty() =~= seq![n as u32]);
            assert(prepend(f - 1, tails) =~= seq![seq![n as u32]]);
        }
        assert(compositions_below(n, 1, lo, hi, f) =~= (if lo <= n < f {
            seq![seq![n as u32]]
        } else {
            seq![]
        }));
    }
}

/// `first` in front of `rest`.
fn with_first(first: u32, rest: &Vec<u32>) -> (r: Vec<u32>)
    ensures
        r@ == seq![first] + rest@,
{
    let mut out: Vec<u32> = Vec::new();
    out.push(first);
    let mut i: usize = 0;
    while i < rest.len()
        invariant
            i <= rest@.len(),
            out@ == seq![first] + rest@.take(i as int),
        decreases rest@.len() - i,
    {
        assert(rest@.take(i + 1) =~= rest@.take(i as int).push(rest@[i as int]));
        out.push(rest[i]);
        i = i + 1;
    }
    assert(rest@.take(rest@.len() as int) =~= rest@);
    out
}

/// Generate all compositions of `n` into `k` parts, each in `[min_part,
/// max_part]`, in lexicographic order.
pub fn compositions(n: u32, k: usize, min_part: u32, max_part: u32) -> (r: Vec<Vec<u32>>)
    requires
        k <= u32::MAX,
        k * min_part <= u32::MAX,
    ensures
        inner_views(r@) == compositions_of(
            n as int,
            k as nat,
            min_part as int,
            max_part as int,
        ),
    decreases k,
{
    let ghost lo = min_part as int;
    let ghost hi = max_part as int;
    let mut result: Vec<Vec<u32>> = Vec::new();
    if k == 0 {
        if n == 0 {
            let empty: Vec<u32> = Vec::new();
            result.push(empty);
        }
        assert(inner_views(result@) =~= compositions_of(n as int, 0, lo, hi));
        return result;
    }
    if k == 1 {
        proof {
            lemma_one_part(n as int, lo, hi, hi + 1);
        }
        if n >= min_part && n <= max_part {
            let mut whole: Vec<u32> = Vec::new();
            whole.push(n);
            assert(whole@ =~= seq![n]);
            result.push(whole);
        }
        assert(inner_views(result@) =~= compositions_of(n as int, 1, lo, hi));
        return result;
    }
    proof {
        assert((k - 1) * lo <= k * lo && 0 <= (k - 1) * lo) by (nonlinear_arith)
            requires
                k >= 1,
                lo >= 0,
        ;
    }
    // Upper bound for the first part: leave room for the remaining k - 1
    // parts of at least min_part each.
    let reserved: u32 = (k as u32 - 1) * min_part;
    let room: u32 = n.saturating_sub(reserved);
    let upper: u32 = if max_part < room {
        max_part
    } else {
        room
    };
    let mut first: u64 = min_part as u64;
    proof {
        assert(inner_views(result@) =~= compositions_below(n as int, k as nat, lo, hi, lo));
    }
    while first <= upper as u64
        invariant
            lo == min_part,
            hi == max_part,
            2 <= k <= u32::MAX,
            0 <= (k - 1) * lo <= u32::MAX,
            lo <= first,
            upper <= room,
            upper <= max_part,
            room <= n,
            first <= lo || first <= upper + 1,
            inner_views(result@) == compositions_below(
                n as int,
                k as nat,
                lo,
                hi,
                first as int,
            ),
        decreases upper + 1 - first,
    {
        let f: u32 = first as u32;
        let tails = compositions(n - f, k - 1, min_part, max_part);
        let ghost before = result@;
        let ghost tail_views = inner_views(tails@);
        let mut i: usize = 0;
        while i < tails.len()
            invariant
                i <= tails@.len(),
                tail_views == inner_views(tails@),
                inner_views(result@) == inner_views(before) + prepend(
                    f as int,
                    tail_views.take(i as int),
                ),
            decreases tails@.len() - i,
        {
            let next = with_first(f, &tails[i]);
            let ghost cur = result@;
            result.push(next);
            proof {
                assert(tail_views[i as int] == tails@[i as int]@);
                assert(prepend(f as int, tail_views.take(i + 1)) =~= prepend(
                    f as int,
                    tail_views.take(i as int),
                ).push(next@));
                assert(inner_views(result@) =~= inner_views(cur).push(next@));
                assert(inner_views(result@) =~= inner_views(before) + prepend(
                    f as int,
                    tail_views.take(i + 1),
                ));
            }
            i = i + 1;
        }
        proof {
            assert(tail_views.take(tails@.len() as int) =~= tail_views);
            assert(inner_views(result@) =~= compositions_below(
                n as int,
                k as nat,
                lo,
                hi,
                first + 1,
            ));
        }
        first = first + 1;
    }
    proof {
        // Beyond `upper` the rest cannot be made up.
        if upper == max_part {
            if first <= lo {
                lemma_nothing_below(n as int, k as nat, lo, hi, hi + 1);
                lemma_nothing_below(n as int, k as nat, lo, hi, first as int);
            }
        } else {
            let u = room as int;
            assert(n - u <= (k - 1) * lo);
            lemma_first_bounded(n as int, k as nat, lo, hi, u, hi + 1);
            if first <= lo {
                lemma_nothing_below(n as int, k as nat, lo, hi, u + 1);
            }
        }
        assert(inner_views(result@) =~= compositions_of(n as int, k as nat, lo, hi));
    }
    result
}

/// No composition has its first part below `lo`.
proof fn lemma_nothing_below(n: int, k: nat, lo: int, hi: int, f: int)
    requires
        k >= 1,
    ensures
        f <= lo ==> compositions_below(n, k, lo, hi, f) == Seq::<Seq<u32>>::empty(),
{
}

// ---------------------------------------------------------------------------
// Parameters of each pass.
// ---------------------------------------------------------------------------

/// The largest power of two that a `z_count` can be.
pub const MAX_Z: u32 = 0x8000_0000;

/// The valid `(z_count, log_wg)` pairs of a pass: every power of two that
/// fits, and for each every workgroup size from one thread up to the
/// largest.
pub open spec fn pass_options(log_pass: u32, log_n: u32, limits: DeviceLimits) -> Seq<
    (u32, u32),
> {
    let span = plan::wg_limit(log_pass as int, limits) + 1;
    let zs = po2::flog(plan::z_limit(log_pass, log_n, limits, MAX_Z as int)) + 1;
    Seq::new(
        (zs * span) as nat,
        |t: int| (po2::p2((t / span) as nat) as u32, (t % span) as u32),
    )
}

/// The options of all passes.
pub open spec fn all_options(sizes: Seq<u32>, log_n: u32, limits: DeviceLimits) -> Seq<
    Seq<(u32, u32)>,
> {
    Seq::new(sizes.len(), |i: int| pass_options(sizes[i], log_n, limits))
}

/// How many ways there are to choose one option from each list from `i` on.
pub open spec fn ways<T>(options: Seq<Seq<T>>, i: int) -> int
    decreases options.len() - i,
{
    if i >= options.len() {
        1
    } else {
        options[i].len() * ways(options, i + 1)
    }
}

/// The option that choice number `r` of the lists from `i` on takes from
/// list `j`. The last list varies fastest.
pub open spec fn choice<T>(options: Seq<Seq<T>>, i: int, r: int, j: int) -> T
    decreases options.len() - i,
{
    if j <= i || i >= options.len() {
        options[i][r / ways(options, i + 1)]
    } else {
        choice(options, i + 1, r % ways(options, i + 1), j)
    }
}

/// The number of the choice that takes option `idx[q]` from each list `q`
/// from `i` on.
pub open spec fn rank<T>(options: Seq<Seq<T>>, idx: Seq<usize>, i: int) -> int
    decreases options.len() - i,
{
    if i >= options.len() {
        0
    } else {
        idx[i] * ways(options, i + 1) + rank(options, idx, i + 1)
    }
}

/// The indices are within their lists.
pub open spec fn indices_fit<T>(options: Seq<Seq<T>>, idx: Seq<usize>) -> bool {
    &&& idx.len() == options.len()
    &&& forall|q: int| 0 <= q < options.len() ==> #[trigger] idx[q] < options[q].len()
}

/// A rank is below the number of ways, and choosing by it takes the indexed
/// options.
proof fn lemma_rank<T>(options: Seq<Seq<T>>, idx: Seq<usize>, i: int)
    requires
        indices_fit(options, idx),
        0 <= i <= options.len(),
    ensures
        0 <= rank(options, idx, i) < ways(options, i),
        forall|j: int|
            i <= j < options.len() ==> #[trigger] choice(
                options,
                i,
                rank(options, idx, i),
                j,
            ) == options[j][idx[j] as int],
    decreases options.len() - i,
{
    if i < options.len() {
        lemma_rank(options, idx, i + 1);
        let t = ways(options, i + 1);
        let low = rank(options, idx, i + 1);
        po2::lemma_within(idx[i] as int, options[i].len() as int, t, low);
        po2::lemma_split(idx[i] as int, t, low);
        let r = rank(options, idx, i);
        assert forall|j: int| i <= j < options.len() implies #[trigger] choice(options, i, r, j)
            == options[j][idx[j] as int] by {
            if j > i {
                assert(choice(options, i, r, j) == choice(options, i + 1, r % t, j));
            }
        }
    }
}

/// A rank depends only on the indices from `i` on.
proof fn lemma_rank_agrees<T>(options: Seq<Seq<T>>, a: Seq<usize>, b: Seq<usize>, i: int)
    requires
        0 <= i,
        forall|q: int| i <= q < options.len() ==> #[trigger] a[q] == b[q],
    ensures
        rank(options, a, i) == rank(options, b, i),
    decreases options.len() - i,
{
    if i < options.len() {
        lemma_rank_agrees(options, a, b, i + 1);
    }
}

/// The plan that takes choice number `r` of the options.
pub open spec fn plan_at(
    log_n: u32,
    sizes: Seq<u32>,
    batch: usize,
    limits: DeviceLimits,
    r: int,
) -> PlanModel {
    let options = all_options(sizes, log_n, limits);
    PlanModel {
        log_n,
        passes: Seq::new(
            sizes.len(),
            |i: int|
                PassConfig {
                    log_pass: sizes[i],
                    stage_offset: parts_before(sizes, i) as u32,
                    z_count: choice(options, 0, r, i).0,
                    log_wg: choice(options, 0, r, i).1,
                },
        ),
        sub_batch: plan::sub_batch_limit(
            log_n,
            batch as int,
            sizes.len() as int,
            limits,
        ) as usize,
    }
}

/// The valid plans among the first `r` choices.
pub open spec fn valid_plans_below(
    log_n: u32,
    sizes: Seq<u32>,
    batch: usize,
    limits: DeviceLimits,
    r: int,
) -> Seq<PlanModel>
    decreases r,
{
    if r <= 0 {
        seq![]
    } else {
        let before = valid_plans_below(log_n, sizes, batch, limits, r - 1);
        let m = plan_at(log_n, sizes, batch, limits, r - 1);
        if plan::plan_errors(m, limits).len() == 0 {
            before.push(m)
        } else {
            before
        }
    }
}

/// Every pass size fits in shared memory.
pub open spec fn sizes_fit(sizes: Seq<u32>, limits: DeviceLimits) -> bool {
    forall|i: int|
        0 <= i < sizes.len() ==> plan::chunk_bytes(#[trigger] sizes[i] as int)
            <= limits.max_shared_mem_bytes
}

/// The valid plans with the given pass sizes.
pub open spec fn plans_with_sizes(
    log_n: u32,
    sizes: Seq<u32>,
    batch: usize,
    limits: DeviceLimits,
) -> Seq<PlanModel> {
    if sizes_fit(sizes, limits) {
        valid_plans_below(
            log_n,
            sizes,
            batch,
            limits,
            ways(all_options(sizes, log_n, limits), 0),
        )
    } else {
        seq![]
    }
}

/// What plans mean.
pub open spec fn models(plans: Seq<NttPlan>) -> Seq<PlanModel> {
    Seq::new(plans.len(), |i: int| plans[i]@)
}

/// Largest `log_pass` where `z_count = 1` fits in shared memory.
pub fn max_fitting_log_pass(limits: &DeviceLimits) -> (r: u32)
    ensures
        r == po2::flog(limits.max_shared_mem_bytes as int / ELEM_BYTES as int),
        limits.max_shared_mem_bytes >= ELEM_BYTES ==> forall|lp: int|
            0 <= lp ==> (#[trigger] plan::chunk_bytes(lp) <= limits.max_shared_mem_bytes <==> lp
                <= r),
{
    if limits.max_shared_mem_bytes < ELEM_BYTES {
        return 0;
    }
    let max_elems: usize = limits.max_shared_mem_bytes / ELEM_BYTES;
    let r = po2::floor_log2(max_elems);
    proof {
        assert forall|lp: int| 0 <= lp implies (#[trigger] plan::chunk_bytes(lp)
            <= limits.max_shared_mem_bytes <==> lp <= r) by {
            po2::lemma_p2_mono(lp as nat, r as nat);
            po2::lemma_p2_mono((r + 1) as nat, lp as nat);
        }
    }
    r
}

/// The valid `(z_count, log_wg)` pairs of one pass.
fn options_for_pass(lp: u32, log_n: u32, limits: &DeviceLimits, max_z: u32) -> (r: Vec<
    (u32, u32),
>)
    requires
        1 <= lp <= log_n,
        lp + 2 < usize::BITS,
        plan::chunk_bytes(lp as int) <= limits.max_shared_mem_bytes,
        max_z == plan::z_limit(lp, log_n, *limits, MAX_Z as int),
    ensures
        r@ == pass_options(lp, log_n, *limits),
        r@.len() >= 1,
{
    proof {
        lemma_max_z();
        plan::lemma_z_limit(lp, log_n, *limits, MAX_Z as int);
    }
    let max_lwg = best_log_wg(lp, limits);
    let max_log_z = po2::floor_log2(max_z as usize);
    let ghost target = pass_options(lp, log_n, *limits);
    let ghost span = max_lwg + 1;
    let ghost zs = max_log_z + 1;
    let mut options: Vec<(u32, u32)> = Vec::new();
    proof {
        assert(max_log_z < 32) by {
            if max_log_z >= 32 {
                po2::lemma_p2_mono(32, max_log_z as nat);
                lemma2_to64();
            }
        }
        lemma_wg_limit(lp as int, *limits);
        assert(0 * span == 0) by (nonlinear_arith);
        assert(options@ =~= target.take(0));
        assert(zs * span >= span) by (nonlinear_arith)
            requires
                zs >= 1,
                span >= 1,
        ;
    }
    // z_count: all powers of two from 1 up to max_z.
    let mut log_z: u32 = 0;
    while log_z <= max_log_z
        invariant
            log_z <= zs,
            max_log_z < 32,
            max_lwg < 32,
            zs == max_log_z + 1,
            span == max_lwg + 1,
            target == Seq::new(
                (zs * span) as nat,
                |t: int| (po2::p2((t / span) as nat) as u32, (t % span) as u32),
            ),
            options@ == target.take(log_z * span),
        decreases zs - log_z,
    {
        let z = po2::pow2_u32(log_z);
        let ghost q = log_z as int;
        proof {
            po2::lemma_within(q, zs, span, 0);
            assert((q + 1) * span == q * span + span) by (nonlinear_arith);
        }
        let mut lwg: u32 = 0;
        while lwg <= max_lwg
            invariant
                0 <= q < zs,
                z == po2::p2(q as nat),
                lwg <= max_lwg + 1,
                max_lwg < 32,
                span == max_lwg + 1,
                0 <= q * span,
                q * span + span <= zs * span,
                target == Seq::new(
                    (zs * span) as nat,
                    |t: int| (po2::p2((t / span) as nat) as u32, (t % span) as u32),
                ),
                options@ == target.take(q * span + lwg),
            decreases max_lwg + 1 - lwg,
        {
            let ghost t = q * span + lwg;
            options.push((z, lwg));
            proof {
                po2::lemma_split(q, span, lwg as int);
                assert(target[t] == (z, lwg));
                assert(target.take(t + 1) =~= target.take(t).push(target[t]));
            }
            lwg = lwg + 1;
        }
        log_z = log_z + 1;
    }
    proof {
        assert(target.take(zs * span) =~= target);
    }
    options
}

/// [`MAX_Z`] is a power of two.
proof fn lemma_max_z()
    ensures
        po2::is_po2(MAX_Z as int),
{
    lemma2_to64();
    assert(po2::p2(31) == MAX_Z);
}

/// Workgroup sizes are below `2^32`.
proof fn lemma_wg_limit(log_pass: int, limits: DeviceLimits)
    requires
        log_pass >= 1,
    ensures
        0 <= plan::wg_limit(log_pass, limits) < 32,
{
    lemma2_to64();
    if limits.max_threads_per_wg >= 1 {
        po2::lemma_flog(limits.max_threads_per_wg as int);
        po2::lemma_p2_mono(32, po2::flog(limits.max_threads_per_wg as int));
    }
}

/// A power of two is two to its logarithm.
proof fn lemma_po2_is_flog(z: int)
    requires
        po2::is_po2(z),
    ensures
        z == po2::p2(po2::flog(z)),
{
    let k = choose|k: nat| #[trigger] po2::p2(k) == z;
    po2::lemma_p2(k);
    po2::lemma_flog_unique(z, k);
}

/// Move to the next choice of options, the last list varying fastest.
/// Returns whether all choices have been taken.
fn advance(indices: &mut Vec<usize>, options: &Vec<Vec<(u32, u32)>>) -> (carry: bool)
    requires
        indices_fit(inner_views(options@), old(indices)@),
    ensures
        indices_fit(inner_views(options@), final(indices)@),
        carry <==> rank(inner_views(options@), old(indices)@, 0) + 1 == ways(
            inner_views(options@),
            0,
        ),
        !carry ==> rank(inner_views(options@), final(indices)@, 0) == rank(
            inner_views(options@),
            old(indices)@,
            0,
        ) + 1,
{
    let ghost views = inner_views(options@);
    let ghost start = indices@;
    let mut carry: bool = true;
    let mut i: usize = indices.len();
    while i > 0
        invariant
            i <= indices@.len(),
            views == inner_views(options@),
            indices_fit(views, start),
            indices_fit(views, indices@),
            carry ==> rank(views, indices@, i as int) == 0 && rank(views, start, i as int) + 1
                == ways(views, i as int),
            !carry ==> rank(views, indices@, i as int) == rank(views, start, i as int) + 1,
            forall|q: int| 0 <= q < i ==> #[trigger] indices@[q] == start[q],
        decreases i,
    {
        i = i - 1;
        let ghost before = indices@;
        let ghost t = ways(views, i + 1);
        proof {
            assert(views[i as int] == options@[i as int]@);
            assert(start[i as int] < views[i as int].len());
            lemma_rank(views, start, i + 1);
            lemma_rank(views, before, i + 1);
        }
        if carry {
            let len = options[i].len();
            let next: usize = indices[i] + 1;
            if next < len {
                indices.set(i, next);
                carry = false;
            } else {
                indices.set(i, 0);
            }
            proof {
                lemma_rank_agrees(views, indices@, before, i + 1);
                assert((start[i as int] + 1) * t == start[i as int] * t + t) by (nonlinear_arith);
                assert(0 * t == 0) by (nonlinear_arith);
                assert forall|q: int| 0 <= q < views.len() implies #[trigger] indices@[q]
                    < views[q].len() by {
                    assert(before[q] < views[q].len());
                }
            }
        }
    }
    proof {
        lemma_rank(views, indices@, 0);
    }
    carry
}

/// A choice of options gives the plan to be validated.
proof fn lemma_plan_measurable(
    log_n: u32,
    sizes: Seq<u32>,
    batch: usize,
    limits: DeviceLimits,
    r: int,
)
    requires
        1 <= log_n,
        log_n + 2 < usize::BITS,
        sizes.len() >= 1,
        parts_before(sizes, sizes.len() as int) == log_n,
        forall|i: int| 0 <= i < sizes.len() ==> 1 <= #[trigger] sizes[i] <= log_n,
        sizes_fit(sizes, limits),
        0 <= r < ways(all_options(sizes, log_n, limits), 0),
    ensures
        plan::plan_measurable(plan_at(log_n, sizes, batch, limits, r)),
        forall|i: int|
            0 <= i < sizes.len() ==> {
                let p = #[trigger] plan_at(log_n, sizes, batch, limits, r).passes[i];
                all_options(sizes, log_n, limits)[i].contains((p.z_count, p.log_wg))
            },
{
    let m = plan_at(log_n, sizes, batch, limits, r);
    let options = all_options(sizes, log_n, limits);
    assert forall|q: int| 0 <= q < options.len() implies #[trigger] options[q].len() >= 1 by {
        assert(1 <= sizes[q] <= log_n);
        lemma_option(sizes[q], log_n, limits, (0, 0));
    }
    assert forall|i: int| 0 <= i < sizes.len() implies {
        let p = #[trigger] m.passes[i];
        options[i].contains((p.z_count, p.log_wg))
    } by {
        lemma_choice_contained(options, 0, r, i);
    }
    lemma_model_bits(m, sizes, sizes.len() as int);
    assert forall|i: int|
        0 <= i < m.passes.len() && (#[trigger] m.passes[i]).log_pass > 0 implies {
        &&& m.passes[i].log_wg < 32
        &&& m.passes[i].log_pass < usize::BITS
        &&& plan::shared_bytes(m.passes[i]) <= usize::MAX
    } by {
        let p = m.passes[i];
        assert(options[i].contains((p.z_count, p.log_wg)));
        lemma_option(p.log_pass, log_n, limits, (p.z_count, p.log_wg));
    }
    plan::lemma_sub_batch_fits(log_n, batch, sizes.len() as int, limits);
}

/// The offsets and sizes of a model built from `sizes`.
proof fn lemma_model_bits(m: PlanModel, sizes: Seq<u32>, k: int)
    requires
        m.passes.len() == sizes.len(),
        0 <= k <= sizes.len(),
        forall|i: int| 0 <= i < sizes.len() ==> (#[trigger] m.passes[i]).log_pass == sizes[i],
    ensures
        plan::bits_before(m.passes, k) == parts_before(sizes, k),
    decreases k,
{
    if k > 0 {
        lemma_model_bits(m, sizes, k - 1);
    }
}

/// A choice takes an option from each list.
proof fn lemma_choice_contained<T>(options: Seq<Seq<T>>, i: int, r: int, j: int)
    requires
        0 <= i <= j < options.len(),
        0 <= r < ways(options, i),
        forall|q: int| i <= q < options.len() ==> #[trigger] options[q].len() >= 1,
    ensures
        options[j].contains(choice(options, i, r, j)),
    decreases options.len() - i,
{
    let t = ways(options, i + 1);
    lemma_ways_positive(options, i + 1);
    po2::lemma_quotient_below(r, options[i].len() as int, t);
    if j > i {
        lemma_mod_bound(r, t);
        lemma_choice_contained(options, i + 1, r % t, j);
    } else {
        assert(options[i][r / t] == choice(options, i, r, j));
    }
}

/// There is at least one way.
proof fn lemma_ways_positive<T>(options: Seq<Seq<T>>, i: int)
    requires
        0 <= i,
        forall|q: int| i <= q < options.len() ==> #[trigger] options[q].len() >= 1,
    ensures
        ways(options, i) >= 1,
    decreases options.len() - i,
{
    if i < options.len() {
        lemma_ways_positive(options, i + 1);
        let t = ways(options, i + 1);
        assert(options[i].len() * t >= 1) by (nonlinear_arith)
            requires
                options[i].len() >= 1,
                t >= 1,
        ;
    }
}

/// The options of a pass are the powers of two that fit with a workgroup
/// size in range.
proof fn lemma_option(log_pass: u32, log_n: u32, limits: DeviceLimits, o: (u32, u32))
    requires
        1 <= log_pass <= log_n,
        plan::chunk_bytes(log_pass as int) <= limits.max_shared_mem_bytes,
    ensures
        pass_options(log_pass, log_n, limits).len() >= 1,
        pass_options(log_pass, log_n, limits).contains(o) <==> {
            &&& po2::is_po2(o.0 as int)
            &&& o.0 <= plan::z_limit(log_pass, log_n, limits, MAX_Z as int)
            &&& o.1 <= plan::wg_limit(log_pass as int, limits)
        },
        pass_options(log_pass, log_n, limits).contains(o) ==> {
            &&& o.1 < 32
            &&& o.0 * po2::p2(log_pass as nat) * ELEM_BYTES <= limits.max_shared_mem_bytes
        },
{
    let opts = pass_options(log_pass, log_n, limits);
    let span = plan::wg_limit(log_pass as int, limits) + 1;
    let zl = plan::z_limit(log_pass, log_n, limits, MAX_Z as int);
    let top = po2::flog(zl);
    let zs = top + 1;
    lemma_max_z();
    plan::lemma_z_limit(log_pass, log_n, limits, MAX_Z as int);
    lemma_po2_is_flog(zl);
    lemma_wg_limit(log_pass as int, limits);
    assert(zs * span >= 1) by (nonlinear_arith)
        requires
            zs >= 1,
            span >= 1,
    ;
    if opts.contains(o) {
        let t = choose|t: int| 0 <= t < opts.len() && opts[t] == o;
        po2::lemma_join(t, span);
        po2::lemma_quotient_below(t, zs as int, span);
        let q = (t / span) as nat;
        po2::lemma_p2_mono(q, top);
        assert(po2::p2(q) == o.0);
        let pw = po2::p2(log_pass as nat);
        po2::lemma_p2(log_pass as nat);
        assert(o.0 * pw * ELEM_BYTES <= zl * pw * ELEM_BYTES) by (nonlinear_arith)
            requires
                o.0 <= zl,
                pw > 0,
        ;
    }
    if po2::is_po2(o.0 as int) && o.0 <= zl && o.1 <= plan::wg_limit(log_pass as int, limits) {
        let q = choose|q: nat| #[trigger] po2::p2(q) == o.0;
        po2::lemma_p2_mono(q, top);
        let t = q * span + o.1;
        po2::lemma_within(q as int, zs as int, span, o.1 as int);
        po2::lemma_split(q as int, span, o.1 as int);
        assert(opts[t] == o);
    }
}

/// Conditions under which pass sizes are tried.
pub open spec fn sizes_ok(log_n: u32, sizes: Seq<u32>) -> bool {
    &&& sizes.len() >= 1
    &&& parts_before(sizes, sizes.len() as int) == log_n
    &&& forall|i: int| 0 <= i < sizes.len() ==> 1 <= #[trigger] sizes[i] <= log_n
}

/// For given pass sizes, enumerate all valid `(z_count, log_wg)`
/// combinations per pass and add the valid plans to `out`.
pub fn enumerate_params(
    log_n: u32,
    pass_sizes: &Vec<u32>,
    batch: usize,
    limits: &DeviceLimits,
    out: &mut Vec<NttPlan>,
)
    requires
        log_n + 2 < usize::BITS,
        sizes_ok(log_n, pass_sizes@),
    ensures
        models(final(out)@) == models(old(out)@) + plans_with_sizes(
            log_n,
            pass_sizes@,
            batch,
            *limits,
        ),
{
    let ghost sizes = pass_sizes@;
    let ghost start = models(out@);
    let ghost options = all_options(sizes, log_n, *limits);
    let k = pass_sizes.len();
    // For each pass, the valid (z_count, log_wg) pairs.
    let mut per_pass_options: Vec<Vec<(u32, u32)>> = Vec::new();
    let mut i: usize = 0;
    while i < k
        invariant
            i <= k,
            k == sizes.len(),
            sizes == pass_sizes@,
            log_n + 2 < usize::BITS,
            sizes_ok(log_n, sizes),
            options == all_options(sizes, log_n, *limits),
            start == models(out@),
            inner_views(per_pass_options@) == options.take(i as int),
            forall|j: int|
                0 <= j < i ==> plan::chunk_bytes(#[trigger] sizes[j] as int)
                    <= limits.max_shared_mem_bytes,
        decreases k - i,
    {
        let lp = pass_sizes[i];
        let max_z = max_z_count(lp, log_n, limits, MAX_Z);
        proof {
            assert(1 <= sizes[i as int] <= log_n);
            if plan::chunk_bytes(lp as int) <= limits.max_shared_mem_bytes {
                lemma_max_z();
                plan::lemma_z_limit(lp, log_n, *limits, MAX_Z as int);
            }
        }
        if max_z == 0 {
            // These sizes are infeasible.
            proof {
                assert(plan::chunk_bytes(sizes[i as int] as int) > limits.max_shared_mem_bytes);
                assert(!sizes_fit(sizes, *limits));
                assert(models(out@) =~= start + Seq::<PlanModel>::empty());
            }
            return ;
        }
        let opts = options_for_pass(lp, log_n, limits, max_z);
        let ghost before = per_pass_options@;
        per_pass_options.push(opts);
        proof {
            assert(inner_views(per_pass_options@) =~= inner_views(before).push(opts@));
            assert(options.take(i + 1) =~= options.take(i as int).push(options[i as int]));
        }
        i = i + 1;
    }
    proof {
        assert(options.take(k as int) =~= options);
        assert(sizes_fit(sizes, *limits));
        assert forall|q: int| 0 <= q < options.len() implies #[trigger] options[q].len()
            >= 1 by {
            assert(1 <= sizes[q] <= log_n);
            lemma_option(sizes[q], log_n, *limits, (0, 0));
        }
        lemma_ways_positive(options, 0);
    }
    let ghost total = ways(options, 0);
    // Cross product of the per-pass options.
    let mut indices: Vec<usize> = Vec::new();
    i = 0;
    while i < k
        invariant
            i <= k,
            indices@.len() == i,
            forall|j: int| 0 <= j < i ==> #[trigger] indices@[j] == 0,
        decreases k - i,
    {
        indices.push(0);
        i = i + 1;
    }
    proof {
        lemma_rank_zero(options, indices@, 0);
        assert(models(out@) =~= start + valid_plans_below(log_n, sizes, batch, *limits, 0));
    }
    let mut finished: bool = false;
    let ghost mut r: int = 0;
    while !finished
        invariant
            k == sizes.len(),
            sizes == pass_sizes@,
            log_n + 2 < usize::BITS,
            sizes_ok(log_n, sizes),
            sizes_fit(sizes, *limits),
            options == all_options(sizes, log_n, *limits),
            inner_views(per_pass_options@) == options,
            total == ways(options, 0),
            indices_fit(options, indices@),
            0 <= r <= total,
            !finished ==> r == rank(options, indices@, 0),
            finished ==> r == total,
            models(out@) == start + valid_plans_below(log_n, sizes, batch, *limits, r),
        decreases total - r + if finished {
            0int
        } else {
            1
        },
    {
        proof {
            lemma_rank(options, indices@, 0);
        }
        // Build the plan of the current indices.
        let ghost target = plan_at(log_n, sizes, batch, *limits, r);
        let mut passes: Vec<PassConfig> = Vec::new();
        let mut so: u32 = 0;
        let mut j: usize = 0;
        while j < k
            invariant
                j <= k,
                k == sizes.len(),
                sizes == pass_sizes@,
                sizes_ok(log_n, sizes),
                options == all_options(sizes, log_n, *limits),
                inner_views(per_pass_options@) == options,
                indices_fit(options, indices@),
                forall|q: int|
                    0 <= q < options.len() ==> #[trigger] choice(options, 0, r, q)
                        == options[q][indices@[q] as int],
                target == plan_at(log_n, sizes, batch, *limits, r),
                so == parts_before(sizes, j as int),
                passes@ == target.passes.take(j as int),
            decreases k - j,
        {
            let ghost jj = j as int;
            proof {
                assert(options[jj] == per_pass_options@[jj]@);
                assert(indices@[jj] < options[jj].len());
                assert(choice(options, 0, r, jj) == options[jj][indices@[jj] as int]);
                lemma_parts_mono(sizes, jj + 1, k as int);
            }
            let lp = pass_sizes[j];
            let pair = per_pass_options[j][indices[j]];
            passes.push(
                PassConfig { log_pass: lp, stage_offset: so, z_count: pair.0, log_wg: pair.1 },
            );
            proof {
                assert(target.passes.take(jj + 1) =~= target.passes.take(jj).push(
                    target.passes[jj],
                ));
            }
            so = so + lp;
            j = j + 1;
        }
        proof {
            assert(target.passes.take(k as int) =~= target.passes);
            lemma_plan_measurable(log_n, sizes, batch, *limits, r);
            plan::lemma_sub_batch_fits(log_n, batch, k as int, *limits);
        }
        let sub_batch = compute_sub_batch(log_n, batch, &passes, limits);
        let candidate = NttPlan { log_n, passes, sub_batch };
        assert(candidate@ == target);
        let ghost before = models(out@);
        let ok: bool = match validate_plan(&candidate, limits) {
            Ok(_) => true,
            Err(_) => false,
        };
        let ghost before_out = out@;
        if ok {
            out.push(candidate);
            proof {
                assert(models(out@) =~= models(before_out).push(target));
            }
        }
        proof {
            assert(models(out@) =~= start + valid_plans_below(
                log_n,
                sizes,
                batch,
                *limits,
                r + 1,
            ));
            r = r + 1;
        }
        // Advance the indices, odometer-style.
        finished = advance(&mut indices, &per_pass_options);
    }
}

/// Zero indices have rank zero.
proof fn lemma_rank_zero<T>(options: Seq<Seq<T>>, idx: Seq<usize>, i: int)
    requires
        0 <= i,
        forall|j: int| 0 <= j < options.len() ==> #[trigger] idx[j] == 0,
    ensures
        rank(options, idx, i) == 0,
    decreases options.len() - i,
{
    if i < options.len() {
        lemma_rank_zero(options, idx, i + 1);
        let t = ways(options, i + 1);
        assert(0 * t == 0) by (nonlinear_arith);
    }
}

/// Sums of parts never decrease.
proof fn lemma_parts_mono(parts: Seq<u32>, a: int, b: int)
    requires
        0 <= a <= b,
    ensures
        0 <= parts_before(parts, a) <= parts_before(parts, b),
    decreases b,
{
    if a < b {
        lemma_parts_mono(parts, a, b - 1);
    } else if a > 0 {
        lemma_parts_mono(parts, a - 1, a - 1);
    }
}

/// The valid plans whose pass sizes are among the first `c` compositions.
pub open spec fn plans_of_compositions(
    log_n: u32,
    comps: Seq<Seq<u32>>,
    batch: usize,
    limits: DeviceLimits,
    c: int,
) -> Seq<PlanModel>
    decreases c,
{
    if c <= 0 {
        seq![]
    } else {
        plans_of_compositions(log_n, comps, batch, limits, c - 1) + plans_with_sizes(
            log_n,
            comps[c - 1],
            batch,
            limits,
        )
    }
}

/// The compositions of the stages into `k` passes that are tried.
pub open spec fn tried_compositions(log_n: u32, limits: DeviceLimits, k: int) -> Seq<Seq<u32>> {
    compositions_of(
        log_n as int,
        k as nat,
        1,
        po2::flog(limits.max_shared_mem_bytes as int / ELEM_BYTES as int) as int,
    )
}

/// The valid plans with up to `k` passes, by their number of passes.
pub open spec fn plans_up_to(log_n: u32, batch: usize, limits: DeviceLimits, k: int) -> Seq<
    PlanModel,
>
    decreases k,
{
    if k <= 0 {
        seq![]
    } else {
        let comps = tried_compositions(log_n, limits, k);
        plans_up_to(log_n, batch, limits, k - 1) + plans_of_compositions(
            log_n,
            comps,
            batch,
            limits,
            comps.len() as int,
        )
    }
}

/// The valid plans with up to `max_passes` passes. A transform of `log_n`
/// stages has at most `log_n` passes.
pub open spec fn enumerated_plans(
    log_n: u32,
    batch: usize,
    limits: DeviceLimits,
    max_passes: u32,
) -> Seq<PlanModel> {
    plans_up_to(
        log_n,
        batch,
        limits,
        if max_passes < log_n {
            max_passes as int
        } else {
            log_n as int
        },
    )
}

/// Enumerate all constraint-valid plans for the given parameters.
///
/// Generates plans with 1 through `max_passes` passes, all valid pass-size
/// compositions, and all valid `(z_count, log_wg)` combinations per pass.
/// Plans are returned unsorted.
pub fn enumerate_valid_plans(
    log_n: u32,
    batch: usize,
    limits: &DeviceLimits,
    max_passes: u32,
) -> (r: Vec<NttPlan>)
    requires
        log_n >= 1,
        log_n + 2 < usize::BITS,
    ensures
        models(r@) == enumerated_plans(log_n, batch, *limits, max_passes),
{
    let mut plans: Vec<NttPlan> = Vec::new();
    // Max log_pass that fits z = 1 in shared memory.
    let max_log_pass = max_fitting_log_pass(limits);
    let most: u32 = if max_passes < log_n {
        max_passes
    } else {
        log_n
    };
    let mut k: u32 = 1;
    proof {
        assert(models(plans@) =~= plans_up_to(log_n, batch, *limits, 0));
    }
    while k <= most
        invariant
            1 <= k <= most + 1,
            most <= log_n,
            log_n + 2 < usize::BITS,
            max_log_pass == po2::flog(limits.max_shared_mem_bytes as int / ELEM_BYTES as int),
            models(plans@) == plans_up_to(log_n, batch, *limits, k - 1),
        decreases most + 1 - k,
    {
        let comps = compositions(log_n, k as usize, 1, max_log_pass);
        let ghost before = models(plans@);
        let ghost listed = tried_compositions(log_n, *limits, k as int);
        let mut c: usize = 0;
        proof {
            assert(inner_views(comps@) == listed);
            assert(before =~= before + plans_of_compositions(log_n, listed, batch, *limits, 0));
        }
        while c < comps.len()
            invariant
                c <= comps@.len(),
                1 <= k <= log_n,
                log_n + 2 < usize::BITS,
                listed == tried_compositions(log_n, *limits, k as int),
                inner_views(comps@) == listed,
                models(plans@) == before + plans_of_compositions(
                    log_n,
                    listed,
                    batch,
                    *limits,
                    c as int,
                ),
            decreases comps@.len() - c,
        {
            proof {
                lemma_tried(log_n, *limits, k as int, c as int);
                assert(listed[c as int] == comps@[c as int]@);
            }
            enumerate_params(log_n, &comps[c], batch, limits, &mut plans);
            proof {
                assert(models(plans@) =~= before + plans_of_compositions(
                    log_n,
                    listed,
                    batch,
                    *limits,
                    c + 1,
                ));
            }
            c = c + 1;
        }
        k = k + 1;
    }
    plans
}

// ---------------------------------------------------------------------------
// What the enumeration promises.
// ---------------------------------------------------------------------------

/// The pass sizes of a plan.
pub open spec fn sizes_of(m: PlanModel) -> Seq<u32> {
    Seq::new(m.passes.len(), |i: int| m.passes[i].log_pass)
}

/// The plan at a choice of options has the sizes that it was made for.
proof fn lemma_sizes_of_plan_at(
    log_n: u32,
    sizes: Seq<u32>,
    batch: usize,
    limits: DeviceLimits,
    r: int,
)
    ensures
        sizes_of(plan_at(log_n, sizes, batch, limits, r)) == sizes,
{
    assert(sizes_of(plan_at(log_n, sizes, batch, limits, r)) =~= sizes);
}

/// Where in the choices the plan listed at `i` comes from.
proof fn lemma_below_at(
    log_n: u32,
    sizes: Seq<u32>,
    batch: usize,
    limits: DeviceLimits,
    r: int,
    i: int,
) -> (q: int)
    requires
        0 <= i < valid_plans_below(log_n, sizes, batch, limits, r).len(),
    ensures
        0 <= q < r,
        valid_plans_below(log_n, sizes, batch, limits, r)[i] == plan_at(
            log_n,
            sizes,
            batch,
            limits,
            q,
        ),
        plan::plan_errors(plan_at(log_n, sizes, batch, limits, q), limits).len() == 0,
    decreases r,
{
    let before = valid_plans_below(log_n, sizes, batch, limits, r - 1);
    if i < before.len() {
        lemma_below_at(log_n, sizes, batch, limits, r - 1, i)
    } else {
        r - 1
    }
}

/// A valid plan at choice `q` is listed below any later choice.
proof fn lemma_below_contains(
    log_n: u32,
    sizes: Seq<u32>,
    batch: usize,
    limits: DeviceLimits,
    r: int,
    q: int,
)
    requires
        0 <= q < r,
        plan::plan_errors(plan_at(log_n, sizes, batch, limits, q), limits).len() == 0,
    ensures
        valid_plans_below(log_n, sizes, batch, limits, r).contains(
            plan_at(log_n, sizes, batch, limits, q),
        ),
    decreases r,
{
    let m = plan_at(log_n, sizes, batch, limits, q);
    let all = valid_plans_below(log_n, sizes, batch, limits, r);
    let before = valid_plans_below(log_n, sizes, batch, limits, r - 1);
    if q < r - 1 {
        lemma_below_contains(log_n, sizes, batch, limits, r - 1, q);
        let i = choose|i: int| 0 <= i < before.len() && before[i] == m;
        assert(all[i] == m);
    } else {
        assert(all[before.len() as int] == m);
    }
}

/// Where the plan listed at `i` for the first `c` compositions comes from.
proof fn lemma_compositions_at(
    log_n: u32,
    comps: Seq<Seq<u32>>,
    batch: usize,
    limits: DeviceLimits,
    c: int,
    i: int,
) -> (at: (int, int))
    requires
        0 <= i < plans_of_compositions(log_n, comps, batch, limits, c).len(),
    ensures
        0 <= at.0 < c,
        sizes_fit(comps[at.0], limits),
        0 <= at.1 < ways(all_options(comps[at.0], log_n, limits), 0),
        plans_of_compositions(log_n, comps, batch, limits, c)[i] == plan_at(
            log_n,
            comps[at.0],
            batch,
            limits,
            at.1,
        ),
        plan::plan_errors(
            plans_of_compositions(log_n, comps, batch, limits, c)[i],
            limits,
        ).len() == 0,
    decreases c,
{
    let before = plans_of_compositions(log_n, comps, batch, limits, c - 1);
    if i < before.len() {
        lemma_compositions_at(log_n, comps, batch, limits, c - 1, i)
    } else {
        let q = lemma_below_at(
            log_n,
            comps[c - 1],
            batch,
            limits,
            ways(all_options(comps[c - 1], log_n, limits), 0),
            i - before.len(),
        );
        (c - 1, q)
    }
}

/// What is listed for one composition is listed for all of them.
proof fn lemma_compositions_contain(
    log_n: u32,
    comps: Seq<Seq<u32>>,
    batch: usize,
    limits: DeviceLimits,
    c: int,
    q: int,
    m: PlanModel,
)
    requires
        0 <= q < c,
        plans_with_sizes(log_n, comps[q], batch, limits).contains(m),
    ensures
        plans_of_compositions(log_n, comps, batch, limits, c).contains(m),
    decreases c,
{
    let all = plans_of_compositions(log_n, comps, batch, limits, c);
    let before = plans_of_compositions(log_n, comps, batch, limits, c - 1);
    let last = plans_with_sizes(log_n, comps[c - 1], batch, limits);
    if q < c - 1 {
        lemma_compositions_contain(log_n, comps, batch, limits, c - 1, q, m);
        let i = choose|i: int| 0 <= i < before.len() && before[i] == m;
        assert(all[i] == m);
    } else {
        let i = choose|i: int| 0 <= i < last.len() && last[i] == m;
        assert(all[before.len() + i] == m);
    }
}

/// The largest fitting pass is a `u32`.
proof fn lemma_hi_fits(limits: DeviceLimits)
    ensures
        po2::flog(limits.max_shared_mem_bytes as int / ELEM_BYTES as int) <= 64,
{
    let x = limits.max_shared_mem_bytes as int / ELEM_BYTES as int;
    if x >= 1 {
        po2::lemma_flog(x);
        lemma2_to64();
        lemma2_to64_rest();
        po2::lemma_p2_mono(64, po2::flog(x));
    }
}

/// What is tried for `k` passes has `k` parts between one and `log_n`.
proof fn lemma_tried(log_n: u32, limits: DeviceLimits, k: int, c: int)
    requires
        k >= 1,
        0 <= c < tried_compositions(log_n, limits, k).len(),
    ensures
        tried_compositions(log_n, limits, k)[c].len() == k,
        sizes_ok(log_n, tried_compositions(log_n, limits, k)[c]),
{
    let hi = po2::flog(limits.max_shared_mem_bytes as int / ELEM_BYTES as int) as int;
    lemma_hi_fits(limits);
    lemma_compositions_sound(log_n as int, k as nat, 1, hi, hi + 1, c);
    let sizes = tried_compositions(log_n, limits, k)[c];
    assert forall|i: int| 0 <= i < sizes.len() implies 1 <= #[trigger] sizes[i] <= log_n by {
        lemma_parts_mono(sizes, i + 1, sizes.len() as int);
        lemma_parts_mono(sizes, 0, i);
    }
}

/// Every plan listed for up to `k` passes is valid, and has its sub-batch
/// from the scratch memory.
proof fn lemma_up_to_valid(
    log_n: u32,
    batch: usize,
    limits: DeviceLimits,
    k: int,
    m: PlanModel,
)
    requires
        log_n + 2 < usize::BITS,
        plans_up_to(log_n, batch, limits, k).contains(m),
    ensures
        plan::plan_errors(m, limits).len() == 0,
        m.log_n == log_n,
        1 <= m.passes.len() <= k,
        m.sub_batch == plan::sub_batch_limit(
            log_n,
            batch as int,
            m.passes.len() as int,
            limits,
        ),
    decreases k,
{
    let all = plans_up_to(log_n, batch, limits, k);
    let i = choose|i: int| 0 <= i < all.len() && all[i] == m;
    if k > 0 {
        let before = plans_up_to(log_n, batch, limits, k - 1);
        let comps = tried_compositions(log_n, limits, k);
        if i < before.len() {
            assert(before[i] == m);
            lemma_up_to_valid(log_n, batch, limits, k - 1, m);
        } else {
            let at = lemma_compositions_at(
                log_n,
                comps,
                batch,
                limits,
                comps.len() as int,
                i - before.len(),
            );
            lemma_tried(log_n, limits, k, at.0);
            plan::lemma_sub_batch_fits(log_n, batch, k, limits);
        }
    }
}

/// `plans_up_to` only grows with the number of passes.
proof fn lemma_up_to_grows(
    log_n: u32,
    batch: usize,
    limits: DeviceLimits,
    a: int,
    b: int,
    m: PlanModel,
)
    requires
        a <= b,
        plans_up_to(log_n, batch, limits, a).contains(m),
    ensures
        plans_up_to(log_n, batch, limits, b).contains(m),
    decreases b - a,
{
    if a < b {
        lemma_up_to_grows(log_n, batch, limits, a, b - 1, m);
        if b > 0 {
            let all = plans_up_to(log_n, batch, limits, b);
            let before = plans_up_to(log_n, batch, limits, b - 1);
            let i = choose|i: int| 0 <= i < before.len() && before[i] == m;
            assert(all[i] == m);
        }
    }
}

/// A valid pass takes one of the options.
proof fn lemma_valid_pass_is_option(log_n: u32, limits: DeviceLimits, p: PassConfig)
    requires
        1 <= p.log_pass <= log_n,
        p.log_wg < p.log_pass,
        po2::is_po2(p.z_count as int),
        p.z_count <= plan::chunks(log_n, p.log_pass),
        plan::shared_bytes(p) <= limits.max_shared_mem_bytes,
        po2::p2(p.log_wg as nat) <= limits.max_threads_per_wg,
    ensures
        p.log_pass <= po2::flog(limits.max_shared_mem_bytes as int / ELEM_BYTES as int),
        plan::chunk_bytes(p.log_pass as int) <= limits.max_shared_mem_bytes,
        pass_options(p.log_pass, log_n, limits).contains((p.z_count, p.log_wg)),
        pass_options(p.log_pass, log_n, limits).len() <= 1024,
{
    let lp = p.log_pass;
    // One chunk fits, since z_count of them do.
    let zk = choose|zk: nat| #[trigger] po2::p2(zk) == p.z_count;
    po2::lemma_p2(zk);
    let pw = po2::p2(lp as nat);
    po2::lemma_p2(lp as nat);
    assert(pw * ELEM_BYTES <= p.z_count * pw * ELEM_BYTES) by (nonlinear_arith)
        requires
            p.z_count >= 1,
            pw > 0,
    ;
    let elems = limits.max_shared_mem_bytes as int / ELEM_BYTES as int;
    assert(pw <= elems);
    po2::lemma_flog(elems);
    po2::lemma_p2_mono(lp as nat, po2::flog(elems) + 1);
    // No power of two in a u32 is above the cap.
    lemma_max_z();
    lemma2_to64();
    po2::lemma_p2_mono(32, zk);
    po2::lemma_p2_mono(zk, 31);
    plan::lemma_z_limit(lp, log_n, limits, MAX_Z as int);
    po2::lemma_p2(p.log_wg as nat);
    po2::lemma_flog(limits.max_threads_per_wg as int);
    po2::lemma_p2_mono(p.log_wg as nat, po2::flog(limits.max_threads_per_wg as int) + 1);
    lemma_option(lp, log_n, limits, (p.z_count, p.log_wg));
    lemma_options_len(lp, log_n, limits);
}

/// There are few options.
proof fn lemma_options_len(log_pass: u32, log_n: u32, limits: DeviceLimits)
    requires
        1 <= log_pass <= log_n,
        plan::chunk_bytes(log_pass as int) <= limits.max_shared_mem_bytes,
    ensures
        pass_options(log_pass, log_n, limits).len() <= 1024,
{
    lemma_max_z();
    let zl = plan::z_limit(log_pass, log_n, limits, MAX_Z as int);
    plan::lemma_z_limit(log_pass, log_n, limits, MAX_Z as int);
    po2::lemma_flog(zl);
    lemma2_to64();
    po2::lemma_p2_mono(32, po2::flog(zl));
    lemma_wg_limit(log_pass as int, limits);
    let zs = po2::flog(zl) + 1;
    let span = plan::wg_limit(log_pass as int, limits) + 1;
    assert(zs * span <= 1024) by (nonlinear_arith)
        requires
            1 <= zs <= 32,
            1 <= span <= 32,
    ;
}

/// The passes of a valid plan take options of their sizes, and the sizes fit.
proof fn lemma_valid_passes(m: PlanModel, limits: DeviceLimits, i: int)
    requires
        plan::plan_errors(m, limits).len() == 0,
        0 <= i < m.passes.len(),
    ensures
        ({
            let p = m.passes[i];
            &&& 1 <= p.log_pass <= m.log_n
            &&& p.log_pass <= po2::flog(limits.max_shared_mem_bytes as int / ELEM_BYTES as int)
            &&& plan::chunk_bytes(p.log_pass as int) <= limits.max_shared_mem_bytes
            &&& pass_options(p.log_pass, m.log_n, limits).contains((p.z_count, p.log_wg))
            &&& pass_options(p.log_pass, m.log_n, limits).len() <= 1024
            &&& p.stage_offset == parts_before(sizes_of(m), i)
        }),
{
    plan::law_valid_plan(m, limits);
    let sizes = sizes_of(m);
    let n = m.passes.len() as int;
    lemma_model_bits(m, sizes, n);
    lemma_model_bits(m, sizes, i);
    lemma_parts_mono(sizes, i + 1, n);
    lemma_parts_mono(sizes, 0, i);
    lemma_valid_pass_is_option(m.log_n, limits, m.passes[i]);
}

/// The sizes of a valid plan are among the compositions that are tried.
proof fn lemma_valid_sizes(m: PlanModel, limits: DeviceLimits)
    requires
        plan::plan_errors(m, limits).len() == 0,
    ensures
        m.passes.len() >= 1,
        sizes_fit(sizes_of(m), limits),
        tried_compositions(m.log_n, limits, m.passes.len() as int).contains(sizes_of(m)),
{
    plan::law_valid_plan(m, limits);
    let sizes = sizes_of(m);
    let n = m.passes.len();
    let hi = po2::flog(limits.max_shared_mem_bytes as int / ELEM_BYTES as int) as int;
    lemma_hi_fits(limits);
    lemma_model_bits(m, sizes, n as int);
    assert forall|i: int| 0 <= i < n implies 1 <= #[trigger] sizes[i] <= hi by {
        lemma_valid_passes(m, limits, i);
    }
    assert forall|i: int| 0 <= i < sizes.len() implies plan::chunk_bytes(
        #[trigger] sizes[i] as int,
    ) <= limits.max_shared_mem_bytes by {
        lemma_valid_passes(m, limits, i);
    }
    assert(is_composition(sizes, m.log_n as int, n, 1, hi));
    law_compositions(m.log_n as int, n, 1, hi, sizes);
}

/// The index of an option in its list.
spec fn option_index(options: Seq<(u32, u32)>, o: (u32, u32)) -> int {
    choose|t: int| 0 <= t < options.len() && options[t] == o
}

/// A valid plan is one of the choices of options for its sizes.
proof fn lemma_valid_choice(m: PlanModel, batch: usize, limits: DeviceLimits) -> (r: int)
    requires
        plan::plan_errors(m, limits).len() == 0,
        m.sub_batch == plan::sub_batch_limit(
            m.log_n,
            batch as int,
            m.passes.len() as int,
            limits,
        ),
    ensures
        0 <= r < ways(all_options(sizes_of(m), m.log_n, limits), 0),
        plan_at(m.log_n, sizes_of(m), batch, limits, r) == m,
{
    let sizes = sizes_of(m);
    let options = all_options(sizes, m.log_n, limits);
    let idx = Seq::new(
        m.passes.len(),
        |i: int|
            option_index(options[i], (m.passes[i].z_count, m.passes[i].log_wg)) as usize,
    );
    assert forall|i: int| 0 <= i < options.len() implies #[trigger] idx[i] < options[i].len()
        && options[i][idx[i] as int] == (m.passes[i].z_count, m.passes[i].log_wg) by {
        lemma_valid_passes(m, limits, i);
        let o = (m.passes[i].z_count, m.passes[i].log_wg);
        assert(options[i] == pass_options(m.passes[i].log_pass, m.log_n, limits));
        assert(options[i].contains(o));
    }
    assert(indices_fit(options, idx));
    lemma_rank(options, idx, 0);
    let r = rank(options, idx, 0);
    let found = plan_at(m.log_n, sizes, batch, limits, r);
    assert forall|i: int| 0 <= i < m.passes.len() implies found.passes[i] == m.passes[i] by {
        lemma_valid_passes(m, limits, i);
        assert(idx[i] < options[i].len());
        assert(choice(options, 0, r, i) == options[i][idx[i] as int]);
    }
    assert(found.passes =~= m.passes);
    r
}

/// Every valid plan is listed, if its sub-batch is the one that scratch
/// memory allows.
proof fn lemma_up_to_complete(batch: usize, limits: DeviceLimits, k: int, m: PlanModel)
    requires
        plan::plan_errors(m, limits).len() == 0,
        m.passes.len() <= k,
        m.sub_batch == plan::sub_batch_limit(
            m.log_n,
            batch as int,
            m.passes.len() as int,
            limits,
        ),
    ensures
        plans_up_to(m.log_n, batch, limits, k).contains(m),
{
    let n = m.passes.len() as int;
    let sizes = sizes_of(m);
    lemma_valid_sizes(m, limits);
    let comps = tried_compositions(m.log_n, limits, n);
    let q = choose|q: int| 0 <= q < comps.len() && comps[q] == sizes;
    let r = lemma_valid_choice(m, batch, limits);
    let total = ways(all_options(sizes, m.log_n, limits), 0);
    lemma_below_contains(m.log_n, sizes, batch, limits, total, r);
    lemma_compositions_contain(m.log_n, comps, batch, limits, comps.len() as int, q, m);
    let all = plans_up_to(m.log_n, batch, limits, n);
    let before = plans_up_to(m.log_n, batch, limits, n - 1);
    let last = plans_of_compositions(m.log_n, comps, batch, limits, comps.len() as int);
    let i = choose|i: int| 0 <= i < last.len() && last[i] == m;
    assert(all[before.len() + i] == m);
    lemma_up_to_grows(m.log_n, batch, limits, n, k, m);
}

/// A valid plan has no more passes than there are stages.
proof fn lemma_passes_bounded(m: PlanModel, limits: DeviceLimits)
    requires
        plan::plan_errors(m, limits).len() == 0,
    ensures
        m.passes.len() <= m.log_n,
{
    plan::law_valid_plan(m, limits);
    let sizes = sizes_of(m);
    let n = m.passes.len() as int;
    lemma_model_bits(m, sizes, n);
    assert forall|i: int| 0 <= i < n implies 1 <= #[trigger] sizes[i] by {
        lemma_valid_passes(m, limits, i);
    }
    lemma_parts_at_least(sizes, n, 1);
}

/// The enumeration lists exactly the valid plans: those that
/// [`validate_plan`] accepts, for the size asked for, with 1 through
/// `max_passes` passes and the sub-batch that scratch memory allows.
pub proof fn law_enumeration_is_exact(
    log_n: u32,
    batch: usize,
    limits: DeviceLimits,
    max_passes: u32,
    m: PlanModel,
)
    requires
        log_n + 2 < usize::BITS,
    ensures
        enumerated_plans(log_n, batch, limits, max_passes).contains(m) <==> {
            &&& plan::plan_errors(m, limits).len() == 0
            &&& m.log_n == log_n
            &&& 1 <= m.passes.len() <= max_passes
            &&& m.sub_batch == plan::sub_batch_limit(
                log_n,
                batch as int,
                m.passes.len() as int,
                limits,
            )
        },
{
    let k = if max_passes < log_n {
        max_passes as int
    } else {
        log_n as int
    };
    if enumerated_plans(log_n, batch, limits, max_passes).contains(m) {
        lemma_up_to_valid(log_n, batch, limits, k, m);
    }
    if plan::plan_errors(m, limits).len() == 0 && m.log_n == log_n && m.passes.len()
        <= max_passes && m.sub_batch == plan::sub_batch_limit(
        log_n,
        batch as int,
        m.passes.len() as int,
        limits,
    ) {
        lemma_passes_bounded(m, limits);
        lemma_up_to_complete(batch, limits, k, m);
    }
}

/// The options of a pass differ from each other.
proof fn lemma_options_distinct(log_pass: u32, log_n: u32, limits: DeviceLimits, a: int, b: int)
    requires
        1 <= log_pass <= log_n,
        plan::chunk_bytes(log_pass as int) <= limits.max_shared_mem_bytes,
        0 <= a < pass_options(log_pass, log_n, limits).len(),
        0 <= b < pass_options(log_pass, log_n, limits).len(),
        pass_options(log_pass, log_n, limits)[a] == pass_options(log_pass, log_n, limits)[b],
    ensures
        a == b,
{
    let span = plan::wg_limit(log_pass as int, limits) + 1;
    let zl = plan::z_limit(log_pass, log_n, limits, MAX_Z as int);
    let top = po2::flog(zl);
    lemma_max_z();
    plan::lemma_z_limit(log_pass, log_n, limits, MAX_Z as int);
    lemma_po2_is_flog(zl);
    lemma_wg_limit(log_pass as int, limits);
    lemma2_to64();
    po2::lemma_join(a, span);
    po2::lemma_join(b, span);
    po2::lemma_quotient_below(a, (top + 1) as int, span);
    po2::lemma_quotient_below(b, (top + 1) as int, span);
    let p = (a / span) as nat;
    let q = (b / span) as nat;
    po2::lemma_p2_mono(p, top);
    po2::lemma_p2_mono(q, top);
    if p < q {
        po2::lemma_p2_mono(p + 1, q);
        po2::lemma_p2(p);
    } else if q < p {
        po2::lemma_p2_mono(q + 1, p);
        po2::lemma_p2(q);
    }
}

/// Different choices take a different option from some list.
proof fn lemma_choices_distinct<T>(options: Seq<Seq<T>>, i: int, a: int, b: int)
    requires
        0 <= i <= options.len(),
        forall|q: int| i <= q < options.len() ==> #[trigger] options[q].len() >= 1,
        forall|q: int, s: int, t: int|
            i <= q < options.len() && 0 <= s < options[q].len() && 0 <= t < options[q].len()
                && #[trigger] options[q][s] == #[trigger] options[q][t] ==> s == t,
        0 <= a < ways(options, i),
        0 <= b < ways(options, i),
        forall|j: int|
            i <= j < options.len() ==> #[trigger] choice(options, i, a, j) == choice(
                options,
                i,
                b,
                j,
            ),
    ensures
        a == b,
    decreases options.len() - i,
{
    if i < options.len() {
        let t = ways(options, i + 1);
        lemma_ways_positive(options, i + 1);
        po2::lemma_join(a, t);
        po2::lemma_join(b, t);
        po2::lemma_quotient_below(a, options[i].len() as int, t);
        po2::lemma_quotient_below(b, options[i].len() as int, t);
        assert(choice(options, i, a, i) == options[i][a / t]);
        assert(choice(options, i, b, i) == options[i][b / t]);
        assert forall|j: int| i + 1 <= j < options.len() implies #[trigger] choice(
            options,
            i + 1,
            a % t,
            j,
        ) == choice(options, i + 1, b % t, j) by {
            assert(choice(options, i, a, j) == choice(options, i + 1, a % t, j));
            assert(choice(options, i, b, j) == choice(options, i + 1, b % t, j));
        }
        lemma_choices_distinct(options, i + 1, a % t, b % t);
    }
}

/// Different choices of options give different passes.
proof fn lemma_plans_distinct(
    log_n: u32,
    sizes: Seq<u32>,
    batch: usize,
    limits: DeviceLimits,
    a: int,
    b: int,
)
    requires
        sizes_ok(log_n, sizes),
        sizes_fit(sizes, limits),
        0 <= a < ways(all_options(sizes, log_n, limits), 0),
        0 <= b < ways(all_options(sizes, log_n, limits), 0),
        plan_at(log_n, sizes, batch, limits, a).passes == plan_at(
            log_n,
            sizes,
            batch,
            limits,
            b,
        ).passes,
    ensures
        a == b,
{
    let options = all_options(sizes, log_n, limits);
    let x = plan_at(log_n, sizes, batch, limits, a).passes;
    let y = plan_at(log_n, sizes, batch, limits, b).passes;
    assert forall|q: int| 0 <= q < options.len() implies #[trigger] options[q].len() >= 1 by {
        assert(1 <= sizes[q] <= log_n);
        lemma_option(sizes[q], log_n, limits, (0, 0));
    }
    assert forall|q: int, s: int, t: int|
        0 <= q < options.len() && 0 <= s < options[q].len() && 0 <= t < options[q].len()
            && #[trigger] options[q][s] == #[trigger] options[q][t] implies s == t by {
        assert(1 <= sizes[q] <= log_n);
        lemma_options_distinct(sizes[q], log_n, limits, s, t);
    }
    assert forall|j: int| 0 <= j < options.len() implies #[trigger] choice(options, 0, a, j)
        == choice(options, 0, b, j) by {
        assert(x[j] == y[j]);
    }
    lemma_choices_distinct(options, 0, a, b);
}

/// No two plans listed for one composition have the same passes.
proof fn lemma_below_distinct(
    log_n: u32,
    sizes: Seq<u32>,
    batch: usize,
    limits: DeviceLimits,
    r: int,
    i: int,
    j: int,
)
    requires
        sizes_ok(log_n, sizes),
        sizes_fit(sizes, limits),
        r <= ways(all_options(sizes, log_n, limits), 0),
        0 <= i < j < valid_plans_below(log_n, sizes, batch, limits, r).len(),
    ensures
        valid_plans_below(log_n, sizes, batch, limits, r)[i].passes != valid_plans_below(
            log_n,
            sizes,
            batch,
            limits,
            r,
        )[j].passes,
    decreases r,
{
    let before = valid_plans_below(log_n, sizes, batch, limits, r - 1);
    if j < before.len() {
        lemma_below_distinct(log_n, sizes, batch, limits, r - 1, i, j);
    } else {
        let q = lemma_below_at(log_n, sizes, batch, limits, r - 1, i);
        if plan_at(log_n, sizes, batch, limits, q).passes == plan_at(
            log_n,
            sizes,
            batch,
            limits,
            r - 1,
        ).passes {
            lemma_plans_distinct(log_n, sizes, batch, limits, q, r - 1);
        }
    }
}

/// No two plans listed for `k` passes have the same passes.
proof fn lemma_compositions_distinct(
    log_n: u32,
    batch: usize,
    limits: DeviceLimits,
    k: int,
    c: int,
    i: int,
    j: int,
)
    requires
        k >= 1,
        c <= tried_compositions(log_n, limits, k).len(),
        0 <= i < j < plans_of_compositions(
            log_n,
            tried_compositions(log_n, limits, k),
            batch,
            limits,
            c,
        ).len(),
    ensures
        ({
            let comps = tried_compositions(log_n, limits, k);
            let all = plans_of_compositions(log_n, comps, batch, limits, c);
            all[i].passes != all[j].passes
        }),
    decreases c,
{
    let comps = tried_compositions(log_n, limits, k);
    let all = plans_of_compositions(log_n, comps, batch, limits, c);
    let before = plans_of_compositions(log_n, comps, batch, limits, c - 1);
    let h = before.len() as int;
    if j < h {
        lemma_compositions_distinct(log_n, batch, limits, k, c - 1, i, j);
    } else if i < h {
        let a = lemma_compositions_at(log_n, comps, batch, limits, c - 1, i);
        let last = comps[c - 1];
        let b = lemma_below_at(
            log_n,
            last,
            batch,
            limits,
            ways(all_options(last, log_n, limits), 0),
            j - h,
        );
        lemma_sizes_of_plan_at(log_n, comps[a.0], batch, limits, a.1);
        lemma_sizes_of_plan_at(log_n, last, batch, limits, b);
        let hi = po2::flog(limits.max_shared_mem_bytes as int / ELEM_BYTES as int) as int;
        lemma_hi_fits(limits);
        law_compositions_are_ordered(log_n as int, k as nat, 1, hi, a.0, c - 1);
        if all[i].passes == all[j].passes {
            assert(sizes_of(all[i]) =~= sizes_of(all[j]));
        }
    } else {
        lemma_tried(log_n, limits, k, c - 1);
        lemma_below_distinct(
            log_n,
            comps[c - 1],
            batch,
            limits,
            ways(all_options(comps[c - 1], log_n, limits), 0),
            i - h,
            j - h,
        );
    }
}

/// No two plans listed for up to `k` passes have the same passes.
proof fn lemma_up_to_distinct(
    log_n: u32,
    batch: usize,
    limits: DeviceLimits,
    k: int,
    i: int,
    j: int,
)
    requires
        log_n + 2 < usize::BITS,
        0 <= i < j < plans_up_to(log_n, batch, limits, k).len(),
    ensures
        plans_up_to(log_n, batch, limits, k)[i].passes != plans_up_to(
            log_n,
            batch,
            limits,
            k,
        )[j].passes,
    decreases k,
{
    let all = plans_up_to(log_n, batch, limits, k);
    let before = plans_up_to(log_n, batch, limits, k - 1);
    let comps = tried_compositions(log_n, limits, k);
    let h = before.len() as int;
    if j < h {
        lemma_up_to_distinct(log_n, batch, limits, k - 1, i, j);
    } else if i < h {
        assert(before[i] == all[i]);
        lemma_up_to_valid(log_n, batch, limits, k - 1, all[i]);
        let at = lemma_compositions_at(
            log_n,
            comps,
            batch,
            limits,
            comps.len() as int,
            j - h,
        );
        lemma_tried(log_n, limits, k, at.0);
    } else {
        lemma_compositions_distinct(
            log_n,
            batch,
            limits,
            k,
            comps.len() as int,
            i - h,
            j - h,
        );
    }
}

/// No plan is listed twice: the passes of two listed plans differ.
pub proof fn law_no_plan_is_listed_twice(
    log_n: u32,
    batch: usize,
    limits: DeviceLimits,
    max_passes: u32,
    i: int,
    j: int,
)
    requires
        log_n + 2 < usize::BITS,
        0 <= i < j < enumerated_plans(log_n, batch, limits, max_passes).len(),
    ensures
        enumerated_plans(log_n, batch, limits, max_passes)[i].passes != enumerated_plans(
            log_n,
            batch,
            limits,
            max_passes,
        )[j].passes,
{
    let k = if max_passes < log_n {
        max_passes as int
    } else {
        log_n as int
    };
    lemma_up_to_distinct(log_n, batch, limits, k, i, j);
}

/// The heuristic's plan is among the enumerated ones, if it is valid and
/// has no more passes than are enumerated.
pub proof fn law_heuristic_plan_is_enumerated(
    log_n: u32,
    batch: usize,
    limits: DeviceLimits,
    max_passes: u32,
)
    requires
        log_n >= 1,
        log_n + 2 < usize::BITS,
        plan::best_split(log_n, plan::most_passes(log_n), limits) > 0,
        plan::best_split(log_n, plan::most_passes(log_n), limits) <= max_passes,
        plan::plan_errors(plan::heuristic_plan(log_n, batch, limits), limits).len() == 0,
    ensures
        enumerated_plans(log_n, batch, limits, max_passes).contains(
            plan::heuristic_plan(log_n, batch, limits),
        ),
{
    let m = plan::heuristic_plan(log_n, batch, limits);
    plan::lemma_sub_batch_fits(log_n, batch, m.passes.len() as int, limits);
    law_enumeration_is_exact(log_n, batch, limits, max_passes, m);
}

/// No parts sum to zero, and each part adds itself.
pub proof fn law_parts_add_up(parts: Seq<u32>, k: int)
    requires
        0 <= k < parts.len(),
    ensures
        parts_before(parts, 0) == 0,
        parts_before(parts, k + 1) == parts_before(parts, k) + parts[k],
{
}

/// Of two passes, the first has fewer chunks, or as many and a smaller
/// workgroup.
pub open spec fn option_before(a: PassConfig, b: PassConfig) -> bool {
    a.z_count < b.z_count || (a.z_count == b.z_count && a.log_wg < b.log_wg)
}

/// Plans of the same sizes, in the order of the first pass whose options
/// differ.
pub open spec fn options_before(a: Seq<PassConfig>, b: Seq<PassConfig>) -> bool {
    &&& a.len() == b.len()
    &&& exists|p: int|
        0 <= p < a.len() && option_before(#[trigger] a[p], b[p]) && forall|q: int|
            0 <= q < p ==> #[trigger] a[q] == b[q]
}

/// The order of the enumeration: fewer passes first, then by the first pass
/// whose size differs, then by the first pass whose options differ.
pub open spec fn listed_before(a: Seq<PassConfig>, b: Seq<PassConfig>) -> bool {
    ||| a.len() < b.len()
    ||| a.len() == b.len() && exists|p: int|
        0 <= p < a.len() && (#[trigger] a[p]).log_pass < b[p].log_pass && forall|q: int|
            0 <= q < p ==> (#[trigger] a[q]).log_pass == b[q].log_pass
    ||| (forall|q: int| 0 <= q < a.len() ==> (#[trigger] a[q]).log_pass == b[q].log_pass)
        && options_before(a, b)
}

/// The options of a pass are in order.
proof fn lemma_options_in_order(log_pass: u32, log_n: u32, limits: DeviceLimits, a: int, b: int)
    requires
        1 <= log_pass <= log_n,
        plan::chunk_bytes(log_pass as int) <= limits.max_shared_mem_bytes,
        0 <= a < b < pass_options(log_pass, log_n, limits).len(),
    ensures
        ({
            let x = pass_options(log_pass, log_n, limits)[a];
            let y = pass_options(log_pass, log_n, limits)[b];
            x.0 < y.0 || (x.0 == y.0 && x.1 < y.1)
        }),
{
    let span = plan::wg_limit(log_pass as int, limits) + 1;
    let zl = plan::z_limit(log_pass, log_n, limits, MAX_Z as int);
    let top = po2::flog(zl);
    lemma_max_z();
    plan::lemma_z_limit(log_pass, log_n, limits, MAX_Z as int);
    lemma_po2_is_flog(zl);
    lemma_wg_limit(log_pass as int, limits);
    lemma2_to64();
    po2::lemma_join(a, span);
    po2::lemma_join(b, span);
    po2::lemma_quotient_below(a, (top + 1) as int, span);
    po2::lemma_quotient_below(b, (top + 1) as int, span);
    let p = (a / span) as nat;
    let q = (b / span) as nat;
    lemma_div_is_ordered(a, b, span);
    po2::lemma_p2_mono(p, top);
    po2::lemma_p2_mono(q, top);
    if p < q {
        po2::lemma_p2_mono(p + 1, q);
        po2::lemma_p2(p);
    }
}

/// Where two choices part: the earlier takes an earlier option there.
proof fn lemma_choices_in_order<T>(options: Seq<Seq<T>>, i: int, a: int, b: int) -> (r: (
    int,
    int,
    int,
))
    requires
        0 <= i <= options.len(),
        forall|q: int| i <= q < options.len() ==> #[trigger] options[q].len() >= 1,
        0 <= a < b < ways(options, i),
    ensures
        i <= r.0 < options.len(),
        0 <= r.1 < r.2 < options[r.0].len(),
        choice(options, i, a, r.0) == options[r.0][r.1],
        choice(options, i, b, r.0) == options[r.0][r.2],
        forall|j: int|
            i <= j < r.0 ==> #[trigger] choice(options, i, a, j) == choice(options, i, b, j),
    decreases options.len() - i,
{
    let t = ways(options, i + 1);
    lemma_ways_positive(options, i + 1);
    po2::lemma_join(a, t);
    po2::lemma_join(b, t);
    po2::lemma_quotient_below(a, options[i].len() as int, t);
    po2::lemma_quotient_below(b, options[i].len() as int, t);
    lemma_div_is_ordered(a, b, t);
    assert(choice(options, i, a, i) == options[i][a / t]);
    assert(choice(options, i, b, i) == options[i][b / t]);
    if a / t < b / t {
        (i, a / t, b / t)
    } else {
        let r = lemma_choices_in_order(options, i + 1, a % t, b % t);
        assert(choice(options, i, a, r.0) == choice(options, i + 1, a % t, r.0));
        assert(choice(options, i, b, r.0) == choice(options, i + 1, b % t, r.0));
        assert forall|j: int| i <= j < r.0 implies #[trigger] choice(options, i, a, j) == choice(
            options,
            i,
            b,
            j,
        ) by {
            if j > i {
                assert(choice(options, i, a, j) == choice(options, i + 1, a % t, j));
                assert(choice(options, i, b, j) == choice(options, i + 1, b % t, j));
            }
        }
        r
    }
}

/// The plan of an earlier choice stands before that of a later one.
proof fn lemma_plans_in_order(
    log_n: u32,
    sizes: Seq<u32>,
    batch: usize,
    limits: DeviceLimits,
    a: int,
    b: int,
)
    requires
        sizes_ok(log_n, sizes),
        sizes_fit(sizes, limits),
        0 <= a < b < ways(all_options(sizes, log_n, limits), 0),
    ensures
        options_before(
            plan_at(log_n, sizes, batch, limits, a).passes,
            plan_at(log_n, sizes, batch, limits, b).passes,
        ),
{
    let options = all_options(sizes, log_n, limits);
    let x = plan_at(log_n, sizes, batch, limits, a).passes;
    let y = plan_at(log_n, sizes, batch, limits, b).passes;
    assert forall|q: int| 0 <= q < options.len() implies #[trigger] options[q].len() >= 1 by {
        assert(1 <= sizes[q] <= log_n);
        lemma_option(sizes[q], log_n, limits, (0, 0));
    }
    let r = lemma_choices_in_order(options, 0, a, b);
    let p = r.0;
    assert(1 <= sizes[p] <= log_n);
    lemma_options_in_order(sizes[p], log_n, limits, r.1, r.2);
    assert(option_before(x[p], y[p]));
    assert forall|q: int| 0 <= q < p implies #[trigger] x[q] == y[q] by {
        assert(choice(options, 0, a, q) == choice(options, 0, b, q));
    }
}

/// What is listed for one composition is in order.
proof fn lemma_below_in_order(
    log_n: u32,
    sizes: Seq<u32>,
    batch: usize,
    limits: DeviceLimits,
    r: int,
    i: int,
    j: int,
)
    requires
        sizes_ok(log_n, sizes),
        sizes_fit(sizes, limits),
        r <= ways(all_options(sizes, log_n, limits), 0),
        0 <= i < j < valid_plans_below(log_n, sizes, batch, limits, r).len(),
    ensures
        options_before(
            valid_plans_below(log_n, sizes, batch, limits, r)[i].passes,
            valid_plans_below(log_n, sizes, batch, limits, r)[j].passes,
        ),
    decreases r,
{
    let before = valid_plans_below(log_n, sizes, batch, limits, r - 1);
    if j < before.len() {
        lemma_below_in_order(log_n, sizes, batch, limits, r - 1, i, j);
    } else {
        let q = lemma_below_at(log_n, sizes, batch, limits, r - 1, i);
        lemma_plans_in_order(log_n, sizes, batch, limits, q, r - 1);
    }
}

/// What [`enumerate_params`] appends for given pass sizes: exactly the valid
/// plans with these sizes and the sub-batch that scratch memory allows, in
/// the order of the first pass whose options differ.
pub proof fn law_params_are_exact(
    log_n: u32,
    sizes: Seq<u32>,
    batch: usize,
    limits: DeviceLimits,
    m: PlanModel,
)
    requires
        log_n + 2 < usize::BITS,
        sizes_ok(log_n, sizes),
    ensures
        plans_with_sizes(log_n, sizes, batch, limits).contains(m) <==> {
            &&& plan::plan_errors(m, limits).len() == 0
            &&& m.log_n == log_n
            &&& m.passes.len() == sizes.len()
            &&& forall|i: int|
                0 <= i < sizes.len() ==> (#[trigger] m.passes[i]).log_pass == sizes[i]
            &&& m.sub_batch == plan::sub_batch_limit(
                log_n,
                batch as int,
                sizes.len() as int,
                limits,
            )
        },
        forall|i: int, j: int|
            0 <= i < j < plans_with_sizes(log_n, sizes, batch, limits).len() ==> options_before(
                #[trigger] plans_with_sizes(log_n, sizes, batch, limits)[i].passes,
                #[trigger] plans_with_sizes(log_n, sizes, batch, limits)[j].passes,
            ),
{
    let all = plans_with_sizes(log_n, sizes, batch, limits);
    let total = ways(all_options(sizes, log_n, limits), 0);
    plan::lemma_sub_batch_fits(log_n, batch, sizes.len() as int, limits);
    if all.contains(m) {
        let i = choose|i: int| 0 <= i < all.len() && all[i] == m;
        let q = lemma_below_at(log_n, sizes, batch, limits, total, i);
        assert(m == plan_at(log_n, sizes, batch, limits, q));
    }
    if plan::plan_errors(m, limits).len() == 0 && m.log_n == log_n && m.passes.len() == sizes.len()
        && (forall|i: int| 0 <= i < sizes.len() ==> (#[trigger] m.passes[i]).log_pass == sizes[i])
        && m.sub_batch == plan::sub_batch_limit(log_n, batch as int, sizes.len() as int, limits) {
        assert(sizes_of(m) =~= sizes);
        lemma_valid_sizes(m, limits);
        assert forall|i: int| 0 <= i < sizes.len() implies plan::chunk_bytes(
            #[trigger] sizes[i] as int,
        ) <= limits.max_shared_mem_bytes by {
            lemma_valid_passes(m, limits, i);
        }
        let r = lemma_valid_choice(m, batch, limits);
        lemma_below_contains(log_n, sizes, batch, limits, total, r);
    }
    assert forall|i: int, j: int| 0 <= i < j < all.len() implies options_before(
        #[trigger] all[i].passes,
        #[trigger] all[j].passes,
    ) by {
        lemma_below_in_order(log_n, sizes, batch, limits, total, i, j);
    }
}

/// What is listed for `k` passes is in order.
proof fn lemma_compositions_in_order(
    log_n: u32,
    batch: usize,
    limits: DeviceLimits,
    k: int,
    c: int,
    i: int,
    j: int,
)
    requires
        k >= 1,
        c <= tried_compositions(log_n, limits, k).len(),
        0 <= i < j < plans_of_compositions(
            log_n,
            tried_compositions(log_n, limits, k),
            batch,
            limits,
            c,
        ).len(),
    ensures
        ({
            let comps = tried_compositions(log_n, limits, k);
            let all = plans_of_compositions(log_n, comps, batch, limits, c);
            listed_before(all[i].passes, all[j].passes)
        }),
    decreases c,
{
    let comps = tried_compositions(log_n, limits, k);
    let all = plans_of_compositions(log_n, comps, batch, limits, c);
    let before = plans_of_compositions(log_n, comps, batch, limits, c - 1);
    let h = before.len() as int;
    let last = comps[c - 1];
    let total = ways(all_options(last, log_n, limits), 0);
    if j < h {
        lemma_compositions_in_order(log_n, batch, limits, k, c - 1, i, j);
    } else if i < h {
        let a = lemma_compositions_at(log_n, comps, batch, limits, c - 1, i);
        let b = lemma_below_at(log_n, last, batch, limits, total, j - h);
        let hi = po2::flog(limits.max_shared_mem_bytes as int / ELEM_BYTES as int) as int;
        lemma_hi_fits(limits);
        lemma_tried(log_n, limits, k, a.0);
        lemma_tried(log_n, limits, k, c - 1);
        law_compositions_are_ordered(log_n as int, k as nat, 1, hi, a.0, c - 1);
        let x = comps[a.0];
        let p = choose|p: int|
            0 <= p < x.len() && p < last.len() && #[trigger] x[p] < last[p] && forall|q: int|
                0 <= q < p ==> #[trigger] x[q] == last[q];
        let f = all[i].passes;
        let g = all[j].passes;
        assert(f[p].log_pass < g[p].log_pass);
        assert forall|q: int| 0 <= q < p implies (#[trigger] f[q]).log_pass == g[q].log_pass by {
            assert(x[q] == last[q]);
        }
    } else {
        lemma_tried(log_n, limits, k, c - 1);
        lemma_below_in_order(log_n, last, batch, limits, total, i - h, j - h);
        let a = lemma_below_at(log_n, last, batch, limits, total, i - h);
        let b = lemma_below_at(log_n, last, batch, limits, total, j - h);
        assert(all[i] == plan_at(log_n, last, batch, limits, a));
        assert(all[j] == plan_at(log_n, last, batch, limits, b));
    }
}

/// What is listed for up to `k` passes is in order.
proof fn lemma_up_to_in_order(
    log_n: u32,
    batch: usize,
    limits: DeviceLimits,
    k: int,
    i: int,
    j: int,
)
    requires
        log_n + 2 < usize::BITS,
        0 <= i < j < plans_up_to(log_n, batch, limits, k).len(),
    ensures
        listed_before(
            plans_up_to(log_n, batch, limits, k)[i].passes,
            plans_up_to(log_n, batch, limits, k)[j].passes,
        ),
    decreases k,
{
    let all = plans_up_to(log_n, batch, limits, k);
    let before = plans_up_to(log_n, batch, limits, k - 1);
    let comps = tried_compositions(log_n, limits, k);
    let h = before.len() as int;
    if j < h {
        lemma_up_to_in_order(log_n, batch, limits, k - 1, i, j);
    } else if i < h {
        assert(before[i] == all[i]);
        assert(before.contains(all[i]));
        lemma_up_to_valid(log_n, batch, limits, k - 1, all[i]);
        let at = lemma_compositions_at(log_n, comps, batch, limits, comps.len() as int, j - h);
        lemma_tried(log_n, limits, k, at.0);
    } else {
        lemma_compositions_in_order(log_n, batch, limits, k, comps.len() as int, i - h, j - h);
    }
}

/// Plans are listed in order.
pub proof fn law_enumeration_is_ordered(
    log_n: u32,
    batch: usize,
    limits: DeviceLimits,
    max_passes: u32,
    i: int,
    j: int,
)
    requires
        log_n + 2 < usize::BITS,
        0 <= i < j < enumerated_plans(log_n, batch, limits, max_passes).len(),
    ensures
        listed_before(
            enumerated_plans(log_n, batch, limits, max_passes)[i].passes,
            enumerated_plans(log_n, batch, limits, max_passes)[j].passes,
        ),
{
    let k = if max_passes < log_n {
        max_passes as int
    } else {
        log_n as int
    };
    lemma_up_to_in_order(log_n, batch, limits, k, i, j);
}

/// A list of plans stands for its plans, one for one and field for field.
pub proof fn law_models_are_plans(plans: Seq<NttPlan>, i: int)
    requires
        0 <= i < plans.len(),
    ensures
        models(plans).len() == plans.len(),
        models(plans)[i].log_n == plans[i].log_n,
        models(plans)[i].passes == plans[i].passes@,
        models(plans)[i].sub_batch == plans[i].sub_batch,
{
}

/// A list of lists stands for its lists, one for one.
pub proof fn law_inner_views<T>(v: Seq<Vec<T>>, i: int)
    requires
        0 <= i < v.len(),
    ensures
        inner_views(v).len() == v.len(),
        inner_views(v)[i] == v[i]@,
{
}

/// What a composition is, written out: `k` parts within the bounds whose sum
/// is `n`.
pub proof fn law_composition_in_numbers(parts: Seq<u32>, n: int, k: nat, lo: int, hi: int)
    ensures
        is_composition(parts, n, k, lo, hi) <==> {
            &&& parts.len() == k
            &&& parts.fold_left(0int, |sum: int, part: u32| sum + part) == n
            &&& forall|i: int| 0 <= i < k ==> lo <= #[trigger] parts[i] <= hi
        },
{
    lemma_parts_fold(parts);
}

/// The sum of all parts, taken from the left.
proof fn lemma_parts_fold(parts: Seq<u32>)
    ensures
        parts.fold_left(0int, |sum: int, part: u32| sum + part) == parts_before(
            parts,
            parts.len() as int,
        ),
    decreases parts.len(),
{
    let add_part = |sum: int, part: u32| sum + part;
    if parts.len() > 0 {
        let rest = parts.drop_last();
        lemma_parts_fold(rest);
        lemma_same_parts(rest, parts, rest.len() as int);
        assert(parts.fold_left(0int, add_part) == add_part(
            rest.fold_left(0int, add_part),
            parts.last(),
        ));
    }
}

/// Only the first `k` parts matter to the sum of `k`.
proof fn lemma_same_parts(a: Seq<u32>, b: Seq<u32>, k: int)
    requires
        k <= a.len(),
        k <= b.len(),
        forall|i: int| 0 <= i < k ==> #[trigger] a[i] == b[i],
    ensures
        parts_before(a, k) == parts_before(b, k),
    decreases k,
{
    if k > 0 {
        lemma_same_parts(a, b, k - 1);
        assert(a[k - 1] == b[k - 1]);
    }
}

} // verus!
