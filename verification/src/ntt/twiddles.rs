//! Twiddle precomputation, bit reversal and the constants of the inverse
//! transform.
//!
//! The pass kernels read twiddles from small windowed tables: entry
//! `[w * WINDOW_SIZE + i]` is `omega^(i * 2^(w * LG_WINDOW))`, and any power
//! comes back as a product of one entry per window. The single-workgroup
//! kernels read flat tables `[omega^0, omega^1, ...]`.

use vstd::arithmetic::div_mod::*;
use vstd::arithmetic::mul::*;
use vstd::arithmetic::power::*;
use vstd::arithmetic::power2::*;
use vstd::prelude::*;

use crate::field::monty;
use crate::field::monty::{MontyField, MontyParameters};
use crate::po2;
use crate::zmod;

use super::transform;

verus! {

/// Window size exponent for partial twiddle tables.
pub const LG_WINDOW: u32 = 10;

/// Window size (number of entries per window).
pub const WINDOW_SIZE: usize = 1024;

/// Number of windows. Covers up to 30 bits of exponent.
pub const NUM_WINDOWS: usize = 3;

/// Total number of entries in a partial twiddle table.
pub const PARTIAL_TWIDDLE_LEN: usize = 3072;

/// The primitive `2^l`-th root of unity that the transforms of `2^l`
/// points use.
pub open spec fn omega<P: MontyParameters>(l: nat) -> int {
    P::TWO_ADIC_GENERATORS@[l as int] as int
}

/// The inverse root, `omega^(2^l - 1)`.
pub open spec fn inv_omega<P: MontyParameters>(l: nat) -> int {
    zmod::power(P::PRIME as int, omega::<P>(l), (pow2(l) - 1) as nat)
}

/// The inverse of `2^l`, by Fermat: `(2^l)^(p - 2)`.
pub open spec fn size_inv<P: MontyParameters>(l: nat) -> int {
    zmod::power(P::PRIME as int, po2::p2(l), (P::PRIME - 2) as nat)
}

/// `table` holds `w^0, ..., w^(2^(l-1) - 1)` in Montgomery form.
pub open spec fn is_flat_table<P: MontyParameters>(table: Seq<u32>, w: int, l: nat) -> bool {
    &&& table.len() >= po2::p2((l - 1) as nat)
    &&& forall|i: int|
        0 <= i < po2::p2((l - 1) as nat) ==> {
            &&& #[trigger] table[i] < P::PRIME
            &&& monty::from_mont::<P>(table[i] as int) == zmod::power(
                P::PRIME as int,
                w,
                i as nat,
            )
        }
}

/// `table` is the windowed table of the powers of `w`, in Montgomery form.
pub open spec fn is_partial_table<P: MontyParameters>(table: Seq<u32>, w: int) -> bool {
    &&& table.len() == PARTIAL_TWIDDLE_LEN
    &&& forall|k: int| 0 <= k < PARTIAL_TWIDDLE_LEN ==> #[trigger] table[k] < P::PRIME
    &&& forall|v: int, i: int|
        0 <= v < NUM_WINDOWS && 0 <= i < WINDOW_SIZE ==> monty::from_mont::<P>(
            #[trigger] table[v * 1024 + i] as int,
        ) == zmod::power(P::PRIME as int, w, (i * po2::p2((v * LG_WINDOW) as nat)) as nat)
}

/// The entry that window `v` of a windowed table has for the exponent `k`.
pub open spec fn window_entry(table: Seq<u32>, k: int, v: int) -> u32 {
    table[v * 1024 + (k / po2::p2((v * LG_WINDOW) as nat)) % po2::p2(LG_WINDOW as nat)]
}

/// The product of the entries of the first `count` windows for the exponent
/// `k`.
pub open spec fn windows_product<P: MontyParameters>(table: Seq<u32>, k: int, count: int) -> int
    decreases count,
{
    if count <= 0 {
        1
    } else {
        zmod::times(
            P::PRIME as int,
            windows_product::<P>(table, k, count - 1),
            monty::from_mont::<P>(window_entry(table, k, count - 1) as int),
        )
    }
}

/// Squaring `omega(k)` `j` times gives `omega(k - j)`.
proof fn lemma_omega_descends<P: MontyParameters>(k: nat, j: nat)
    requires
        j <= k <= P::TWO_ADICITY,
    ensures
        zmod::power(P::PRIME as int, omega::<P>(k), pow2(j)) == omega::<P>((k - j) as nat),
    decreases j,
{
    P::consistent();
    let p = P::PRIME as int;
    let w = omega::<P>(k);
    po2::lemma_p2(0);
    if j == 0 {
        zmod::lemma_power_base(p, w);
        zmod::lemma_reduced(p, w);
    } else {
        let h = (j - 1) as nat;
        lemma_omega_descends::<P>(k, h);
        po2::lemma_p2(h);
        zmod::lemma_power_adds(p, w, pow2(h), pow2(h));
        let q = k - h;
        assert(zmod::times(
            p,
            P::TWO_ADIC_GENERATORS@[q] as int,
            P::TWO_ADIC_GENERATORS@[q] as int,
        ) == P::TWO_ADIC_GENERATORS@[q - 1]);
    }
}

/// `omega(l)` is a primitive `2^l`-th root of unity, `inv_omega(l)` is its
/// inverse and `size_inv(l)` the inverse of `2^l`.
pub proof fn lemma_roots<P: MontyParameters>(l: nat)
    requires
        1 <= l <= P::TWO_ADICITY,
    ensures
        transform::is_root(P::PRIME as int, omega::<P>(l), l),
        transform::is_root(P::PRIME as int, inv_omega::<P>(l), l),
        transform::are_inverse(
            P::PRIME as int,
            omega::<P>(l),
            inv_omega::<P>(l),
            size_inv::<P>(l),
            l,
        ),
{
    P::consistent();
    let p = P::PRIME as int;
    let w = omega::<P>(l);
    lemma_omega_descends::<P>(l, (l - 1) as nat);
    assert((l - (l - 1) as nat) as nat == 1);
    assert(transform::is_root(p, w, l));
    // w * w^(2^l - 1) = w^(2^l) = 1
    po2::lemma_p2(l);
    transform::lemma_root_powers(p, w, l, 1);
    zmod::lemma_power_step(p, w, (pow2(l) - 1) as nat);
    zmod::lemma_times_comm(p, w, inv_omega::<P>(l));
    assert((pow2(l) - 1) as nat + 1 == 1 * pow2(l));
    transform::lemma_inverse_root(p, w, inv_omega::<P>(l), l);
    lemma_size_inv::<P>(l);
}

/// `omega(l)` has order `2^l`: its `2^l`-th power is one, and its
/// `2^(l-1)`-th power is `-1`.
pub proof fn law_order_of_omega<P: MontyParameters>(l: nat)
    requires
        1 <= l <= P::TWO_ADICITY,
    ensures
        zmod::power(P::PRIME as int, omega::<P>(l), pow2(l)) == 1,
        zmod::power(P::PRIME as int, omega::<P>(l), pow2((l - 1) as nat)) == P::PRIME - 1,
{
    lemma_roots::<P>(l);
    transform::lemma_root_powers(P::PRIME as int, omega::<P>(l), l, 1);
    assert(1 * pow2(l) == pow2(l));
}

/// `2^l * size_inv(l) = 1`.
proof fn lemma_size_inv<P: MontyParameters>(l: nat)
    ensures
        zmod::times(P::PRIME as int, po2::p2(l), size_inv::<P>(l)) == 1,
{
    P::consistent();
    let p = P::PRIME as int;
    let n = po2::p2(l);
    zmod::lemma_power_step(p, n, (p - 2) as nat);
    zmod::lemma_times_comm(p, n, size_inv::<P>(l));
    assert((p - 2) as nat + 1 == (p - 1) as nat);
    // n^(p-1) = 2^(l (p-1)) = (2^(p-1))^l = 1
    lemma_power_of_p2(p, l);
    zmod::lemma_power_multiplies(p, 2, l, (p - 1) as nat);
    zmod::lemma_power_multiplies(p, 2, (p - 1) as nat, l);
    lemma_mul_is_commutative(l as int, p - 1);
    zmod::lemma_power_of_one(p, l);
    zmod::lemma_power_absorbs(p, n, (p - 1) as nat);
}

/// `2^l` as a power modulo `m`.
proof fn lemma_power_of_p2(m: int, l: nat)
    requires
        m > 1,
    ensures
        zmod::power(m, 2, l) == po2::p2(l) % m,
    decreases l,
{
    po2::lemma_p2(0);
    if l == 0 {
        zmod::lemma_power_base(m, 2);
        zmod::lemma_reduced(m, 1);
    } else {
        let h = (l - 1) as nat;
        lemma_power_of_p2(m, h);
        po2::lemma_p2(h);
        zmod::lemma_power_step(m, 2, h);
        zmod::lemma_times_absorbs(m, po2::p2(h), 2);
    }
}

/// Square-and-multiply exponentiation.
pub fn pow_field<P: MontyParameters>(base: MontyField<P>, exp: u32) -> (r: MontyField<P>)
    requires
        base.wf(),
    ensures
        r.wf(),
        r.val() == zmod::power(P::PRIME as int, base.val(), exp as nat),
{
    let ghost p = P::PRIME as int;
    let ghost x = base.val();
    let mut base = base;
    let mut exp = exp;
    let mut acc = MontyField::<P>::from_canonical(1);
    let ghost e0 = exp as nat;
    let ghost mut done: nat = 0;
    let ghost mut unit: nat = 1;
    proof {
        P::consistent();
        zmod::lemma_power_base(p, x);
        monty::lemma_round_trip::<P>(base.mont() as int);
        zmod::lemma_reduced(p, x);
        zmod::lemma_reduced(p, 1);
    }
    while exp > 0
        invariant
            p == P::PRIME,
            p > 1,
            base.wf(),
            acc.wf(),
            base.val() == zmod::power(p, x, unit),
            acc.val() == zmod::power(p, x, done),
            done + unit * (exp as nat) == e0,
        decreases exp,
    {
        let ghost e = exp as nat;
        if exp % 2 == 1 {
            acc = acc * base;
            proof {
                zmod::lemma_power_adds(p, x, done, unit);
                assert(unit * e == unit + (2 * unit) * (e / 2)) by (nonlinear_arith)
                    requires
                        e == 2 * (e / 2) + 1,
                ;
                done = done + unit;
            }
        } else {
            assert(unit * e == (2 * unit) * (e / 2)) by (nonlinear_arith)
                requires
                    e == 2 * (e / 2),
            ;
        }
        base = base * base;
        proof {
            zmod::lemma_power_adds(p, x, unit, unit);
            unit = 2 * unit;
        }
        exp = exp / 2;
    }
    proof {
        assert(unit * 0 == 0) by (nonlinear_arith);
    }
    acc
}

/// The canonical generator `omega(log_n)` as a field element.
fn root<P: MontyParameters>(log_n: u32) -> (r: MontyField<P>)
    requires
        1 <= log_n <= P::TWO_ADICITY,
    ensures
        r.wf(),
        r.val() == omega::<P>(log_n as nat),
{
    proof {
        P::consistent();
        assert(P::TWO_ADIC_GENERATORS@[log_n as int] < P::PRIME);
        zmod::lemma_reduced(P::PRIME as int, P::TWO_ADIC_GENERATORS@[log_n as int] as int);
    }
    MontyField::<P>::from_canonical(P::TWO_ADIC_GENERATORS[log_n as usize])
}

/// The inverse of [`root`]: `omega^(N - 1)`, since `omega^N = 1`.
fn inv_root<P: MontyParameters>(log_n: u32) -> (r: MontyField<P>)
    requires
        1 <= log_n <= P::TWO_ADICITY,
    ensures
        r.wf(),
        r.val() == inv_omega::<P>(log_n as nat),
{
    proof {
        P::consistent();
    }
    let n = po2::pow2_u32(log_n);
    pow_field::<P>(root::<P>(log_n), n - 1)
}

/// `[base^0, base^1, ..., base^(len - 1)]` in Montgomery form.
fn build_powers<P: MontyParameters>(base: MontyField<P>, len: usize) -> (r: Vec<u32>)
    requires
        base.wf(),
    ensures
        r@.len() == len,
        forall|i: int|
            0 <= i < len ==> {
                &&& #[trigger] r@[i] < P::PRIME
                &&& monty::from_mont::<P>(r@[i] as int) == zmod::power(
                    P::PRIME as int,
                    base.val(),
                    i as nat,
                )
            },
{
    let mut out: Vec<u32> = Vec::new();
    let mut current = MontyField::<P>::from_canonical(1);
    proof {
        P::consistent();
        zmod::lemma_power_base(P::PRIME as int, base.val());
        zmod::lemma_reduced(P::PRIME as int, 1);
    }
    let mut i: usize = 0;
    while i < len
        invariant
            i <= len,
            base.wf(),
            current.wf(),
            P::PRIME > 1,
            out@.len() == i,
            current.val() == zmod::power(P::PRIME as int, base.val(), i as nat),
            forall|j: int|
                0 <= j < i ==> {
                    &&& #[trigger] out@[j] < P::PRIME
                    &&& monty::from_mont::<P>(out@[j] as int) == zmod::power(
                        P::PRIME as int,
                        base.val(),
                        j as nat,
                    )
                },
        decreases len - i,
    {
        out.push(current.raw());
        proof {
            zmod::lemma_power_step(P::PRIME as int, base.val(), i as nat);
        }
        current = current * base;
        i = i + 1;
    }
    out
}

/// Build a flat forward-twiddle table `[w^0, w^1, ..., w^(N/2 - 1)]` in
/// Montgomery form, where `w` is a primitive `N`-th root of unity
/// (`N = 2^log_n`). For `log_n == 0` returns an empty vector.
pub fn build_fwd_twiddles<P: MontyParameters>(log_n: u32) -> (r: Vec<u32>)
    requires
        log_n <= P::TWO_ADICITY,
    ensures
        log_n == 0 ==> r@.len() == 0,
        log_n > 0 ==> r@.len() == po2::p2((log_n - 1) as nat) && is_flat_table::<P>(
            r@,
            omega::<P>(log_n as nat),
            log_n as nat,
        ),
{
    if log_n == 0 {
        return Vec::new();
    }
    proof {
        P::consistent();
    }
    let half = po2::pow2_usize(log_n - 1);
    build_powers::<P>(root::<P>(log_n), half)
}

/// Build a flat inverse-twiddle table `[w^-0, w^-1, ..., w^-(N/2 - 1)]` in
/// Montgomery form. Companion to [`build_fwd_twiddles`].
pub fn build_inv_twiddles<P: MontyParameters>(log_n: u32) -> (r: Vec<u32>)
    requires
        log_n <= P::TWO_ADICITY,
    ensures
        log_n == 0 ==> r@.len() == 0,
        log_n > 0 ==> r@.len() == po2::p2((log_n - 1) as nat) && is_flat_table::<P>(
            r@,
            inv_omega::<P>(log_n as nat),
            log_n as nat,
        ),
{
    if log_n == 0 {
        return Vec::new();
    }
    proof {
        P::consistent();
    }
    let half = po2::pow2_usize(log_n - 1);
    build_powers::<P>(inv_root::<P>(log_n), half)
}

/// `N^{-1} mod p` in Montgomery form, where `N = 2^log_n`. Used by the
/// inverse kernels as a load-time scaling factor.
pub fn n_inv<P: MontyParameters>(log_n: u32) -> (r: u32)
    requires
        log_n < 32,
    ensures
        r < P::PRIME,
        monty::from_mont::<P>(r as int) == size_inv::<P>(log_n as nat),
        zmod::times(
            P::PRIME as int,
            po2::p2(log_n as nat),
            monty::from_mont::<P>(r as int),
        ) == 1,
{
    proof {
        P::consistent();
        lemma_size_inv::<P>(log_n as nat);
        zmod::lemma_power_absorbs(
            P::PRIME as int,
            po2::p2(log_n as nat),
            (P::PRIME - 2) as nat,
        );
    }
    let n = po2::pow2_u32(log_n);
    let n_field = MontyField::<P>::from_canonical(n);
    // Fermat: N^{-1} = N^{p-2} mod p.
    pow_field::<P>(n_field, P::PRIME - 2).raw()
}

/// Build a forward partial twiddle table for the given `log_n`.
///
/// Entry `[w * WINDOW_SIZE + i]` is `omega^(i * 2^(w * LG_WINDOW))` in
/// Montgomery form, where `omega` is a primitive `2^log_n`-th root of unity.
pub fn build_partial_fwd_twiddles<P: MontyParameters>(log_n: u32) -> (r: Vec<u32>)
    requires
        1 <= log_n <= P::TWO_ADICITY,
    ensures
        is_partial_table::<P>(r@, omega::<P>(log_n as nat)),
{
    build_partial_table::<P>(root::<P>(log_n))
}

/// Build an inverse partial twiddle table for the given `log_n`: the same
/// layout as forward, with `omega^{-1}` as the base root.
pub fn build_partial_inv_twiddles<P: MontyParameters>(log_n: u32) -> (r: Vec<u32>)
    requires
        1 <= log_n <= P::TWO_ADICITY,
    ensures
        is_partial_table::<P>(r@, inv_omega::<P>(log_n as nat)),
{
    build_partial_table::<P>(inv_root::<P>(log_n))
}

/// The windowed table of the powers of `omega`.
fn build_partial_table<P: MontyParameters>(omega: MontyField<P>) -> (r: Vec<u32>)
    requires
        omega.wf(),
    ensures
        is_partial_table::<P>(r@, omega.val()),
{
    let ghost p = P::PRIME as int;
    let ghost x = omega.val();
    let mut out: Vec<u32> = Vec::new();
    let mut base = omega;
    let mut w: usize = 0;
    proof {
        P::consistent();
        po2::lemma_p2(0);
        zmod::lemma_power_base(p, x);
        monty::lemma_round_trip::<P>(omega.mont() as int);
        zmod::lemma_reduced(p, x);
    }
    while w < NUM_WINDOWS
        invariant
            w <= NUM_WINDOWS,
            p == P::PRIME,
            p > 1,
            base.wf(),
            base.val() == zmod::power(p, x, pow2((w * LG_WINDOW) as nat)),
            out@.len() == w * 1024,
            forall|k: int| 0 <= k < w * 1024 ==> #[trigger] out@[k] < P::PRIME,
            forall|v: int, i: int|
                0 <= v < w && 0 <= i < WINDOW_SIZE ==> monty::from_mont::<P>(
                    #[trigger] out@[v * 1024 + i] as int,
                ) == zmod::power(p, x, (i * po2::p2((v * LG_WINDOW) as nat)) as nat),
        decreases NUM_WINDOWS - w,
    {
        // base = omega^(2^(w * LG_WINDOW))
        let window = build_powers::<P>(base, WINDOW_SIZE);
        let ghost before = out@;
        let ghost unit = pow2((w * LG_WINDOW) as nat);
        let mut i: usize = 0;
        while i < WINDOW_SIZE
            invariant
                i <= WINDOW_SIZE,
                window@.len() == WINDOW_SIZE,
                out@ == before + window@.take(i as int),
            decreases WINDOW_SIZE - i,
        {
            assert(window@.take(i + 1) =~= window@.take(i as int).push(window@[i as int]));
            out.push(window[i]);
            i = i + 1;
        }
        proof {
            assert(window@.take(1024) =~= window@);
            assert forall|k: int| 0 <= k < (w + 1) * 1024 implies #[trigger] out@[k]
                < P::PRIME by {
                if k >= w * 1024 {
                    assert(out@[k] == window@[k - w * 1024]);
                } else {
                    assert(out@[k] == before[k]);
                }
            }
            assert forall|v: int, i: int| 0 <= v < w + 1 && 0 <= i < WINDOW_SIZE implies
                monty::from_mont::<P>(#[trigger] out@[v * 1024 + i] as int) == zmod::power(
                p,
                x,
                (i * po2::p2((v * LG_WINDOW) as nat)) as nat,
            ) by {
                if v < w {
                    assert(out@[v * 1024 + i] == before[v * 1024 + i]);
                } else {
                    assert(out@[v * 1024 + i] == window@[i]);
                    zmod::lemma_power_multiplies(p, x, unit, i as nat);
                    lemma_mul_is_commutative(i, unit as int);
                }
            }
        }
        // Square LG_WINDOW times: omega^(2^((w + 1) * LG_WINDOW)).
        let mut t: u32 = 0;
        let ghost start = (w * LG_WINDOW) as nat;
        while t < LG_WINDOW
            invariant
                t <= LG_WINDOW,
                p == P::PRIME,
                p > 1,
                base.wf(),
                base.val() == zmod::power(p, x, pow2(start + t as nat)),
            decreases LG_WINDOW - t,
        {
            proof {
                po2::lemma_p2(start + t as nat);
                let u = pow2(start + t as nat);
                zmod::lemma_power_adds(p, x, u, u);
            }
            base = base * base;
            t = t + 1;
        }
        w = w + 1;
    }
    out
}

/// Reconstruct `w^k` from a partial twiddle table, over all windows.
pub fn reconstruct_twiddle<P: MontyParameters>(partial: &[u32], k: u32) -> (r: u32)
    requires
        partial@.len() == PARTIAL_TWIDDLE_LEN,
        forall|i: int| 0 <= i < PARTIAL_TWIDDLE_LEN ==> #[trigger] partial@[i] < P::PRIME,
    ensures
        r < P::PRIME,
        monty::from_mont::<P>(r as int) == windows_product::<P>(
            partial@,
            k as int,
            NUM_WINDOWS as int,
        ),
        forall|w: int| #[trigger]
            is_partial_table::<P>(partial@, w) ==> monty::from_mont::<P>(r as int)
                == zmod::power(P::PRIME as int, w, (k as int % po2::p2(30)) as nat),
{
    super::pass_common::reconstruct_twiddle::<P>(partial, k, NUM_WINDOWS as u32)
}

/// What [`reconstruct_twiddle`] gives for a windowed table is the entry of
/// the flat table of the same root.
pub proof fn law_reconstruction_matches_flat_table<P: MontyParameters>(
    flat: Seq<u32>,
    w: int,
    l: nat,
    k: int,
    reconstructed: u32,
)
    requires
        1 <= l <= 31,
        is_flat_table::<P>(flat, w, l),
        0 <= k < po2::p2((l - 1) as nat),
        reconstructed < P::PRIME,
        monty::from_mont::<P>(reconstructed as int) == zmod::power(
            P::PRIME as int,
            w,
            (k % po2::p2(30)) as nat,
        ),
    ensures
        reconstructed == flat[k],
{
    po2::lemma_p2_mono((l - 1) as nat, 30);
    lemma_small_mod(k as nat, pow2(30));
    assert(flat[k] < P::PRIME);
    monty::lemma_from_mont_injective::<P>(reconstructed as int, flat[k] as int);
}

/// In-place bit-reversal permutation of a power-of-two-length slice.
///
/// NTT coefficients live in bit-reversed memory order while evaluations
/// live in natural memory order. Apply this function to map between them:
/// before a forward transform to place coefficients in bit-reversed order,
/// or after an inverse transform to read the recovered coefficients in
/// natural order.
pub fn bit_reverse_in_place<T: Copy>(data: &mut [T])
    requires
        po2::is_po2(old(data)@.len() as int),
    ensures
        final(data)@.len() == old(data)@.len(),
        forall|l: nat|
            old(data)@.len() == #[trigger] po2::p2(l) ==> final(data)@ == po2::bit_reversed(
                l,
                old(data)@,
            ),
{
    let n = data.len();
    let ghost orig = data@;
    if n <= 1 {
        proof {
            assert forall|l: nat| orig.len() == #[trigger] po2::p2(l) implies orig
                == po2::bit_reversed(l, orig) by {
                po2::lemma_p2(0);
                po2::lemma_p2_mono(l, 0);
                po2::lemma_p2(l);
                assert(orig =~= po2::bit_reversed(l, orig));
            }
        }
        return ;
    }
    let log_n = po2::floor_log2(n);
    let ghost l = log_n as nat;
    proof {
        let k = choose|k: nat| #[trigger] po2::p2(k) == n;
        po2::lemma_p2_mono(k, l);
        po2::lemma_p2_mono(k, l + 1);
        po2::lemma_p2_mono(l, k);
        assert(k == l);
        assert(n == po2::p2(l));
        assert forall|u: int| 0 <= u < n implies po2::rev(l, u) >= 0 by {
            po2::lemma_rev_range(l, u);
        }
    }
    let mut i: usize = 0;
    while i < n
        invariant
            i <= n,
            n == po2::p2(l),
            l == log_n,
            log_n < usize::BITS,
            orig.len() == n,
            data@.len() == n,
            forall|u: int|
                0 <= u < n ==> #[trigger] data@[u] == if u < i || po2::rev(l, u) < i {
                    orig[po2::rev(l, u)]
                } else {
                    orig[u]
                },
        decreases n - i,
    {
        let j = po2::reverse_low_bits(i, log_n);
        proof {
            po2::lemma_rev_range(l, i as int);
            po2::lemma_rev_involutive(l, i as int);
        }
        let ghost before = data@;
        if i < j {
            let x = data[i];
            let y = data[j];
            data[i] = y;
            data[j] = x;
        }
        proof {
            assert forall|u: int| 0 <= u < n implies #[trigger] data@[u] == if u < i + 1
                || po2::rev(l, u) < i + 1 {
                orig[po2::rev(l, u)]
            } else {
                orig[u]
            } by {
                po2::lemma_rev_involutive(l, u);
                po2::lemma_rev_range(l, u);
                assert(before[u] == if u < i || po2::rev(l, u) < i {
                    orig[po2::rev(l, u)]
                } else {
                    orig[u]
                });
                assert(before[i as int] == if po2::rev(l, i as int) < i {
                    orig[po2::rev(l, i as int)]
                } else {
                    orig[i as int]
                });
                assert(before[j as int] == if j < i || po2::rev(l, j as int) < i {
                    orig[po2::rev(l, j as int)]
                } else {
                    orig[j as int]
                });
                if u == i {
                } else if u == j {
                } else {
                    if po2::rev(l, u) == i {
                        assert(u == j);
                    }
                }
            }
        }
        i = i + 1;
    }
    proof {
        assert(data@ =~= po2::bit_reversed(l, orig));
        assert forall|k: nat| orig.len() == #[trigger] po2::p2(k) implies data@
            == po2::bit_reversed(k, orig) by {
            po2::lemma_p2_mono(k, l);
        }
    }
}

/// The constants of the transforms of `2^l` points: the root is the field's
/// own table entry, the inverse root times it is one, and so is `2^l` times
/// the scale.
pub proof fn law_transform_constants<P: MontyParameters>(l: nat)
    requires
        1 <= l <= P::TWO_ADICITY,
    ensures
        omega::<P>(l) == P::TWO_ADIC_GENERATORS@[l as int],
        0 <= inv_omega::<P>(l) < P::PRIME,
        (P::TWO_ADIC_GENERATORS@[l as int] * inv_omega::<P>(l)) % (P::PRIME as int) == 1,
        0 <= size_inv::<P>(l) < P::PRIME,
        (pow2(l) * size_inv::<P>(l)) % (P::PRIME as int) == 1,
{
    lemma_roots::<P>(l);
}

/// A flat forward table holds the powers of the field's own generator, and
/// a flat inverse table their inverses.
pub proof fn law_flat_table_words<P: MontyParameters>(
    fwd: Seq<u32>,
    inv: Seq<u32>,
    l: nat,
    i: int,
)
    requires
        1 <= l <= P::TWO_ADICITY,
        is_flat_table::<P>(fwd, omega::<P>(l), l),
        is_flat_table::<P>(inv, inv_omega::<P>(l), l),
        0 <= i < pow2((l - 1) as nat),
    ensures
        fwd.len() >= pow2((l - 1) as nat),
        inv.len() >= pow2((l - 1) as nat),
        fwd[i] < P::PRIME,
        inv[i] < P::PRIME,
        monty::from_mont::<P>(fwd[i] as int) == pow(
            P::TWO_ADIC_GENERATORS@[l as int] as int,
            i as nat,
        ) % (P::PRIME as int),
        (monty::from_mont::<P>(fwd[i] as int) * monty::from_mont::<P>(inv[i] as int)) % (
        P::PRIME as int) == 1,
{
    lemma_roots::<P>(l);
    assert(fwd[i] < P::PRIME && inv[i] < P::PRIME);
    lemma_inverse_powers(P::PRIME as int, omega::<P>(l), inv_omega::<P>(l), i as nat);
}

/// Powers of inverses are inverse to each other.
proof fn lemma_inverse_powers(m: int, w: int, wi: int, e: nat)
    requires
        m > 1,
        zmod::times(m, w, wi) == 1,
    ensures
        zmod::times(m, zmod::power(m, w, e), zmod::power(m, wi, e)) == 1,
    decreases e,
{
    if e == 0 {
        zmod::lemma_power_base(m, w);
        zmod::lemma_power_base(m, wi);
        zmod::lemma_reduced(m, 1);
    } else {
        let f = (e - 1) as nat;
        lemma_inverse_powers(m, w, wi, f);
        zmod::lemma_power_step(m, w, f);
        zmod::lemma_power_step(m, wi, f);
        let a = zmod::power(m, w, f);
        let b = zmod::power(m, wi, f);
        // (a w)(b wi) = (a b)(w wi).
        zmod::lemma_times_absorbs(m, a * w, b * wi);
        zmod::lemma_times_absorbs(m, a * b, w * wi);
        assert((a * w) * (b * wi) == (a * b) * (w * wi)) by (nonlinear_arith);
    }
}

/// A windowed forward table has three windows of 1024 words, window `v` with
/// the powers of the generator's `2^(10 v)`-th power, and a windowed inverse
/// table their inverses.
pub proof fn law_windowed_table_words<P: MontyParameters>(
    fwd: Seq<u32>,
    inv: Seq<u32>,
    l: nat,
    v: int,
    i: int,
)
    requires
        1 <= l <= P::TWO_ADICITY,
        is_partial_table::<P>(fwd, omega::<P>(l)),
        is_partial_table::<P>(inv, inv_omega::<P>(l)),
        0 <= v < 3,
        0 <= i < 1024,
    ensures
        fwd.len() == 3072,
        inv.len() == 3072,
        fwd[v * 1024 + i] < P::PRIME,
        inv[v * 1024 + i] < P::PRIME,
        monty::from_mont::<P>(fwd[v * 1024 + i] as int) == pow(
            P::TWO_ADIC_GENERATORS@[l as int] as int,
            (i * pow2((10 * v) as nat)) as nat,
        ) % (P::PRIME as int),
        (monty::from_mont::<P>(fwd[v * 1024 + i] as int) * monty::from_mont::<P>(
            inv[v * 1024 + i] as int,
        )) % (P::PRIME as int) == 1,
{
    lemma_roots::<P>(l);
    let e = (i * po2::p2((v * LG_WINDOW) as nat)) as nat;
    assert((v * LG_WINDOW) as nat == (10 * v) as nat);
    assert(monty::from_mont::<P>(fwd[v * 1024 + i] as int) == zmod::power(
        P::PRIME as int,
        omega::<P>(l),
        e,
    ));
    assert(monty::from_mont::<P>(inv[v * 1024 + i] as int) == zmod::power(
        P::PRIME as int,
        inv_omega::<P>(l),
        e,
    ));
    lemma_inverse_powers(P::PRIME as int, omega::<P>(l), inv_omega::<P>(l), e);
}

/// What is rebuilt from any table of three windows: the product of the
/// entries at the three groups of ten bits of the exponent.
pub proof fn law_rebuilt_product<P: MontyParameters>(table: Seq<u32>, k: int)
    ensures
        windows_product::<P>(table, k, 1) == monty::from_mont::<P>(table[k % 1024] as int),
        windows_product::<P>(table, k, 2) == (monty::from_mont::<P>(table[k % 1024] as int)
            * monty::from_mont::<P>(table[1024 + (k / 1024) % 1024] as int)) % (P::PRIME as int),
        windows_product::<P>(table, k, 3) == (monty::from_mont::<P>(table[k % 1024] as int)
            * monty::from_mont::<P>(table[1024 + (k / 1024) % 1024] as int)
            * monty::from_mont::<P>(table[2048 + (k / 0x10_0000) % 1024] as int)) % (
        P::PRIME as int),
{
    P::consistent();
    lemma2_to64();
    let m = P::PRIME as int;
    assert((0int * LG_WINDOW) as nat == 0 && (1int * LG_WINDOW) as nat == 10 && (2int * LG_WINDOW)
        as nat == 20);
    let a = monty::from_mont::<P>(table[k % 1024] as int);
    let b = monty::from_mont::<P>(table[1024 + (k / 1024) % 1024] as int);
    let c = monty::from_mont::<P>(table[2048 + (k / 0x10_0000) % 1024] as int);
    monty::lemma_round_trip::<P>(table[k % 1024] as int);
    reveal_with_fuel(windows_product, 4);
    assert(k / 1 == k);
    assert(window_entry(table, k, 0) == table[k % 1024]);
    assert(window_entry(table, k, 1) == table[1024 + (k / 1024) % 1024]);
    assert(window_entry(table, k, 2) == table[2048 + (k / 0x10_0000) % 1024]);
    assert(1 * a == a);
    zmod::lemma_reduced(m, a);
    zmod::lemma_times_absorbs(m, a * b, c);
}

} // verus!
