//! What the forward and inverse kernels share: reading twiddles.

use vstd::arithmetic::div_mod::*;
use vstd::arithmetic::mul::*;
use vstd::arithmetic::power2::*;
use vstd::prelude::*;

use crate::field::monty;
use crate::field::monty::{monty_mul, MontyParameters};
use crate::po2;
use crate::zmod;

use super::twiddles;
use super::twiddles::{LG_WINDOW, NUM_WINDOWS, PARTIAL_TWIDDLE_LEN, WINDOW_SIZE};

verus! {

/// `k mod 2^(a + b)` splits into its low `a` bits and the `b` bits above.
proof fn lemma_bits_split(k: int, a: nat, b: nat)
    requires
        k >= 0,
    ensures
        k % po2::p2(a + b) == k % po2::p2(a) + ((k / po2::p2(a)) % po2::p2(b)) * po2::p2(a),
{
    let d = po2::p2(a);
    let e = po2::p2(b);
    po2::lemma_p2_adds(a, b);
    lemma_breakdown(k, d, e);
    lemma_mul_is_commutative((k / d) % e, d);
}

/// In the windowed table of the powers of `w`, the entries of the first
/// `count` windows for `k` multiply to `w` to the power of `k`'s bits in them.
pub proof fn law_windows_give_power<P: MontyParameters>(
    table: Seq<u32>,
    w: int,
    k: int,
    count: int,
)
    requires
        twiddles::is_partial_table::<P>(table, w),
        k >= 0,
        0 <= count <= NUM_WINDOWS,
    ensures
        twiddles::windows_product::<P>(table, k, count) == zmod::power(
            P::PRIME as int,
            w,
            (k % po2::p2((count * LG_WINDOW) as nat)) as nat,
        ),
    decreases count,
{
    let p = P::PRIME as int;
    P::consistent();
    if count == 0 {
        po2::lemma_p2(0);
        zmod::lemma_power_base(p, w);
    } else {
        let v = count - 1;
        let a = (v * LG_WINDOW) as nat;
        law_windows_give_power::<P>(table, w, k, v);
        lemma2_to64();
        lemma_bits_split(k, a, 10);
        po2::lemma_p2(a);
        let bits = (k / po2::p2(a)) % po2::p2(10);
        let low = (k % po2::p2(a)) as nat;
        assert(bits * po2::p2(a) >= 0) by (nonlinear_arith)
            requires
                bits >= 0,
                po2::p2(a) > 0,
        ;
        assert(twiddles::window_entry(table, k, v) == table[v * 1024 + bits]);
        zmod::lemma_power_adds(p, w, low, (bits * po2::p2(a)) as nat);
        assert(a + 10 == count * LG_WINDOW);
    }
}

/// Reconstruct a twiddle factor `w^k` from the windowed table.
///
/// Decomposes `k` into 10-bit windows and multiplies the corresponding
/// entries. Window 0's entry seeds the accumulator; each further window
/// contributes one multiplication. Exponents of `log_n - 1` bits need
/// `ceil((log_n - 1) / 10)` windows.
#[inline]
pub fn reconstruct_twiddle<P: MontyParameters>(
    partial_twiddles: &[u32],
    k: u32,
    num_windows: u32,
) -> (r: u32)
    requires
        1 <= num_windows <= NUM_WINDOWS,
        partial_twiddles@.len() == PARTIAL_TWIDDLE_LEN,
        forall|i: int|
            0 <= i < PARTIAL_TWIDDLE_LEN ==> #[trigger] partial_twiddles@[i] < P::PRIME,
    ensures
        r < P::PRIME,
        monty::from_mont::<P>(r as int) == twiddles::windows_product::<P>(
            partial_twiddles@,
            k as int,
            num_windows as int,
        ),
        forall|w: int| #[trigger]
            twiddles::is_partial_table::<P>(partial_twiddles@, w) ==> monty::from_mont::<P>(
                r as int,
            ) == zmod::power(
                P::PRIME as int,
                w,
                (k as int % po2::p2((num_windows * LG_WINDOW) as nat)) as nat,
            ),
{
    let ghost p = P::PRIME as int;
    let ghost table = partial_twiddles@;
    let k_0 = po2::low_u32(k, LG_WINDOW);
    proof {
        lemma2_to64();
        P::consistent();
    }
    let mut acc: u32 = partial_twiddles[k_0 as usize];
    let mut w: u32 = 1;
    proof {
        po2::lemma_p2(0);
        lemma_div_basics(k as int);
        assert(k as int / po2::p2((0 * LG_WINDOW) as nat) == k);
        assert(twiddles::window_entry(table, k as int, 0) == acc);
        reveal_with_fuel(twiddles::windows_product, 2);
        zmod::lemma_reduced(p, monty::from_mont::<P>(acc as int));
    }
    while w < num_windows
        invariant
            1 <= w <= num_windows <= NUM_WINDOWS,
            p == P::PRIME,
            pow2(10) == 1024,
            table == partial_twiddles@,
            table.len() == PARTIAL_TWIDDLE_LEN,
            forall|i: int| 0 <= i < PARTIAL_TWIDDLE_LEN ==> #[trigger] table[i] < P::PRIME,
            acc < P::PRIME,
            monty::from_mont::<P>(acc as int) == twiddles::windows_product::<P>(
                table,
                k as int,
                w as int,
            ),
        decreases num_windows - w,
    {
        let k_w = po2::low_u32(po2::shr_u32(k, w * LG_WINDOW), LG_WINDOW);
        let idx: usize = w as usize * WINDOW_SIZE + k_w as usize;
        acc = monty_mul::<P>(acc, partial_twiddles[idx]);
        proof {
            assert(twiddles::window_entry(table, k as int, w as int) == table[idx as int]);
        }
        w = w + 1;
    }
    proof {
        assert forall|b: int| #[trigger]
            twiddles::is_partial_table::<P>(table, b) implies monty::from_mont::<P>(acc as int)
            == zmod::power(
            p,
            b,
            (k as int % po2::p2((num_windows * LG_WINDOW) as nat)) as nat,
        ) by {
            law_windows_give_power::<P>(table, b, k as int, num_windows as int);
        }
    }
    acc
}

} // verus!
