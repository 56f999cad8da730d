//! Twiddle tables and bit reversal.

use r0::field::baby_bear::{
    BabyBear, BabyBear4Parameters, BabyBear5Parameters, BabyBearParameters,
};
use r0::field::ext4::BinomialExt4Parameters;
use r0::field::ext5::BinomialExt5Parameters;
use r0::field::koala_bear::{KoalaBear4Parameters, KoalaBearParameters};
use r0::field::monty::{MontyField, MontyParameters};
use r0::ntt::pass_common;
use r0::ntt::twiddles::{
    bit_reverse_in_place, build_fwd_twiddles, build_inv_twiddles, build_partial_fwd_twiddles,
    build_partial_inv_twiddles, n_inv, pow_field, reconstruct_twiddle, PARTIAL_TWIDDLE_LEN,
};

#[test]
fn twiddles_omega_n_is_one() {
    for log_n in 1..=10u32 {
        let omega = MontyField::<BabyBearParameters>::from_canonical(
            BabyBearParameters::TWO_ADIC_GENERATORS[log_n as usize],
        );
        let mut x = omega;
        for _ in 0..log_n {
            x = x * x;
        }
        assert_eq!(
            x,
            MontyField::<BabyBearParameters>::from_canonical(1),
            "w^N != 1 for log_n = {log_n}"
        );
    }
}

#[test]
fn twiddles_first_two_correct() {
    // tw[0] = 1; tw[1] = w.
    for log_n in 1..=10u32 {
        let tw = build_fwd_twiddles::<BabyBearParameters>(log_n);
        let one = MontyField::<BabyBearParameters>::from_canonical(1);
        assert_eq!(MontyField::<BabyBearParameters>::from_raw(tw[0]), one);
        if tw.len() >= 2 {
            let omega = MontyField::<BabyBearParameters>::from_canonical(
                BabyBearParameters::TWO_ADIC_GENERATORS[log_n as usize],
            );
            assert_eq!(MontyField::<BabyBearParameters>::from_raw(tw[1]), omega);
        }
    }
}

#[test]
fn bit_reverse_involutive() {
    let mut x: Vec<u32> = (0..1024u32).collect();
    let original = x.clone();
    bit_reverse_in_place(&mut x);
    bit_reverse_in_place(&mut x);
    assert_eq!(x, original);
}

/// Verify that reconstructing w^k from the partial table matches the
/// flat twiddle table for all k in [0, N/2).
#[test]
fn partial_twiddles_reconstruct_matches_flat() {
    for log_n in [10u32, 14, 20] {
        let flat = build_fwd_twiddles::<BabyBearParameters>(log_n);
        let partial = build_partial_fwd_twiddles::<BabyBearParameters>(log_n);
        let half_n = 1usize << (log_n - 1);

        for k in 0..half_n {
            let reconstructed = reconstruct_twiddle::<BabyBearParameters>(&partial, k as u32);
            assert_eq!(
                reconstructed, flat[k],
                "mismatch at k={k}, log_n={log_n}"
            );
        }
    }
}

/// Verify inverse partial twiddles reconstruct correctly.
#[test]
fn partial_inv_twiddles_reconstruct_matches_flat() {
    for log_n in [10u32, 14, 20] {
        let flat = build_inv_twiddles::<BabyBearParameters>(log_n);
        let partial = build_partial_inv_twiddles::<BabyBearParameters>(log_n);
        let half_n = 1usize << (log_n - 1);

        for k in 0..half_n {
            let reconstructed = reconstruct_twiddle::<BabyBearParameters>(&partial, k as u32);
            assert_eq!(
                reconstructed, flat[k],
                "inv mismatch at k={k}, log_n={log_n}"
            );
        }
    }
}

#[test]
fn bit_reverse_of_eight() {
    let mut x: Vec<u32> = (0..8u32).collect();
    bit_reverse_in_place(&mut x);
    assert_eq!(x, vec![0, 4, 2, 6, 1, 5, 3, 7]);
    let mut one = vec![7u8];
    bit_reverse_in_place(&mut one);
    assert_eq!(one, vec![7]);
}

#[test]
fn size_inverse_times_size_is_one() {
    for log_n in 1..=24u32 {
        let inv = MontyField::<KoalaBearParameters>::from_raw(n_inv::<KoalaBearParameters>(log_n));
        let n = MontyField::<KoalaBearParameters>::from_canonical(1u32 << log_n);
        assert_eq!((inv * n).to_canonical(), 1);
    }
}

#[test]
fn powers_by_squaring() {
    let three = MontyField::<BabyBearParameters>::from_canonical(3);
    assert_eq!(pow_field(three, 0).to_canonical(), 1);
    assert_eq!(pow_field(three, 5).to_canonical(), 243);
    assert_eq!(pow_field(three, BabyBearParameters::PRIME - 1).to_canonical(), 1);
}

#[test]
fn inverse_twiddles_are_inverses() {
    let fwd = build_fwd_twiddles::<KoalaBearParameters>(8);
    let inv = build_inv_twiddles::<KoalaBearParameters>(8);
    assert_eq!(fwd.len(), 128);
    for k in 0..128 {
        let a = MontyField::<KoalaBearParameters>::from_raw(fwd[k]);
        let b = MontyField::<KoalaBearParameters>::from_raw(inv[k]);
        assert_eq!((a * b).to_canonical(), 1);
    }
    assert!(build_fwd_twiddles::<KoalaBearParameters>(0).is_empty());
    assert!(build_inv_twiddles::<KoalaBearParameters>(0).is_empty());
}

#[test]
fn fewer_windows_suffice_for_small_exponents() {
    let partial = build_partial_fwd_twiddles::<BabyBearParameters>(20);
    assert_eq!(partial.len(), PARTIAL_TWIDDLE_LEN);
    for k in 0..1024u32 {
        assert_eq!(
            pass_common::reconstruct_twiddle::<BabyBearParameters>(&partial, k, 1),
            reconstruct_twiddle::<BabyBearParameters>(&partial, k)
        );
    }
}

#[test]
fn reconstruction_multiplies_window_entries() {
    // Entry `i` of window `v` is `100 * (v + 1) + i`.
    let table: Vec<u32> = (0..PARTIAL_TWIDDLE_LEN as u32)
        .map(|j| BabyBear::from_canonical(100 * (j / 1024 + 1) + j % 1024).raw())
        .collect();
    let k = 5 | 6 << 10 | 7 << 20;
    for (windows, expected) in [(1, 105u64), (2, 105 * 206), (3, 105 * 206 * 307)] {
        let r = pass_common::reconstruct_twiddle::<BabyBearParameters>(&table, k, windows);
        assert_eq!(BabyBear::from_raw(r).to_canonical() as u64, expected);
    }
    let all = reconstruct_twiddle::<BabyBearParameters>(&table, k);
    assert_eq!(BabyBear::from_raw(all).to_canonical(), 105 * 206 * 307);
}

#[test]
fn extension_constants_meet_eulers_criterion() {
    let p = BabyBearParameters::PRIME;
    let w = BabyBear::from_canonical(BabyBear4Parameters::W);
    assert_eq!(pow_field(w, (p - 1) / 2).to_canonical(), p - 1);
    let w = BabyBear::from_canonical(BabyBear5Parameters::W);
    assert_ne!(pow_field(w, (p - 1) / 5).to_canonical(), 1);
    let p = KoalaBearParameters::PRIME;
    let w = MontyField::<KoalaBearParameters>::from_canonical(KoalaBear4Parameters::W);
    assert_eq!(pow_field(w, (p - 1) / 2).to_canonical(), p - 1);
}
