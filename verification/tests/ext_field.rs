//! The binomial extensions, against Plonky3's.

use p3_baby_bear::BabyBear as P3BabyBear;
use p3_field::extension::BinomialExtensionField as P3Ext;
use p3_field::{BasedVectorSpace, PrimeField32};
use p3_koala_bear::KoalaBear as P3KoalaBear;

use r0::field::baby_bear::{
    BabyBear4, BabyBear4Parameters, BabyBear5, BabyBear5Parameters, BabyBearParameters,
};
use r0::field::ext::{ExtField, ExtShape};
use r0::field::ext4::{
    ext4_add, ext4_from_raws, ext4_mul, ext4_neg, ext4_sub, BinomialExt4Parameters, Ext4,
};
use r0::field::ext5::{
    ext5_add, ext5_from_raws, ext5_mul, ext5_neg, ext5_sub, BinomialExt5Parameters, Ext5,
};
use r0::field::koala_bear::{KoalaBear4, KoalaBear4Parameters, KoalaBearParameters};
use r0::field::monty::{MontyField, MontyParameters};

const CASES: u32 = 256;

fn p3_bb4_from(limbs: [u32; 4]) -> P3Ext<P3BabyBear, 4> {
    P3Ext::<P3BabyBear, 4>::new(limbs.map(P3BabyBear::new))
}

fn p3_bb4_canonical(x: P3Ext<P3BabyBear, 4>) -> [u32; 4] {
    let s: &[P3BabyBear] = x.as_basis_coefficients_slice();
    [s[0].as_canonical_u32(), s[1].as_canonical_u32(), s[2].as_canonical_u32(), s[3].as_canonical_u32()]
}

fn p3_kb4_from(limbs: [u32; 4]) -> P3Ext<P3KoalaBear, 4> {
    P3Ext::<P3KoalaBear, 4>::new(limbs.map(P3KoalaBear::new))
}

fn p3_kb4_canonical(x: P3Ext<P3KoalaBear, 4>) -> [u32; 4] {
    let s: &[P3KoalaBear] = x.as_basis_coefficients_slice();
    [s[0].as_canonical_u32(), s[1].as_canonical_u32(), s[2].as_canonical_u32(), s[3].as_canonical_u32()]
}

fn p3_bb5_from(limbs: [u32; 5]) -> P3Ext<P3BabyBear, 5> {
    P3Ext::<P3BabyBear, 5>::new(limbs.map(P3BabyBear::new))
}

fn p3_bb5_canonical(x: P3Ext<P3BabyBear, 5>) -> [u32; 5] {
    let s: &[P3BabyBear] = x.as_basis_coefficients_slice();
    [
        s[0].as_canonical_u32(),
        s[1].as_canonical_u32(),
        s[2].as_canonical_u32(),
        s[3].as_canonical_u32(),
        s[4].as_canonical_u32(),
    ]
}

/// Canonical limb `i` of case `seed`: mostly scattered, sometimes at an end.
fn limb<P: MontyParameters>(seed: u32, i: u32) -> u32 {
    match (seed + i) % 11 {
        0 => 0,
        1 => P::PRIME - 1,
        _ => (seed.wrapping_mul(0x9E37_79B1) ^ i.wrapping_mul(0x85EB_CA77)).wrapping_mul(0xC2B2_AE3D)
            % P::PRIME,
    }
}

fn limbs4<P: MontyParameters>(seed: u32) -> [u32; 4] {
    [limb::<P>(seed, 0), limb::<P>(seed, 1), limb::<P>(seed, 2), limb::<P>(seed, 3)]
}

fn limbs5<P: MontyParameters>(seed: u32) -> [u32; 5] {
    [
        limb::<P>(seed, 0),
        limb::<P>(seed, 1),
        limb::<P>(seed, 2),
        limb::<P>(seed, 3),
        limb::<P>(seed, 4),
    ]
}

#[test]
fn w_mont_matches_independent_computation_bb4() {
    // Independent Montgomery-form lifting via MontyField, then bit-equality.
    let expected = MontyField::<BabyBearParameters>::from_canonical(BabyBear4Parameters::W).raw();
    assert_eq!(BabyBear4Parameters::W_MONT, expected);
}

#[test]
fn w_mont_matches_independent_computation_kb4() {
    let expected = MontyField::<KoalaBearParameters>::from_canonical(KoalaBear4Parameters::W).raw();
    assert_eq!(KoalaBear4Parameters::W_MONT, expected);
}

#[test]
fn w_mont_matches_independent_computation_bb5() {
    let expected = MontyField::<BabyBearParameters>::from_canonical(BabyBear5Parameters::W).raw();
    assert_eq!(BabyBear5Parameters::W_MONT, expected);
}

#[test]
fn one_round_trips_via_canonical_bb4() {
    let one = BabyBear4::from_canonical([1, 0, 0, 0]);
    assert_eq!(one.to_canonical(), [1, 0, 0, 0]);
}

#[test]
fn one_round_trips_via_canonical_kb4() {
    let one = KoalaBear4::from_canonical([1, 0, 0, 0]);
    assert_eq!(one.to_canonical(), [1, 0, 0, 0]);
}

#[test]
fn one_round_trips_via_canonical_bb5() {
    let one = BabyBear5::from_canonical([1, 0, 0, 0, 0]);
    assert_eq!(one.to_canonical(), [1, 0, 0, 0, 0]);
}

#[test]
fn bb4_matches_p3() {
    for seed in 0..CASES {
        let a = limbs4::<BabyBearParameters>(seed);
        let b = limbs4::<BabyBearParameters>(seed + 1000);
        let c = limbs4::<BabyBearParameters>(seed + 2000);
        let (af, bf, cf) =
            (BabyBear4::from_canonical(a), BabyBear4::from_canonical(b), BabyBear4::from_canonical(c));
        let (ap, bp) = (p3_bb4_from(a), p3_bb4_from(b));
        assert_eq!(af.to_canonical(), a);
        assert_eq!((af + bf).to_canonical(), p3_bb4_canonical(ap + bp));
        assert_eq!((af - bf).to_canonical(), p3_bb4_canonical(ap - bp));
        assert_eq!((af * bf).to_canonical(), p3_bb4_canonical(ap * bp));
        assert_eq!((-af).to_canonical(), p3_bb4_canonical(-ap));
        assert_eq!((af + (-af)).to_canonical(), [0, 0, 0, 0]);
        let zero = BabyBear4::from_canonical([0, 0, 0, 0]);
        let one = BabyBear4::from_canonical([1, 0, 0, 0]);
        assert_eq!((af * zero).to_canonical(), [0, 0, 0, 0]);
        assert_eq!((af * one).to_canonical(), a);
        assert_eq!(((af + bf) * cf).to_canonical(), (af * cf + bf * cf).to_canonical());
    }
}

#[test]
fn kb4_matches_p3() {
    for seed in 0..CASES {
        let a = limbs4::<KoalaBearParameters>(seed);
        let b = limbs4::<KoalaBearParameters>(seed + 1000);
        let c = limbs4::<KoalaBearParameters>(seed + 2000);
        let (af, bf, cf) =
            (KoalaBear4::from_canonical(a), KoalaBear4::from_canonical(b), KoalaBear4::from_canonical(c));
        let (ap, bp) = (p3_kb4_from(a), p3_kb4_from(b));
        assert_eq!(af.to_canonical(), a);
        assert_eq!((af + bf).to_canonical(), p3_kb4_canonical(ap + bp));
        assert_eq!((af - bf).to_canonical(), p3_kb4_canonical(ap - bp));
        assert_eq!((af * bf).to_canonical(), p3_kb4_canonical(ap * bp));
        assert_eq!((-af).to_canonical(), p3_kb4_canonical(-ap));
        assert_eq!(((af + bf) * cf).to_canonical(), (af * cf + bf * cf).to_canonical());
    }
}

#[test]
fn bb5_matches_p3() {
    for seed in 0..CASES {
        let a = limbs5::<BabyBearParameters>(seed);
        let b = limbs5::<BabyBearParameters>(seed + 1000);
        let c = limbs5::<BabyBearParameters>(seed + 2000);
        let (af, bf, cf) =
            (BabyBear5::from_canonical(a), BabyBear5::from_canonical(b), BabyBear5::from_canonical(c));
        let (ap, bp) = (p3_bb5_from(a), p3_bb5_from(b));
        assert_eq!(af.to_canonical(), a);
        assert_eq!((af + bf).to_canonical(), p3_bb5_canonical(ap + bp));
        assert_eq!((af - bf).to_canonical(), p3_bb5_canonical(ap - bp));
        assert_eq!((af * bf).to_canonical(), p3_bb5_canonical(ap * bp));
        assert_eq!((-af).to_canonical(), p3_bb5_canonical(-ap));
        assert_eq!(((af + bf) * cf).to_canonical(), (af * cf + bf * cf).to_canonical());
    }
}

#[test]
fn free_functions_match_operators() {
    let a = BabyBear4::from_canonical([1, 2, 3, 4]);
    let b = BabyBear4::from_canonical([5, 6, 7, 8]);
    assert_eq!(ext4_add(a, b), a + b);
    assert_eq!(ext4_sub(a, b), a - b);
    assert_eq!(ext4_mul(a, b), a * b);
    assert_eq!(ext4_neg(a), -a);
    let r = a.raw();
    assert_eq!(ext4_from_raws::<BabyBear4Parameters>(r[0], r[1], r[2], r[3]), a);
    // (1 + 2X + 3X^2 + 4X^3)(5 + 6X + 7X^2 + 8X^3) with X^4 = 11.
    assert_eq!((a * b).to_canonical(), [5 + 11 * 61, 16 + 11 * 52, 34 + 11 * 32, 60]);
    let c = BabyBear5::from_canonical([1, 2, 3, 4, 5]);
    let d = BabyBear5::from_canonical([0, 0, 0, 0, 1]);
    assert_eq!(ext5_add(c, d), c + d);
    assert_eq!(ext5_sub(c, d), c - d);
    assert_eq!(ext5_mul(c, d), c * d);
    assert_eq!(ext5_neg(c), -c);
    let r = c.raw();
    assert_eq!(ext5_from_raws::<BabyBear5Parameters>(r[0], r[1], r[2], r[3], r[4]), c);
    // Multiplying by X^4 rotates, with X^5 = 2.
    assert_eq!((c * d).to_canonical(), [4, 6, 8, 10, 1]);
}

/// `out[i] = (a[i] + b[i]) * b[i]` on transposed buffers.
fn add_then_mul<F: ExtField>(a: &[u32], b: &[u32], n: u32) -> Vec<u32> {
    let mut out = vec![0u32; a.len()];
    for i in 0..n {
        let av = F::load(a, 0u32, i, n);
        let bv = F::load(b, 0u32, i, n);
        F::store(&mut out, 0u32, i, n, F::mul(F::add(av, bv), bv));
    }
    out
}

fn host_addsq_ext4<P: BinomialExt4Parameters>(a: &[u32], b: &[u32], n: usize) -> Vec<u32> {
    let mut out = vec![0u32; n * 4];
    for i in 0..n {
        let av = Ext4::<P>::from_raw([a[i], a[n + i], a[2 * n + i], a[3 * n + i]]);
        let bv = Ext4::<P>::from_raw([b[i], b[n + i], b[2 * n + i], b[3 * n + i]]);
        let raw = ((av + bv) * bv).raw();
        for c in 0..4 {
            out[c * n + i] = raw[c];
        }
    }
    out
}

fn host_addsq_ext5<P: BinomialExt5Parameters>(a: &[u32], b: &[u32], n: usize) -> Vec<u32> {
    let mut out = vec![0u32; n * 5];
    for i in 0..n {
        let av = Ext5::<P>::from_raw([a[i], a[n + i], a[2 * n + i], a[3 * n + i], a[4 * n + i]]);
        let bv = Ext5::<P>::from_raw([b[i], b[n + i], b[2 * n + i], b[3 * n + i], b[4 * n + i]]);
        let raw = ((av + bv) * bv).raw();
        for c in 0..5 {
            out[c * n + i] = raw[c];
        }
    }
    out
}

fn make_input_ext<P: MontyParameters>(n: usize, degree: usize, seed: u32) -> Vec<u32> {
    let mut buf = Vec::with_capacity(n * degree);
    for c in 0..degree {
        for i in 0..n {
            let canonical = (i as u32)
                .wrapping_mul(0x9E37_79B1)
                .wrapping_add(seed)
                .wrapping_add((c as u32).wrapping_mul(0xC0FF_EE17));
            buf.push(MontyField::<P>::from_canonical(canonical).raw());
        }
    }
    buf
}

const N: u32 = 64;

#[test]
fn ext4_kb4() {
    let n = N as usize;
    let a = make_input_ext::<<KoalaBear4Parameters as BinomialExt4Parameters>::Base>(n, 4, 0x3333_3333);
    let b = make_input_ext::<<KoalaBear4Parameters as BinomialExt4Parameters>::Base>(n, 4, 0x4444_4444);
    let actual = add_then_mul::<Ext4<KoalaBear4Parameters>>(&a, &b, N);
    let expected = host_addsq_ext4::<KoalaBear4Parameters>(&a, &b, n);
    assert_eq!(actual, expected, "Ext4<KB4>");
}

#[test]
fn ext5_bb5() {
    let n = N as usize;
    let a = make_input_ext::<<BabyBear5Parameters as BinomialExt5Parameters>::Base>(n, 5, 0x5555_5555);
    let b = make_input_ext::<<BabyBear5Parameters as BinomialExt5Parameters>::Base>(n, 5, 0x6666_6666);
    let actual = add_then_mul::<Ext5<BabyBear5Parameters>>(&a, &b, N);
    let expected = host_addsq_ext5::<BabyBear5Parameters>(&a, &b, n);
    assert_eq!(actual, expected, "Ext5<BB5>");
}

#[test]
fn constants_of_the_generic_interface() {
    let seven = MontyField::<BabyBearParameters>::from_canonical(7).raw();
    assert_eq!(BabyBear5::DEGREE, 5);
    assert_eq!(<BabyBear5 as ExtField>::from_base_raw(seven).to_canonical(), [7, 0, 0, 0, 0]);
    assert_eq!(<BabyBear5 as ExtField>::one().to_canonical(), [1, 0, 0, 0, 0]);
    assert_eq!(<BabyBear5 as ExtField>::zero().to_canonical(), [0, 0, 0, 0, 0]);
    assert_eq!(<KoalaBear4 as ExtField>::one().to_canonical(), [1, 0, 0, 0]);
}
