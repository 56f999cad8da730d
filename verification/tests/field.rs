//! The prime fields, against Plonky3's.

use p3_field::PrimeField32;

use r0::field::baby_bear::{BabyBear, BabyBearParameters};
use r0::field::ext::{base_elem_from_raw, BaseElem, ExtField};
use r0::field::koala_bear::{KoalaBear, KoalaBearParameters};
use r0::field::monty::{
    monty_add, monty_mul, monty_neg, monty_reduce_split, monty_sub, mul_hi_u32, MontyField,
    MontyParameters,
};

/// Values of the whole 32-bit range, the ends among them.
fn samples() -> Vec<u32> {
    let mut out = vec![0, 1, 2, u32::MAX, u32::MAX - 1, 0x8000_0000];
    for i in 0..250u32 {
        out.push(i.wrapping_mul(0x9E37_79B1) ^ 0xDEAD_BEEF);
    }
    out
}

/// Canonical values, the ends among them.
fn canonical<P: MontyParameters>() -> Vec<u32> {
    let mut out = vec![0, 1, 2, P::PRIME - 1, P::PRIME - 2, P::PRIME / 2];
    for x in samples() {
        out.push(x % P::PRIME);
    }
    out
}

fn check_roundtrip<P: MontyParameters>() {
    for x in samples() {
        let f = MontyField::<P>::from_canonical(x);
        assert_eq!(f.to_canonical(), x % P::PRIME);
        assert_eq!(f.raw() as u64, ((x % P::PRIME) as u64 * (1u64 << 32)) % P::PRIME as u64);
    }
}

fn pairs<P: MontyParameters>() -> Vec<(u32, u32)> {
    let xs = canonical::<P>();
    let mut out = Vec::new();
    for (i, &a) in xs.iter().enumerate() {
        out.push((a, xs[(i * 7 + 3) % xs.len()]));
        out.push((a, xs[i % 6]));
    }
    out
}

fn check_binops<P: MontyParameters>(
    op: fn(MontyField<P>, MontyField<P>) -> MontyField<P>,
    oracle: fn(u32, u32) -> u32,
) {
    for (a, b) in pairs::<P>() {
        let ours =
            op(MontyField::<P>::from_canonical(a), MontyField::<P>::from_canonical(b)).to_canonical();
        assert_eq!(ours, oracle(a, b), "disagreed: a={a:#x} b={b:#x}");
    }
}

fn p3_bb(x: u32) -> p3_baby_bear::BabyBear {
    p3_baby_bear::BabyBear::new(x)
}

fn p3_kb(x: u32) -> p3_koala_bear::KoalaBear {
    p3_koala_bear::KoalaBear::new(x)
}

#[test]
fn bb_roundtrip() {
    check_roundtrip::<BabyBearParameters>();
}

#[test]
fn bb_add() {
    check_binops::<BabyBearParameters>(|a, b| a + b, |a, b| (p3_bb(a) + p3_bb(b)).as_canonical_u32());
}

#[test]
fn bb_sub() {
    check_binops::<BabyBearParameters>(|a, b| a - b, |a, b| (p3_bb(a) - p3_bb(b)).as_canonical_u32());
}

#[test]
fn bb_mul() {
    check_binops::<BabyBearParameters>(|a, b| a * b, |a, b| (p3_bb(a) * p3_bb(b)).as_canonical_u32());
}

#[test]
fn bb_neg() {
    for a in canonical::<BabyBearParameters>() {
        assert_eq!((-BabyBear::from_canonical(a)).to_canonical(), (-p3_bb(a)).as_canonical_u32());
    }
}

#[test]
fn kb_roundtrip() {
    check_roundtrip::<KoalaBearParameters>();
}

#[test]
fn kb_add() {
    check_binops::<KoalaBearParameters>(|a, b| a + b, |a, b| (p3_kb(a) + p3_kb(b)).as_canonical_u32());
}

#[test]
fn kb_sub() {
    check_binops::<KoalaBearParameters>(|a, b| a - b, |a, b| (p3_kb(a) - p3_kb(b)).as_canonical_u32());
}

#[test]
fn kb_mul() {
    check_binops::<KoalaBearParameters>(|a, b| a * b, |a, b| (p3_kb(a) * p3_kb(b)).as_canonical_u32());
}

#[test]
fn kb_neg() {
    for a in canonical::<KoalaBearParameters>() {
        assert_eq!((-KoalaBear::from_canonical(a)).to_canonical(), (-p3_kb(a)).as_canonical_u32());
    }
}

#[test]
fn bb_zero_one_identity() {
    let zero = BabyBear::from_canonical(0);
    let one = BabyBear::from_canonical(1);
    assert_eq!(zero.to_canonical(), 0);
    assert_eq!(one.to_canonical(), 1);
    assert_eq!((one + one).to_canonical(), 2);
    assert_eq!((zero - one).to_canonical(), 0x78000000);
    assert_eq!((-one).to_canonical(), 0x78000000);
    let big = BabyBear::from_canonical(0x78000000);
    assert_eq!((big + one).to_canonical(), 0);
}

#[test]
fn kb_zero_one_identity() {
    let zero = KoalaBear::from_canonical(0);
    let one = KoalaBear::from_canonical(1);
    assert_eq!(zero.to_canonical(), 0);
    assert_eq!(one.to_canonical(), 1);
    assert_eq!((one + one).to_canonical(), 2);
    assert_eq!((zero - one).to_canonical(), 0x7f000000);
    assert_eq!((-one).to_canonical(), 0x7f000000);
    let big = KoalaBear::from_canonical(0x7f000000);
    assert_eq!((big + one).to_canonical(), 0);
}

fn check_vec_mul<P: MontyParameters>(n: usize) {
    for i in 0..n {
        let x = (i as u32).wrapping_mul(0x9E3779B1) ^ 0xDEADBEEF;
        let y = (i as u32).wrapping_mul(0x85EBCA77) ^ 0xC2B2AE3D;
        let a = MontyField::<P>::from_canonical(x).raw();
        let b = MontyField::<P>::from_canonical(y).raw();
        let product = monty_mul::<P>(a, b);
        assert_eq!(product, (MontyField::<P>::from_raw(a) * MontyField::<P>::from_raw(b)).raw());
        let p = P::PRIME as u64;
        assert_eq!(
            MontyField::<P>::from_raw(product).to_canonical() as u64,
            (x as u64 % p) * (y as u64 % p) % p
        );
    }
}

#[test]
fn babybear_vec_mul() {
    check_vec_mul::<BabyBearParameters>(1024);
}

#[test]
fn koalabear_vec_mul() {
    check_vec_mul::<KoalaBearParameters>(1024);
}

#[test]
fn base_elem_is_zero_cost() {
    assert_eq!(core::mem::size_of::<BaseElem<BabyBearParameters>>(), 4);
    assert_eq!(core::mem::align_of::<BaseElem<BabyBearParameters>>(), 4);
    assert_eq!(core::mem::size_of::<BaseElem<KoalaBearParameters>>(), 4);
}

#[test]
fn raw_operations_on_the_ends() {
    const P: u32 = 0x78000001;
    assert_eq!(monty_add::<BabyBearParameters>(P - 1, 1), 0);
    assert_eq!(monty_add::<BabyBearParameters>(P - 1, P - 1), P - 2);
    assert_eq!(monty_sub::<BabyBearParameters>(0, 1), P - 1);
    assert_eq!(monty_neg::<BabyBearParameters>(0), 0);
    assert_eq!(monty_neg::<BabyBearParameters>(1), P - 1);
    // The Montgomery reduction of 2^32 is one.
    assert_eq!(monty_reduce_split::<BabyBearParameters>(1, 0), 1);
    assert_eq!(mul_hi_u32(u32::MAX, u32::MAX), 0xFFFF_FFFE);
    assert_eq!(mul_hi_u32(0x8000_0000, 2), 1);
}

#[test]
fn base_elements_as_a_degree_one_extension() {
    let two = base_elem_from_raw::<BabyBearParameters>(BabyBear::from_canonical(2).raw());
    let three = BaseElem::<BabyBearParameters>::from_raw(BabyBear::from_canonical(3).raw());
    let canonical = |e: BaseElem<BabyBearParameters>| BabyBear::from_raw(e.raw).to_canonical();
    assert_eq!(canonical(ExtField::mul(two, three)), 6);
    assert_eq!(canonical(ExtField::sub(three, two)), 1);
    assert_eq!(canonical(<BaseElem<BabyBearParameters> as ExtField>::one()), 1);
    let mut buf = vec![0u32; 4];
    ExtField::store(&mut buf, 1, 2, 3, three);
    assert_eq!(buf, vec![0, 0, 0, three.raw]);
    assert_eq!(<BaseElem<BabyBearParameters> as ExtField>::load(&buf, 1, 2, 3), three);
}
