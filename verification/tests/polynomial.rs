//! Division by `x - z`: the scan against the serial reference, and both
//! against what division means.

use r0::cube::device::{Device, DeviceProperties};
use r0::cube::monoid::Monoid;
use r0::field::baby_bear::{
    BabyBear, BabyBear4, BabyBear4Parameters, BabyBear5, BabyBear5Parameters, BabyBearParameters,
};
use r0::field::ext::BaseElem;
use r0::field::ext4::Ext4;
use r0::field::ext5::Ext5;
use r0::field::koala_bear::{KoalaBear4, KoalaBear4Parameters, KoalaBearParameters};
use r0::field::monty::{MontyField, MontyParameters};
use r0::polynomial::host_ref::{div_by_x_minus_z_serial, HostField};
use r0::polynomial::pair_scan::{pair, PairScan, PairScanLayout};
use r0::polynomial::poly_div::PolyDivExec;

fn device() -> Device {
    Device::new(DeviceProperties {
        plane_size: 32,
        max_units_per_cube: 1024,
        max_shared_memory_size: 49152,
    })
}

trait FieldHarness {
    type Cube: PairScanLayout;
    type Host: HostField + Copy;
    const DEGREE: usize;
    fn host_from_seed(seed: u64) -> Self::Host;
    fn host_to_raw(host: Self::Host) -> Vec<u32>;
    fn host_from_raw(raw: &[u32]) -> Self::Host;
}

struct HBaseBb;
impl FieldHarness for HBaseBb {
    type Cube = BaseElem<BabyBearParameters>;
    type Host = MontyField<BabyBearParameters>;
    const DEGREE: usize = 1;
    fn host_from_seed(seed: u64) -> Self::Host {
        MontyField::<BabyBearParameters>::from_canonical((seed % BabyBearParameters::PRIME as u64) as u32)
    }
    fn host_to_raw(host: Self::Host) -> Vec<u32> { vec![host.raw()] }
    fn host_from_raw(raw: &[u32]) -> Self::Host { MontyField::<BabyBearParameters>::from_raw(raw[0]) }
}

struct HExt4Kb;
impl FieldHarness for HExt4Kb {
    type Cube = Ext4<KoalaBear4Parameters>;
    type Host = KoalaBear4;
    const DEGREE: usize = 4;
    fn host_from_seed(seed: u64) -> Self::Host {
        let p = KoalaBearParameters::PRIME as u64;
        KoalaBear4::from_canonical([
            ((seed.wrapping_mul(0x9E3779B97F4A7C15) ^ 0x1) % p) as u32,
            ((seed.wrapping_mul(0x9E3779B97F4A7C15) ^ 0x2) % p) as u32,
            ((seed.wrapping_mul(0x9E3779B97F4A7C15) ^ 0x3) % p) as u32,
            ((seed.wrapping_mul(0x9E3779B97F4A7C15) ^ 0x4) % p) as u32,
        ])
    }
    fn host_to_raw(host: Self::Host) -> Vec<u32> { host.raw().to_vec() }
    fn host_from_raw(raw: &[u32]) -> Self::Host { KoalaBear4::from_raw([raw[0], raw[1], raw[2], raw[3]]) }
}

struct HExt5Bb;
impl FieldHarness for HExt5Bb {
    type Cube = Ext5<BabyBear5Parameters>;
    type Host = BabyBear5;
    const DEGREE: usize = 5;
    fn host_from_seed(seed: u64) -> Self::Host {
        let p = BabyBearParameters::PRIME as u64;
        BabyBear5::from_canonical([
            ((seed.wrapping_mul(0x9E3779B97F4A7C15) ^ 0x1) % p) as u32,
            ((seed.wrapping_mul(0x9E3779B97F4A7C15) ^ 0x2) % p) as u32,
            ((seed.wrapping_mul(0x9E3779B97F4A7C15) ^ 0x3) % p) as u32,
            ((seed.wrapping_mul(0x9E3779B97F4A7C15) ^ 0x4) % p) as u32,
            ((seed.wrapping_mul(0x9E3779B97F4A7C15) ^ 0x5) % p) as u32,
        ])
    }
    fn host_to_raw(host: Self::Host) -> Vec<u32> { host.raw().to_vec() }
    fn host_from_raw(raw: &[u32]) -> Self::Host { BabyBear5::from_raw([raw[0], raw[1], raw[2], raw[3], raw[4]]) }
}

// ---------------------------------------------------------------------------
// Layout helpers.
// ---------------------------------------------------------------------------

fn pack_polys<H: FieldHarness>(host: &[Vec<H::Host>], n: usize) -> Vec<u32> {
    let batch = host.len();
    let d = H::DEGREE;
    let mut buf = vec![0u32; batch * n * d];
    for (b, row) in host.iter().enumerate() {
        let base = b * n * d;
        for (i, &elem) in row.iter().enumerate() {
            let raw = H::host_to_raw(elem);
            for c in 0..d { buf[base + c * n + i] = raw[c]; }
        }
    }
    buf
}

fn unpack_polys<H: FieldHarness>(buf: &[u32], batch: usize, n: usize) -> Vec<Vec<H::Host>> {
    let d = H::DEGREE;
    let mut out = Vec::with_capacity(batch);
    let mut limbs = vec![0u32; d];
    for b in 0..batch {
        let base = b * n * d;
        let mut row = Vec::with_capacity(n);
        for i in 0..n {
            for c in 0..d { limbs[c] = buf[base + c * n + i]; }
            row.push(H::host_from_raw(&limbs));
        }
        out.push(row);
    }
    out
}

fn pack_zs<H: FieldHarness>(zs: &[H::Host]) -> Vec<u32> {
    let batch = zs.len();
    let d = H::DEGREE;
    let mut buf = vec![0u32; batch * d];
    for (b, &z) in zs.iter().enumerate() {
        let raw = H::host_to_raw(z);
        for c in 0..d { buf[c * batch + b] = raw[c]; }
    }
    buf
}

fn cube_vs_host<H: FieldHarness>(device: &Device, log_n: u32, batch: usize, seed: u64, label: &str) {
    let n = 1usize << log_n;

    let mut host_polys: Vec<Vec<H::Host>> = Vec::with_capacity(batch);
    for b in 0..batch {
        let mut row = Vec::with_capacity(n);
        for i in 0..n {
            row.push(H::host_from_seed(seed.wrapping_add(0x1000 * b as u64 + i as u64)));
        }
        host_polys.push(row);
    }
    let host_zs: Vec<H::Host> = (0..batch)
        .map(|b| H::host_from_seed(seed.wrapping_add(0xFFFF_0000 + b as u64)))
        .collect();

    let mut expected = host_polys.clone();
    for (row, &z) in expected.iter_mut().zip(host_zs.iter()) {
        div_by_x_minus_z_serial(row.as_mut_slice(), z);
    }

    let exec = PolyDivExec::<H::Cube>::new(device, log_n, batch);
    let mut buf = pack_polys::<H>(&host_polys, n);
    let zs = pack_zs::<H>(&host_zs);
    exec.div_by_x_minus_z(&mut buf, &zs, log_n, batch);
    let actual = unpack_polys::<H>(&buf, batch, n);

    for b in 0..batch {
        for i in 0..n {
            assert_eq!(
                H::host_to_raw(actual[b][i]),
                H::host_to_raw(expected[b][i]),
                "{label}: mismatch at batch={b} pos={i} (log_n={log_n})"
            );
        }
    }
}

#[test]
fn divide_koala_bear_4() {
    let device = device();
    let log_wg = device.properties.max_units_per_cube.trailing_zeros();

    let log_ns: Vec<u32> = vec![
        1, 4,
        log_wg.min(10),
        (log_wg + 2).min(12),
        (2 * log_wg).min(20),
        (2 * log_wg + 1).min(21),
    ];
    for &log_n in &log_ns {
        cube_vs_host::<HExt4Kb>(&device, log_n, 2, 0xC0FFEE_DEAD_BEEFu64, "KB^4");
    }
}

#[test]
fn divide_baby_bear_spot() {
    let device = device();
    cube_vs_host::<HBaseBb>(&device, 1, 2, 0xBEEF_CAFE_1234u64, "BB log_n=1");
    cube_vs_host::<HBaseBb>(&device, 12, 2, 0xBEEF_CAFE_1234u64, "BB log_n=12");
}

#[test]
fn divide_baby_bear_5_spot() {
    let device = device();
    cube_vs_host::<HExt5Bb>(&device, 10, 2, 0xDEAD_BEEF_5555u64, "BB^5");
}

#[test]
fn divide_on_a_small_device() {
    // Workgroups of 16 threads: three spine levels at 2^15.
    let device = Device::new(DeviceProperties {
        plane_size: 4,
        max_units_per_cube: 16,
        max_shared_memory_size: 49152,
    });
    for log_n in 1..=15 {
        cube_vs_host::<HBaseBb>(&device, log_n, 3, 0x1234_5678u64, "BB small device");
    }
    cube_vs_host::<HExt5Bb>(&device, 13, 2, 0x1234_5678u64, "BB^5 small device");
}

#[test]
fn quotient_comes_first_and_remainder_last() {
    // x^3 + 2 x^2 + 3 x + 4 = (x - 2)(x^2 + 4 x + 11) + 26.
    let mut coeffs: Vec<BabyBear> = [4, 3, 2, 1].iter().map(|&c| BabyBear::from_canonical(c)).collect();
    div_by_x_minus_z_serial(&mut coeffs, BabyBear::from_canonical(2));
    let out: Vec<u32> = coeffs.iter().map(|c| c.to_canonical()).collect();
    assert_eq!(out, vec![11, 4, 1, 26]);

    let exec = PolyDivExec::<BaseElem<BabyBearParameters>>::new(&device(), 2, 1);
    let mut buf: Vec<u32> = [4, 3, 2, 1].iter().map(|&c| BabyBear::from_canonical(c).raw()).collect();
    buf.push(99);
    exec.div_by_x_minus_z(&mut buf, &[BabyBear::from_canonical(2).raw()], 2, 1);
    let out: Vec<u32> = buf[..4].iter().map(|&r| BabyBear::from_raw(r).to_canonical()).collect();
    assert_eq!(out, vec![11, 4, 1, 26]);
    assert_eq!(buf[4], 99);
}

#[test]
fn division_of_short_polynomials() {
    let mut none: Vec<KoalaBear4> = vec![];
    div_by_x_minus_z_serial(&mut none, KoalaBear4::from_canonical([1, 2, 3, 4]));
    assert!(none.is_empty());
    let mut one = vec![KoalaBear4::from_canonical([9, 8, 7, 6])];
    div_by_x_minus_z_serial(&mut one, KoalaBear4::from_canonical([1, 2, 3, 4]));
    assert_eq!(one[0].to_canonical(), [9, 8, 7, 6]);
}

#[test]
fn multiplying_out_gives_the_polynomial_back() {
    let p: Vec<BabyBear4> = (0..20u32)
        .map(|i| BabyBear4::from_canonical([i, i * i + 1, 7 * i, 0xFFFF_FFFF - i]))
        .collect();
    let z = BabyBear4::from_canonical([5, 6, 7, 8]);
    let mut out = p.clone();
    div_by_x_minus_z_serial(&mut out, z);
    let r = out[19];
    // (x - z) q + r, coefficient by coefficient.
    for i in 0..20 {
        let high = if i == 0 { r } else { out[i - 1] };
        let low = if i < 19 { z * out[i] } else { BabyBear4::from_canonical([0; 4]) };
        assert_eq!(high - low, p[i]);
    }
    // The remainder is the value at z.
    let mut value = BabyBear4::from_canonical([0; 4]);
    for &c in p.iter().rev() {
        value = value * z + c;
    }
    assert_eq!(r, value);
}

#[test]
fn division_of_a_sum_is_the_sum_of_the_divisions() {
    let x: Vec<BabyBear5> = (0..9u32)
        .map(|i| BabyBear5::from_canonical([i, 3 * i + 1, 0xFFFF_FFF0 + i, i * i, 5]))
        .collect();
    let y: Vec<BabyBear5> = (0..9u32)
        .map(|i| BabyBear5::from_canonical([7, i, 2 * i, 0x7800_0000 - i, i + 4]))
        .collect();
    let z = BabyBear5::from_canonical([1, 2, 3, 4, 5]);
    let add = |a: &[BabyBear5], b: &[BabyBear5]| -> Vec<BabyBear5> {
        a.iter().zip(b.iter()).map(|(&a, &b)| a + b).collect()
    };
    let mut s = add(&x, &y);
    let (mut x, mut y) = (x, y);
    div_by_x_minus_z_serial(&mut s, z);
    div_by_x_minus_z_serial(&mut x, z);
    div_by_x_minus_z_serial(&mut y, z);
    assert_eq!(s, add(&x, &y));
}

fn bb(x: u32) -> BaseElem<BabyBearParameters> {
    BaseElem::from_raw(BabyBear::from_canonical(x).raw())
}

#[test]
fn pairs_combine_as_affine_maps() {
    // x -> 2 x + 3, then x -> 5 x + 7, is x -> 10 x + 22.
    let both = PairScan::combine(pair(bb(2), bb(3)), pair(bb(5), bb(7)));
    assert_eq!(both.p, bb(10));
    assert_eq!(both.a, bb(22));
    let id = PairScan::<BaseElem<BabyBearParameters>>::identity();
    let same = PairScan::combine(id, both);
    assert_eq!((same.p, same.a), (both.p, both.a));
    let same = PairScan::combine(both, id);
    assert_eq!((same.p, same.a), (both.p, both.a));
}

#[test]
fn layouts_hold_the_limbs_in_order() {
    let line = <BaseElem<BabyBearParameters> as PairScanLayout>::pack(pair(bb(2), bb(3)));
    assert_eq!((line.l0, line.l1), (bb(2).raw, bb(3).raw));
    let p = Ext4::<BabyBear4Parameters>::from_raw([1, 2, 3, 4]);
    let a = Ext4::<BabyBear4Parameters>::from_raw([5, 6, 7, 8]);
    let line = Ext4::<BabyBear4Parameters>::pack(pair(p, a));
    assert_eq!((line.l0, line.l3, line.l4, line.l7), (1, 4, 5, 8));
    let back = Ext4::<BabyBear4Parameters>::unpack(line);
    assert_eq!((back.p, back.a), (p, a));
    let p = Ext5::<BabyBear5Parameters>::from_raw([1, 2, 3, 4, 5]);
    let a = Ext5::<BabyBear5Parameters>::from_raw([6, 7, 8, 9, 10]);
    let line = Ext5::<BabyBear5Parameters>::pack(pair(p, a));
    assert_eq!((line.l4, line.l5, line.l9), (5, 6, 10));
    assert_eq!([line.l10, line.l11, line.l12, line.l13, line.l14, line.l15], [0; 6]);
    let back = Ext5::<BabyBear5Parameters>::unpack(line);
    assert_eq!((back.p, back.a), (p, a));
    assert_eq!(<Ext5<BabyBear5Parameters> as PairScanLayout>::LANES, 16);
    assert_eq!(<Ext4<KoalaBear4Parameters> as PairScanLayout>::LANES, 8);
    assert_eq!(<BaseElem<KoalaBearParameters> as PairScanLayout>::LANES, 2);
    assert_eq!(Ext4::<KoalaBear4Parameters>::alloc_scratch(3).len(), 3);
}
