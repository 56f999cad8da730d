//! The transforms, against Plonky3's.

use p3_dft::{Radix2DFTSmallBatch, Radix2Dit, TwoAdicSubgroupDft};
use p3_field::{PrimeField32, TwoAdicField};

use r0::cube::device::{Device, DeviceProperties};
use r0::field::baby_bear::{BabyBear5, BabyBearParameters};
use r0::field::ext::ExtShape;
use r0::field::koala_bear::{KoalaBear4, KoalaBearParameters};
use r0::field::monty::{MontyField, MontyParameters};
use r0::ntt::executor::NttExec;
use r0::ntt::fwd_pass::ntt_fwd_pass;
use r0::ntt::inv_pass::ntt_inv_pass;
use r0::ntt::monolithic::{ntt_monolithic, ntt_monolithic_inverse};
use r0::ntt::plan::{NttPlan, PassConfig};
use r0::ntt::planner::{decompose_passes, pick_log_wg as planner_log_wg, NttPlanner};
use r0::ntt::twiddles::{
    bit_reverse_in_place, build_fwd_twiddles, build_inv_twiddles, build_partial_fwd_twiddles,
    build_partial_inv_twiddles, n_inv,
};
use r0::ntt::two_pass::{intt_pass1, intt_pass2};

struct Bb;

struct Kb;

trait Bridge {
    type P: MontyParameters;
    type P3: PrimeField32 + TwoAdicField + Copy;
    fn p3_from_canonical(x: u32) -> Self::P3;
}

impl Bridge for Bb {
    type P = BabyBearParameters;
    type P3 = p3_baby_bear::BabyBear;
    fn p3_from_canonical(x: u32) -> Self::P3 {
        p3_baby_bear::BabyBear::new(x)
    }
}

impl Bridge for Kb {
    type P = KoalaBearParameters;
    type P3 = p3_koala_bear::KoalaBear;
    fn p3_from_canonical(x: u32) -> Self::P3 {
        p3_koala_bear::KoalaBear::new(x)
    }
}

fn device() -> Device {
    Device::new(DeviceProperties {
        plane_size: 32,
        max_units_per_cube: 1024,
        max_shared_memory_size: 49152,
    })
}

fn pseudo_random_canonical<P: MontyParameters>(n: usize, batch_idx: usize) -> Vec<u32> {
    (0..n as u32)
        .map(|i| {
            let seed = i.wrapping_mul(0x9E3779B1)
                ^ (batch_idx as u32).wrapping_mul(0x517CC1B7)
                ^ 0xDEADBEEF;
            seed % P::PRIME
        })
        .collect()
}

/// Bit-reversed input rows in Montgomery form, and the values that Plonky3
/// has for them.
fn forward_case_with<B: Bridge, D: TwoAdicSubgroupDft<B::P3>>(
    dft: &D,
    log_n: u32,
    batch: usize,
) -> (Vec<u32>, Vec<u32>) {
    let n = 1usize << log_n;
    let mut all_input = Vec::with_capacity(batch * n);
    let mut expected = Vec::with_capacity(batch * n);
    let mut order: Vec<u32> = (0..n as u32).collect();
    bit_reverse_in_place(&mut order);
    for b in 0..batch {
        let canonical = pseudo_random_canonical::<B::P>(n, b);
        all_input.extend(
            order
                .iter()
                .map(|&i| MontyField::<B::P>::from_canonical(canonical[i as usize]).raw()),
        );

        let p3_in: Vec<B::P3> = canonical.iter().map(|&v| B::p3_from_canonical(v)).collect();
        let p3_out = dft.dft(p3_in);
        expected.extend(p3_out.iter().map(|f| f.as_canonical_u32()));
    }
    (all_input, expected)
}

fn forward_case<B: Bridge>(log_n: u32, batch: usize) -> (Vec<u32>, Vec<u32>) {
    forward_case_with::<B, _>(&Radix2Dit::<B::P3>::default(), log_n, batch)
}

fn canonical<P: MontyParameters>(raws: &[u32]) -> Vec<u32> {
    raws.iter().map(|&raw| MontyField::<P>::from_raw(raw).to_canonical()).collect()
}

fn roundtrip_input<P: MontyParameters>(log_n: u32, batch: usize) -> Vec<u32> {
    let n = 1usize << log_n;
    let mut all_input = Vec::with_capacity(batch * n);
    for b in 0..batch {
        for i in 0..n as u32 {
            let seed =
                i.wrapping_mul(0x9E3779B1) ^ (b as u32).wrapping_mul(0x517CC1B7) ^ 0xDEADBEEF;
            all_input.push(MontyField::<P>::from_canonical(seed % P::PRIME).raw());
        }
    }
    all_input
}

fn check_forward_with<B: Bridge, D: TwoAdicSubgroupDft<B::P3>>(
    dft: &D,
    log_n: u32,
    batch: usize,
) {
    let exec = NttExec::<B::P>::new(&device());
    let (mut buf, expected) = forward_case_with::<B, D>(dft, log_n, batch);
    exec.forward(&mut buf, log_n, batch);
    assert_eq!(buf.len(), expected.len());
    let n = 1usize << log_n;
    for (actual, expected) in buf.chunks(n).zip(expected.chunks(n)) {
        assert_eq!(
            canonical::<B::P>(actual).iter().zip(expected.iter()).position(|(a, b)| a != b),
            None,
            "forward mismatch: log_n={log_n}, batch={batch}"
        );
    }
}

fn check_forward<B: Bridge>(log_n: u32, batch: usize) {
    check_forward_with::<B, _>(&Radix2Dit::<B::P3>::default(), log_n, batch);
}

fn check_roundtrip<P: MontyParameters>(log_n: u32, batch: usize) {
    let exec = NttExec::<P>::new(&device());
    let original = roundtrip_input::<P>(log_n, batch);
    let mut buf = original.clone();
    exec.forward(&mut buf, log_n, batch);
    exec.inverse(&mut buf, log_n, batch);
    assert!(buf == original, "roundtrip failed: log_n={log_n}, batch={batch}");
}

#[test]
fn forward_spot() {
    for log_n in [1, 10, 14, 20, 22] {
        check_forward::<Bb>(log_n, 1);
    }
}

#[test]
fn forward_batch() {
    // 64 MiB of scratch hold 16 rows, so the last case takes seven rounds.
    let dft = Radix2DFTSmallBatch::default();
    for batch in [1, 3, 101] {
        check_forward_with::<Bb, _>(&dft, 20, batch);
    }
}

#[test]
fn roundtrip() {
    check_roundtrip::<BabyBearParameters>(20, 1);
}

// -- The planner --

fn check_forward_planner(log_n: u32, batch: usize) {
    let planner = NttPlanner::<BabyBearParameters>::new(0);
    let (mut buf, expected) = forward_case::<Bb>(log_n, batch);
    planner.forward(&mut buf, log_n, batch);
    let actual = canonical::<BabyBearParameters>(&buf);
    assert!(actual == expected, "planner forward mismatch at log_n={log_n}, batch={batch}");
}

fn check_roundtrip_planner(log_n: u32, batch: usize) {
    let planner = NttPlanner::<BabyBearParameters>::new(0);
    let original = roundtrip_input::<BabyBearParameters>(log_n, batch);
    let mut buf = original.clone();
    planner.forward(&mut buf, log_n, batch);
    planner.inverse(&mut buf, log_n, batch);
    assert!(buf == original, "roundtrip failed at log_n={log_n}, batch={batch}");
}

#[test]
fn forward_single_pass_wgpu() {
    check_forward_planner(8, 1);
    check_forward_planner(10, 3);
}

#[test]
fn forward_two_pass_wgpu() {
    check_forward_planner(14, 1);
    check_forward_planner(14, 4);
}

#[test]
fn forward_cuda() {
    check_forward_planner(20, 2);
}

#[test]
fn roundtrip_single_pass_wgpu() {
    check_roundtrip_planner(8, 1);
    check_roundtrip_planner(10, 5);
}

#[test]
fn roundtrip_two_pass_wgpu() {
    check_roundtrip_planner(14, 1);
    check_roundtrip_planner(14, 4);
}

#[test]
fn roundtrip_cuda() {
    check_roundtrip_planner(20, 2);
}

#[test]
fn planner_decomposes_by_size() {
    assert_eq!(decompose_passes(10), ([10, 0, 0, 0], 1));
    assert_eq!(decompose_passes(14), ([7, 7, 0, 0], 2));
    assert_eq!(planner_log_wg(10), 8);
    assert_eq!(planner_log_wg(4), 3);
    assert_eq!(planner_log_wg(0), 0);
    for log_n in 1..=24u32 {
        let (sizes, count) = decompose_passes(log_n);
        assert_eq!(sizes.iter().sum::<u32>(), log_n);
        assert!(sizes[..count].iter().all(|&s| s > 0));
    }
}

// -- Extension fields --

#[test]
fn round_trip_kb4() {
    let log_n = 8u32;
    let batch = 1usize;
    let n = 1usize << log_n;
    let total = batch * n * KoalaBear4::DEGREE as usize;

    let exec = NttExec::<KoalaBearParameters>::new(&device());
    let original: Vec<u32> = (0..total)
        .map(|i| {
            MontyField::<KoalaBearParameters>::from_canonical(
                (i as u32).wrapping_mul(0x9E37_79B1).wrapping_add(0xDEADBEEF),
            )
            .raw()
        })
        .collect();
    let mut buf = original.clone();
    exec.forward_ext::<KoalaBear4>(&mut buf, log_n, batch);
    assert_ne!(buf, original);
    exec.inverse_ext::<KoalaBear4>(&mut buf, log_n, batch);
    assert_eq!(buf, original, "round-trip mismatch for KB^4");
}

#[test]
fn extension_values_are_those_of_the_polynomial() {
    // p = a + b x over BB^5, at w = -1: bit reversal leaves two entries.
    let exec = NttExec::<BabyBearParameters>::new(&device());
    let a = BabyBear5::from_canonical([1, 2, 3, 4, 5]);
    let b = BabyBear5::from_canonical([10, 20, 30, 40, 50]);
    let mut buf = Vec::new();
    for c in 0..5 {
        buf.push(a.raw()[c]);
        buf.push(b.raw()[c]);
    }
    exec.forward_ext::<BabyBear5>(&mut buf, 1, 1);
    for c in 0..5 {
        assert_eq!(buf[2 * c], (a + b).raw()[c]);
        assert_eq!(buf[2 * c + 1], (a - b).raw()[c]);
    }
}

// -- Explicit plans --

#[test]
fn every_way_to_cut_the_stages_gives_the_same() {
    let exec = NttExec::<KoalaBearParameters>::new(&device());
    let log_n = 9u32;
    let batch = 5usize;
    let (input, expected) = forward_case::<Kb>(log_n, batch);
    for cuts in [vec![9], vec![4, 5], vec![5, 4], vec![3, 3, 3], vec![1, 2, 6], vec![2, 3, 3, 1]] {
        for sub_batch in [1usize, 2, 5] {
            let mut offset = 0;
            let mut passes = Vec::new();
            for &log_pass in &cuts {
                let z_count = if cuts.len() > 1 { 2 } else { 1 };
                passes.push(PassConfig { log_pass, stage_offset: offset, z_count, log_wg: 0 });
                offset += log_pass;
            }
            let plan = NttPlan { log_n, passes, sub_batch };
            let mut buf = input.clone();
            exec.forward_with_plan(&mut buf, &plan, batch);
            assert_eq!(canonical::<KoalaBearParameters>(&buf), expected, "cuts {cuts:?}");
            exec.inverse_with_plan(&mut buf, &plan, batch);
            assert_eq!(buf, input, "cuts {cuts:?}");
        }
    }
}

#[test]
fn rows_beyond_the_batch_are_left_alone() {
    let exec = NttExec::<BabyBearParameters>::new(&device());
    let (mut buf, _) = forward_case::<Bb>(12, 3);
    let before = buf.clone();
    exec.forward(&mut buf, 12, 2);
    assert_eq!(buf[2 << 12..], before[2 << 12..]);
    assert_ne!(buf[..2 << 12], before[..2 << 12]);
}

#[test]
fn limits_are_those_of_the_device() {
    let exec = NttExec::<BabyBearParameters>::new(&device());
    assert_eq!(exec.limits().max_shared_mem_bytes, 49152);
    assert_eq!(exec.limits().max_threads_per_wg, 1024);
    assert_eq!(exec.limits().scratch_bytes, 64 << 20);
}

#[test]
fn single_passes_of_four_points() {
    let log_n = 2;
    let (input, expected) = forward_case::<Bb>(log_n, 2);
    let mut out = vec![0u32; 8];
    let partial = build_partial_fwd_twiddles::<BabyBearParameters>(log_n);
    ntt_fwd_pass::<BabyBearParameters>(&input, &mut out, &partial, log_n, log_n, 0, 1, 1, 2);
    assert_eq!(canonical::<BabyBearParameters>(&out), expected);
    let mut back = vec![0u32; 8];
    let partial = build_partial_inv_twiddles::<BabyBearParameters>(log_n);
    let inv_n = [n_inv::<BabyBearParameters>(log_n)];
    ntt_inv_pass::<BabyBearParameters>(&out, &mut back, &partial, &inv_n, log_n, log_n, 0, 1, 1, 2);
    assert_eq!(back, input);
}

#[test]
fn monolithic_kernels() {
    for log_n in 1..=10u32 {
        let (input, expected) = forward_case::<Kb>(log_n, 1);
        let mut data = input.clone();
        let fwd = build_fwd_twiddles::<KoalaBearParameters>(log_n);
        let inv = build_inv_twiddles::<KoalaBearParameters>(log_n);
        ntt_monolithic::<KoalaBearParameters>(&mut data, &fwd, log_n, log_n - 1);
        assert_eq!(canonical::<KoalaBearParameters>(&data), expected);
        let inv_n = [n_inv::<KoalaBearParameters>(log_n)];
        ntt_monolithic_inverse::<KoalaBearParameters>(&mut data, &inv, &inv_n, log_n, log_n - 1);
        assert_eq!(data, input);
    }
}

// -- Two passes --

fn pick_log_n1(log_n: u32) -> u32 {
    log_n / 2
}

fn pick_log_wg(log_pass_size: u32) -> u32 {
    log_pass_size.saturating_sub(1).min(8)
}

fn check_two_pass_forward<B: Bridge>(log_n: u32) {
    let n = 1usize << log_n;
    let canonical_in: Vec<u32> = (0..n as u32)
        .map(|i| (i.wrapping_mul(0x9E3779B1) ^ 0xDEADBEEF) % B::P::PRIME)
        .collect();
    let p3_in: Vec<B::P3> = canonical_in.iter().map(|&v| B::p3_from_canonical(v)).collect();
    let p3_out = Radix2Dit::<B::P3>::default().dft(p3_in);
    let expected: Vec<u32> = p3_out.iter().map(|f| f.as_canonical_u32()).collect();

    let mut field: Vec<MontyField<B::P>> =
        canonical_in.iter().map(|&v| MontyField::<B::P>::from_canonical(v)).collect();
    bit_reverse_in_place(&mut field);
    let buf_a: Vec<u32> = field.iter().map(|f| f.raw()).collect();
    let partial = build_partial_fwd_twiddles::<B::P>(log_n);

    let log_n1 = pick_log_n1(log_n);
    let log_n2 = log_n - log_n1;
    let mut buf_b = vec![0u32; n];
    let mut buf_c = vec![0u32; n];
    ntt_fwd_pass::<B::P>(
        &buf_a, &mut buf_b, &partial, log_n, log_n1, 0, pick_log_wg(log_n1), 1, 1,
    );
    ntt_fwd_pass::<B::P>(
        &buf_b, &mut buf_c, &partial, log_n, log_n2, log_n1, pick_log_wg(log_n2), 1, 1,
    );
    let actual = canonical::<B::P>(&buf_c);
    assert!(actual == expected, "forward mismatch at log_n={log_n}");
}

fn check_two_pass_inverse<B: Bridge>(log_n: u32) {
    let n = 1usize << log_n;
    let natural_evals: Vec<u32> = (0..n as u32)
        .map(|i| (i.wrapping_mul(0xC2B2AE3D) ^ 0x85EBCA77) % B::P::PRIME)
        .collect();
    let p3_in: Vec<B::P3> = natural_evals.iter().map(|&v| B::p3_from_canonical(v)).collect();
    let p3_out = Radix2Dit::<B::P3>::default().idft(p3_in);
    let mut expected: Vec<u32> = p3_out.iter().map(|f| f.as_canonical_u32()).collect();
    bit_reverse_in_place(&mut expected);

    let mut data: Vec<u32> =
        natural_evals.iter().map(|&v| MontyField::<B::P>::from_canonical(v).raw()).collect();
    let inv_twiddles = build_inv_twiddles::<B::P>(log_n);
    let inv_n = [n_inv::<B::P>(log_n)];
    let log_n1 = pick_log_n1(log_n);
    let log_n2 = log_n - log_n1;
    intt_pass1::<B::P>(&mut data, &inv_twiddles, &inv_n, log_n, log_n1, pick_log_wg(log_n2), 1);
    intt_pass2::<B::P>(&mut data, &inv_twiddles, log_n, log_n1, pick_log_wg(log_n1), 1);
    let actual = canonical::<B::P>(&data);
    assert!(actual == expected, "inverse mismatch at log_n={log_n}");
}

fn check_all<B: Bridge>(log_ns: [u32; 5]) {
    for log_n in log_ns {
        check_two_pass_forward::<B>(log_n);
        check_two_pass_inverse::<B>(log_n);
    }
}

#[test]
fn bb_wgpu() {
    check_all::<Bb>([11u32, 12, 14, 16, 20]);
}

#[test]
fn kb_wgpu() {
    check_all::<Kb>([11u32, 12, 14, 16, 20]);
}

#[test]
fn bb_cuda() {
    check_all::<Bb>([11u32, 12, 14, 16, 20]);
}

#[test]
fn bb_cpu() {
    check_two_pass_forward::<Bb>(14);
    check_two_pass_inverse::<Bb>(14);
}

#[test]
fn kb_cpu() {
    check_two_pass_forward::<Kb>(14);
    check_two_pass_inverse::<Kb>(14);
}
