//! Block scans and the recipe-driven scan executor over `(u32, +)`.

use r0::cube::device::{Device, DeviceProperties};
use r0::cube::scan::{block_inclusive_reduce, block_inclusive_scan, plane_inclusive_scan};
use r0::cube::scan_exec::{
    num_blocks_at_level, spine_bytes_needed, spine_levels_needed, ScanExec,
};
use r0::cube::sum::{SumU32, SumU32Recipe};

fn device(plane_size: u32, max_units_per_cube: u32) -> Device {
    Device::new(DeviceProperties { plane_size, max_units_per_cube, max_shared_memory_size: 49152 })
}

fn host_prefix_sum(input: &[u32]) -> Vec<u32> {
    let mut acc = 0u32;
    input
        .iter()
        .map(|&x| {
            acc = acc.wrapping_add(x);
            acc
        })
        .collect()
}

fn run_block_scan(log_warp: u32, log_wg: u32) {
    let num_warps = 1u32 << (log_wg - log_warp);
    let n = 1usize << log_wg;

    let input: Vec<u32> = (1..=n as u32).collect();
    let expected = host_prefix_sum(&input);

    let values: Vec<SumU32> = input.iter().map(|&v| SumU32 { v }).collect();
    let mut scratch = vec![0u32; num_warps as usize];
    let scanned = block_inclusive_scan::<SumU32>(&values, &mut scratch, log_warp, log_wg);
    let actual: Vec<u32> = scanned.iter().map(|s| s.v).collect();
    assert_eq!(
        actual, expected,
        "block_inclusive_scan mismatch (log_warp={log_warp}, log_wg={log_wg})"
    );
}

fn run_block_reduce(log_warp: u32, log_wg: u32) {
    let num_warps = 1u32 << (log_wg - log_warp);
    let n = 1usize << log_wg;

    let input: Vec<u32> = (1..=n as u32).collect();
    let total: u32 = input.iter().copied().fold(0u32, u32::wrapping_add);

    let values: Vec<SumU32> = input.iter().map(|&v| SumU32 { v }).collect();
    let mut scratch = vec![0u32; num_warps as usize];
    let actual = block_inclusive_reduce::<SumU32>(&values, &mut scratch, log_warp, log_wg);
    assert_eq!(
        actual.v, total,
        "block_inclusive_reduce mismatch (log_warp={log_warp}, log_wg={log_wg})"
    );
    assert_eq!(scratch[0], total);
}

#[test]
fn smoke() {
    for device in [device(32, 1024), device(32, 256), device(4, 16)] {
        let plane_size = device.properties.plane_size;
        assert!(plane_size.is_power_of_two() && plane_size >= 4);
        let log_warp = plane_size.trailing_zeros();
        let max_wg = device.properties.max_units_per_cube;
        let log_wg_max = max_wg.trailing_zeros();

        // Single-warp baseline.
        run_block_scan(log_warp, log_warp);
        run_block_reduce(log_warp, log_warp);

        // Largest the device allows.
        let log_wg_max_safe = log_wg_max.min(2 * log_warp);
        if log_wg_max_safe > log_warp {
            run_block_scan(log_warp, log_wg_max_safe);
            run_block_reduce(log_warp, log_wg_max_safe);
        }
    }
}

fn run_case(exec: &ScanExec<SumU32Recipe>, log_n: u32, batch: usize, label: &str) {
    let n = 1usize << log_n;
    let total = batch * n;

    let input: Vec<u32> = (0..total as u32)
        .map(|i| i.wrapping_mul(2654435761).wrapping_add(1))
        .collect();
    let mut expected = vec![0u32; total];
    for b in 0..batch {
        let scanned = host_prefix_sum(&input[b * n..(b + 1) * n]);
        expected[b * n..(b + 1) * n].copy_from_slice(&scanned);
    }

    let mut actual = vec![0u32; total];
    exec.run(&[0u32], &input, &mut actual, log_n, batch);
    assert_eq!(actual, expected, "scan mismatch in `{label}` (log_n={log_n}, batch={batch})");
}

#[test]
fn smoke_sum_recipe() {
    for device in [device(32, 256), device(4, 16)] {
        assert!(device.properties.plane_size.is_power_of_two());
        let log_wg = device.properties.max_units_per_cube.trailing_zeros();

        let log_n_max = 2 * log_wg + 2;
        let exec = ScanExec::<SumU32Recipe>::new(&device, log_n_max, 4);

        run_case(&exec, log_wg, 2, "single-block");
        run_case(&exec, log_wg + 2, 2, "L=0 multi-block");
        run_case(&exec, 2 * log_wg + 1, 2, "L=1 multi-block");
    }
}

#[test]
fn deep_spine_and_short_rows() {
    let exec = ScanExec::<SumU32Recipe>::new(&device(4, 16), 15, 3);
    for log_n in 1..=15 {
        run_case(&exec, log_n, 3, "every length");
    }
}

#[test]
fn plane_scan_of_four() {
    let values: Vec<SumU32> = [1u32, 10, 100, 1000].iter().map(|&v| SumU32 { v }).collect();
    let scanned = plane_inclusive_scan::<SumU32>(&values, 2);
    let sums: Vec<u32> = scanned.iter().map(|s| s.v).collect();
    assert_eq!(sums, vec![1, 11, 111, 1111]);
}

#[test]
fn block_scan_leaves_plane_prefixes_in_scratch() {
    let values: Vec<SumU32> = (1..=16u32).map(|v| SumU32 { v }).collect();
    let mut scratch = vec![77u32; 5];
    block_inclusive_scan::<SumU32>(&values, &mut scratch, 2, 4);
    assert_eq!(scratch, vec![10, 36, 78, 136, 77]);
    let mut scratch = vec![77u32; 5];
    block_inclusive_reduce::<SumU32>(&values, &mut scratch, 2, 4);
    assert_eq!(scratch, vec![136, 26, 42, 58, 77]);
    let mut scratch = vec![77u32; 2];
    block_inclusive_scan::<SumU32>(&values, &mut scratch, 4, 4);
    assert_eq!(scratch, vec![77, 77]);
}

#[test]
fn spine_levels_and_blocks() {
    // Workgroups of 2^8: one spine level up to 2^16, two up to 2^24.
    assert_eq!(spine_levels_needed(8, 8), 0);
    assert_eq!(spine_levels_needed(9, 8), 0);
    assert_eq!(spine_levels_needed(16, 8), 0);
    assert_eq!(spine_levels_needed(17, 8), 1);
    assert_eq!(spine_levels_needed(24, 8), 1);
    assert_eq!(spine_levels_needed(25, 8), 2);
    assert_eq!(num_blocks_at_level(20, 8, 0), 4096);
    assert_eq!(num_blocks_at_level(20, 8, 1), 16);
    assert_eq!(num_blocks_at_level(20, 8, 2), 1);
}

#[test]
fn spine_levels_are_laid_out_one_after_the_other() {
    let exec = ScanExec::<SumU32Recipe>::new(&device(32, 256), 20, 3);
    // Level 0 takes 3 * 4096 cells of four bytes.
    assert_eq!(exec.spine_offsets(), &vec![0u64, 49152]);
    // Level 1 takes 3 * 16 more.
    assert_eq!(spine_bytes_needed::<SumU32Recipe>(20, 8, 3), 49152 + 192);
}
