//! Plans: splitting, validation and the heuristic.

use r0::ntt::enumerate::{
    compositions, enumerate_params, enumerate_valid_plans, max_fitting_log_pass,
};
use r0::ntt::plan::{
    balanced_split, best_log_wg, best_z_count, compute_sub_batch, has_plan, heuristic_score,
    heuristic_z_count, plan_heuristic, validate_plan, DeviceLimits, NttPlan, PassConfig,
    PlanError,
};
use r0::ntt::score::INFINITY;

fn cuda_like_limits() -> DeviceLimits {
    DeviceLimits {
        max_shared_mem_bytes: 49152, // 48 KiB
        max_threads_per_wg: 1024,
        scratch_bytes: 64 * 1024 * 1024, // 64 MiB
    }
}

#[test]
fn balanced_split_even() {
    assert_eq!(balanced_split(20, 2), vec![10, 10]);
    assert_eq!(balanced_split(21, 3), vec![7, 7, 7]);
}

#[test]
fn balanced_split_remainder() {
    assert_eq!(balanced_split(21, 2), vec![11, 10]);
    assert_eq!(balanced_split(20, 3), vec![7, 7, 6]);
}

#[test]
fn validate_valid_plan() {
    let limits = cuda_like_limits();
    let plan = NttPlan {
        log_n: 20,
        passes: vec![
            PassConfig { log_pass: 10, stage_offset: 0, z_count: 8, log_wg: 8 },
            PassConfig { log_pass: 10, stage_offset: 10, z_count: 8, log_wg: 8 },
        ],
        sub_batch: 4,
    };
    assert!(validate_plan(&plan, &limits).is_ok());
}

#[test]
fn validate_bits_mismatch() {
    let limits = cuda_like_limits();
    let plan = NttPlan {
        log_n: 20,
        passes: vec![
            PassConfig { log_pass: 10, stage_offset: 0, z_count: 8, log_wg: 8 },
            PassConfig { log_pass: 11, stage_offset: 10, z_count: 4, log_wg: 8 },
        ],
        sub_batch: 4,
    };
    let errs = validate_plan(&plan, &limits).unwrap_err();
    assert!(errs.iter().any(|e| matches!(e, PlanError::BitsMismatch { .. })));
}

#[test]
fn validate_shared_mem_exceeded() {
    let limits = cuda_like_limits();
    // log_pass=10, z_count=16: 16 * 1024 * 4 = 65536 > 49152
    let plan = NttPlan {
        log_n: 20,
        passes: vec![
            PassConfig { log_pass: 10, stage_offset: 0, z_count: 16, log_wg: 8 },
            PassConfig { log_pass: 10, stage_offset: 10, z_count: 8, log_wg: 8 },
        ],
        sub_batch: 4,
    };
    let errs = validate_plan(&plan, &limits).unwrap_err();
    assert!(errs.iter().any(|e| matches!(e, PlanError::SharedMemExceeded { .. })));
}

#[test]
fn validate_z_count_exceeds_n_other() {
    let limits = cuda_like_limits();
    // Single pass: n_other = 1, z_count must be 1.
    let plan = NttPlan {
        log_n: 8,
        passes: vec![
            PassConfig { log_pass: 8, stage_offset: 0, z_count: 2, log_wg: 7 },
        ],
        sub_batch: 1,
    };
    let errs = validate_plan(&plan, &limits).unwrap_err();
    assert!(errs.iter().any(|e| matches!(e, PlanError::ZCountExceedsNOther { .. })));
}

#[test]
fn heuristic_prefers_fewer_passes_when_z_ok() {
    // 2-pass with z=8, wg=9 should score better than 3-pass with z=8, wg=6.
    let plan2 = NttPlan {
        log_n: 20,
        passes: vec![
            PassConfig { log_pass: 10, stage_offset: 0, z_count: 8, log_wg: 9 },
            PassConfig { log_pass: 10, stage_offset: 10, z_count: 8, log_wg: 9 },
        ],
        sub_batch: 1,
    };
    let plan3 = NttPlan {
        log_n: 20,
        passes: vec![
            PassConfig { log_pass: 7, stage_offset: 0, z_count: 8, log_wg: 6 },
            PassConfig { log_pass: 7, stage_offset: 7, z_count: 8, log_wg: 6 },
            PassConfig { log_pass: 6, stage_offset: 14, z_count: 8, log_wg: 5 },
        ],
        sub_batch: 1,
    };
    assert!(heuristic_score(&plan2) < heuristic_score(&plan3));
}

#[test]
fn heuristic_penalizes_low_wg() {
    // Same plan but wg=9 should beat wg=6 (log_wg is the dominant factor).
    let plan_wg9 = NttPlan {
        log_n: 20,
        passes: vec![
            PassConfig { log_pass: 10, stage_offset: 0, z_count: 8, log_wg: 9 },
            PassConfig { log_pass: 10, stage_offset: 10, z_count: 8, log_wg: 9 },
        ],
        sub_batch: 1,
    };
    let plan_wg6 = NttPlan {
        log_n: 20,
        passes: vec![
            PassConfig { log_pass: 10, stage_offset: 0, z_count: 8, log_wg: 6 },
            PassConfig { log_pass: 10, stage_offset: 10, z_count: 8, log_wg: 6 },
        ],
        sub_batch: 1,
    };
    assert!(heuristic_score(&plan_wg9) < heuristic_score(&plan_wg6));
}

#[test]
fn heuristic_penalizes_low_z() {
    // Same log_wg, z=8 should beat z=1.
    let plan_z8 = NttPlan {
        log_n: 20,
        passes: vec![
            PassConfig { log_pass: 10, stage_offset: 0, z_count: 8, log_wg: 9 },
            PassConfig { log_pass: 10, stage_offset: 10, z_count: 8, log_wg: 9 },
        ],
        sub_batch: 1,
    };
    let plan_z1 = NttPlan {
        log_n: 20,
        passes: vec![
            PassConfig { log_pass: 10, stage_offset: 0, z_count: 1, log_wg: 9 },
            PassConfig { log_pass: 10, stage_offset: 10, z_count: 1, log_wg: 9 },
        ],
        sub_batch: 1,
    };
    assert!(heuristic_score(&plan_z8) < heuristic_score(&plan_z1));
}

#[test]
fn plan_heuristic_produces_valid_plan() {
    let limits = cuda_like_limits();
    for log_n in 1..=24u32 {
        let plan = plan_heuristic(log_n, 10, &limits);
        assert!(
            validate_plan(&plan, &limits).is_ok(),
            "heuristic produced invalid plan for log_n={log_n}: {:?}",
            validate_plan(&plan, &limits).unwrap_err()
        );
    }
}

#[test]
fn plan_heuristic_single_pass_for_small() {
    let limits = cuda_like_limits();
    for log_n in 1..=10u32 {
        let plan = plan_heuristic(log_n, 1, &limits);
        assert_eq!(plan.passes.len(), 1, "expected single pass for log_n={log_n}");
        assert_eq!(plan.passes[0].z_count, 1, "single pass must have z=1");
    }
}

#[test]
fn best_z_count_respects_shared_mem() {
    let limits = cuda_like_limits();
    // log_pass=10: n_pass = 1024, bytes = 4096. 48K/4K = 12 → floor to 8.
    // Enumeration cap=32: returns 8. Heuristic cap=8: returns 8.
    assert_eq!(best_z_count(10, 20, &limits), 8);
    // log_pass=12: n_pass = 4096, bytes = 16384. 48K/16K = 3 → floor to 2.
    assert_eq!(best_z_count(12, 20, &limits), 2);
    // log_pass=14: n_pass = 16384, bytes = 65536 > 48K → 0 (can't fit).
    assert_eq!(best_z_count(14, 20, &limits), 0);
}

#[test]
fn best_z_count_respects_n_other() {
    let limits = cuda_like_limits();
    // log_n=12, log_pass=10: n_other = 4. Shared allows 8 but n_other caps at 4.
    assert_eq!(best_z_count(10, 12, &limits), 4);
}

#[test]
fn heuristic_z_count_caps_at_8() {
    // On a device with lots of shared mem, heuristic still caps z at 8.
    let big_shared = DeviceLimits {
        max_shared_mem_bytes: 100 * 1024,
        max_threads_per_wg: 1024,
        scratch_bytes: 64 * 1024 * 1024,
    };
    // log_pass=10: 100K / 4K = 25 → best_z_count returns 16, but
    // heuristic_z_count caps at 8.
    assert_eq!(best_z_count(10, 20, &big_shared), 16);
    assert_eq!(heuristic_z_count(10, 20, &big_shared), 8);
}

#[test]
fn sub_batch_capped_by_scratch() {
    let limits = DeviceLimits {
        max_shared_mem_bytes: 49152,
        max_threads_per_wg: 1024,
        scratch_bytes: 4 * 1024 * 1024, // 4 MiB
    };
    // log_n=20: N = 1M elements = 4 MiB. Only 1 fits in scratch.
    let plan = plan_heuristic(20, 100, &limits);
    assert_eq!(plan.sub_batch, 1);
}

fn pass(log_pass: u32, stage_offset: u32, z_count: u32, log_wg: u32) -> PassConfig {
    PassConfig { log_pass, stage_offset, z_count, log_wg }
}

fn errors(plan: NttPlan) -> Vec<PlanError> {
    validate_plan(&plan, &cuda_like_limits()).unwrap_err()
}

#[test]
fn validate_log_n_zero_and_empty() {
    // Either ends the validation.
    let plan = NttPlan { log_n: 0, passes: vec![], sub_batch: 0 };
    assert_eq!(errors(plan), vec![PlanError::LogNZero]);
    let plan = NttPlan { log_n: 8, passes: vec![], sub_batch: 0 };
    assert_eq!(errors(plan), vec![PlanError::EmptyPlan]);
}

#[test]
fn validate_log_pass_zero() {
    let plan = NttPlan { log_n: 8, passes: vec![pass(8, 0, 1, 7), pass(0, 8, 1, 0)], sub_batch: 1 };
    let errs = errors(plan);
    assert!(errs.contains(&PlanError::LogPassZero { pass: 1 }));
}

#[test]
fn validate_stage_offset_mismatch() {
    let plan = NttPlan { log_n: 20, passes: vec![pass(10, 0, 8, 8), pass(10, 9, 8, 8)], sub_batch: 1 };
    assert_eq!(
        errors(plan),
        vec![PlanError::StageOffsetMismatch { pass: 1, expected: 10, got: 9 }]
    );
}

#[test]
fn validate_workgroup_too_large() {
    let plan = NttPlan { log_n: 24, passes: vec![pass(12, 0, 2, 11), pass(12, 12, 2, 8)], sub_batch: 1 };
    assert_eq!(
        errors(plan),
        vec![PlanError::WorkgroupTooLarge { pass: 0, threads: 2048, limit: 1024 }]
    );
}

#[test]
fn validate_reports_exact_sizes() {
    let plan = NttPlan { log_n: 20, passes: vec![pass(10, 0, 16, 8), pass(11, 10, 8, 8)], sub_batch: 4 };
    let errs = errors(plan);
    assert!(errs.contains(&PlanError::SharedMemExceeded { pass: 0, needed: 65536, limit: 49152 }));
    assert!(errs.contains(&PlanError::BitsMismatch { expected: 20, got: 21 }));
}

/// The score, in the arithmetic of the machine.
fn machine_score(passes: &[PassConfig]) -> f64 {
    let mut score = passes.len() as f64 * 10.0;
    for p in passes {
        score += 2.0 / p.z_count as f64;
        score += 5.0 * (10u32.saturating_sub(p.log_wg)) as f64;
    }
    score
}

#[test]
fn score_of_a_known_plan() {
    let one = NttPlan { log_n: 10, passes: vec![pass(10, 0, 8, 9)], sub_batch: 1 };
    let two = NttPlan { log_n: 20, passes: vec![pass(10, 0, 8, 9), pass(10, 10, 8, 9)], sub_batch: 1 };
    assert_eq!(f64::from_bits(heuristic_score(&one)), 15.25);
    assert_eq!(f64::from_bits(heuristic_score(&two)), 30.5);
    let third = NttPlan { log_n: 10, passes: vec![pass(10, 0, 3, 10)], sub_batch: 1 };
    assert_eq!(f64::from_bits(heuristic_score(&third)), 10.0 + 2.0 / 3.0);
}

#[test]
fn score_is_rounded_as_the_machine_rounds() {
    let mut seed = 0x1234_5678_9ABC_DEF1u64;
    let mut next = || {
        seed ^= seed << 13;
        seed ^= seed >> 7;
        seed ^= seed << 17;
        seed
    };
    for round in 0..3000usize {
        let passes: Vec<PassConfig> = (0..round % 41)
            .map(|_| {
                let z = (next() as u32) >> (next() % 32);
                pass(1, 0, if z == 0 && round % 7 != 0 { 1 } else { z }, (next() % 13) as u32)
            })
            .collect();
        let expected = machine_score(&passes);
        let plan = NttPlan { log_n: 1, passes, sub_batch: 1 };
        assert_eq!(heuristic_score(&plan), expected.to_bits());
    }
    for z in [1, 2, 3, 5, 7, 10, u32::MAX, u32::MAX - 1, 1 << 31, (1 << 31) + 1] {
        for count in [1usize, 2, 3, 1000, 100_003] {
            let passes = vec![pass(1, 0, z, 0); count];
            let expected = machine_score(&passes);
            let plan = NttPlan { log_n: 1, passes, sub_batch: 1 };
            assert_eq!(heuristic_score(&plan), expected.to_bits());
        }
    }
}

#[test]
fn log_wg_is_capped_by_threads_and_pass() {
    let limits = cuda_like_limits();
    assert_eq!(best_log_wg(1, &limits), 0);
    assert_eq!(best_log_wg(10, &limits), 9);
    assert_eq!(best_log_wg(14, &limits), 10);
}

#[test]
fn sub_batch_of_a_single_pass_is_the_batch() {
    let limits = cuda_like_limits();
    assert_eq!(compute_sub_batch(10, 37, &vec![pass(10, 0, 1, 9)], &limits), 37);
    // 64 MiB hold 16 transforms of 2^20 words.
    let two = vec![pass(10, 0, 8, 9), pass(10, 10, 8, 9)];
    assert_eq!(compute_sub_batch(20, 37, &two, &limits), 16);
    assert_eq!(compute_sub_batch(20, 3, &two, &limits), 3);
    let tiny = DeviceLimits { max_shared_mem_bytes: 49152, max_threads_per_wg: 1024, scratch_bytes: 16 };
    assert_eq!(compute_sub_batch(20, 3, &two, &tiny), 1);
}

#[test]
fn heuristic_plan_of_a_known_size() {
    let plan = plan_heuristic(20, 32, &cuda_like_limits());
    assert_eq!(plan.log_n, 20);
    assert_eq!(plan.passes, vec![pass(10, 0, 8, 9), pass(10, 10, 8, 9)]);
    assert_eq!(plan.sub_batch, 16);
}

#[test]
fn compositions_of_small_numbers() {
    assert_eq!(compositions(4, 2, 1, 3), vec![vec![1, 3], vec![2, 2], vec![3, 1]]);
    assert_eq!(compositions(5, 1, 1, 5), vec![vec![5]]);
    assert!(compositions(5, 1, 1, 4).is_empty());
    assert!(compositions(3, 4, 1, 3).is_empty());
}

#[test]
fn fitting_log_pass_is_the_largest() {
    assert_eq!(max_fitting_log_pass(&cuda_like_limits()), 13);
    let none = DeviceLimits { max_shared_mem_bytes: 3, max_threads_per_wg: 1024, scratch_bytes: 0 };
    assert_eq!(max_fitting_log_pass(&none), 0);
}

#[test]
fn params_of_one_pass() {
    let mut out: Vec<NttPlan> = Vec::new();
    enumerate_params(3, &vec![3], 5, &cuda_like_limits(), &mut out);
    assert!(!out.is_empty());
    for plan in &out {
        assert_eq!(plan.passes.len(), 1);
        assert_eq!(plan.sub_batch, 5);
        assert!(validate_plan(plan, &cuda_like_limits()).is_ok());
    }
}

#[test]
fn enumerated_plans_are_valid_and_hold_the_heuristic() {
    let limits = cuda_like_limits();
    let plans = enumerate_valid_plans(14, 4, &limits, 2);
    assert!(!plans.is_empty());
    for plan in &plans {
        assert!(validate_plan(plan, &limits).is_ok());
    }
    let chosen = plan_heuristic(14, 4, &limits);
    assert!(plans.iter().any(|p| p.passes == chosen.passes && p.sub_batch == chosen.sub_batch));
}

#[test]
fn validate_log_wg_too_large() {
    let plan = NttPlan { log_n: 4, passes: vec![pass(4, 0, 1, 4)], sub_batch: 1 };
    assert_eq!(errors(plan), vec![PlanError::LogWgTooLarge { pass: 0, log_wg: 4, max: 3 }]);
}

#[test]
fn validate_z_count_not_a_power_of_two() {
    let plan = NttPlan { log_n: 20, passes: vec![pass(10, 0, 3, 8), pass(10, 10, 8, 8)], sub_batch: 1 };
    assert_eq!(errors(plan), vec![PlanError::ZCountNotPo2 { pass: 0, z_count: 3 }]);
}

#[test]
fn validate_z_count_exceeds_exactly() {
    let plan = NttPlan { log_n: 8, passes: vec![pass(8, 0, 2, 7)], sub_batch: 1 };
    assert_eq!(
        errors(plan),
        vec![PlanError::ZCountExceedsNOther { pass: 0, z_count: 2, n_other: 1 }]
    );
}

#[test]
fn validate_sub_batch_and_scratch() {
    let passes = vec![pass(10, 0, 8, 8), pass(10, 10, 8, 8)];
    let plan = NttPlan { log_n: 20, passes: passes.clone(), sub_batch: 0 };
    assert_eq!(errors(plan), vec![PlanError::SubBatchZero]);
    let plan = NttPlan { log_n: 20, passes, sub_batch: 17 };
    assert_eq!(
        errors(plan),
        vec![PlanError::ScratchExceeded { needed: 17 << 22, limit: 64 << 20 }]
    );
}

#[test]
fn no_plan_without_shared_memory() {
    assert!(has_plan(24, &cuda_like_limits()));
    // Four passes of 6 stages need 256 bytes each.
    let small = DeviceLimits { max_shared_mem_bytes: 256, max_threads_per_wg: 64, scratch_bytes: 0 };
    assert!(has_plan(24, &small));
    assert!(!has_plan(25, &small));
    let none = DeviceLimits { max_shared_mem_bytes: 7, max_threads_per_wg: 64, scratch_bytes: 0 };
    assert!(!has_plan(1, &none));
}

#[test]
fn validate_size_zero_and_no_passes_before_anything_else() {
    let passes = vec![pass(3, 7, 0, 40)];
    let plan = NttPlan { log_n: 0, passes, sub_batch: 0 };
    assert_eq!(errors(plan), vec![PlanError::LogNZero]);
    let plan = NttPlan { log_n: 0, passes: vec![], sub_batch: usize::MAX };
    assert_eq!(errors(plan), vec![PlanError::LogNZero]);
    let plan = NttPlan { log_n: 200, passes: vec![], sub_batch: usize::MAX };
    assert_eq!(errors(plan), vec![PlanError::EmptyPlan]);
}

#[test]
fn score_of_no_chunks_sorts_last() {
    let plan = NttPlan { log_n: 8, passes: vec![pass(4, 0, 1, 3), pass(4, 4, 0, 3)], sub_batch: 1 };
    assert_eq!(heuristic_score(&plan), INFINITY);
    assert_eq!(f64::from_bits(INFINITY), f64::INFINITY);
    let plan = NttPlan { log_n: 8, passes: vec![], sub_batch: 1 };
    assert_eq!(heuristic_score(&plan), 0);
}

#[test]
fn small_workgroups_and_many_chunks_are_enumerated() {
    let limits = cuda_like_limits();
    let listed = enumerate_valid_plans(5, 1, &limits, 1);
    for log_wg in 0..5 {
        assert_eq!(listed.iter().filter(|p| p.passes == vec![pass(5, 0, 1, log_wg)]).count(), 1);
    }
    assert_eq!(listed.len(), 5);
    let wanted = vec![pass(5, 0, 128, 0), pass(7, 5, 32, 6)];
    let listed = enumerate_valid_plans(12, 1, &limits, 2);
    assert_eq!(listed.iter().filter(|p| p.passes == wanted).count(), 1);
}

/// All ways to choose `k` passes of at most `log_n` stages together, valid or
/// not.
fn all_passes(log_n: u32, k: usize) -> Vec<Vec<PassConfig>> {
    if k == 0 {
        return vec![vec![]];
    }
    let mut all = vec![];
    for head in all_passes(log_n, k - 1) {
        let stage_offset: u32 = head.iter().map(|p| p.log_pass).sum();
        for log_pass in 1..=log_n.saturating_sub(stage_offset) {
            for log_z in 0..=log_n {
                for log_wg in 0..log_pass {
                    let mut passes = head.clone();
                    passes.push(pass(log_pass, stage_offset, 1 << log_z, log_wg));
                    all.push(passes);
                }
            }
        }
    }
    all
}

#[test]
fn enumeration_agrees_with_trying_everything() {
    let limits = DeviceLimits {
        max_shared_mem_bytes: 64,
        max_threads_per_wg: 4,
        scratch_bytes: 1 << 10,
    };
    let log_n = 5;
    let listed = enumerate_valid_plans(log_n, 3, &limits, 3);
    let mut expected = 0;
    for k in 1..=3 {
        for passes in all_passes(log_n, k) {
            let sub_batch = compute_sub_batch(log_n, 3, &passes, &limits);
            let plan = NttPlan { log_n, passes, sub_batch };
            if validate_plan(&plan, &limits).is_ok() {
                let same = |p: &&NttPlan| p.passes == plan.passes && p.sub_batch == plan.sub_batch;
                assert_eq!(listed.iter().filter(same).count(), 1);
                expected += 1;
            }
        }
    }
    assert!(expected > 0);
    assert_eq!(listed.len(), expected);
}

#[test]
fn compositions_are_in_order() {
    let all = compositions(9, 3, 1, 5);
    assert!(all.windows(2).all(|w| w[0] < w[1]));
}
