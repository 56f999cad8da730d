//! Devices, lock file names, and what the browser demo computes.

use r0::cube::device::{lock_file_name, Device, DeviceProperties, DEFAULT_SCRATCH_BYTES};
use r0::field::baby_bear::BabyBear;
use r0::ntt::plan::{plan_heuristic, DeviceLimits, NttPlan, PassConfig};
use r0::web::input::{benchmark_input, SCRATCH_BYTES};
use r0::web::report::{
    benchmark_json, diagnosis_json, sorted_times, summarize, AdapterInfo, BenchmarkRun, Figures,
    GraphicsLimits,
};
use r0::web::text::{describe_plan, push_decimal, push_hex};

#[test]
fn scratch_defaults_to_64_mib() {
    let properties =
        DeviceProperties { plane_size: 32, max_units_per_cube: 256, max_shared_memory_size: 32768 };
    assert_eq!(DEFAULT_SCRATCH_BYTES, 64 * 1024 * 1024);
    assert_eq!(Device::new(properties).scratch_bytes(), DEFAULT_SCRATCH_BYTES);
    assert_eq!(Device::with_scratch(properties, 4096).scratch_bytes(), 4096);
}

#[test]
fn lock_file_names_are_sanitized() {
    assert_eq!(
        lock_file_name("cubecl_wgpu::runtime::WgpuRuntime"),
        "r0-cubecl-cubecl_wgpu__runtime__WgpuRuntime.lock"
    );
    assert_eq!(lock_file_name("a/b c<d>é9"), "r0-cubecl-a_b_c_d__9.lock");
    assert_eq!(lock_file_name(""), "r0-cubecl-.lock");
}

#[test]
fn benchmark_input_is_spread_over_the_field() {
    let input = benchmark_input(1000);
    assert_eq!(input.len(), 1000);
    for (i, &raw) in input.iter().enumerate() {
        let spread = (i as u32).wrapping_mul(0x9E3779B1) % 0x78000001;
        assert_eq!(BabyBear::from_raw(raw).to_canonical(), spread);
        assert_eq!(raw, BabyBear::from_canonical(spread).raw());
    }
    assert!(benchmark_input(0).is_empty());
}

#[test]
fn plans_are_described_pass_by_pass() {
    let pass = |log_pass, z_count, log_wg| PassConfig { log_pass, stage_offset: 0, z_count, log_wg };
    let plan = NttPlan { log_n: 20, passes: vec![pass(10, 8, 9), pass(7, 16, 0), pass(3, 4294967295, 10)], sub_batch: 1 };
    assert_eq!(
        describe_plan(&plan),
        "(lp=10 z=8 wg=9) → (lp=7 z=16 wg=0) → (lp=3 z=4294967295 wg=10)"
    );
    let none = NttPlan { log_n: 0, passes: vec![], sub_batch: 1 };
    assert_eq!(describe_plan(&none), "");
}

#[test]
fn demo_plan_fits_its_scratch() {
    assert_eq!(SCRATCH_BYTES, 512 * 1024 * 1024);
    let limits = DeviceLimits {
        max_shared_mem_bytes: 32768,
        max_threads_per_wg: 256,
        scratch_bytes: SCRATCH_BYTES,
    };
    let plan = plan_heuristic(20, 128, &limits);
    assert_eq!(plan.sub_batch, 128);
    assert_eq!(plan_heuristic(20, 200, &limits).sub_batch, 128);
}

#[test]
fn numbers_as_text() {
    let mut s = String::from("n=");
    push_decimal(&mut s, 0);
    push_decimal(&mut s, 18446744073709551615);
    assert_eq!(s, "n=018446744073709551615");
    let mut s = String::new();
    push_hex(&mut s, 0x10de, 4);
    push_hex(&mut s, 0xa, 4);
    push_hex(&mut s, 0xdeadbeef, 4);
    push_hex(&mut s, 0, 0);
    assert_eq!(s, "10de000adeadbeef0");
}

#[test]
fn times_are_sorted_and_summed_up() {
    assert_eq!(sorted_times(&vec![5, 1, 4, 1, 3]), vec![1, 1, 3, 4, 5]);
    let s = summarize(&vec![50, 10, 40, 20]);
    assert_eq!((s.min, s.median, s.max, s.sum), (10, 40, 50, 120));
    let s = summarize(&vec![7]);
    assert_eq!((s.min, s.median, s.max, s.sum), (7, 7, 7, 7));
    let s = summarize(&vec![u64::MAX, u64::MAX]);
    assert_eq!(s.sum, 2 * u64::MAX as u128);
}

fn two_passes() -> NttPlan {
    let pass = |stage_offset| PassConfig { log_pass: 10, stage_offset, z_count: 8, log_wg: 7 };
    NttPlan { log_n: 20, passes: vec![pass(0), pass(10)], sub_batch: 32 }
}

#[test]
fn diagnosis_of_a_device() {
    let adapter = AdapterInfo {
        name: "Some GPU".to_string(),
        vendor: 0x10de,
        device: 0x7,
        device_type: "DiscreteGpu".to_string(),
        backend: "Vulkan".to_string(),
        driver: "drv".to_string(),
        driver_info: "1.2".to_string(),
    };
    let wgpu = GraphicsLimits {
        workgroup_storage_size: 32768,
        invocations_per_workgroup: 256,
        storage_buffer_binding_size: 134217728,
        buffer_size: 268435456,
    };
    let limits = DeviceLimits {
        max_shared_mem_bytes: 32768,
        max_threads_per_wg: 256,
        scratch_bytes: SCRATCH_BYTES,
    };
    let expected = r#"{
  "adapter": {
    "name": "Some GPU",
    "vendor": "0x10de",
    "device": "0x0007",
    "device_type": "DiscreteGpu",
    "backend": "Vulkan",
    "driver": "drv",
    "driver_info": "1.2"
  },
  "wgpu_limits": {
    "max_compute_workgroup_storage_size": 32768,
    "max_compute_invocations_per_workgroup": 256,
    "max_storage_buffer_binding_size": 134217728,
    "max_buffer_size": 268435456
  },
  "ntt_planner_limits": {
    "max_shared_mem_bytes": 32768,
    "max_threads_per_wg": 256,
    "scratch_bytes": 536870912
  },
  "default_plan_log20_b32": "(lp=10 z=8 wg=7) → (lp=10 z=8 wg=7)",
  "sub_batch": 32
}"#;
    assert_eq!(diagnosis_json(&adapter, &wgpu, &limits, &two_passes()), expected);
}

#[test]
fn report_of_a_benchmark() {
    let run = BenchmarkRun { log_n: 20, batch: 32, warmups: 2, samples: 3 };
    let figures = Figures {
        min_us: "1.0".to_string(),
        median_us: "2.0".to_string(),
        mean_us: "2.5".to_string(),
        max_us: "4.5".to_string(),
        per_ntt_us: "0.06".to_string(),
        samples_us: vec!["1.0".to_string(), "4.5".to_string(), "2.0".to_string()],
    };
    let expected = r#"{
  "log_n": 20,
  "batch": 32,
  "warmups": 2,
  "samples": 3,
  "plan": "(lp=10 z=8 wg=7) → (lp=10 z=8 wg=7)",
  "sub_batch": 32,
  "min_us": 1.0,
  "median_us": 2.0,
  "mean_us": 2.5,
  "max_us": 4.5,
  "per_ntt_us": 0.06,
  "samples_us": [1.0, 4.5, 2.0]
}"#;
    assert_eq!(benchmark_json(&run, &two_passes(), &figures), expected);
}
