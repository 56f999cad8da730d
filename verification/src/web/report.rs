//! The reports of the demo: statistics over the measured times, and the
//! JSON texts that the page shows.

use vstd::prelude::*;
use vstd::string::*;

use super::text;
use super::text::{describe_plan, push_decimal, push_hex};
use crate::ntt::plan::{DeviceLimits, NttPlan};

verus! {

/// Every entry is at most the next.
pub open spec fn is_sorted(s: Seq<u64>) -> bool {
    forall|i: int, j: int| 0 <= i <= j < s.len() ==> s[i] <= s[j]
}

/// `x[0] + ... + x[k - 1]`.
pub open spec fn sum_of(x: Seq<u64>, k: int) -> int
    decreases k,
{
    if k <= 0 {
        0
    } else {
        sum_of(x, k - 1) + x[k - 1]
    }
}

/// The times in ascending order.
pub fn sorted_times(times: &Vec<u64>) -> (r: Vec<u64>)
    ensures
        is_sorted(r@),
        r@.to_multiset() == times@.to_multiset(),
        r@.len() == times@.len(),
{
    let mut r: Vec<u64> = Vec::with_capacity(times.len());
    let mut i: usize = 0;
    proof {
        assert(times@.take(0) =~= Seq::empty());
    }
    while i < times.len()
        invariant
            i <= times@.len(),
            r@.len() == i,
            is_sorted(r@),
            r@.to_multiset() == times@.take(i as int).to_multiset(),
        decreases times@.len() - i,
    {
        let t = times[i];
        let mut k: usize = i;
        while k > 0 && r[k - 1] > t
            invariant
                k <= i,
                r@.len() == i,
                forall|j: int| k <= j < i ==> #[trigger] r@[j] > t,
            decreases k,
        {
            k = k - 1;
        }
        let ghost before = r@;
        r.insert(k, t);
        proof {
            assert(times@.take(i + 1) =~= times@.take(i as int).push(t));
            times@.take(i as int).to_multiset_ensures();
            lemma_insert_multiset(before, k as int, t);
        }
        i = i + 1;
    }
    proof {
        assert(times@.take(times@.len() as int) =~= times@);
    }
    r
}

/// Inserting anywhere adds one to the multiset.
proof fn lemma_insert_multiset(s: Seq<u64>, k: int, x: u64)
    requires
        0 <= k <= s.len(),
    ensures
        s.insert(k, x).to_multiset() == s.to_multiset().insert(x),
{
    let a = s.take(k);
    let b = s.skip(k);
    assert(s =~= a + b);
    assert(s.insert(k, x) =~= a.push(x) + b);
    vstd::seq_lib::lemma_multiset_commutative(a, b);
    vstd::seq_lib::lemma_multiset_commutative(a.push(x), b);
    a.to_multiset_ensures();
    assert(s.insert(k, x).to_multiset() =~= s.to_multiset().insert(x));
}

/// Statistics over measured times.
#[derive(Debug, Copy, Clone)]
pub struct Summary {
    pub min: u64,
    pub median: u64,
    pub max: u64,
    pub sum: u128,
}

/// Least, middle (the upper one of two) and greatest time, and the sum of
/// all.
pub fn summarize(times: &Vec<u64>) -> (r: Summary)
    requires
        times@.len() > 0,
    ensures
        exists|sorted: Seq<u64>|
            {
                &&& is_sorted(sorted)
                &&& #[trigger] sorted.to_multiset() == times@.to_multiset()
                &&& sorted.len() == times@.len()
                &&& r.min == sorted[0]
                &&& r.median == sorted[times@.len() as int / 2]
                &&& r.max == sorted[times@.len() - 1]
            },
        r.sum == sum_of(times@, times@.len() as int),
{
    let sorted = sorted_times(times);
    let n = sorted.len();
    let mut sum: u128 = 0;
    let mut i: usize = 0;
    while i < n
        invariant
            i <= n,
            n == times@.len(),
            sum == sum_of(times@, i as int),
            sum <= i * 0xFFFF_FFFF_FFFF_FFFF,
        decreases n - i,
    {
        sum = sum + times[i] as u128;
        i = i + 1;
    }
    let r = Summary { min: sorted[0], median: sorted[n / 2], max: sorted[n - 1], sum };
    proof {
        assert(is_sorted(sorted@) && sorted@.to_multiset() == times@.to_multiset());
    }
    r
}

/// What is known of a graphics adapter.
#[derive(Debug, Clone)]
pub struct AdapterInfo {
    pub name: String,
    pub vendor: u32,
    pub device: u32,
    pub device_type: String,
    pub backend: String,
    pub driver: String,
    pub driver_info: String,
}

/// Limits of a graphics device.
#[derive(Debug, Copy, Clone)]
pub struct GraphicsLimits {
    pub workgroup_storage_size: u64,
    pub invocations_per_workgroup: u64,
    pub storage_buffer_binding_size: u64,
    pub buffer_size: u64,
}

/// The report on a device, as JSON.
pub open spec fn diagnosis(
    adapter: AdapterInfo,
    wgpu: GraphicsLimits,
    limits: DeviceLimits,
    plan: NttPlan,
) -> Seq<char> {
    "{\n  \"adapter\": {\n    \"name\": \""@
        + adapter.name@
        + "\",\n    \"vendor\": \"0x"@
        + text::hex(adapter.vendor as int, 4)
        + "\",\n    \"device\": \"0x"@
        + text::hex(adapter.device as int, 4)
        + "\",\n    \"device_type\": \""@
        + adapter.device_type@
        + "\",\n    \"backend\": \""@
        + adapter.backend@
        + "\",\n    \"driver\": \""@
        + adapter.driver@
        + "\",\n    \"driver_info\": \""@
        + adapter.driver_info@
        + "\"\n  },\n  \"wgpu_limits\": {\n    \"max_compute_workgroup_storage_size\": "@
        + text::decimal(wgpu.workgroup_storage_size as int)
        + ",\n    \"max_compute_invocations_per_workgroup\": "@
        + text::decimal(wgpu.invocations_per_workgroup as int)
        + ",\n    \"max_storage_buffer_binding_size\": "@
        + text::decimal(wgpu.storage_buffer_binding_size as int)
        + ",\n    \"max_buffer_size\": "@
        + text::decimal(wgpu.buffer_size as int)
        + "\n  },\n  \"ntt_planner_limits\": {\n    \"max_shared_mem_bytes\": "@
        + text::decimal(limits.max_shared_mem_bytes as int)
        + ",\n    \"max_threads_per_wg\": "@
        + text::decimal(limits.max_threads_per_wg as int)
        + ",\n    \"scratch_bytes\": "@
        + text::decimal(limits.scratch_bytes as int)
        + "\n  },\n  \"default_plan_log20_b32\": \""@
        + text::passes_text(plan.passes@)
        + "\",\n  \"sub_batch\": "@
        + text::decimal(plan.sub_batch as int)
        + "\n}"@
}

/// The report on a device, as JSON: the adapter, its limits, those that the
/// planner sees, and the plan for 32 transforms of `2^20` elements.
pub fn diagnosis_json(
    adapter: &AdapterInfo,
    wgpu: &GraphicsLimits,
    limits: &DeviceLimits,
    plan: &NttPlan,
) -> (r: String)
    ensures
        r@ == diagnosis(*adapter, *wgpu, *limits, *plan),
{
    let mut json = "{\n  \"adapter\": {\n    \"name\": \"".to_owned();
    json.append(adapter.name.as_str());
    json.append("\",\n    \"vendor\": \"0x");
    push_hex(&mut json, adapter.vendor, 4);
    json.append("\",\n    \"device\": \"0x");
    push_hex(&mut json, adapter.device, 4);
    json.append("\",\n    \"device_type\": \"");
    json.append(adapter.device_type.as_str());
    json.append("\",\n    \"backend\": \"");
    json.append(adapter.backend.as_str());
    json.append("\",\n    \"driver\": \"");
    json.append(adapter.driver.as_str());
    json.append("\",\n    \"driver_info\": \"");
    json.append(adapter.driver_info.as_str());
    json.append("\"\n  },\n  \"wgpu_limits\": {\n    \"max_compute_workgroup_storage_size\": ");
    push_decimal(&mut json, wgpu.workgroup_storage_size as u64);
    json.append(",\n    \"max_compute_invocations_per_workgroup\": ");
    push_decimal(&mut json, wgpu.invocations_per_workgroup as u64);
    json.append(",\n    \"max_storage_buffer_binding_size\": ");
    push_decimal(&mut json, wgpu.storage_buffer_binding_size as u64);
    json.append(",\n    \"max_buffer_size\": ");
    push_decimal(&mut json, wgpu.buffer_size as u64);
    json.append("\n  },\n  \"ntt_planner_limits\": {\n    \"max_shared_mem_bytes\": ");
    push_decimal(&mut json, limits.max_shared_mem_bytes as u64);
    json.append(",\n    \"max_threads_per_wg\": ");
    push_decimal(&mut json, limits.max_threads_per_wg as u64);
    json.append(",\n    \"scratch_bytes\": ");
    push_decimal(&mut json, limits.scratch_bytes as u64);
    json.append("\n  },\n  \"default_plan_log20_b32\": \"");
    json.append(describe_plan(plan).as_str());
    json.append("\",\n  \"sub_batch\": ");
    push_decimal(&mut json, plan.sub_batch as u64);
    json.append("\n}");
    json
}

/// The strings with a comma and a space between them.
pub open spec fn joined(items: Seq<String>, k: int) -> Seq<char>
    decreases k,
{
    if k <= 0 {
        seq![]
    } else if k == 1 {
        items[0]@
    } else {
        joined(items, k - 1) + ", "@ + items[k - 1]@
    }
}

/// Append the strings with a comma and a space between them.
fn push_joined(s: &mut String, items: &Vec<String>)
    ensures
        final(s)@ == old(s)@ + joined(items@, items@.len() as int),
{
    let ghost start = s@;
    let n = items.len();
    let mut i: usize = 0;
    proof {
        assert(s@ =~= start + joined(items@, 0));
    }
    while i < n
        invariant
            i <= n,
            n == items@.len(),
            s@ == start + joined(items@, i as int),
        decreases n - i,
    {
        if i > 0 {
            s.append(", ");
        }
        s.append(items[i].as_str());
        proof {
            assert(s@ =~= start + joined(items@, i + 1));
        }
        i = i + 1;
    }
}

/// What was measured.
#[derive(Debug, Copy, Clone)]
pub struct BenchmarkRun {
    pub log_n: u32,
    pub batch: u32,
    pub warmups: u32,
    pub samples: u32,
}

/// The measured times in microseconds, as text.
#[derive(Debug, Clone)]
pub struct Figures {
    pub min_us: String,
    pub median_us: String,
    pub mean_us: String,
    pub max_us: String,
    pub per_ntt_us: String,
    pub samples_us: Vec<String>,
}

/// The report on a benchmark, as JSON.
pub open spec fn benchmark(run: BenchmarkRun, plan: NttPlan, figures: Figures) -> Seq<char> {
    "{\n  \"log_n\": "@
        + text::decimal(run.log_n as int)
        + ",\n  \"batch\": "@
        + text::decimal(run.batch as int)
        + ",\n  \"warmups\": "@
        + text::decimal(run.warmups as int)
        + ",\n  \"samples\": "@
        + text::decimal(run.samples as int)
        + ",\n  \"plan\": \""@
        + text::passes_text(plan.passes@)
        + "\",\n  \"sub_batch\": "@
        + text::decimal(plan.sub_batch as int)
        + ",\n  \"min_us\": "@
        + figures.min_us@
        + ",\n  \"median_us\": "@
        + figures.median_us@
        + ",\n  \"mean_us\": "@
        + figures.mean_us@
        + ",\n  \"max_us\": "@
        + figures.max_us@
        + ",\n  \"per_ntt_us\": "@
        + figures.per_ntt_us@
        + ",\n  \"samples_us\": ["@
        + joined(figures.samples_us@, figures.samples_us@.len() as int)
        + "]\n}"@
}

/// The report on a benchmark, as JSON.
pub fn benchmark_json(run: &BenchmarkRun, plan: &NttPlan, figures: &Figures) -> (r: String)
    ensures
        r@ == benchmark(*run, *plan, *figures),
{
    let mut json = "{\n  \"log_n\": ".to_owned();
    push_decimal(&mut json, run.log_n as u64);
    json.append(",\n  \"batch\": ");
    push_decimal(&mut json, run.batch as u64);
    json.append(",\n  \"warmups\": ");
    push_decimal(&mut json, run.warmups as u64);
    json.append(",\n  \"samples\": ");
    push_decimal(&mut json, run.samples as u64);
    json.append(",\n  \"plan\": \"");
    json.append(describe_plan(plan).as_str());
    json.append("\",\n  \"sub_batch\": ");
    push_decimal(&mut json, plan.sub_batch as u64);
    json.append(",\n  \"min_us\": ");
    json.append(figures.min_us.as_str());
    json.append(",\n  \"median_us\": ");
    json.append(figures.median_us.as_str());
    json.append(",\n  \"mean_us\": ");
    json.append(figures.mean_us.as_str());
    json.append(",\n  \"max_us\": ");
    json.append(figures.max_us.as_str());
    json.append(",\n  \"per_ntt_us\": ");
    json.append(figures.per_ntt_us.as_str());
    json.append(",\n  \"samples_us\": [");
    push_joined(&mut json, &figures.samples_us);
    json.append("]\n}");
    json
}

/// The list holds every text, in order: none for none, a single one as it
/// is, and one more appends a comma, a space and the text.
pub proof fn law_list_grows(items: Seq<String>, x: String)
    ensures
        joined(items, 0) == Seq::<char>::empty(),
        items.len() == 0 ==> joined(items.push(x), 1) == x@,
        items.len() > 0 ==> joined(items.push(x), (items.len() + 1) as int) == joined(
            items,
            items.len() as int,
        ) + seq![',', ' '] + x@,
{
    reveal_strlit(", ");
    assert(", "@ =~= seq![',', ' ']);
    lemma_joined_prefix(items, items.push(x), items.len() as int);
    reveal_with_fuel(joined, 2);
}

/// Only the first `k` texts matter to a list of `k`.
proof fn lemma_joined_prefix(a: Seq<String>, b: Seq<String>, k: int)
    requires
        k <= a.len(),
        k <= b.len(),
        forall|i: int| 0 <= i < k ==> #[trigger] a[i] == b[i],
    ensures
        joined(a, k) == joined(b, k),
    decreases k,
{
    if k > 0 {
        lemma_joined_prefix(a, b, k - 1);
        assert(a[k - 1] == b[k - 1]);
        assert(a[0] == b[0]);
    }
}

/// The list is as long as its texts together, with two characters for each
/// gap.
pub proof fn law_list_length(items: Seq<String>)
    ensures
        items.len() == 0 ==> joined(items, 0).len() == 0,
        items.len() > 0 ==> joined(items, items.len() as int).len() == items.fold_left(
            0int,
            |n: int, s: String| n + s@.len(),
        ) + 2 * (items.len() - 1),
    decreases items.len(),
{
    let total = |n: int, s: String| n + s@.len();
    if items.len() > 0 {
        let rest = items.drop_last();
        law_list_length(rest);
        law_list_grows(rest, items.last());
        assert(rest.push(items.last()) =~= items);
        assert(items.fold_left(0int, total) == total(rest.fold_left(0int, total), items.last()));
        if rest.len() == 0 {
            assert(rest.fold_left(0int, total) == 0);
        }
    }
}

/// Text `i` stands in the list behind those before it, each followed by a
/// comma and a space.
pub proof fn law_list_holds_each(items: Seq<String>, n: int, i: int)
    requires
        0 <= i < n <= items.len(),
    ensures
        ({
            let start = joined(items, i).len() + if i == 0 {
                0int
            } else {
                2
            };
            &&& start + items[i]@.len() <= joined(items, n).len()
            &&& joined(items, n).subrange(start, start + items[i]@.len()) == items[i]@
        }),
    decreases n,
{
    reveal_strlit(", ");
    let start = joined(items, i).len() + if i == 0 {
        0int
    } else {
        2
    };
    let s = joined(items, n);
    if i == n - 1 {
        assert(s.subrange(start, start + items[i]@.len()) =~= items[i]@);
    } else {
        law_list_holds_each(items, n - 1, i);
        let t = joined(items, n - 1);
        assert(s.subrange(start, start + items[i]@.len()) =~= t.subrange(
            start,
            start + items[i]@.len(),
        ));
    }
}

/// Summing one more time adds it.
pub proof fn law_sum_adds(x: Seq<u64>, k: int)
    requires
        0 <= k < x.len(),
    ensures
        sum_of(x, 0) == 0,
        sum_of(x, k + 1) == sum_of(x, k) + x[k],
{
}

/// What a summary says, without sorting: the least and the greatest time are
/// among the times and bound them all, and so is the median, with at least
/// as many times on either side as its place asks for.
pub proof fn law_summary_bounds(times: Seq<u64>, sorted: Seq<u64>, i: int)
    requires
        times.len() > 0,
        is_sorted(sorted),
        sorted.to_multiset() == times.to_multiset(),
        sorted.len() == times.len(),
        0 <= i < times.len(),
    ensures
        times.contains(sorted[0]),
        times.contains(sorted[times.len() as int / 2]),
        times.contains(sorted[times.len() - 1]),
        sorted[0] <= times[i] <= sorted[times.len() - 1],
        forall|j: int|
            0 <= j < times.len() as int / 2 ==> #[trigger] sorted[j] <= sorted[times.len() as int
                / 2],
        forall|j: int|
            times.len() as int / 2 <= j < times.len() ==> sorted[times.len() as int / 2]
                <= #[trigger] sorted[j],
{
    broadcast use vstd::seq_lib::group_to_multiset_ensures;

    let m = times.to_multiset();
    assert(sorted.contains(sorted[0]));
    assert(sorted.contains(sorted[times.len() as int / 2]));
    assert(sorted.contains(sorted[times.len() - 1]));
    assert(times.contains(times[i]));
    assert(m.count(times[i]) > 0);
    assert(sorted.contains(times[i]));
    let j = choose|j: int| 0 <= j < sorted.len() && sorted[j] == times[i];
    assert(sorted[0] <= sorted[j] <= sorted[times.len() - 1]);
    assert(m.count(sorted[0]) > 0);
    assert(m.count(sorted[times.len() as int / 2]) > 0);
    assert(m.count(sorted[times.len() - 1]) > 0);
}

/// Somewhere in `text`, `value` stands between `label` and `next`.
pub open spec fn shows(
    text: Seq<char>,
    label: Seq<char>,
    value: Seq<char>,
    next: Seq<char>,
) -> bool {
    exists|a: Seq<char>, b: Seq<char>| text == #[trigger] (a + label + value + next + b)
}

/// A text that starts with a name, a value and a name shows the value.
proof fn lemma_shows(
    text: Seq<char>,
    a: Seq<char>,
    label: Seq<char>,
    value: Seq<char>,
    next: Seq<char>,
)
    requires
        (a + label + value + next).is_prefix_of(text),
    ensures
        shows(text, label, value, next),
        (a + label).is_prefix_of(text),
{
    let head = a + label + value + next;
    let rest = text.skip(head.len() as int);
    assert(text =~= head + rest);
    assert((a + label) =~= text.take((a + label).len() as int));
}

/// The benchmark's report shows each figure under its own name, and holds
/// nothing else but the names.
pub proof fn law_benchmark_shows_all(run: BenchmarkRun, plan: NttPlan, figures: Figures)
    ensures
        shows(
            benchmark(run, plan, figures),
            "{\n  \"log_n\": "@,
            text::decimal(run.log_n as int),
            ",\n  \"batch\": "@,
        ),
        shows(
            benchmark(run, plan, figures),
            ",\n  \"batch\": "@,
            text::decimal(run.batch as int),
            ",\n  \"warmups\": "@,
        ),
        shows(
            benchmark(run, plan, figures),
            ",\n  \"warmups\": "@,
            text::decimal(run.warmups as int),
            ",\n  \"samples\": "@,
        ),
        shows(
            benchmark(run, plan, figures),
            ",\n  \"samples\": "@,
            text::decimal(run.samples as int),
            ",\n  \"plan\": \""@,
        ),
        shows(
            benchmark(run, plan, figures),
            ",\n  \"plan\": \""@,
            text::passes_text(plan.passes@),
            "\",\n  \"sub_batch\": "@,
        ),
        shows(
            benchmark(run, plan, figures),
            "\",\n  \"sub_batch\": "@,
            text::decimal(plan.sub_batch as int),
            ",\n  \"min_us\": "@,
        ),
        shows(
            benchmark(run, plan, figures),
            ",\n  \"min_us\": "@,
            figures.min_us@,
            ",\n  \"median_us\": "@,
        ),
        shows(
            benchmark(run, plan, figures),
            ",\n  \"median_us\": "@,
            figures.median_us@,
            ",\n  \"mean_us\": "@,
        ),
        shows(
            benchmark(run, plan, figures),
            ",\n  \"mean_us\": "@,
            figures.mean_us@,
            ",\n  \"max_us\": "@,
        ),
        shows(
            benchmark(run, plan, figures),
            ",\n  \"max_us\": "@,
            figures.max_us@,
            ",\n  \"per_ntt_us\": "@,
        ),
        shows(
            benchmark(run, plan, figures),
            ",\n  \"per_ntt_us\": "@,
            figures.per_ntt_us@,
            ",\n  \"samples_us\": ["@,
        ),
        shows(
            benchmark(run, plan, figures),
            ",\n  \"samples_us\": ["@,
            joined(figures.samples_us@, figures.samples_us@.len() as int),
            "]\n}"@,
        ),
        benchmark(run, plan, figures).len() == 187
            + text::decimal(run.log_n as int).len()
            + text::decimal(run.batch as int).len()
            + text::decimal(run.warmups as int).len()
            + text::decimal(run.samples as int).len()
            + text::passes_text(plan.passes@).len()
            + text::decimal(plan.sub_batch as int).len()
            + figures.min_us@.len()
            + figures.median_us@.len()
            + figures.mean_us@.len()
            + figures.max_us@.len()
            + figures.per_ntt_us@.len()
            + joined(figures.samples_us@, figures.samples_us@.len() as int).len(),
{
    reveal_strlit("{\n  \"log_n\": ");
    reveal_strlit(",\n  \"batch\": ");
    reveal_strlit(",\n  \"warmups\": ");
    reveal_strlit(",\n  \"samples\": ");
    reveal_strlit(",\n  \"plan\": \"");
    reveal_strlit("\",\n  \"sub_batch\": ");
    reveal_strlit(",\n  \"min_us\": ");
    reveal_strlit(",\n  \"median_us\": ");
    reveal_strlit(",\n  \"mean_us\": ");
    reveal_strlit(",\n  \"max_us\": ");
    reveal_strlit(",\n  \"per_ntt_us\": ");
    reveal_strlit(",\n  \"samples_us\": [");
    reveal_strlit("]\n}");
    let l0 = "{\n  \"log_n\": "@;
    let v0 = text::decimal(run.log_n as int);
    let l1 = ",\n  \"batch\": "@;
    let v1 = text::decimal(run.batch as int);
    let l2 = ",\n  \"warmups\": "@;
    let v2 = text::decimal(run.warmups as int);
    let l3 = ",\n  \"samples\": "@;
    let v3 = text::decimal(run.samples as int);
    let l4 = ",\n  \"plan\": \""@;
    let v4 = text::passes_text(plan.passes@);
    let l5 = "\",\n  \"sub_batch\": "@;
    let v5 = text::decimal(plan.sub_batch as int);
    let l6 = ",\n  \"min_us\": "@;
    let v6 = figures.min_us@;
    let l7 = ",\n  \"median_us\": "@;
    let v7 = figures.median_us@;
    let l8 = ",\n  \"mean_us\": "@;
    let v8 = figures.mean_us@;
    let l9 = ",\n  \"max_us\": "@;
    let v9 = figures.max_us@;
    let l10 = ",\n  \"per_ntt_us\": "@;
    let v10 = figures.per_ntt_us@;
    let l11 = ",\n  \"samples_us\": ["@;
    let v11 = joined(figures.samples_us@, figures.samples_us@.len() as int);
    let l12 = "]\n}"@;
    let t0 = l0;
    let t1 = t0 + v0 + l1;
    let t2 = t1 + v1 + l2;
    let t3 = t2 + v2 + l3;
    let t4 = t3 + v3 + l4;
    let t5 = t4 + v4 + l5;
    let t6 = t5 + v5 + l6;
    let t7 = t6 + v6 + l7;
    let t8 = t7 + v7 + l8;
    let t9 = t8 + v8 + l9;
    let t10 = t9 + v9 + l10;
    let t11 = t10 + v10 + l11;
    let t12 = t11 + v11 + l12;
    let text = benchmark(run, plan, figures);
    assert(text == t12);
    lemma_shows(text, t10 + v10, l11, v11, l12);
    lemma_shows(text, t9 + v9, l10, v10, l11);
    lemma_shows(text, t8 + v8, l9, v9, l10);
    lemma_shows(text, t7 + v7, l8, v8, l9);
    lemma_shows(text, t6 + v6, l7, v7, l8);
    lemma_shows(text, t5 + v5, l6, v6, l7);
    lemma_shows(text, t4 + v4, l5, v5, l6);
    lemma_shows(text, t3 + v3, l4, v4, l5);
    lemma_shows(text, t2 + v2, l3, v3, l4);
    lemma_shows(text, t1 + v1, l2, v2, l3);
    lemma_shows(text, t0 + v0, l1, v1, l2);
    assert(Seq::<char>::empty() + l0 =~= l0);
    lemma_shows(text, Seq::empty(), l0, v0, l1);
}

/// The diagnosis shows each fact under its own name, and holds nothing else
/// but the names.
pub proof fn law_diagnosis_shows_all(
    adapter: AdapterInfo,
    wgpu: GraphicsLimits,
    limits: DeviceLimits,
    plan: NttPlan,
)
    ensures
        shows(
            diagnosis(adapter, wgpu, limits, plan),
            "{\n  \"adapter\": {\n    \"name\": \""@,
            adapter.name@,
            "\",\n    \"vendor\": \"0x"@,
        ),
        shows(
            diagnosis(adapter, wgpu, limits, plan),
            "\",\n    \"vendor\": \"0x"@,
            text::hex(adapter.vendor as int, 4),
            "\",\n    \"device\": \"0x"@,
        ),
        shows(
            diagnosis(adapter, wgpu, limits, plan),
            "\",\n    \"device\": \"0x"@,
            text::hex(adapter.device as int, 4),
            "\",\n    \"device_type\": \""@,
        ),
        shows(
            diagnosis(adapter, wgpu, limits, plan),
            "\",\n    \"device_type\": \""@,
            adapter.device_type@,
            "\",\n    \"backend\": \""@,
        ),
        shows(
            diagnosis(adapter, wgpu, limits, plan),
            "\",\n    \"backend\": \""@,
            adapter.backend@,
            "\",\n    \"driver\": \""@,
        ),
        shows(
            diagnosis(adapter, wgpu, limits, plan),
            "\",\n    \"driver\": \""@,
            adapter.driver@,
            "\",\n    \"driver_info\": \""@,
        ),
        shows(
            diagnosis(adapter, wgpu, limits, plan),
            "\",\n    \"driver_info\": \""@,
            adapter.driver_info@,
            "\"\n  },\n  \"wgpu_limits\": {\n    \"max_compute_workgroup_storage_size\": "@,
        ),
        shows(
            diagnosis(adapter, wgpu, limits, plan),
            "\"\n  },\n  \"wgpu_limits\": {\n    \"max_compute_workgroup_storage_size\": "@,
            text::decimal(wgpu.workgroup_storage_size as int),
            ",\n    \"max_compute_invocations_per_workgroup\": "@,
        ),
        shows(
            diagnosis(adapter, wgpu, limits, plan),
            ",\n    \"max_compute_invocations_per_workgroup\": "@,
            text::decimal(wgpu.invocations_per_workgroup as int),
            ",\n    \"max_storage_buffer_binding_size\": "@,
        ),
        shows(
            diagnosis(adapter, wgpu, limits, plan),
            ",\n    \"max_storage_buffer_binding_size\": "@,
            text::decimal(wgpu.storage_buffer_binding_size as int),
            ",\n    \"max_buffer_size\": "@,
        ),
        shows(
            diagnosis(adapter, wgpu, limits, plan),
            ",\n    \"max_buffer_size\": "@,
            text::decimal(wgpu.buffer_size as int),
            "\n  },\n  \"ntt_planner_limits\": {\n    \"max_shared_mem_bytes\": "@,
        ),
        shows(
            diagnosis(adapter, wgpu, limits, plan),
            "\n  },\n  \"ntt_planner_limits\": {\n    \"max_shared_mem_bytes\": "@,
            text::decimal(limits.max_shared_mem_bytes as int),
            ",\n    \"max_threads_per_wg\": "@,
        ),
        shows(
            diagnosis(adapter, wgpu, limits, plan),
            ",\n    \"max_threads_per_wg\": "@,
            text::decimal(limits.max_threads_per_wg as int),
            ",\n    \"scratch_bytes\": "@,
        ),
        shows(
            diagnosis(adapter, wgpu, limits, plan),
            ",\n    \"scratch_bytes\": "@,
            text::decimal(limits.scratch_bytes as int),
            "\n  },\n  \"default_plan_log20_b32\": \""@,
        ),
        shows(
            diagnosis(adapter, wgpu, limits, plan),
            "\n  },\n  \"default_plan_log20_b32\": \""@,
            text::passes_text(plan.passes@),
            "\",\n  \"sub_batch\": "@,
        ),
        shows(
            diagnosis(adapter, wgpu, limits, plan),
            "\",\n  \"sub_batch\": "@,
            text::decimal(plan.sub_batch as int),
            "\n}"@,
        ),
        diagnosis(adapter, wgpu, limits, plan).len() == 500
            + adapter.name@.len()
            + text::hex(adapter.vendor as int, 4).len()
            + text::hex(adapter.device as int, 4).len()
            + adapter.device_type@.len()
            + adapter.backend@.len()
            + adapter.driver@.len()
            + adapter.driver_info@.len()
            + text::decimal(wgpu.workgroup_storage_size as int).len()
            + text::decimal(wgpu.invocations_per_workgroup as int).len()
            + text::decimal(wgpu.storage_buffer_binding_size as int).len()
            + text::decimal(wgpu.buffer_size as int).len()
            + text::decimal(limits.max_shared_mem_bytes as int).len()
            + text::decimal(limits.max_threads_per_wg as int).len()
            + text::decimal(limits.scratch_bytes as int).len()
            + text::passes_text(plan.passes@).len()
            + text::decimal(plan.sub_batch as int).len(),
{
    reveal_strlit("{\n  \"adapter\": {\n    \"name\": \"");
    reveal_strlit("\",\n    \"vendor\": \"0x");
    reveal_strlit("\",\n    \"device\": \"0x");
    reveal_strlit("\",\n    \"device_type\": \"");
    reveal_strlit("\",\n    \"backend\": \"");
    reveal_strlit("\",\n    \"driver\": \"");
    reveal_strlit("\",\n    \"driver_info\": \"");
    reveal_strlit("\"\n  },\n  \"wgpu_limits\": {\n    \"max_compute_workgroup_storage_size\": ");
    reveal_strlit(",\n    \"max_compute_invocations_per_workgroup\": ");
    reveal_strlit(",\n    \"max_storage_buffer_binding_size\": ");
    reveal_strlit(",\n    \"max_buffer_size\": ");
    reveal_strlit("\n  },\n  \"ntt_planner_limits\": {\n    \"max_shared_mem_bytes\": ");
    reveal_strlit(",\n    \"max_threads_per_wg\": ");
    reveal_strlit(",\n    \"scratch_bytes\": ");
    reveal_strlit("\n  },\n  \"default_plan_log20_b32\": \"");
    reveal_strlit("\",\n  \"sub_batch\": ");
    reveal_strlit("\n}");
    let l0 = "{\n  \"adapter\": {\n    \"name\": \""@;
    let v0 = adapter.name@;
    let l1 = "\",\n    \"vendor\": \"0x"@;
    let v1 = text::hex(adapter.vendor as int, 4);
    let l2 = "\",\n    \"device\": \"0x"@;
    let v2 = text::hex(adapter.device as int, 4);
    let l3 = "\",\n    \"device_type\": \""@;
    let v3 = adapter.device_type@;
    let l4 = "\",\n    \"backend\": \""@;
    let v4 = adapter.backend@;
    let l5 = "\",\n    \"driver\": \""@;
    let v5 = adapter.driver@;
    let l6 = "\",\n    \"driver_info\": \""@;
    let v6 = adapter.driver_info@;
    let l7 = "\"\n  },\n  \"wgpu_limits\": {\n    \"max_compute_workgroup_storage_size\": "@;
    let v7 = text::decimal(wgpu.workgroup_storage_size as int);
    let l8 = ",\n    \"max_compute_invocations_per_workgroup\": "@;
    let v8 = text::decimal(wgpu.invocations_per_workgroup as int);
    let l9 = ",\n    \"max_storage_buffer_binding_size\": "@;
    let v9 = text::decimal(wgpu.storage_buffer_binding_size as int);
    let l10 = ",\n    \"max_buffer_size\": "@;
    let v10 = text::decimal(wgpu.buffer_size as int);
    let l11 = "\n  },\n  \"ntt_planner_limits\": {\n    \"max_shared_mem_bytes\": "@;
    let v11 = text::decimal(limits.max_shared_mem_bytes as int);
    let l12 = ",\n    \"max_threads_per_wg\": "@;
    let v12 = text::decimal(limits.max_threads_per_wg as int);
    let l13 = ",\n    \"scratch_bytes\": "@;
    let v13 = text::decimal(limits.scratch_bytes as int);
    let l14 = "\n  },\n  \"default_plan_log20_b32\": \""@;
    let v14 = text::passes_text(plan.passes@);
    let l15 = "\",\n  \"sub_batch\": "@;
    let v15 = text::decimal(plan.sub_batch as int);
    let l16 = "\n}"@;
    let t0 = l0;
    let t1 = t0 + v0 + l1;
    let t2 = t1 + v1 + l2;
    let t3 = t2 + v2 + l3;
    let t4 = t3 + v3 + l4;
    let t5 = t4 + v4 + l5;
    let t6 = t5 + v5 + l6;
    let t7 = t6 + v6 + l7;
    let t8 = t7 + v7 + l8;
    let t9 = t8 + v8 + l9;
    let t10 = t9 + v9 + l10;
    let t11 = t10 + v10 + l11;
    let t12 = t11 + v11 + l12;
    let t13 = t12 + v12 + l13;
    let t14 = t13 + v13 + l14;
    let t15 = t14 + v14 + l15;
    let t16 = t15 + v15 + l16;
    let text = diagnosis(adapter, wgpu, limits, plan);
    assert(text == t16);
    lemma_shows(text, t14 + v14, l15, v15, l16);
    lemma_shows(text, t13 + v13, l14, v14, l15);
    lemma_shows(text, t12 + v12, l13, v13, l14);
    lemma_shows(text, t11 + v11, l12, v12, l13);
    lemma_shows(text, t10 + v10, l11, v11, l12);
    lemma_shows(text, t9 + v9, l10, v10, l11);
    lemma_shows(text, t8 + v8, l9, v9, l10);
    lemma_shows(text, t7 + v7, l8, v8, l9);
    lemma_shows(text, t6 + v6, l7, v7, l8);
    lemma_shows(text, t5 + v5, l6, v6, l7);
    lemma_shows(text, t4 + v4, l5, v5, l6);
    lemma_shows(text, t3 + v3, l4, v4, l5);
    lemma_shows(text, t2 + v2, l3, v3, l4);
    lemma_shows(text, t1 + v1, l2, v2, l3);
    lemma_shows(text, t0 + v0, l1, v1, l2);
    assert(Seq::<char>::empty() + l0 =~= l0);
    lemma_shows(text, Seq::empty(), l0, v0, l1);
}

} // verus!
