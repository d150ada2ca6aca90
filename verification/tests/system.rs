use r_heatmap::meminfo;
use r_heatmap::rapl::{watts, PowerSampler, Zone};
use r_heatmap::reading::{Quantity, Reading};
use r_heatmap::stat::{parse, usage, CoreSampler, Times};
use r_heatmap::text::chars_of;
use r_heatmap::windows::adapters::luid_key;
use r_heatmap::windows::perf::{split_instance, usage as gpu_usage};

const FIRST: &str = "cpu  100 0 100 800 0 0 0 0 0 0
cpu0 50 0 50 400 0 0 0 0 0 0
cpu1 50 0 50 400 0 0 0 0 0 0
intr 12345
ctxt 6789
";

const SECOND: &str = "cpu  180 0 120 900 0 0 0 0 0 0
cpu0 130 0 70 400 0 0 0 0 0 0
cpu1 50 0 50 500 0 0 0 0 0 0
";

const MEMINFO: &str = "MemTotal:       32611368 kB
MemFree:         1204032 kB
MemAvailable:   24458526 kB
Buffers:          412672 kB
SwapCached:        13120 kB
SwapTotal:       8388604 kB
SwapFree:        7549743 kB
";

fn value(q: Quantity) -> f64 {
    q.num as f64 / q.den as f64
}

fn cores(text: &str) -> Vec<Times> {
    parse(&chars_of(text))
}

/// A zone whose counter stands at `energy` microjoules; zones count in picojoules.
fn zone(label: &str, energy: u64) -> Zone {
    Zone {
        label: label.to_string(),
        energy: energy as i128 * 1_000_000,
        range: Some(262_143_328_850 * 1_000_000),
        limit: Some(Quantity::whole(30)),
    }
}

#[test]
fn skips_the_aggregate_line_and_everything_after_it() {
    let cores = cores(FIRST);

    assert_eq!(cores.len(), 2);
    assert_eq!(cores[0].name, "Core 0");
    assert_eq!(cores[1].name, "Core 1");
}

#[test]
fn measures_the_delta_between_two_snapshots() {
    let cores = usage(&cores(SECOND), &cores(FIRST));

    assert_eq!(cores.len(), 2);
    assert_eq!(value(cores[0].value), 100.0);
    assert_eq!(value(cores[1].value), 0.0);
}

#[test]
fn reports_nothing_until_there_is_something_to_compare_against() {
    let cores = usage(&cores(FIRST), &Vec::new());

    assert_eq!(value(cores[0].value), 0.0);
}

#[test]
fn counts_iowait_as_idle() {
    let busy = "cpu0 50 0 50 400 0 0 0 0 0 0";
    let waiting = "cpu0 50 0 50 400 100 0 0 0 0 0";

    let cores = usage(&cores(waiting), &cores(busy));

    assert_eq!(value(cores[0].value), 0.0);
}

#[test]
fn measures_ram_against_available_not_free() {
    let pools = meminfo::parse(MEMINFO);

    assert_eq!(pools.len(), 2);
    assert_eq!(pools[0].label, "RAM 31.1 GB");
    assert!((value(pools[0].value) - 25.0).abs() < 0.1);
}

#[test]
fn reads_swap_past_the_cached_line() {
    let pools = meminfo::parse(MEMINFO);

    assert_eq!(pools[1].label, "Swap 8.0 GB");
    assert!((value(pools[1].value) - 10.0).abs() < 0.1);
}

#[test]
fn skips_swap_when_there_is_none() {
    let pools =
        meminfo::parse("MemTotal: 1024 kB\nMemAvailable: 512 kB\nSwapTotal: 0 kB\nSwapFree: 0 kB\n");

    assert_eq!(pools.len(), 1);
    assert_eq!(pools[0].label, "RAM 0.0 GB");
}

#[test]
fn turns_joules_into_watts() {
    let before = vec![zone("package-0", 1_000_000)];
    let current = vec![zone("package-0", 8_500_000)];

    let power = watts(&current, &before, 500_000_000);

    assert_eq!(power[0].label, "package-0");
    assert_eq!(value(power[0].value), 15.0);
    assert_eq!(power[0].max, Some(Quantity::whole(30)));
}

#[test]
fn survives_the_counter_wrapping_around() {
    let before = vec![zone("package-0", 262_143_328_850 - 1_000_000)];
    let current = vec![zone("package-0", 4_000_000)];

    let power = watts(&current, &before, 1_000_000_000);

    assert_eq!(value(power[0].value), 5.0);
}

#[test]
fn reports_nothing_for_a_zone_that_just_appeared() {
    let before: Vec<Zone> = Vec::new();
    let current = vec![zone("package-0", 4_000_000)];

    assert_eq!(value(watts(&current, &before, 1_000_000_000)[0].value), 0.0);
}

#[test]
fn formats_a_luid_the_way_the_counters_do() {
    assert_eq!(luid_key(60575), "luid_0x00000000_0x0000ec9f");
}

#[test]
fn splits_adapter_and_engine_out_of_an_instance() {
    let instance = "pid_16132_luid_0x00000000_0x0000ec9f_phys_0_eng_4_engtype_copy";

    assert_eq!(
        split_instance(instance),
        Some(("luid_0x00000000_0x0000ec9f".to_string(), "copy".to_string()))
    );
}

#[test]
fn ignores_instances_without_an_engine() {
    assert_eq!(split_instance("pid_16132_luid_0x0_phys_0"), None);
}

fn sample(instance: &str, percent: f64) -> (String, i64) {
    (instance.to_string(), (percent * 1_000_000.0) as i64)
}

#[test]
fn sums_processes_per_engine_and_keeps_the_busiest_one() {
    let samples = vec![
        sample("pid_1_luid_0x00000000_0x0000EC9F_phys_0_eng_0_engtype_3D", 20.0),
        sample("pid_2_luid_0x00000000_0x0000EC9F_phys_0_eng_0_engtype_3D", 30.0),
        sample("pid_1_luid_0x00000000_0x0000EC9F_phys_0_eng_4_engtype_Copy", 5.0),
        sample("pid_1_luid_0x00000000_0x0000FF2D_phys_0_eng_0_engtype_3D", 99.0),
    ];

    let names = vec![("luid_0x00000000_0x0000ec9f".to_string(), "RTX 4060 Ti".to_string())];

    let gpus = gpu_usage(&samples, &names);

    assert_eq!(gpus.len(), 1);
    assert_eq!(gpus[0].label, "GPU 0 RTX 4060 Ti");
    assert_eq!(value(gpus[0].value), 50.0);
}

#[test]
fn unnamed_adapters_are_numbered_in_key_order() {
    let samples = vec![
        sample("pid_1_luid_0x00000000_0x0000FF2D_phys_0_eng_0_engtype_3D", 40.0),
        sample("pid_1_luid_0x00000000_0x0000EC9F_phys_0_eng_0_engtype_3D", 12.0),
    ];

    let gpus = gpu_usage(&samples, &Vec::new());

    assert_eq!(gpus.len(), 2);
    assert_eq!(gpus[0].label, "GPU 0");
    assert_eq!(value(gpus[0].value), 12.0);
    assert_eq!(gpus[1].label, "GPU 1");
    assert_eq!(value(gpus[1].value), 40.0);
}

#[test]
fn the_first_core_sample_reads_zero_and_the_second_the_delta() {
    let mut sampler = CoreSampler::new();

    let first = sampler.sample(FIRST);
    assert_eq!(first.len(), 2);
    assert!(first.iter().all(|core| value(core.value) == 0.0));

    let second = sampler.sample(SECOND);
    assert_eq!(value(second[0].value), 100.0);
    assert_eq!(value(second[1].value), 0.0);
}

#[test]
fn the_first_power_sample_reads_zero() {
    let mut sampler = PowerSampler::new();

    let first = sampler.sample(vec![zone("package-0", 1_000_000)], 0);
    assert_eq!(value(first[0].value), 0.0);

    let second = sampler.sample(vec![zone("package-0", 3_000_000)], 1_000_000_000);
    assert_eq!(value(second[0].value), 2.0);
}

#[test]
fn a_wrapped_counter_with_no_range_reads_without_bound() {
    let mut before = zone("package-0", 10);
    before.range = None;
    let mut current = zone("package-0", 5);
    current.range = None;

    let power = watts(&vec![current], &vec![before], 1_000_000_000);

    assert_eq!(power[0].value.den, 0);
}

#[test]
fn a_pool_keeps_its_label_while_its_use_changes() {
    let busy = meminfo::parse("MemTotal: 2097152 kB\nMemAvailable: 100 kB\n");
    let idle = meminfo::parse("MemTotal: 2097152 kB\nMemAvailable: 2000000 kB\n");

    assert_eq!(busy[0].label, "RAM 2.0 GB");
    assert_eq!(busy[0].label, idle[0].label);
    assert!(value(busy[0].value) > value(idle[0].value));
}

#[test]
fn a_core_that_did_not_move_reads_idle() {
    let cores = usage(&cores(FIRST), &cores(FIRST));

    assert!(cores.iter().all(|core| value(core.value) == 0.0));
}

#[test]
fn a_reading_takes_a_reread_value_and_keeps_it_when_the_read_fails() {
    let mut reading = Reading::new("cheap".to_string(), Quantity::whole(40));

    reading.refresh(Some(Quantity::whole(80)));
    assert_eq!(reading.value, Quantity::whole(80));

    reading.refresh(None);
    assert_eq!(reading.value, Quantity::whole(80));
    assert_eq!(reading.label, "cheap");
}
