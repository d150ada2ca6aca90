use r_heatmap::cpufreq::ClockFiles;
use r_heatmap::drm::{cards, top_state};
use r_heatmap::hwmon::{channel_reading, inputs, ChannelFiles};
use r_heatmap::config::{config_place, ConfigPlace};
use r_heatmap::number::{is_decimal, parse_decimal, parse_float, parse_rounded};
use r_heatmap::power_supply::{charge, SupplyFiles};
use r_heatmap::rapl::{zones, ZoneEntry};
use r_heatmap::reading::{is_less, Quantity, ReadTimes, Reading};
use r_heatmap::stat::parse;
use r_heatmap::sysfs::read_number;
use r_heatmap::text::chars_of;
use r_heatmap::ui::grid::{calculate_grid, grid_cells, rows, Area};
use r_heatmap::ui::tint::{get_clock_color, get_fan_color, Tint};
use r_heatmap::windows::adapters::{luid_key, registry_text};

fn text(s: &str) -> Option<String> {
    Some(s.to_string())
}

fn decimal(s: &str) -> Option<Quantity> {
    parse_decimal(&chars_of(s))
}

fn strings(list: &[&str]) -> Vec<String> {
    list.iter().map(|s| s.to_string()).collect()
}

#[test]
fn reads_decimal_numbers_as_exact_fractions() {
    assert_eq!(decimal("1.5"), Some(Quantity { num: 15, den: 10 }));
    assert_eq!(decimal("-2.5e3"), Some(Quantity { num: -2500, den: 1 }));
    assert_eq!(decimal(".5"), Some(Quantity { num: 5, den: 10 }));
    assert_eq!(decimal("5."), Some(Quantity { num: 5, den: 1 }));
    assert_eq!(decimal("+7"), Some(Quantity { num: 7, den: 1 }));
    assert_eq!(decimal("12E-2"), Some(Quantity { num: 12, den: 100 }));
    assert_eq!(decimal("1e"), None);
    assert_eq!(decimal("."), None);
    assert_eq!(decimal("abc"), None);
    assert_eq!(decimal(""), None);
    assert!(is_decimal(&chars_of("3.25")));
    assert!(!is_decimal(&chars_of("3.2.5")));
}

#[test]
fn leaves_out_numbers_too_wide_to_hold() {
    assert_eq!(decimal("1e40"), None);
    assert_eq!(decimal("1e-40"), None);
    assert_eq!(decimal("1e38"), Some(Quantity { num: 100_000_000_000_000_000_000_000_000_000_000_000_000, den: 1 }));
}

#[test]
fn reads_sysfs_files_holding_fractions() {
    assert_eq!(read_number(&text(" 1.5\n")), Some(Quantity { num: 15, den: 10 }));
    assert_eq!(read_number(&text("n/a")), None);
}

#[test]
fn counts_fractional_jiffies_in_proc_stat() {
    let cores = parse(&chars_of("cpu  1 2 3 4 5\ncpu0 1.5 0 0 0 0\n"));

    assert_eq!(cores.len(), 1);
    assert_eq!(cores[0].name, "Core 0");
    assert_eq!(cores[0].total, 1_500_000_000_000_000);
    assert_eq!(cores[0].busy, 1_500_000_000_000_000);
}

#[test]
fn reads_a_hwmon_channel_holding_a_fraction() {
    let files = ChannelFiles { input: text("1.5\n"), label: None, min: None, max: text("2.5\n") };

    let reading = channel_reading(&"chip".to_string(), &"temp1".to_string(), &files, 1000).unwrap();

    assert_eq!(reading.value, Quantity { num: 15, den: 10_000 });
    assert_eq!(reading.max, Some(Quantity { num: 25, den: 10_000 }));
    assert_eq!(reading.min, None);
}

#[test]
fn takes_the_highest_fractional_dpm_state() {
    let top = top_state(&text("0: 500.5Mhz\n1: 1200.25MHZ *\n2: 800Mhz\n"));

    assert_eq!(top, Some(Quantity { num: 120025, den: 100 }));
}

#[test]
fn lists_each_card_and_input_once() {
    let entries = strings(&["card1", "card0", "card1x", "card2"]);
    assert_eq!(cards(&entries), strings(&["card0", "card1", "card2"]));

    let files = strings(&["temp2_input", "temp1_input", "temp1_label", "fan1_input"]);
    assert_eq!(inputs(&files, &"temp".to_string()), strings(&["temp1_input", "temp2_input"]));
}

#[test]
fn a_battery_reading_has_no_bounds() {
    let battery = SupplyFiles {
        name: "BAT0".to_string(),
        kind: text("Battery\n"),
        capacity: text("80\n"),
        status: text("Charging\n"),
        power_now: None,
        current_now: None,
        voltage_now: None,
        temp: None,
    };

    let readings = charge(&vec![battery]);

    assert_eq!(readings.len(), 1);
    assert_eq!(readings[0].min, None);
    assert_eq!(readings[0].max, None);
}

#[test]
fn grid_rows_never_fall_as_tiles_are_added() {
    let mut last = 0;
    for count in 1..2000usize {
        let r = rows(count);
        assert!(r >= last);
        last = r;
    }
}

#[test]
fn cuts_each_band_into_its_own_cells() {
    let bands = vec![
        Area { x: 0, y: 0, width: 40, height: 5 },
        Area { x: 0, y: 5, width: 40, height: 5 },
    ];

    let grid = grid_cells(&bands, 4);

    assert_eq!(grid.len(), 2);
    for (band, row) in bands.iter().zip(grid.iter()) {
        assert_eq!(row.len(), 4);
        for cell in row {
            assert_eq!(cell.y, band.y);
            assert_eq!(cell.height, band.height);
        }
    }
    let grid = calculate_grid(Area { x: 0, y: 0, width: 40, height: 10 }, 3);
    assert_eq!(grid.len(), 2);
    assert_eq!(grid[1].len(), 2);
}

#[test]
fn luid_keys_are_fixed_width_and_tell_luids_apart() {
    let a = luid_key(0x0000_0001_0000_0000);
    let b = luid_key(0x0000_0000_0000_0001);

    assert_eq!(a.len(), 26);
    assert_eq!(b.len(), 26);
    assert_ne!(a, b);
    assert_eq!(a, "luid_0x00000001_0x00000000");
}

#[test]
fn a_slow_sensor_waits_and_a_cheap_one_does_not() {
    let slow = ReadTimes { cost: 5_000_000, last: 1_000 };
    assert!(!slow.due(1_000 + 1_000_000_000));
    assert!(slow.due(1_000 + 2_000_000_000));

    let cheap = ReadTimes { cost: 1_000, last: 1_000 };
    assert!(cheap.due(1_001));

    let mut times = ReadTimes { cost: 0, last: 0 };
    times.record(50, 7_000_000);
    assert_eq!(times.cost, 7_000_000);
    assert_eq!(times.last, 50);
}

#[test]
fn opens_each_core_clock_file_once() {
    let mut files = ClockFiles::new();

    assert_eq!(files.slot(&"0".to_string()), (0, true));
    assert_eq!(files.slot(&"1".to_string()), (1, true));
    assert_eq!(files.slot(&"0".to_string()), (0, false));
    assert_eq!(files.slot(&"1".to_string()), (1, false));
}

#[test]
fn colours_a_fan_by_its_share_of_the_ceiling() {
    let max = Some(Quantity::whole(3000));

    assert_eq!(get_fan_color(Quantity::whole(0), max), Tint::Red);
    assert_eq!(get_fan_color(Quantity::whole(-5), None), Tint::Red);
    assert_eq!(get_fan_color(Quantity::whole(200), max), Tint::Rgb(20, 20, 20));
    assert_eq!(get_fan_color(Quantity::whole(1500), max), Tint::Green);
    assert_eq!(get_fan_color(Quantity::whole(2700), max), Tint::Red);
    assert_eq!(get_fan_color(Quantity::whole(600), None), Tint::Blue);
    assert_eq!(get_fan_color(Quantity::whole(600), Some(Quantity::whole(0))), Tint::Blue);
}

#[test]
fn colours_a_clock_by_its_share_of_the_top_state() {
    let top = Some(Quantity::whole(2200));

    assert_eq!(get_clock_color(Quantity::whole(2200), top), Tint::Red);
    assert_eq!(get_clock_color(Quantity::whole(1200), top), Tint::Green);
    assert_eq!(get_clock_color(Quantity { num: 2001, den: 10 }, top), Tint::Rgb(20, 20, 20));
    assert_eq!(get_clock_color(Quantity::whole(660), top), Tint::Blue);
    assert_eq!(get_clock_color(Quantity::whole(500), top), Tint::DarkGray);
    assert_eq!(get_clock_color(Quantity::whole(1200), None), Tint::Blue);
}

#[test]
fn compares_shares_of_very_large_figures_exactly() {
    let ten_37: i128 = 10_000_000_000_000_000_000_000_000_000_000_000_000;
    let max = Some(Quantity { num: ten_37, den: 1 });

    assert_eq!(get_clock_color(Quantity { num: ten_37 / 100 * 85, den: 1 }, max), Tint::Red);
    assert_eq!(get_clock_color(Quantity { num: ten_37 / 100 * 85 - 1, den: 1 }, max), Tint::Yellow);
    assert_eq!(get_clock_color(Quantity { num: i128::MAX, den: u128::MAX }, Some(Quantity { num: i128::MAX, den: u128::MAX })), Tint::Red);
}

#[test]
fn rounds_counters_with_more_decimals_than_a_unit() {
    let cores = parse(&chars_of("cpu0 0.0000000000000001 0 0 0 0\ncpu1 0.0000000000000005 0 0 0 0\n"));

    assert_eq!(cores.len(), 2);
    assert_eq!(cores[0].total, 0);
    assert_eq!(cores[1].total, 1);
    assert_eq!(cores[1].busy, 1);
}

#[test]
fn counts_every_numeric_field_and_drops_lines_with_infinities() {
    let cores = parse(&chars_of("cpu0 1 2 x 3 4 5\ncpu1 inf 1 2 3 4\ncpu2 1 2 3 nan 4\n"));

    assert_eq!(cores.len(), 1);
    assert_eq!(cores[0].name, "Core 0");
    assert_eq!(cores[0].total, 15_000_000_000_000_000);
    assert_eq!(cores[0].busy, 6_000_000_000_000_000);
}

#[test]
fn rounds_decimals_to_the_nearest_unit() {
    let rounded = |s: &str, places: u32, limit: u128| parse_rounded(&chars_of(s), places, limit);

    assert_eq!(rounded("1.25", 1, 1000), Some(Some(13)));
    assert_eq!(rounded("-1.25", 1, 1000), Some(Some(-13)));
    assert_eq!(rounded("1.249", 1, 1000), Some(Some(12)));
    assert_eq!(rounded("0.04", 1, 1000), Some(Some(0)));
    assert_eq!(rounded("3e2", 0, 1000), Some(Some(300)));
    assert_eq!(rounded("1e40", 0, 10), Some(None));
    assert_eq!(rounded("1e-400", 15, 10), Some(Some(0)));
    assert_eq!(rounded("inf", 0, 10), None);
    assert_eq!(rounded("abc", 0, 10), None);
}

#[test]
fn reads_infinities_and_nan_as_floats_do() {
    let float = |s: &str| parse_float(&chars_of(s));

    assert_eq!(float("inf"), Some(Quantity { num: 1, den: 0 }));
    assert_eq!(float("-Infinity"), Some(Quantity { num: -1, den: 0 }));
    assert_eq!(float("+NaN"), Some(Quantity { num: 0, den: 0 }));
    assert_eq!(float("2.5"), Some(Quantity { num: 25, den: 10 }));
    assert_eq!(float("infx"), None);
    assert_eq!(float("in"), None);
}

#[test]
fn a_hwmon_channel_holding_an_infinity_gives_a_reading() {
    let files = ChannelFiles { input: text("inf\n"), label: None, min: text("-inf"), max: text("NaN") };

    let reading = channel_reading(&"chip".to_string(), &"temp1".to_string(), &files, 1000).unwrap();

    assert_eq!(reading.value, Quantity { num: 1, den: 0 });
    assert_eq!(reading.min, Some(Quantity { num: -1, den: 0 }));
    assert_eq!(reading.max, Some(Quantity { num: 0, den: 0 }));
}

#[test]
fn compares_infinities_and_nan_as_floats_do() {
    let inf = Quantity { num: 1, den: 0 };
    let minus_inf = Quantity { num: -1, den: 0 };
    let nan = Quantity { num: 0, den: 0 };
    let one = Quantity::whole(1);

    assert!(is_less(one, inf));
    assert!(is_less(minus_inf, one));
    assert!(is_less(minus_inf, inf));
    assert!(!is_less(inf, inf));
    assert!(!is_less(nan, one));
    assert!(!is_less(one, nan));
    assert_eq!(get_fan_color(nan, Some(Quantity::whole(3000))), Tint::Red);
    assert_eq!(get_clock_color(minus_inf, Some(Quantity::whole(3000))), Tint::Rgb(20, 20, 20));
    assert_eq!(get_clock_color(Quantity::whole(5), Some(inf)), Tint::Rgb(20, 20, 20));
}

#[test]
fn lays_the_grid_out_band_by_band() {
    let grid = calculate_grid(Area { x: 0, y: 0, width: 40, height: 10 }, 4);

    assert_eq!(grid.len(), 2);
    assert_eq!(grid[0], vec![Area { x: 0, y: 0, width: 20, height: 5 }, Area { x: 20, y: 0, width: 20, height: 5 }]);
    assert_eq!(grid[1], vec![Area { x: 0, y: 5, width: 20, height: 5 }, Area { x: 20, y: 5, width: 20, height: 5 }]);
}

#[test]
fn decodes_surrogate_pairs_and_replaces_lone_surrogates() {
    assert_eq!(registry_text(&vec![0xD834, 0xDD1E, 0x41]).as_deref(), Some("\u{1D11E}A"));
    assert_eq!(registry_text(&vec![0x41, 0xDC00]).as_deref(), Some("A\u{FFFD}"));
}

#[test]
fn a_file_reading_takes_what_its_file_holds() {
    let mut times = ReadTimes { cost: 0, last: 0 };
    let mut reading = Reading::new("temp1".to_string(), Quantity::whole(40));

    times.take(&mut reading, &text("80000\n"), 1000, 5, 7_000_000);
    assert_eq!(reading.value, Quantity { num: 80000, den: 1000 });
    assert_eq!(times.cost, 7_000_000);
    assert_eq!(times.last, 5);
    assert!(!times.due(1_000_000_000));

    times.take(&mut reading, &text("n/a\n"), 1000, 2_000_000_005, 10);
    assert_eq!(reading.value, Quantity { num: 80000, den: 1000 });
    assert!(times.due(2_000_000_006));
}

#[test]
fn looks_for_the_config_file_where_the_platform_keeps_it() {
    assert_eq!(config_place(true, false, true, true, true), Some(ConfigPlace::Local));
    assert_eq!(config_place(false, false, true, true, false), Some(ConfigPlace::XdgConfigHome));
    assert_eq!(config_place(false, false, false, true, false), Some(ConfigPlace::HomeConfig));
    assert_eq!(config_place(false, false, false, false, true), None);
    assert_eq!(config_place(false, true, true, true, true), Some(ConfigPlace::AppData));
    assert_eq!(config_place(false, true, true, true, false), None);
}

#[test]
fn rounds_energy_counters_to_the_picojoule() {
    let entry = ZoneEntry {
        dir_name: "intel-rapl:0".to_string(),
        has_energy: true,
        energy: text("9000000.0000006\n"),
        name: text("package-0\n"),
        resolved: true,
        parent_name: None,
        range: None,
        limit: None,
    };

    let scan = zones(&vec![entry]);

    assert_eq!(scan.zones.len(), 1);
    assert_eq!(scan.zones[0].energy, 9_000_000_000_001);
}
