use r_heatmap::cli::{log_level, LogLevel};
use r_heatmap::config::{default_disk_labels, GeneralConfig, StyleConfig};
use r_heatmap::cpufreq::{annotate, clock_note, core_id};
use r_heatmap::events::{quits, Step, Ticker};
use r_heatmap::monitors::{BatteryMonitor, FanMonitor, TempMonitor, VoltMonitor};
use r_heatmap::reading::{is_less, max_value, reread_due, update, Quantity, Reading};
use r_heatmap::ui::grid::{calculate_grid, columns, row_height, rows, Area};
use r_heatmap::ui::sensors::sensor_rows;
use r_heatmap::ui::tint::{get_usage_color, get_volt_color, is_color_light, parse_color, Tint};

fn labels(list: &[&str]) -> Vec<String> {
    list.iter().map(|label| label.to_string()).collect()
}

fn percent(num: i128, den: u128) -> Quantity {
    Quantity { num, den }
}

#[test]
fn reads_the_clock_of_each_core_into_its_note() {
    let mut cores = vec![
        Reading::new("Core 0".to_string(), Quantity::whole(12)),
        Reading::new("Core 1".to_string(), Quantity::whole(30)),
        Reading::new("RAM 31.1 GB".to_string(), Quantity::whole(25)),
    ];
    let texts = vec![Some("3600000\n".to_string()), None, Some("800000\n".to_string())];

    annotate(&mut cores, &texts);

    assert_eq!(cores[0].note.as_deref(), Some("3.60 GHz"));
    assert_eq!(cores[1].note, None);
    assert_eq!(cores[2].note, None);
    assert_eq!(cores[0].value, Quantity::whole(12));
}

#[test]
fn writes_clocks_in_gigahertz_with_two_decimals() {
    assert_eq!(clock_note(&Some("800000\n".to_string())).as_deref(), Some("0.80 GHz"));
    assert_eq!(clock_note(&Some("2201000".to_string())).as_deref(), Some("2.20 GHz"));
    assert_eq!(clock_note(&Some("not a clock".to_string())), None);
    assert_eq!(clock_note(&None), None);
}

#[test]
fn takes_the_core_number_out_of_a_core_label() {
    assert_eq!(core_id(&"Core 11".to_string()).as_deref(), Some("11"));
    assert_eq!(core_id(&"Cores".to_string()), None);
    assert_eq!(core_id(&"Swap 8.0 GB".to_string()), None);
}

#[test]
fn lays_tiles_out_on_a_square_grid() {
    assert_eq!(rows(0), 0);
    assert_eq!(columns(1), 1);
    assert_eq!(rows(1), 1);
    assert_eq!(columns(2), 2);
    assert_eq!(rows(2), 1);
    assert_eq!(rows(3), 2);
    assert_eq!(columns(5), 3);
    assert_eq!(rows(5), 2);
    assert_eq!(columns(16), 4);
    assert_eq!(rows(16), 4);
    assert_eq!(columns(17), 5);
    assert_eq!(rows(17), 4);
}

#[test]
fn the_grid_matches_the_square_root_rounded_up() {
    for count in 1..2000usize {
        let cols = (count as f32).sqrt().ceil() as usize;
        let expected_rows = (count as f32 / cols as f32).ceil() as usize;
        assert_eq!(columns(count), cols, "columns of {count}");
        assert_eq!(rows(count), expected_rows, "rows of {count}");
        assert!(rows(count) * columns(count) >= count);
        assert!((rows(count) - 1) * columns(count) < count);
    }
}

#[test]
fn gives_each_grid_row_four_lines() {
    assert_eq!(row_height(0), 0);
    assert_eq!(row_height(1), 4);
    assert_eq!(row_height(3), 8);
    assert_eq!(row_height(16), 16);
}

#[test]
fn cuts_an_area_into_grid_cells() {
    let area = Area { x: 0, y: 0, width: 90, height: 20 };

    let grid = calculate_grid(area, 5);

    assert_eq!(grid.len(), 2);
    assert!(grid.iter().all(|row| row.len() == 3));
    assert_eq!(grid[0][0], Area { x: 0, y: 0, width: 30, height: 10 });
    assert_eq!(grid[1][2], Area { x: 60, y: 10, width: 30, height: 10 });
    assert!(calculate_grid(area, 0).is_empty());
}

#[test]
fn reads_colour_names_in_any_case() {
    assert_eq!(parse_color("Cyan"), Tint::Cyan);
    assert_eq!(parse_color("YELLOW"), Tint::Yellow);
    assert_eq!(parse_color("red"), Tint::Red);
    assert_eq!(parse_color("Magenta"), Tint::Magenta);
    assert_eq!(parse_color("white"), Tint::White);
    assert_eq!(parse_color("Blue"), Tint::Blue);
    assert_eq!(parse_color("GREEN"), Tint::Green);
    assert_eq!(parse_color("mauve"), Tint::Cyan);
    assert_eq!(parse_color(""), Tint::Cyan);
}

#[test]
fn light_tints_take_dark_text() {
    assert!(is_color_light(Tint::Cyan));
    assert!(is_color_light(Tint::Yellow));
    assert!(is_color_light(Tint::Green));
    assert!(is_color_light(Tint::White));
    assert!(!is_color_light(Tint::Red));
    assert!(!is_color_light(Tint::Blue));
    assert!(!is_color_light(Tint::Rgb(20, 20, 20)));
}

#[test]
fn colours_usage_on_its_scale() {
    assert_eq!(get_usage_color(percent(999, 100)), Tint::Rgb(20, 20, 20));
    assert_eq!(get_usage_color(percent(10, 1)), Tint::DarkGray);
    assert_eq!(get_usage_color(percent(-5, 1)), Tint::Rgb(20, 20, 20));
    assert_eq!(get_usage_color(percent(30, 1)), Tint::Blue);
    assert_eq!(get_usage_color(percent(6999, 100)), Tint::Green);
    assert_eq!(get_usage_color(percent(70, 1)), Tint::Yellow);
    assert_eq!(get_usage_color(percent(85, 1)), Tint::Red);
    assert_eq!(get_usage_color(percent(1, 0)), Tint::Red);
}

#[test]
fn sorts_sensors_into_rows_narrowest_filter_first() {
    let found = labels(&[
        "nvme Composite KINGSTON SNV2S1000G",
        "k10temp Tctl",
        "nct6775 SYSTIN",
        "iwlwifi_1 temp1",
        "nct6775 CPUTIN",
        "acpitz temp1",
    ]);
    let mut style = StyleConfig::default();

    let rows = sensor_rows(&found, &style);

    assert_eq!(rows.disk, vec![0]);
    assert_eq!(rows.board, vec![2]);
    assert_eq!(rows.cpu, vec![1, 4]);
    assert!(rows.other.is_empty());

    style.show_other_sensors = true;
    let rows = sensor_rows(&found, &style);
    assert_eq!(rows.other, vec![5, 3]);
}

#[test]
fn an_idle_cpu_filter_shows_everything_left() {
    let found = labels(&["thinkpad fan", "acpitz temp1", "nvme Composite"]);
    let style = StyleConfig::default();

    let rows = sensor_rows(&found, &style);

    assert_eq!(rows.disk, vec![2]);
    assert_eq!(rows.cpu, vec![1, 0]);
    assert!(rows.other.is_empty());
}

#[test]
fn clamps_the_refresh_rate() {
    let mut general = GeneralConfig::default();
    assert_eq!(general.refresh_rate_ms, 500);
    assert_eq!(general.github_repo, "joaopssx/r-heatmap");
    assert_eq!(general.tick_rate_ms(), 500);

    general.refresh_rate_ms = 3;
    assert_eq!(general.tick_rate_ms(), 10);
    general.refresh_rate_ms = 10;
    assert_eq!(general.tick_rate_ms(), 10);
}

#[test]
fn the_default_style_names_its_filters() {
    let style = StyleConfig::default();

    assert_eq!(style.border_color, "Cyan");
    assert_eq!(style.header_color, "Yellow");
    assert_eq!(style.sensor_label_contains, labels(&["core", "tctl", "tccd", "cpu", "package", "die", "computer"]));
    assert_eq!(style.disk_label_contains, default_disk_labels());
    assert_eq!(style.board_label_contains, labels(&["pch", "systin", "chipset", "motherboard", "ambient"]));
    assert!(!style.show_other_sensors);
}

#[test]
fn picks_the_log_level_whatever_its_case() {
    assert_eq!(log_level("DEBUG"), LogLevel::Debug);
    assert_eq!(log_level("warn"), LogLevel::Warn);
    assert_eq!(log_level("Error"), LogLevel::Error);
    assert_eq!(log_level("info"), LogLevel::Info);
    assert_eq!(log_level("verbose"), LogLevel::Info);
}

#[test]
fn reads_batteries_every_five_seconds_at_most() {
    assert_eq!(BatteryMonitor::due(0, None, 100), (false, None));
    assert_eq!(BatteryMonitor::due(1, None, 100), (true, Some(100)));
    assert_eq!(BatteryMonitor::due(1, Some(100), 5099), (false, Some(100)));
    assert_eq!(BatteryMonitor::due(1, Some(100), 5100), (true, Some(5100)));
    assert_eq!(BatteryMonitor::due(1, Some(100), 50), (false, Some(100)));
}

#[test]
fn an_expensive_sensor_is_left_alone_between_intervals() {
    assert!(!reread_due(5_000_000, 0));
    assert!(!reread_due(5_000_000, 1_999_999_999));
    assert!(reread_due(5_000_000, 2_000_000_000));
}

#[test]
fn a_cheap_sensor_is_read_every_time() {
    assert!(reread_due(1_000_000, 0));
    assert!(reread_due(20_000, 5));
}

#[test]
fn monitors_scan_their_own_channels() {
    assert_eq!(FanMonitor::prefix(), "fan");
    assert_eq!(FanMonitor::divisor(), 1);
    assert_eq!(TempMonitor::prefix(), "temp");
    assert_eq!(TempMonitor::divisor(), 1000);
    assert_eq!(VoltMonitor::prefix(), "in");
    assert_eq!(VoltMonitor::divisor(), 1000);
}

#[test]
fn merging_by_label_keeps_the_row_in_place() {
    let mut row = vec![
        Reading::new("GPU 0".to_string(), Quantity::whole(10)),
        Reading::new("GPU 1".to_string(), Quantity::whole(20)),
    ];
    let mut fresh = vec![
        Reading::new("GPU 1".to_string(), Quantity::whole(70)),
        Reading::new("GPU 2".to_string(), Quantity::whole(99)),
        Reading::new("GPU 1".to_string(), Quantity::whole(1)),
    ];
    fresh[0].note = Some("busy".to_string());

    update(&mut row, &fresh);

    assert_eq!(row.len(), 2);
    assert_eq!(row[0].label, "GPU 0");
    assert_eq!(row[0].value, Quantity::whole(10));
    assert_eq!(row[1].label, "GPU 1");
    assert_eq!(row[1].value, Quantity::whole(70));
    assert_eq!(row[1].note.as_deref(), Some("busy"));

    update(&mut row, &fresh);
    assert_eq!(row[1].value, Quantity::whole(70));
    assert_eq!(row[0].value, Quantity::whole(10));
}

#[test]
fn quits_on_q_or_ctrl_c() {
    assert!(quits(Some('q'), false));
    assert!(quits(Some('q'), true));
    assert!(quits(Some('c'), true));
    assert!(!quits(Some('c'), false));
    assert!(!quits(Some('Q'), false));
    assert!(!quits(None, true));
}

#[test]
fn polls_input_for_what_is_left_of_the_tick() {
    let ticker = Ticker { tick: 500, last: 0 };
    assert_eq!(ticker.wait(200), 300);
    assert_eq!(ticker.wait(500), 0);
    assert_eq!(ticker.wait(900), 0);
}

#[test]
fn refreshes_once_a_tick_and_quits_on_the_quit_keys() {
    let mut ticker = Ticker::new(250, 1_000);
    assert_eq!(ticker.tick, 250_000_000);
    assert!(ticker.step(None, 1_000 + 100_000_000) == Step::Wait);
    assert!(ticker.step(Some((Some('x'), false)), 1_000 + 250_000_000) == Step::Refresh);
    assert_eq!(ticker.last, 1_000 + 250_000_000);
    assert!(ticker.step(None, 1_000 + 400_000_000) == Step::Wait);
    assert!(ticker.step(Some((Some('q'), false)), 1_000 + 400_000_001) == Step::Quit);
    assert!(ticker.step(Some((Some('c'), true)), 2_000_000_000) == Step::Quit);
    assert_eq!(ticker.last, 1_000 + 250_000_000);
    assert!(ticker.step(Some((Some('c'), false)), 2_000_000_000) == Step::Refresh);
}

#[test]
fn writes_binary_fractions_as_the_formatter_does() {
    for num in 0..5000u128 {
        for places in 1..=3usize {
            let exact: String = r_heatmap::number::fixed(num * 997, 1_048_576, places).into_iter().collect();
            let float = format!("{:.*}", places, (num * 997) as f64 / 1_048_576.0);
            assert_eq!(exact, float, "{} / 1048576 to {} places", num * 997, places);
        }
    }
}

#[test]
fn colours_a_rail_against_its_window() {
    let volts = |mv: i64| Quantity::scaled(mv, 1000);

    assert_eq!(get_volt_color(volts(12_100), Some(volts(10_800)), Some(volts(13_200))), Tint::Green);
    assert_eq!(get_volt_color(volts(10_799), Some(volts(10_800)), Some(volts(13_200))), Tint::Red);
    assert_eq!(get_volt_color(volts(13_201), Some(volts(10_800)), Some(volts(13_200))), Tint::Red);
    assert_eq!(get_volt_color(volts(13_200), None, Some(volts(13_200))), Tint::Green);
    assert_eq!(get_volt_color(volts(3_300), None, None), Tint::Blue);
}

#[test]
fn compares_figures_exactly() {
    assert!(is_less(Quantity { num: 1, den: 3 }, Quantity { num: 333_334, den: 1_000_000 }));
    assert!(!is_less(Quantity { num: 1, den: 3 }, Quantity { num: 333_333, den: 1_000_000 }));
    assert!(is_less(Quantity { num: -5, den: 2 }, Quantity { num: -2, den: 1 }));
    assert!(is_less(Quantity { num: i128::MIN, den: 1 }, Quantity { num: i128::MIN, den: 3 }));
    assert!(is_less(Quantity { num: i128::MAX, den: u128::MAX }, Quantity { num: i128::MAX, den: u128::MAX - 1 }));
    assert!(is_less(Quantity { num: 7, den: 1 }, Quantity { num: 1, den: 0 }));
    assert!(!is_less(Quantity { num: 1, den: 0 }, Quantity { num: 1, den: 0 }));
}

#[test]
fn reports_the_hottest_sensor_and_never_below_zero() {
    let readings = vec![
        Reading::new("a".to_string(), Quantity::scaled(41_500, 1000)),
        Reading::new("b".to_string(), Quantity::scaled(67_250, 1000)),
        Reading::new("c".to_string(), Quantity::whole(50)),
    ];

    assert_eq!(max_value(&readings), Quantity::scaled(67_250, 1000));
    assert_eq!(max_value(&Vec::new()), Quantity::zero());
    assert_eq!(max_value(&vec![Reading::new("cold".to_string(), Quantity::whole(-4))]), Quantity::zero());
}
