use r_heatmap::drm::{cards, dpm_table, top_state, usage_label};
use r_heatmap::hwmon::{channel, channel_label, channel_reading, chip_dir, chip_name, inputs, with_model, ChannelFiles};
use r_heatmap::power_supply::{charge, temperatures, SupplyFiles};
use r_heatmap::rapl::{zones, ZoneEntry};
use r_heatmap::reading::Quantity;
use r_heatmap::sysfs::{class_dir, read_number, read_text, sorted};
use r_heatmap::windows::adapters::{names, registry_text, AdapterEntry};
use r_heatmap::windows::storage::{drive_name, drive_temperatures, text_at};

fn text(s: &str) -> Option<String> {
    Some(s.to_string())
}

fn figure(q: Quantity) -> f64 {
    q.num as f64 / q.den as f64
}

fn strings(list: &[&str]) -> Vec<String> {
    list.iter().map(|s| s.to_string()).collect()
}

fn supply(name: &str, kind: &str) -> SupplyFiles {
    SupplyFiles {
        name: name.to_string(),
        kind: text(kind),
        capacity: None,
        status: None,
        power_now: None,
        current_now: None,
        voltage_now: None,
        temp: None,
    }
}

#[test]
fn resolves_a_class_directory_only_when_it_is_there() {
    assert_eq!(class_dir("hwmon", true).as_deref(), Some("/sys/class/hwmon"));
    assert_eq!(class_dir("drm", false), None);
}

#[test]
fn reads_sysfs_text_and_numbers_without_whitespace() {
    assert_eq!(read_text(&text("  amdgpu\n")).as_deref(), Some("amdgpu"));
    assert_eq!(read_number(&text("48000\n")), Some(Quantity::whole(48000)));
    assert_eq!(read_number(&text("-12\n")), Some(Quantity::whole(-12)));
    assert_eq!(read_number(&text("n/a\n")), None);
    assert_eq!(read_number(&None), None);
    assert_eq!(sorted(&strings(&["hwmon2", "hwmon0", "hwmon1"])), strings(&["hwmon0", "hwmon1", "hwmon2"]));
}

#[test]
fn only_lists_card_nodes_in_order() {
    let entries = strings(&["card1", "card0-eDP-1", "renderD128", "card0", "version"]);

    assert_eq!(cards(&entries), strings(&["card0", "card1"]));
}

#[test]
fn labels_a_card_by_node_and_driver() {
    let uevent = text("DRIVER=amdgpu\nPCI_CLASS=30000\n");

    assert_eq!(usage_label(&"card1".to_string(), &uevent), "card1 amdgpu");
    assert_eq!(usage_label(&"card0".to_string(), &None), "card0");
}

#[test]
fn reads_clocks_against_the_top_dpm_state() {
    let top = top_state(&text("0: 500Mhz\n1: 1200Mhz *\n2: 2200Mhz\n"));

    assert_eq!(top, Some(Quantity::whole(2200)));
    assert_eq!(dpm_table(&"card1 sclk".to_string()), "device/pp_dpm_sclk");
    assert_eq!(top_state(&None), None);
}

#[test]
fn reads_amdgpu_temperatures_under_the_card() {
    let files = ChannelFiles { input: text("48000\n"), label: text("edge\n"), min: None, max: None };

    let reading = channel_reading(&"card1".to_string(), &"temp1".to_string(), &files, 1000).unwrap();

    assert_eq!(reading.label, "card1 edge");
    assert_eq!(figure(reading.value), 48.0);
}

#[test]
fn names_channels_after_their_input_files() {
    let files = strings(&["temp2_input", "name", "temp1_label", "temp1_input", "fan1_input"]);

    assert_eq!(inputs(&files, "temp"), strings(&["temp1_input", "temp2_input"]));
    assert_eq!(channel(&"temp1_input".to_string()), "temp1");
    assert_eq!(channel_label(&"dell_smm".to_string(), &"temp1".to_string(), &None), "dell_smm temp1");
    assert_eq!(chip_name(&None), "hwmon");
    assert_eq!(chip_name(&text("nct6775\n")), "nct6775");
}

#[test]
fn a_voltage_keeps_its_window() {
    let files = ChannelFiles {
        input: text("12100\n"),
        label: None,
        min: text("10800\n"),
        max: text("13200\n"),
    };

    let reading = channel_reading(&"nct6775".to_string(), &"in1".to_string(), &files, 1000).unwrap();

    assert_eq!(reading.label, "nct6775 in1");
    assert_eq!(figure(reading.value), 12.1);
    assert_eq!(reading.min.map(figure), Some(10.8));
    assert_eq!(reading.max.map(figure), Some(13.2));
}

#[test]
fn finds_the_chip_of_a_device() {
    let entries = vec![("hwmon5".to_string(), true), ("hwmon3".to_string(), true), ("power".to_string(), false)];

    assert_eq!(chip_dir(&entries).as_deref(), Some("hwmon3"));
    assert_eq!(chip_dir(&Vec::new()), None);
}

#[test]
fn reads_charge_and_says_what_the_battery_is_doing() {
    let ac = supply("AC", "Mains\n");
    let mut battery = supply("BAT0", "Battery\n");
    battery.capacity = text("94\n");
    battery.status = text("Discharging\n");
    battery.current_now = text("607000\n");
    battery.voltage_now = text("16111000\n");

    let charge = charge(&vec![battery, ac]);

    assert_eq!(charge.len(), 1);
    assert_eq!(charge[0].label, "BAT0");
    assert_eq!(figure(charge[0].value), 94.0);
    assert_eq!(charge[0].note.as_deref(), Some("Discharging 9.8 W"));
}

#[test]
fn falls_back_to_the_status_alone_when_nothing_is_flowing() {
    let mut battery = supply("BAT0", "Battery\n");
    battery.capacity = text("100\n");
    battery.status = text("Full\n");

    assert_eq!(charge(&vec![battery])[0].note.as_deref(), Some("Full"));
}

#[test]
fn reads_tenths_of_a_degree() {
    let mut battery = supply("BAT0", "Battery\n");
    battery.capacity = text("94\n");
    battery.status = text("Full\n");
    battery.temp = text("229\n");

    let temps = temperatures(&vec![battery]);

    assert_eq!(temps[0].label, "BAT0 temp");
    assert!((figure(temps[0].value) - 22.9).abs() < 0.01);
}

#[test]
fn a_desktop_with_no_battery_is_not_a_problem() {
    assert!(charge(&vec![supply("AC", "Mains\n")]).is_empty());
}

fn entry(dir: &str, name: &str, parent: Option<&str>, energy: &str) -> ZoneEntry {
    ZoneEntry {
        dir_name: dir.to_string(),
        has_energy: true,
        energy: text(energy),
        name: text(name),
        resolved: true,
        parent_name: parent.map(|p| p.to_string()),
        range: None,
        limit: None,
    }
}

#[test]
fn names_subzones_after_the_package_and_drops_the_second_reading_of_it() {
    let mut package = entry("intel-rapl:0", "package-0\n", None, "9000000\n");
    package.limit = text("30000000\n");
    let core = entry("intel-rapl:0:0", "core\n", Some("package-0\n"), "4000000\n");
    let mmio = entry("intel-rapl-mmio:0", "package-0\n", None, "9000004\n");
    let mut locked = entry("intel-rapl:1", "package-1\n", None, "");
    locked.energy = None;

    let scan = zones(&vec![mmio, core, package, locked]);

    assert_eq!(scan.zones.len(), 2);
    assert_eq!(scan.zones[0].label, "package-0");
    assert_eq!(scan.zones[0].limit.map(figure), Some(30.0));
    assert_eq!(scan.zones[1].label, "package-0 core");
    assert_eq!(scan.locked, 1);
}

#[test]
fn names_an_adapter_by_its_luid_and_drops_software_ones() {
    let adapters = vec![
        AdapterEntry { luid: Some(60575), description: text("RTX 4060 Ti"), kind: Some(0) },
        AdapterEntry { luid: Some(65325), description: text("Microsoft Basic Render Driver"), kind: Some(4) },
        AdapterEntry { luid: None, description: text("Orphan"), kind: None },
    ];

    let names = names(&adapters);

    assert_eq!(names, vec![("luid_0x00000000_0x0000ec9f".to_string(), "RTX 4060 Ti".to_string())]);
}

#[test]
fn decodes_registry_text_up_to_its_terminator() {
    let units: Vec<u16> = "  NVIDIA GeForce \0\0".encode_utf16().collect();

    assert_eq!(registry_text(&units).as_deref(), Some("NVIDIA GeForce"));
    assert_eq!(registry_text(&vec![0, 0]), None);
    assert_eq!(registry_text(&vec![0xD800, 0x41]).as_deref(), Some("\u{FFFD}A"));
}

#[test]
fn names_a_drive_from_its_descriptor() {
    let mut bytes = vec![0u8; 8];
    bytes.extend_from_slice(b"ADATA\0");
    bytes.extend_from_slice(b"  LEGEND 960 \0");

    assert_eq!(drive_name(0, &Some((bytes.clone(), 8, 14))), "disk0 ADATA LEGEND 960");
    assert_eq!(drive_name(3, &None), "disk3");
    assert_eq!(text_at(&bytes, 8).as_deref(), Some("ADATA"));
    assert_eq!(text_at(&bytes, 0), None);
    assert_eq!(text_at(&vec![0xff, 0xfe, 0xff, 0], 1), None);
}

#[test]
fn a_drive_with_several_sensors_gets_a_tile_per_channel() {
    let name = "disk1 NVMe".to_string();

    let one = drive_temperatures(&name, 1, 4, &vec![(0, 41)]);
    assert_eq!(one.len(), 1);
    assert_eq!(one[0].label, "disk1 NVMe");
    assert_eq!(figure(one[0].value), 41.0);

    let two = drive_temperatures(&name, 2, 4, &vec![(0, 41), (1, 55)]);
    assert_eq!(two.len(), 2);
    assert_eq!(two[0].label, "disk1 NVMe temp0");
    assert_eq!(two[1].label, "disk1 NVMe temp1");
}

#[test]
fn names_a_drive_sensor_after_its_device_model() {
    let label = "nvme Composite".to_string();

    assert_eq!(with_model(&label, &text("KINGSTON SNV2S1000G\n")), "nvme Composite KINGSTON SNV2S1000G");
    assert_eq!(with_model(&label, &text("  \n")), "nvme Composite");
    assert_eq!(with_model(&label, &None), "nvme Composite");
}
