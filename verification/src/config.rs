//! The configuration's general and style sections, their built-in defaults, and the
//! rules read off them: how often to refresh, and where the configuration file is
//! looked for.
use vstd::prelude::*;

verus! {

pub struct GeneralConfig {
    /// Update frequency in milliseconds.
    pub refresh_rate_ms: u64,
    /// Text shown on the right side of the status bar.
    pub github_repo: String,
}

pub struct StyleConfig {
    pub border_color: String,
    pub header_color: String,
    /// Which discovered sensors go in the CPU row.
    pub sensor_label_contains: Vec<String>,
    /// Which discovered sensors go in the disk row.
    pub disk_label_contains: Vec<String>,
    /// Which discovered sensors go in the chipset row.
    pub board_label_contains: Vec<String>,
    /// Whether the sensors no filter claimed get a row of their own.
    pub show_other_sensors: bool,
}

/// The shortest refresh interval in milliseconds; shorter settings are raised to it.
pub const MIN_REFRESH_MS: u64 = 10;

impl GeneralConfig {
    /// The interval between two refreshes: `refresh_rate_ms`, clamped to at least ten
    /// milliseconds.
    pub fn tick_rate_ms(&self) -> (ms: u64)
        ensures
            ms == if self.refresh_rate_ms < MIN_REFRESH_MS {
                MIN_REFRESH_MS
            } else {
                self.refresh_rate_ms
            },
    {
        if self.refresh_rate_ms < MIN_REFRESH_MS {
            MIN_REFRESH_MS
        } else {
            self.refresh_rate_ms
        }
    }
}

impl Default for GeneralConfig {
    fn default() -> (c: GeneralConfig)
        ensures
            c.refresh_rate_ms == 500,
            c.github_repo@ == "joaopssx/r-heatmap"@,
    {
        GeneralConfig { refresh_rate_ms: 500, github_repo: "joaopssx/r-heatmap".to_owned() }
    }
}

/// The labels the disk row takes when the configuration names none.
pub fn default_disk_labels() -> (v: Vec<String>)
    ensures
        v@.len() == 2,
        v@[0]@ == "nvme"@,
        v@[1]@ == "drivetemp"@,
{
    vec!["nvme".to_owned(), "drivetemp".to_owned()]
}

/// The labels the chipset row takes when the configuration names none.
pub fn default_board_labels() -> (v: Vec<String>)
    ensures
        v@.len() == 5,
        v@[0]@ == "pch"@,
        v@[1]@ == "systin"@,
        v@[2]@ == "chipset"@,
        v@[3]@ == "motherboard"@,
        v@[4]@ == "ambient"@,
{
    vec![
        "pch".to_owned(),
        "systin".to_owned(),
        "chipset".to_owned(),
        "motherboard".to_owned(),
        "ambient".to_owned(),
    ]
}

/// The labels the CPU row takes by default.
pub fn default_sensor_labels() -> (v: Vec<String>)
    ensures
        v@.len() == 7,
        v@[0]@ == "core"@,
        v@[1]@ == "tctl"@,
        v@[2]@ == "tccd"@,
        v@[3]@ == "cpu"@,
        v@[4]@ == "package"@,
        v@[5]@ == "die"@,
        v@[6]@ == "computer"@,
{
    vec![
        "core".to_owned(),
        "tctl".to_owned(),
        "tccd".to_owned(),
        "cpu".to_owned(),
        "package".to_owned(),
        "die".to_owned(),
        "computer".to_owned(),
    ]
}

impl Default for StyleConfig {
    fn default() -> (c: StyleConfig)
        ensures
            c.border_color@ == "Cyan"@,
            c.header_color@ == "Yellow"@,
            c.sensor_label_contains@.len() == 7,
            c.sensor_label_contains@[0]@ == "core"@,
            c.sensor_label_contains@[1]@ == "tctl"@,
            c.sensor_label_contains@[2]@ == "tccd"@,
            c.sensor_label_contains@[3]@ == "cpu"@,
            c.sensor_label_contains@[4]@ == "package"@,
            c.sensor_label_contains@[5]@ == "die"@,
            c.sensor_label_contains@[6]@ == "computer"@,
            c.disk_label_contains@.len() == 2,
            c.disk_label_contains@[0]@ == "nvme"@,
            c.disk_label_contains@[1]@ == "drivetemp"@,
            c.board_label_contains@.len() == 5,
            c.board_label_contains@[0]@ == "pch"@,
            c.board_label_contains@[1]@ == "systin"@,
            c.board_label_contains@[2]@ == "chipset"@,
            c.board_label_contains@[3]@ == "motherboard"@,
            c.board_label_contains@[4]@ == "ambient"@,
            !c.show_other_sensors,
    {
        StyleConfig {
            border_color: "Cyan".to_owned(),
            header_color: "Yellow".to_owned(),
            sensor_label_contains: default_sensor_labels(),
            disk_label_contains: default_disk_labels(),
            board_label_contains: default_board_labels(),
            show_other_sensors: false,
        }
    }
}

/// Where the configuration file is looked for.
#[derive(Clone, Copy, Debug, PartialEq, Eq, Structural)]
pub enum ConfigPlace {
    /// `config.toml` in the working directory.
    Local,
    /// `r-heatmap/config.toml` under `$XDG_CONFIG_HOME`.
    XdgConfigHome,
    /// `r-heatmap/config.toml` under `$HOME/.config`.
    HomeConfig,
    /// `r-heatmap/config.toml` under `%APPDATA%`.
    AppData,
}

/// Where the configuration file is looked for when none is named: `config.toml` in the
/// working directory when there is one; else, on Windows, under `%APPDATA%`, and
/// elsewhere under `$XDG_CONFIG_HOME`, or `$HOME/.config` when that is not set; nowhere
/// when the variable needed is not set.
pub open spec fn config_place_of(
    local_exists: bool,
    windows: bool,
    has_xdg: bool,
    has_home: bool,
    has_appdata: bool,
) -> Option<ConfigPlace> {
    if local_exists {
        Some(ConfigPlace::Local)
    } else if windows {
        if has_appdata {
            Some(ConfigPlace::AppData)
        } else {
            None
        }
    } else if has_xdg {
        Some(ConfigPlace::XdgConfigHome)
    } else if has_home {
        Some(ConfigPlace::HomeConfig)
    } else {
        None
    }
}

pub fn config_place(local_exists: bool, windows: bool, has_xdg: bool, has_home: bool, has_appdata: bool) -> (r: Option<
    ConfigPlace,
>)
    ensures
        r == config_place_of(local_exists, windows, has_xdg, has_home, has_appdata),
{
    if local_exists {
        Some(ConfigPlace::Local)
    } else if windows {
        if has_appdata {
            Some(ConfigPlace::AppData)
        } else {
            None
        }
    } else if has_xdg {
        Some(ConfigPlace::XdgConfigHome)
    } else if has_home {
        Some(ConfigPlace::HomeConfig)
    } else {
        None
    }
}

} // verus!
