use vstd::prelude::*;

pub mod cli;
pub mod config;
pub mod cpufreq;
pub mod drm;
pub mod events;
pub mod hwmon;
pub mod meminfo;
pub mod monitors;
pub mod number;
pub mod order;
pub mod power_supply;
pub mod rapl;
pub mod reading;
pub mod stat;
pub mod sysfs;
pub mod text;
pub mod ui;
pub mod windows;
mod wide;

verus! {

/// Whether the console needs switching to UTF-8 before drawing; nothing to do here.
pub fn use_utf8() {
}

} // verus!
