//! The rows of the interface, one monitor each, and what each decides on its own: which
//! channels it scans, how a fresh set is merged into the row, and when it is worth
//! reading again.
use vstd::prelude::*;
use crate::reading::{merged, update, Reading};

verus! {

/// Batteries: charge and what the battery is doing, reread every five seconds at most.
pub struct BatteryMonitor;

/// Per core usage, with the clock of each core.
pub struct CpuMonitor;

/// Disk temperatures, where they come in a batch.
pub struct DiskMonitor;

/// Fan speeds, from `fanN_input`.
pub struct FanMonitor;

/// GPU usage, temperatures and clocks.
pub struct GpuMonitor;

/// RAM and swap pressure.
pub struct MemoryMonitor;

/// Power drawn, per RAPL zone.
pub struct PowerMonitor;

/// Temperatures, from every `tempN_input`.
pub struct TempMonitor;

/// Voltages, from `inN_input`.
pub struct VoltMonitor;

/// `update` as every monitor that produces its readings in a batch refreshes its row.
pub open spec fn refreshed(old: Seq<Reading>, fresh: Seq<Reading>, new: Seq<Reading>) -> bool {
    &&& new.len() == old.len()
    &&& forall|i: int| 0 <= i < new.len() ==> merged(#[trigger] old[i], fresh, new[i])
}

/// The least time between two battery reads, in milliseconds.
pub const BATTERY_INTERVAL_MS: u64 = 5000;

/// Whether batteries are to be read now, with `last` the time of the previous read and
/// `now` the time at this refresh, both in milliseconds from the same start.
pub open spec fn battery_due(last: Option<u64>, now: u64) -> bool {
    match last {
        Some(l) => now >= l && now - l >= BATTERY_INTERVAL_MS,
        None => true,
    }
}

impl BatteryMonitor {
    /// Decides whether a row of `count` batteries is read again at `now`, and returns the
    /// time of the last read to keep. An empty row is never read again and does not
    /// count as a read.
    pub fn due(count: usize, last: Option<u64>, now: u64) -> (r: (bool, Option<u64>))
        ensures
            r.0 == (count > 0 && battery_due(last, now)),
            r.1 == if r.0 {
                Some(now)
            } else {
                last
            },
    {
        if count == 0 {
            return (false, last);
        }
        match last {
            Some(l) => {
                let elapsed: u64 = if now >= l {
                    now - l
                } else {
                    0
                };
                if elapsed < BATTERY_INTERVAL_MS {
                    (false, last)
                } else {
                    (true, Some(now))
                }
            },
            None => (true, Some(now)),
        }
    }

    /// Merges freshly read batteries into the row.
    pub fn refresh(batteries: &mut Vec<Reading>, fresh: &Vec<Reading>)
        ensures
            refreshed(old(batteries)@, fresh@, final(batteries)@),
    {
        update(batteries, fresh);
    }
}

impl CpuMonitor {
    /// Merges freshly measured cores into the row.
    pub fn refresh_cores(cores: &mut Vec<Reading>, fresh: &Vec<Reading>)
        ensures
            refreshed(old(cores)@, fresh@, final(cores)@),
    {
        update(cores, fresh);
    }
}

impl DiskMonitor {
    /// Merges freshly read disk temperatures into the row.
    pub fn refresh(disks: &mut Vec<Reading>, fresh: &Vec<Reading>)
        ensures
            refreshed(old(disks)@, fresh@, final(disks)@),
    {
        update(disks, fresh);
    }
}

impl FanMonitor {
    /// The channel prefix fans are read from.
    pub fn prefix() -> (p: &'static str)
        ensures
            p@ == "fan"@,
    {
        "fan"
    }

    /// Fan inputs are in RPM already.
    pub fn divisor() -> (d: u64)
        ensures
            d == 1,
    {
        1
    }
}

impl GpuMonitor {
    /// Merges a fresh set of GPU usage figures into the row, where they come in a batch.
    pub fn refresh(gpus: &mut Vec<Reading>, fresh: &Vec<Reading>)
        ensures
            refreshed(old(gpus)@, fresh@, final(gpus)@),
    {
        update(gpus, fresh);
    }
}

impl MemoryMonitor {
    /// Merges freshly read memory pools into the row.
    pub fn refresh_pools(pools: &mut Vec<Reading>, fresh: &Vec<Reading>)
        ensures
            refreshed(old(pools)@, fresh@, final(pools)@),
    {
        update(pools, fresh);
    }
}

impl PowerMonitor {
    /// Merges freshly measured power figures into the row.
    pub fn refresh(power: &mut Vec<Reading>, fresh: &Vec<Reading>)
        ensures
            refreshed(old(power)@, fresh@, final(power)@),
    {
        update(power, fresh);
    }
}

impl TempMonitor {
    /// The channel prefix temperatures are read from.
    pub fn prefix() -> (p: &'static str)
        ensures
            p@ == "temp"@,
    {
        "temp"
    }

    /// Temperature inputs are in millidegrees.
    pub fn divisor() -> (d: u64)
        ensures
            d == 1000,
    {
        1000
    }

    /// Merges a fresh set of temperatures into the row, where they come in a batch.
    pub fn refresh(temps: &mut Vec<Reading>, fresh: &Vec<Reading>)
        ensures
            refreshed(old(temps)@, fresh@, final(temps)@),
    {
        update(temps, fresh);
    }
}

impl VoltMonitor {
    /// The channel prefix voltages are read from.
    pub fn prefix() -> (p: &'static str)
        ensures
            p@ == "in"@,
    {
        "in"
    }

    /// Voltage inputs are in millivolts.
    pub fn divisor() -> (d: u64)
        ensures
            d == 1000,
    {
        1000
    }
}

} // verus!
