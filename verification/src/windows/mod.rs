//! What the Windows sources hand back, turned into readings: GPU adapters named from
//! the registry, GPU engine counters, and drive temperatures.
pub mod adapters;
pub mod perf;
pub mod storage;
