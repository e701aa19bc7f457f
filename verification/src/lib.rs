//! Verified core of a desktop system-monitor and weather dashboard: the
//! per-widget configuration store, the FMI weather-feed reader and the
//! forecast planner, and the GPU sampling decisions.
pub mod text;
pub mod config;

pub mod time;
pub mod weather;
pub mod gpu;
pub mod nvml_log;
