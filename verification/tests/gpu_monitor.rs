use nvml_wrapper::error::NvmlError;
use sys_dashboard::gpu::{gpu_stats_of, GpuMonitor};

#[test]
fn without_nvml_there_is_nothing_to_sample() {
    let mut monitor = GpuMonitor::new();
    if !monitor.is_available() {
        assert!(monitor.sample().is_none());
        assert!(monitor.sample().is_none());
    } else if let Some(stats) = monitor.sample() {
        assert!(stats.utilization_percent <= 100);
        assert!(stats.vram_used_bytes <= stats.vram_total_bytes);
    }
}

#[test]
fn a_snapshot_needs_both_reads() {
    let s = gpu_stats_of(Ok(42), Ok((1_000, 8_000))).expect("snapshot");
    assert_eq!(s.utilization_percent, 42);
    assert_eq!(s.vram_used_bytes, 1_000);
    assert_eq!(s.vram_total_bytes, 8_000);
    assert!(gpu_stats_of(Err(NvmlError::Unknown), Ok((1, 2))).is_none());
    assert!(gpu_stats_of(Ok(7), Err(NvmlError::Unknown)).is_none());
}

#[test]
fn a_failed_initialisation_leaves_nothing_to_sample() {
    let mut monitor = GpuMonitor::from_init(Err(NvmlError::Unknown));
    assert!(!monitor.is_available());
    assert!(monitor.sample().is_none());
    assert!(!monitor.is_available());
    assert!(monitor.sample().is_none());
}
