//! NVIDIA GPU utilisation and VRAM through NVML.
//!
//! NVML is loaded at run time; on a machine without the driver it fails to
//! initialise and the monitor simply reports nothing. Any failure while
//! sampling also gives nothing, so that the next sample can try again.
use vstd::prelude::*;
use nvml_wrapper::Nvml;
use nvml_wrapper::Device;
use nvml_wrapper::error::NvmlError;
use crate::nvml_log::{NvmlCall, NvmlLog};

verus! {

#[verifier::external_type_specification]
#[verifier::external_body]
pub struct ExNvml(Nvml);

#[verifier::external_type_specification]
#[verifier::external_body]
pub struct ExNvmlDevice<'nvml>(Device<'nvml>);

#[verifier::external_type_specification]
#[verifier::external_body]
pub struct ExNvmlError(NvmlError);

/// `Nvml::init`: loads the NVML library and initialises it.
#[verifier::external_body]
pub(crate) fn nvml_init() -> Result<Nvml, NvmlError> {
    Nvml::init()
}

/// The outcome of looking up a device, with the index that was asked for.
pub(crate) struct DeviceLookup<'nvml> {
    pub(crate) device: Result<Device<'nvml>, NvmlError>,
    pub(crate) index: Ghost<u32>,
}

/// `Nvml::device_by_index`, keeping the index asked for beside the outcome;
/// the lookup is added to `log`.
#[verifier::external_body]
pub(crate) fn device_by_index<'nvml>(nvml: &'nvml Nvml, index: u32, log: &mut NvmlLog) -> (r: DeviceLookup<'nvml>)
    ensures
        r.index@ == index,
        final(log).calls() == old(log).calls().push(
            NvmlCall::Lookup(
                index,
                match r.device {
                    Ok(_) => None,
                    Err(e) => Some(e),
                },
            ),
        ),
{
    DeviceLookup { device: nvml.device_by_index(index), index: Ghost(index) }
}

/// `Device::utilization_rates`, keeping the `gpu` field: the percent of the
/// last sample period during which a kernel was running, so at most 100.
/// The read is added to `log`.
#[verifier::external_body]
pub(crate) fn gpu_utilization(device: &Device, log: &mut NvmlLog) -> (r: Result<u32, NvmlError>)
    ensures
        r matches Ok(u) ==> u <= 100,
        final(log).calls() == old(log).calls().push(NvmlCall::Utilization(r)),
{
    device.utilization_rates().map(|u| u.gpu)
}

/// `Device::memory_info`, keeping the `used` and `total` fields (bytes).
/// The read is added to `log`.
#[verifier::external_body]
pub(crate) fn memory_used_total(device: &Device, log: &mut NvmlLog) -> (r: Result<(u64, u64), NvmlError>)
    ensures
        final(log).calls() == old(log).calls().push(NvmlCall::Memory(r)),
{
    device.memory_info().map(|m| (m.used, m.total))
}

/// One snapshot of the primary GPU: utilisation in percent as NVML reports
/// it (0 to 100), and VRAM use in bytes.
#[derive(Clone, Copy, Debug, PartialEq, Eq, Structural)]
pub struct GpuStats {
    pub utilization_percent: u32,
    pub vram_used_bytes: u64,
    pub vram_total_bytes: u64,
}

/// What the last sample did, step by step: which device it asked NVML for,
/// and what each read gave.
pub enum SampleSteps {
    /// No sample has read anything: none was taken, or NVML is missing.
    Nothing,
    /// The lookup of the device with this index failed.
    NoDevice(u32, NvmlError),
    /// The device with this index was found; reading its utilisation
    /// failed, so its memory was not read.
    UtilizationFailed(u32, NvmlError),
    /// The device with this index was found, and its utilisation and then
    /// its memory were read.
    BothRead(u32, Result<u32, NvmlError>, Result<(u64, u64), NvmlError>),
}

/// The steps a sequence of NVML calls makes up: a device lookup, then a
/// utilisation read of the device found, then a memory read once that
/// succeeded.
pub open spec fn steps_of(calls: Seq<NvmlCall>) -> SampleSteps {
    if calls.len() == 0 {
        SampleSteps::Nothing
    } else {
        match calls[0] {
            NvmlCall::Lookup(i, Some(e)) => SampleSteps::NoDevice(i, e),
            NvmlCall::Lookup(i, None) => if calls.len() >= 2 {
                match calls[1] {
                    NvmlCall::Utilization(Err(e)) => SampleSteps::UtilizationFailed(i, e),
                    NvmlCall::Utilization(Ok(u)) => if calls.len() >= 3 {
                        match calls[2] {
                            NvmlCall::Memory(m) => SampleSteps::BothRead(i, Ok(u), m),
                            _ => SampleSteps::Nothing,
                        }
                    } else {
                        SampleSteps::Nothing
                    },
                    _ => SampleSteps::Nothing,
                }
            } else {
                SampleSteps::Nothing
            },
            _ => SampleSteps::Nothing,
        }
    }
}

/// The device index a sample asked for.
pub open spec fn asked_index(s: SampleSteps) -> Option<u32> {
    match s {
        SampleSteps::Nothing => None,
        SampleSteps::NoDevice(i, _) => Some(i),
        SampleSteps::UtilizationFailed(i, _) => Some(i),
        SampleSteps::BothRead(i, _, _) => Some(i),
    }
}

/// One of the sample's steps failed.
pub open spec fn step_failed(s: SampleSteps) -> bool {
    match s {
        SampleSteps::Nothing => false,
        SampleSteps::NoDevice(_, _) => true,
        SampleSteps::UtilizationFailed(_, _) => true,
        SampleSteps::BothRead(_, u, m) => u is Err || m is Err,
    }
}

/// The snapshot a sample's steps give.
pub open spec fn snapshot_of(s: SampleSteps) -> Option<GpuStats> {
    match s {
        SampleSteps::BothRead(_, u, m) => stats_of(u, m),
        _ => None,
    }
}

/// The primary GPU's monitor. Without NVML it stays without: there is no
/// retry, a restart is needed once the driver is installed.
pub struct GpuMonitor {
    nvml: Option<Nvml>,
    log: NvmlLog,
}

impl GpuMonitor {
    /// NVML was initialised.
    pub closed spec fn available(&self) -> bool {
        self.nvml is Some
    }

    /// The NVML handle the monitor holds, if any.
    pub closed spec fn handle(&self) -> Option<Nvml> {
        self.nvml
    }

    /// The NVML calls the last sample made, in order.
    pub closed spec fn last_calls(&self) -> Seq<NvmlCall> {
        self.log.calls()
    }

    /// What the last sample did.
    pub closed spec fn last_steps(&self) -> SampleSteps {
        steps_of(self.log.calls())
    }

    /// A monitor over the outcome of initialising NVML: it has a GPU to
    /// sample exactly when the initialisation succeeded.
    pub fn from_init(init: Result<Nvml, NvmlError>) -> (m: Self)
        ensures
            m.available() == init is Ok,
            m.last_steps() is Nothing,
    {
        let nvml = match init {
            Ok(n) => Some(n),
            Err(_) => None,
        };
        GpuMonitor { nvml, log: NvmlLog::new() }
    }

    /// Initialises NVML; on failure the monitor has no GPU to sample.
    pub fn new() -> (m: Self)
        ensures
            m.last_steps() is Nothing,
    {
        GpuMonitor::from_init(nvml_init())
    }

    /// Whether NVML was initialised.
    pub fn is_available(&self) -> (r: bool)
        ensures
            r == self.available(),
    {
        self.nvml.is_some()
    }

    /// Samples device 0, the primary GPU: its utilisation and memory use,
    /// or `None` when NVML is missing or any of the three reads fails. The
    /// memory is not read once the utilisation read has failed. Whether
    /// NVML is there never changes. The NVML calls made are recorded as
    /// they return, and the snapshot is made of what they gave.
    pub fn sample(&mut self) -> (r: Option<GpuStats>)
        ensures
            final(self).last_calls().len() <= 3,
            final(self).handle() == old(self).handle(),
            final(self).available() == old(self).available(),
            !old(self).available() <==> final(self).last_steps() is Nothing,
            old(self).available() ==> asked_index(final(self).last_steps()) == Some(0u32),
            final(self).last_steps() matches SampleSteps::BothRead(_, u, _) ==> u is Ok,
            r == snapshot_of(final(self).last_steps()),
            r is None <==> (!old(self).available() || step_failed(final(self).last_steps())),
            r matches Some(s) ==> s.utilization_percent <= 100,
            r matches Some(s) ==> final(self).last_calls() == seq![
                NvmlCall::Lookup(0u32, None),
                NvmlCall::Utilization(Ok(s.utilization_percent)),
                NvmlCall::Memory(Ok((s.vram_used_bytes, s.vram_total_bytes))),
            ],
    {
        self.log.clear();
        let nvml = match &self.nvml {
            Some(n) => n,
            None => {
                return None;
            },
        };
        let lookup = device_by_index(nvml, 0, &mut self.log);
        let device = match lookup.device {
            Ok(d) => d,
            Err(_) => {
                return None;
            },
        };
        let util = gpu_utilization(&device, &mut self.log);
        if let Err(_) = &util {
            return None;
        }
        let mem = memory_used_total(&device, &mut self.log);
        gpu_stats_of(util, mem)
    }
}

/// The snapshot made of a utilisation read and a memory read: present only
/// when both succeeded.
pub open spec fn stats_of(util: Result<u32, NvmlError>, mem: Result<(u64, u64), NvmlError>) -> Option<
    GpuStats,
> {
    match (util, mem) {
        (Ok(u), Ok(m)) => Some(
            GpuStats { utilization_percent: u, vram_used_bytes: m.0, vram_total_bytes: m.1 },
        ),
        _ => None,
    }
}

/// Combines the utilisation read and the memory read (`used`, `total`) of
/// one device into a snapshot; a failed read gives `None`.
pub fn gpu_stats_of(util: Result<u32, NvmlError>, mem: Result<(u64, u64), NvmlError>) -> (r: Option<
    GpuStats,
>)
    ensures
        r == stats_of(util, mem),
{
    match (util, mem) {
        (Ok(u), Ok((used, total))) => Some(
            GpuStats { utilization_percent: u, vram_used_bytes: used, vram_total_bytes: total },
        ),
        _ => None,
    }
}

/// A snapshot is what NVML gave: the calls behind it are the lookup of a
/// device, a utilisation read of exactly its percentage, and a memory read
/// of exactly its used and total bytes. Whenever a call failed there is no
/// snapshot.
pub proof fn law_snapshot_is_what_nvml_gave(calls: Seq<NvmlCall>)
    ensures
        snapshot_of(steps_of(calls)) matches Some(s) ==> {
            &&& calls.len() >= 3
            &&& calls[0] matches NvmlCall::Lookup(_, None)
            &&& calls[1] == NvmlCall::Utilization(Ok(s.utilization_percent))
            &&& calls[2] == NvmlCall::Memory(Ok((s.vram_used_bytes, s.vram_total_bytes)))
        },
        (exists|i: int| 0 <= i < calls.len() && i < 3 && match #[trigger] calls[i] {
            NvmlCall::Lookup(_, e) => e is Some,
            NvmlCall::Utilization(u) => u is Err,
            NvmlCall::Memory(m) => m is Err,
        }) ==> snapshot_of(steps_of(calls)) is None,
{
}


} // verus!
