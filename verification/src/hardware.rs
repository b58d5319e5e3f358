//! The machine description shown in the hardware panel.

use vstd::prelude::*;
use crate::text::{trim, trim_str};

verus! {

/// A graphics adapter.
pub struct GpuInfo {
    pub name: String,
    pub vendor: String,
    pub vram_mb: Option<u64>,
    pub driver: Option<String>,
}

/// The machine the app runs on.
pub struct HardwareInfo {
    pub os: String,
    pub os_version: String,
    pub cpu_brand: String,
    pub cpu_cores: usize,
    pub total_ram_mb: u64,
    pub gpus: Vec<GpuInfo>,
}

/// Assembles the hardware description from what the system reports: the
/// OS name and version (`"unknown"` when not reported), the first CPU's
/// brand trimmed (`"Unknown CPU"` when there is no CPU entry), the physical
/// core count (the logical CPU count when it is not reported), and the total
/// memory in MiB.
pub fn hardware_info(
    os_name: Option<String>,
    os_version: Option<String>,
    first_cpu_brand: Option<String>,
    physical_cores: Option<usize>,
    logical_cpus: usize,
    total_memory_bytes: u64,
    gpus: Vec<GpuInfo>,
) -> (h: HardwareInfo)
    ensures
        h.os@ == match os_name {
            Some(n) => n@,
            None => "unknown"@,
        },
        h.os_version@ == match os_version {
            Some(v) => v@,
            None => "unknown"@,
        },
        h.cpu_brand@ == match first_cpu_brand {
            Some(b) => trim(b@),
            None => "Unknown CPU"@,
        },
        h.cpu_cores == match physical_cores {
            Some(c) => c,
            None => logical_cpus,
        },
        h.total_ram_mb == total_memory_bytes / 1024 / 1024,
        h.gpus == gpus,
{
    let cpu_brand = match first_cpu_brand {
        Some(b) => trim_str(b.as_str()),
        None => "Unknown CPU".to_owned(),
    };
    let cpu_cores = match physical_cores {
        Some(c) => c,
        None => logical_cpus,
    };
    HardwareInfo {
        os: match os_name {
            Some(n) => n,
            None => "unknown".to_owned(),
        },
        os_version: match os_version {
            Some(v) => v,
            None => "unknown".to_owned(),
        },
        cpu_brand,
        cpu_cores,
        total_ram_mb: total_memory_bytes / 1024 / 1024,
        gpus,
    }
}

} // verus!
