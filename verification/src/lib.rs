//! Parsing and bookkeeping core of a Linux power monitor: the readers of
//! sysfs/procfs text and the per-tick state that turns counters into deltas.
pub mod battery;
pub mod caps;
pub mod cpufreq;
pub mod disk;
pub mod display;
pub mod hwmon;
pub mod igpu;
pub mod meminfo;
pub mod metrics;
pub mod netif;
pub mod powermetrics;
pub mod procstat;
pub mod rapl;
pub mod sysfs;
pub mod table;
pub mod text;
