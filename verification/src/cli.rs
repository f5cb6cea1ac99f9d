//! The options of one scan, as given by the user, and their defaults.

use crate::types::ScanType;
use vstd::prelude::*;

verus! {

/// First port of the range where none is given.
pub const DEFAULT_PORT_START: u16 = 1;

/// Last port of the range where none is given.
pub const DEFAULT_PORT_END: u16 = 1024;

/// Time allowed for one connection attempt where none is given, in
/// milliseconds.
pub const DEFAULT_TIMEOUT_MS: u64 = 200;

/// Number of ports per batch where none is given.
pub const DEFAULT_BATCH_SIZE: usize = 100;

/// Number of batches probed at the same time for each CPU, where no number of
/// workers is given.
pub const WORKERS_PER_CPU: usize = 16;

/// Options of one scan before any of them has been checked.
#[derive(Debug)]
pub struct Args {
    /// Target IP address, as text.
    pub target: String,
    /// First port of the range.
    pub port_start: u16,
    /// Last port of the range.
    pub port_end: u16,
    /// Transport protocol.
    pub scan_type: ScanType,
    /// Time allowed for one connection attempt, in milliseconds.
    pub timeout_ms: u64,
    /// Upper bound on the number of batches probed at the same time.
    pub workers: usize,
    /// Number of ports per batch.
    pub batch_size: usize,
}

/// The number of workers for a machine with `cpus` CPUs: sixteen for each
/// CPU, or `None` where that number exceeds what a `usize` holds.
pub open spec fn workers_for(cpus: usize) -> Option<usize> {
    if cpus * WORKERS_PER_CPU <= usize::MAX {
        Some((cpus * WORKERS_PER_CPU) as usize)
    } else {
        None
    }
}

/// `num_cpus::get`: the number of CPUs that this process can use. The number
/// depends on the machine and on the moment, so nothing is claimed of it.
#[verifier::external_body]
fn available_cpus() -> (cpus: usize) {
    num_cpus::get()
}

/// The number of workers for a machine with `cpus` CPUs.
pub fn workers_for_cpus(cpus: usize) -> (workers: Option<usize>)
    ensures
        workers == workers_for(cpus),
{
    cpus.checked_mul(WORKERS_PER_CPU)
}

/// The number of workers where none is given: sixteen for each CPU that this
/// process can use.
pub fn default_workers() -> (workers: Option<usize>)
    ensures
        exists|cpus: usize| workers == workers_for(cpus),
{
    let cpus = available_cpus();
    workers_for_cpus(cpus)
}

} // verus!
