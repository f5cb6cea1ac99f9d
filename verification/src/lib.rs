//! A TCP port scanner core: configuration checking, batch partitioning,
//! bounded scheduling of batches, aggregation of open ports and the
//! well-known service table, with machine-checked contracts.

pub mod aggregate;
pub mod batch;
pub mod cli;
pub mod ip;
pub mod scanner;
pub mod schedule;
pub mod services;
pub mod types;
pub mod ui;

pub use batch::{partition, total_batches, total_ports};
pub use cli::Args;
pub use ip::IpAddress;
pub use scanner::Scanner;
pub use schedule::{ScanAction, ScanRun};
pub use services::COMMON_SERVICES;
pub use types::{ProbeEvent, ProbeReport, ScanError, ScanResult, ScanType};
