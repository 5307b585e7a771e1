//! A concurrent TCP port scanner's core: how a fixed pool of workers splits
//! the port space into disjoint arithmetic progressions, what each worker
//! decides after every connection attempt, and how the reported ports are
//! gathered into one ascending report.
//!
//! Opening connections, threads and printing are left to the caller.

pub mod ports;
pub mod prober;
pub mod report;
pub mod scan;
pub mod cli;
