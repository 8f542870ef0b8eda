//! Target parsing and probe scheduling for a concurrent TCP port scanner.
//!
//! The crate expands compact textual descriptions of ports and hosts into
//! ordered, duplicate-free lists, and decides which probes to launch and how
//! their outcomes are gathered into a sorted report.

pub mod addr;
pub mod hosts;
pub mod ordered;
pub mod ports;
pub mod probe;
pub mod render;
pub mod scan;
pub mod text;

pub use addr::{HostSet, IpAddress, Network};
pub use hosts::{parse_ips, ResolveTargetError};
pub use ports::{parse_ports, ParseListError};
pub use probe::{probe_outcome, ConnectAttempt, ProbeOutcome, ProbeTarget, PROBE_DEADLINE_MS};
pub use render::render_ports;
pub use scan::{scan, Scan, DEFAULT_CAP};
