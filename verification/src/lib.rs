//! Core of a host-monitoring agent: configuration, the identity bootstrap,
//! the merge of per-domain samples into one snapshot, the cycle that turns a
//! snapshot into records for the metrics service, and the shares of
//! processor time that the CPU domain reports.

pub mod agent;
pub mod aggregate;
pub mod config;
pub mod cpu;
pub mod deliver;
pub mod identity;
pub mod values;

pub use agent::Agent;
pub use deliver::HostMetricWrapper;
pub use values::Values;
