//! Predictive lock-contention monitoring: the tracking table, the wait-for
//! graph, the risk score and the alerting rule of a lock watcher.

pub mod blocker;
pub mod chain;
pub mod fingerprint;
mod fraction;
pub mod held;
pub mod json;
pub mod lock_mode;
pub mod natural;
pub mod notation;
mod pids;
pub mod ratio;
pub mod report;
pub mod scoring;
pub mod settings;
pub mod table;
pub mod wait_graph;
pub mod worker;
