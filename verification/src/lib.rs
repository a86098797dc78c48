//! Discovery-and-tail orchestration for dynamically appearing log files.
//!
//! The library holds the verified core of a log collector: resolving a
//! configuration from plain optional values, the watch set that admits each
//! file identity at most once, the orchestrator decision that turns a
//! filesystem event into the list of files to start tailing, and a model of
//! the output sink that pins down per-file line ordering.

pub mod config;
pub mod orchestrator;
pub mod sink;
pub mod watch_set;

pub use config::Config;
pub use config::ConfigError;
pub use orchestrator::EventKind;
pub use orchestrator::FsEvent;
pub use orchestrator::PathCandidate;
pub use sink::Sink;
pub use watch_set::WatchedFileSet;
