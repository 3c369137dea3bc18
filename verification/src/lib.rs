//! Server-neutral TAK/CoT transport benchmark harness.

pub mod binary64;
pub mod config;
pub mod connection;
pub mod correlation;
pub mod duration;
pub mod framing;
pub mod host;
pub mod ledger;
pub mod lifecycle;
pub mod markup;
pub mod metrics;
pub mod overrides;
pub mod protocol;
pub mod provisioning;
pub mod readiness;
pub mod receiver;
pub mod report;
pub mod runner;
pub mod safety;
pub mod scenarios;
pub mod scheduler;
pub mod sender;
pub mod session;
pub mod tags;
pub mod test_support;
pub mod text;
pub mod thresholds;
pub mod timestamp;
pub mod xml;

pub use config::{AppConfig, Environment, Profile};
