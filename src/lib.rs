//! Client layer over a Paxos-style replicated log: resolving a proposer's
//! address from its configuration, ordering and completing submissions on a
//! proposer connection, and feeding decided log entries to a single consumer.

pub mod config;
pub mod error;
pub mod learner;
pub mod proposer;

pub use config::{proposer_address, Address};
pub use error::{other_err, ConfigError, ConnectionError, EngineError, Error};
pub use learner::{Decision, DecisionStream};
pub use proposer::{ConnectionManager, Submitted};
