//! The error taxonomy of the client layer.

use vstd::prelude::*;

verus! {

/// Failure to find a proposer's address in the configuration.
#[derive(Debug, Clone, Copy, PartialEq, Eq, Structural)]
pub enum ConfigError {
    /// No candidate line carries the requested id.
    NotFound,
    /// A candidate line has a non-numeric id or a malformed address.
    Malformed,
    /// The configuration source could not be opened or read.
    Io,
}

/// Failure on the connection to a proposer.
#[derive(Debug, Clone, Copy, PartialEq, Eq, Structural)]
pub enum ConnectionError {
    /// The connection could not be opened.
    ConnectFailed,
    /// Writing a framed value to the socket failed.
    WriteFailed,
    /// The connection is gone: the submission was never written.
    Disconnected,
}

/// Failure while stopping the engine's worker thread.
#[derive(Debug, Clone, Copy, PartialEq, Eq, Structural)]
pub enum EngineError {
    /// The worker thread ended abnormally.
    Crashed,
    /// The interrupt could not be delivered to the worker thread.
    CancelFailed,
}

/// Any error this layer reports to its callers.
#[derive(Debug, Clone, PartialEq, Eq)]
pub enum Error {
    Config(ConfigError),
    Connection(ConnectionError),
    Engine(EngineError),
    /// A completion was abandoned before it fired.
    Canceled,
    /// Any other failure, described in words.
    Other(String),
}

impl From<ConfigError> for Error {
    fn from(e: ConfigError) -> (r: Error)
        ensures
            r == Error::Config(e),
    {
        Error::Config(e)
    }
}

impl vstd::std_specs::convert::FromSpecImpl<ConfigError> for Error {
    open spec fn obeys_from_spec() -> bool {
        true
    }

    open spec fn from_spec(e: ConfigError) -> Error {
        Error::Config(e)
    }
}

impl From<ConnectionError> for Error {
    fn from(e: ConnectionError) -> (r: Error)
        ensures
            r == Error::Connection(e),
    {
        Error::Connection(e)
    }
}

impl vstd::std_specs::convert::FromSpecImpl<ConnectionError> for Error {
    open spec fn obeys_from_spec() -> bool {
        true
    }

    open spec fn from_spec(e: ConnectionError) -> Error {
        Error::Connection(e)
    }
}

impl From<EngineError> for Error {
    fn from(e: EngineError) -> (r: Error)
        ensures
            r == Error::Engine(e),
    {
        Error::Engine(e)
    }
}

impl vstd::std_specs::convert::FromSpecImpl<EngineError> for Error {
    open spec fn obeys_from_spec() -> bool {
        true
    }

    open spec fn from_spec(e: EngineError) -> Error {
        Error::Engine(e)
    }
}

impl From<String> for Error {
    fn from(e: String) -> (r: Error)
        ensures
            r == Error::Other(e),
    {
        Error::Other(e)
    }
}

impl vstd::std_specs::convert::FromSpecImpl<String> for Error {
    open spec fn obeys_from_spec() -> bool {
        true
    }

    open spec fn from_spec(e: String) -> Error {
        Error::Other(e)
    }
}

/// An `Error::Other` that carries the given description.
pub fn other_err(description: &str) -> (r: Error)
    ensures
        r matches Error::Other(m) && m@ == description@,
{
    Error::Other(description.to_string())
}

} // verus!
