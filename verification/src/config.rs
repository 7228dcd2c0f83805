//! The validated settings record the server runs with, and the server's
//! error type.  Loading the file itself is configuration work outside this
//! crate; the record arrives here as plain values.
use vstd::prelude::*;

verus! {

/// The listener and reactor settings.
#[derive(Debug, Clone)]
pub struct ServerConfig {
    pub host: String,
    pub port: u16,
    pub timeout_ms: i32,
    pub max_events: usize,
}

/// The logging settings; carried through, not interpreted here.
#[derive(Debug, Clone)]
pub struct LoggingConfig {
    pub level: String,
    pub file: String,
}

/// The whole settings record.
#[derive(Debug, Clone)]
pub struct Config {
    pub server: ServerConfig,
    pub logging: LoggingConfig,
}

/// What can go wrong while bringing the server up.
#[derive(Debug)]
pub enum ServerError {
    /// An I/O failure, described.
    Io(String),
    /// The settings file could not be read as settings.
    Config(String),
    /// The settings are readable but unusable.
    InvalidConfig(String),
}

impl Config {
    /// Checks the settings: the port and the event capacity must not be
    /// zero, and the timeout must not be negative; the first violation in
    /// that order is reported.
    pub fn validate(&self) -> (r: Result<(), ServerError>)
        ensures
            match r {
                Ok(_) => self.server.port != 0 && self.server.max_events != 0
                    && self.server.timeout_ms >= 0,
                Err(e) => match e {
                    ServerError::InvalidConfig(msg) => {
                        ||| (self.server.port == 0 && msg@ == "Port cannot be 0"@)
                        ||| (self.server.port != 0 && self.server.max_events == 0 && msg@
                            == "max_events cannot be 0"@)
                        ||| (self.server.port != 0 && self.server.max_events != 0
                            && self.server.timeout_ms < 0 && msg@
                            == "timeout_ms cannot be negative"@)
                    },
                    _ => false,
                },
            },
    {
        if self.server.port == 0 {
            return Err(ServerError::InvalidConfig("Port cannot be 0".to_owned()));
        }
        if self.server.max_events == 0 {
            return Err(ServerError::InvalidConfig("max_events cannot be 0".to_owned()));
        }
        if self.server.timeout_ms < 0 {
            return Err(ServerError::InvalidConfig("timeout_ms cannot be negative".to_owned()));
        }
        Ok(())
    }
}

} // verus!
