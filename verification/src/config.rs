//! Process configuration values, as plain data.

use vstd::prelude::*;

verus! {

/// Command-line configuration: the port the HTTP layer listens on.
#[derive(Clone, Debug, PartialEq)]
pub struct Config {
    pub port: u16,
}

impl Default for Config {
    /// The configuration used when no port is given.
    fn default() -> (c: Config)
        ensures
            c.port == 8080,
    {
        Config { port: 8080 }
    }
}

/// Values read from the environment: the store's connection string.
#[derive(Clone, Debug, PartialEq)]
pub struct EnvVars {
    pub mongo_uri: String,
}

} // verus!
