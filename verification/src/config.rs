//! Static configuration for a running engine process. Loading the values
//! from a file or from the environment is the caller's concern; the library
//! only fixes the record shape and its defaults.

use vstd::prelude::*;

verus! {

/// Network address the engine process serves on.
#[derive(Clone, Debug)]
pub struct ServerConfig {
    pub host: String,
    pub port: u16,
}

/// Tunables of the matching core.
#[derive(Clone, Debug)]
pub struct MatchingConfig {
    pub max_orders_per_price: usize,
    pub enable_logging: bool,
}

/// The whole process configuration.
#[derive(Clone, Debug)]
pub struct Config {
    pub server: ServerConfig,
    pub matching: MatchingConfig,
}

impl Default for Config {
    /// The defaults used when no configuration file is given.
    fn default() -> (r: Config)
        ensures
            r.server.host@ == "0.0.0.0"@,
            r.server.port == 8080,
            r.matching.max_orders_per_price == 1000,
            r.matching.enable_logging == true,
    {
        Config {
            server: ServerConfig { host: "0.0.0.0".to_owned(), port: 8080 },
            matching: MatchingConfig { max_orders_per_price: 1000, enable_logging: true },
        }
    }
}

} // verus!
