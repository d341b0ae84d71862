//! Static configuration records: application mode, database and HTTP
//! listener settings. Reading them from files or the environment is the
//! caller's concern; the records themselves are plain data with documented
//! defaults.

use vstd::prelude::*;

verus! {

/// Which environment the application runs in.
#[derive(Copy, Clone, Debug, PartialEq, Eq, Structural)]
pub enum AppEnv {
    Development,
    Staging,
    Production,
}

/// Application-level settings.
#[derive(Clone, Debug)]
pub struct AppConfig {
    pub mode: AppEnv,
}

/// Database connection settings.
#[derive(Clone, Debug)]
pub struct DatabaseConfig {
    pub url: String,
    pub max_connections: u32,
}

/// The connection-pool size used when none is configured.
pub fn default_max_connections() -> (r: u32)
    ensures
        r == 10,
{
    10
}

/// Where the HTTP server listens.
#[derive(Clone, Debug)]
pub struct ListenConfig {
    pub address: String,
    pub port: u16,
}

impl Default for ListenConfig {
    /// Listen on every interface, on the documented default port.
    fn default() -> (r: Self)
        ensures
            r.address@ == "0.0.0.0"@,
            r.port == 5678,
    {
        ListenConfig { address: String::from_str("0.0.0.0"), port: 5678 }
    }
}

/// HTTP server settings.
#[derive(Clone, Debug)]
pub struct HttpConfig {
    pub listen: ListenConfig,
}

impl Default for HttpConfig {
    fn default() -> (r: Self)
        ensures
            r.listen.address@ == "0.0.0.0"@,
            r.listen.port == 5678,
    {
        HttpConfig { listen: ListenConfig::default() }
    }
}

/// The whole configuration record.
#[derive(Clone, Debug)]
pub struct Config {
    pub app: AppConfig,
    pub http: HttpConfig,
    pub database: DatabaseConfig,
}

} // verus!
