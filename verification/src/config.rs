//! The server's configuration, with the default of each setting.

use vstd::prelude::*;

verus! {

/// Where the FastCGI (PHP) server listens.
#[derive(Clone, Debug)]
pub struct PhpConnectionDetails {
    pub server: String,
    pub port: u16,
}

/// The whole configuration file.
#[derive(Clone, Debug)]
pub struct ServerConfig {
    pub server: ServerSettings,
}

/// The `server` section of the configuration.
#[derive(Clone, Debug)]
pub struct ServerSettings {
    pub port: u32,
    pub threads: usize,
    pub ttl: u32,
    pub root: String,
    pub php: Option<PhpConnectionDetails>,
}

impl ServerConfig {
    /// The server settings.
    pub fn get_server(&self) -> (r: &ServerSettings)
        ensures
            *r == self.server,
    {
        &self.server
    }

    /// Where the PHP server listens, if PHP is enabled.
    pub fn get_php(&self) -> (r: &Option<PhpConnectionDetails>)
        ensures
            *r == self.server.php,
    {
        &self.server.php
    }

    /// Replaces the server settings.
    pub fn set_server(&mut self, server: ServerSettings)
        ensures
            final(self).server == server,
    {
        self.server = server;
    }
}

/// PHP is off unless the configuration names a server.
pub fn default_php() -> (r: Option<PhpConnectionDetails>)
    ensures
        r is None,
{
    None
}

/// The port used when the configuration names none.
pub fn default_port() -> (r: u32)
    ensures
        r == 8453,
{
    8453
}

/// The number of worker threads used when the configuration names none.
pub fn default_threads() -> (r: usize)
    ensures
        r == 2,
{
    2
}

/// The lifetime, in seconds, of the cached file list when the configuration names none.
pub fn default_ttl() -> (r: u32)
    ensures
        r == 10,
{
    10
}

/// The document root used when the configuration names none.
pub fn default_root() -> (r: String)
    ensures
        r@ == "./web"@,
{
    "./web".to_owned()
}

} // verus!
