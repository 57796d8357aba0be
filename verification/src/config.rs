//! Server settings: where to listen and where to keep data. Reading them
//! from a file is done by the program; here are the settings and their
//! defaults.

use vstd::prelude::*;
use vstd::string::*;

verus! {

/// Where the server listens and where it keeps its data.
pub struct Config {
    pub listen_host: String,
    pub tcp_port: u16,
    pub storage_path: String,
}

/// The host listened on by default.
pub fn default_host() -> (r: String)
    ensures
        r@ == "127.0.0.1"@,
{
    "127.0.0.1".to_owned()
}

/// The port listened on by default, ZooKeeper's.
pub fn default_port() -> (r: u16)
    ensures
        r == 2181,
{
    2181
}

/// The data directory used by default.
pub fn default_storage_path() -> (r: String)
    ensures
        r@ == "./tinykeeper-data"@,
{
    "./tinykeeper-data".to_owned()
}

impl Default for Config {
    fn default() -> (r: Self)
        ensures
            r.listen_host@ == "127.0.0.1"@,
            r.tcp_port == 2181,
            r.storage_path@ == "./tinykeeper-data"@,
    {
        Config {
            listen_host: default_host(),
            tcp_port: default_port(),
            storage_path: default_storage_path(),
        }
    }
}

} // verus!
