//! The two settings that the store takes from outside.

use vstd::prelude::*;

verus! {

/// The settings of a running store.
#[derive(Clone, Copy, Debug, PartialEq, Eq)]
pub struct Config {
    /// The port on which the line protocol listens.
    pub port: u16,
    /// The size in bytes past which the log is folded into a snapshot.
    pub max_wal_size: u64,
}

impl Default for Config {
    fn default() -> (c: Config)
        ensures
            c.port == 4210,
            c.max_wal_size == 100 * 1024,
    {
        Config { port: 4210, max_wal_size: 100 * 1024 }
    }
}

} // verus!
