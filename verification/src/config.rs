//! The tunables of a queue.

use vstd::prelude::*;

verus! {

/// Size of an arena when none is configured: 128 MiB.
pub const DEFAULT_ARENA_SIZE: usize = 134217728;

/// Number of rolled-off arenas kept mapped when none is configured.
pub const MIN_ARENAS_MAX_IN_MEM: u8 = 3;

/// Bytes taken by the length word in front of every record.
pub const LENGTH_WORD: usize = 8;

/// Tunables of a queue.
pub struct Config {
    /// Bytes in every arena file.
    pub arena_size: usize,
    /// Capacity of the cache of rolled-off arenas.
    pub max_arenas_in_mem: u8,
}

impl Config {
    /// A configuration is usable when a length word fits in an arena with room to spare
    /// and the cache can hold at least one arena.
    pub open spec fn valid(&self) -> bool {
        &&& self.arena_size > LENGTH_WORD
        &&& self.max_arenas_in_mem >= 1
    }

    /// The default configuration.
    pub fn new() -> (c: Config)
        ensures
            c.arena_size == DEFAULT_ARENA_SIZE,
            c.max_arenas_in_mem == MIN_ARENAS_MAX_IN_MEM,
            c.valid(),
    {
        Config { arena_size: DEFAULT_ARENA_SIZE, max_arenas_in_mem: MIN_ARENAS_MAX_IN_MEM }
    }

    /// Tells whether the configuration is usable.
    pub fn is_valid(&self) -> (ok: bool)
        ensures
            ok == self.valid(),
    {
        self.arena_size > LENGTH_WORD && self.max_arenas_in_mem >= 1
    }
}

} // verus!
