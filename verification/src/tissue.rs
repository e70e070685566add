//! A small configuration-and-handle surface for an item store, kept minimal:
//! a builder, its configuration value, and an opened handle.

use vstd::prelude::*;

verus! {

/// Error of the store handle.
#[derive(Debug, Clone)]
pub struct Error;

/// Configuration of the store handle.
#[derive(Clone, Copy, Debug, PartialEq, Eq, Structural)]
pub struct Config {
    smth: i32,
}

impl Config {
    /// The configured value.
    pub closed spec fn value(self) -> int {
        self.smth as int
    }

    pub fn builder() -> (r: Builder)
        ensures
            r.cfg().value() == 1,
    {
        Builder::new()
    }
}

impl Default for Config {
    fn default() -> (r: Config)
        ensures
            r.value() == 1,
    {
        Config { smth: 1 }
    }
}

/// Step-wise construction of a configuration.
#[derive(Debug)]
pub struct Builder {
    t: Config,
}

impl Builder {
    /// The configuration built so far.
    pub closed spec fn cfg(self) -> Config {
        self.t
    }

    pub fn new() -> (r: Builder)
        ensures
            r.cfg().value() == 1,
    {
        Builder { t: Config::default() }
    }

    pub fn build(self) -> (r: Config)
        ensures
            r == self.cfg(),
    {
        self.t
    }
}

/// A handle over an opened store.
pub struct Tissue {
    cfg: Config,
}

impl Tissue {
    /// The configuration the handle was opened with.
    pub closed spec fn config(self) -> Config {
        self.cfg
    }

    pub fn open(cfg: Config) -> (r: Result<Tissue, Error>)
        ensures
            r is Ok,
            r->Ok_0.config() == cfg,
    {
        Ok(Tissue { cfg })
    }
}

} // verus!
