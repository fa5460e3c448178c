//! User-level configuration: `~/.config/grimoire/config.toml`.
//!
//! Today the only thing it carries is an `[env]` table: key/value pairs
//! exported into every shell snippet's environment before it runs. Spells use
//! these for personal-preference paths and similar knobs, always with a shell
//! default so they keep working when no config is present. Reading the file
//! is done by the program around the library.
use crate::envmap::EnvMap;
use vstd::prelude::*;

verus! {

#[derive(Debug)]
pub struct Config {
    pub env: EnvMap,
}

impl Config {
    /// A config with no `[env]` entries: what a missing file means.
    pub fn empty() -> (c: Config)
        ensures
            c.env@ == Map::<Seq<char>, Seq<char>>::empty(),
    {
        Config { env: EnvMap::new() }
    }
}

} // verus!
