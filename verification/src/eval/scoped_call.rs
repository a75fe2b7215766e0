//! A tiny program whose call graph the harness's Rust oracle case describes:
//! `run` calls `helper`.

use vstd::prelude::*;

verus! {

/// Always 1.
pub fn helper() -> (r: i32)
    ensures
        r == 1,
{
    1
}

/// A named configuration.
pub struct Config {
    pub name: String,
}

/// The value of `helper()`; the configuration is not read.
pub fn run(c: Config) -> (r: i32)
    ensures
        r == 1,
{
    let base = helper();
    base
}

} // verus!
