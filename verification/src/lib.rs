//! A verified membership directory for an on-chain collective.
//!
//! The library aggregates three data sources: on-chain membership records,
//! on-chain identity claims (with a delegation fallback), and an off-chain
//! social-profile cross-check.  It decodes the compact on-chain string
//! encoding, resolves identities, computes directory statistics, and
//! round-trips the directory snapshot through a deterministic binary cache
//! encoding.  All remote I/O lives outside the library; the functions here
//! take the fetched values as arguments.

use vstd::prelude::*;

pub mod account;
pub mod codec;
pub mod directory;
pub mod html;
pub mod human;
pub mod identity;
pub mod member;
pub mod social;
pub mod store;
pub mod wire;

verus! {

/// The shared application state: the currently published directory.
/// A refresh replaces the directory wholesale; a published one is never
/// mutated in place.
pub struct State {
    pub fellows: crate::directory::Fellows,
}

impl Default for State {
    /// Starts with an empty, never-captured directory.
    fn default() -> (r: State)
        ensures
            r.fellows.members@.len() == 0,
            r.fellows.last_updated is None,
            r.fellows.wf(),
    {
        State { fellows: crate::directory::Fellows::empty() }
    }
}

} // verus!
