//! What the engine requires from its users: stores that hold values.
use vstd::prelude::*;
use crate::provided::Tree;
use crate::args::Args;

verus! {

/// Outcome of a successful store write.
#[derive(Debug)]
pub enum SetOutcome {
    Created(usize),
    Updated,
}

/// A store gives addressed access to values. Implemented by the users of the
/// library: nothing is assumed of what its methods return.
pub trait Store {
    /// The value stored under `key`.
    fn get(&self, key: &[u8], args: &Args) -> Option<Tree>;

    /// Stores `args`' `value` under `key`.
    fn set(&self, key: &[u8], args: &Args) -> Option<SetOutcome>;

    /// Removes the value under `key`; whether it did.
    fn delete(&self, key: &[u8], args: &Args) -> bool;
}

/// Maps a compiled store id (the 1-based position in the store ids handed to
/// `Dsl::compile`) to a store. Implemented by the users of the library.
pub trait Stores {
    fn store_for(&self, id: u8) -> Option<&dyn Store>;
}

} // verus!
