//! Persistent key/value tables for a smart-contract virtual machine: per-execution caching of
//! remote entries, deterministic table identities, and the change set that an execution leaves.
use vstd::prelude::*;

pub mod assoc;
pub mod bytes;
pub mod change_set;
pub mod context;
pub mod error;
pub mod handle;
pub mod hash;
pub mod key;
pub mod laws;
pub mod resolver;
pub mod state;
pub mod table;

verus! {

} // verus!
