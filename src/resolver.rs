//! The host's read-only view of remote table storage.
use crate::handle::TableHandle;
use vstd::prelude::*;

verus! {

/// A table operation, as named to the host's cost function.
#[derive(Clone, Copy, Debug, PartialEq, Eq, Structural)]
pub enum TableOperation {
    NewHandle,
    Destroy,
    Insert,
    Borrow,
    Length,
    Remove,
    Contains,
}

/// A failure of the remote storage behind a resolver.
#[derive(Debug)]
pub struct ResolverError {
    pub message: String,
}

/// The bytes of an optional byte vector.
pub open spec fn opt_bytes(o: Option<Vec<u8>>) -> Option<Seq<u8>> {
    match o {
        Some(v) => Some(v@),
        None => None,
    }
}

/// Remote table storage as the host provides it for one execution: entry lookup, table sizes
/// and the cost of operations. Its answers stay the same for the whole execution.
///
/// The spec functions name those answers. By default nothing is known of them; a verified
/// implementation overrides them to say what it answers.
pub trait TableResolver {
    /// The entry stored remotely under `key` in table `handle`.
    closed spec fn spec_entry(&self, handle: TableHandle, key: Seq<u8>) -> Option<Seq<u8>> {
        arbitrary()
    }

    /// The number of entries stored remotely in table `handle`.
    closed spec fn spec_size(&self, handle: TableHandle) -> nat {
        arbitrary()
    }

    /// The cost of an operation on a key and a value of the given sizes.
    closed spec fn spec_cost(&self, op: TableOperation, key_size: nat, val_size: nat) -> u64 {
        arbitrary()
    }

    /// Looks up the remote entry under `key` in table `handle`.
    fn resolve_table_entry(&self, handle: &TableHandle, key: &[u8]) -> (r: Result<
        Option<Vec<u8>>,
        ResolverError,
    >)
        ensures
            r matches Ok(v) ==> opt_bytes(v) == self.spec_entry(*handle, key@),
    ;

    /// The number of entries stored remotely in table `handle`.
    fn table_size(&self, handle: &TableHandle) -> (r: Result<usize, ResolverError>)
        ensures
            r matches Ok(n) ==> n == self.spec_size(*handle),
    ;

    /// The cost of an operation on a key and a value of the given sizes.
    fn operation_cost(&self, op: TableOperation, key_size: usize, val_size: usize) -> (r: u64)
        ensures
            r == self.spec_cost(op, key_size as nat, val_size as nat),
    ;
}

} // verus!
