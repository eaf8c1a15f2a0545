//! Errors of table operations and the abort codes that contracts match on.
use crate::bytes::be_value;
use crate::hash::{sha3_256, sha3_256_of};
use vstd::prelude::*;

verus! {

/// Logical code of the abort raised by inserting under an occupied key.
pub const ALREADY_EXISTS_CODE: u8 = 0;

/// Logical code of the abort raised by reading or removing a missing key.
pub const NOT_FOUND_CODE: u8 = 1;

/// Logical code of the abort raised by destroying a table that still holds entries.
pub const NOT_EMPTY_CODE: u8 = 2;

/// Why a table operation failed.
///
/// The first three are aborts that the calling contract sees, with a stable sub-status code;
/// the others mean that the extension itself is broken and end the whole execution.
#[derive(Clone, Copy, Debug, PartialEq, Eq, Structural)]
pub enum TableError {
    /// An entry is already present under the key.
    AlreadyExists,
    /// No entry is present under the key.
    NotFound,
    /// The table still holds entries.
    NotEmpty,
    /// The resolver could not answer.
    ResolverFailure,
    /// The effective size of a table fell outside the range of sizes.
    InconsistentSize,
    /// A handle was registered twice in the set of created or of removed tables.
    DuplicateHandle,
}

/// The domain string that the abort codes are derived under.
pub open spec fn status_domain() -> Seq<u8> {
    "Extensions::Table"@.map_values(|c: char| c as u8)
}

/// The sub-status code for `logical_code`: the first two bytes of the SHA3-256 digest of the
/// domain string followed by the code, read as a big-endian integer.
pub open spec fn sub_status_code_of(logical_code: u8) -> u64 {
    be_value(sha3_256_of(status_domain().push(logical_code)).take(2)) as u64
}

/// Derives the stable sub-status code of an abort from its logical code.
pub fn unique_sub_status_code(logical_code: u8) -> (r: u64)
    ensures
        r == sub_status_code_of(logical_code),
        r <= 0xFFFF,
{
    let mut data: Vec<u8> = domain_bytes();
    data.push(logical_code);
    let digest = sha3_256(data.as_slice());
    proof {
        crate::bytes::lemma_be_value_bound(digest@.take(2));
        crate::bytes::lemma_pow256_16();
    }
    crate::bytes::from_be_bytes(digest.as_slice(), 2) as u64
}

fn domain_bytes() -> (r: Vec<u8>)
    ensures
        r@ == status_domain(),
{
    let text: &str = "Extensions::Table";
    proof {
        reveal_strlit("Extensions::Table");
    }
    let b: &[u8] = text.as_bytes();
    proof {
        vstd::string::is_ascii_spec_bytes(text);
        assert(b@ =~= status_domain());
    }
    vstd::slice::slice_to_vec(b)
}

impl TableError {
    /// Whether the error is an abort of the calling contract rather than a failure of the
    /// extension.
    pub fn is_abort(&self) -> (r: bool)
        ensures
            r == (*self == TableError::AlreadyExists || *self == TableError::NotFound || *self
                == TableError::NotEmpty),
    {
        match self {
            TableError::AlreadyExists | TableError::NotFound | TableError::NotEmpty => true,
            _ => false,
        }
    }

    /// The sub-status code that an abort carries; none for a failure of the extension.
    pub fn sub_status(&self) -> (r: Option<u64>)
        ensures
            r == match *self {
                TableError::AlreadyExists => Some(sub_status_code_of(ALREADY_EXISTS_CODE)),
                TableError::NotFound => Some(sub_status_code_of(NOT_FOUND_CODE)),
                TableError::NotEmpty => Some(sub_status_code_of(NOT_EMPTY_CODE)),
                _ => None::<u64>,
            },
    {
        match self {
            TableError::AlreadyExists => Some(unique_sub_status_code(ALREADY_EXISTS_CODE)),
            TableError::NotFound => Some(unique_sub_status_code(NOT_FOUND_CODE)),
            TableError::NotEmpty => Some(unique_sub_status_code(NOT_EMPTY_CODE)),
            _ => None,
        }
    }
}

} // verus!
