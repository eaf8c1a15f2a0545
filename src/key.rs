//! Keys of the underlying key/value store.
use crate::bytes::{be_bytes, copy_bytes, lemma_be_bytes_value, lemma_pow256_16};
use crate::handle::TableHandle;
use vstd::prelude::*;

verus! {

/// A key of the underlying store.
pub struct AccessKey(Vec<u8>);

/// What a store key addresses.
#[derive(Clone, Copy, Debug, PartialEq, Eq, Structural)]
pub enum KeyType {
    Resource,
    Module,
    TableItem,
}

/// The store key of entry `key` of table `handle`: the handle's 16 big-endian bytes, then the
/// entry key.
pub open spec fn table_item_key(handle: TableHandle, key: Seq<u8>) -> Seq<u8> {
    be_bytes(handle.0 as nat, 16) + key
}

/// Distinct table entries have distinct store keys.
pub proof fn lemma_table_item_key_injective(
    h1: TableHandle,
    k1: Seq<u8>,
    h2: TableHandle,
    k2: Seq<u8>,
)
    requires
        table_item_key(h1, k1) == table_item_key(h2, k2),
    ensures
        h1 == h2,
        k1 == k2,
{
    lemma_pow256_16();
    lemma_be_bytes_value(h1.0 as nat, 16);
    lemma_be_bytes_value(h2.0 as nat, 16);
    let a = table_item_key(h1, k1);
    assert(a.take(16) =~= be_bytes(h1.0 as nat, 16));
    assert(a.take(16) =~= be_bytes(h2.0 as nat, 16));
    assert(a.skip(16) =~= k1);
    assert(a.skip(16) =~= k2);
}

impl View for AccessKey {
    type V = Seq<u8>;

    closed spec fn view(&self) -> Seq<u8> {
        self.0@
    }
}

impl AccessKey {
    /// The key of `path` under `address`: a resource key is the address followed by the path;
    /// a module or table-item key is the path alone.
    pub fn new(address: &[u8], path: Vec<u8>, k_type: KeyType) -> (r: AccessKey)
        ensures
            r@ == match k_type {
                KeyType::Resource => address@ + path@,
                _ => path@,
            },
    {
        match k_type {
            KeyType::Resource => {
                let mut key = copy_bytes(address);
                let mut p = path;
                key.append(&mut p);
                AccessKey(key)
            },
            KeyType::Module => AccessKey(path),
            KeyType::TableItem => AccessKey(path),
        }
    }

    /// The key of the resource whose type has the access vector `tag` under `address`.
    pub fn resource(address: &[u8], tag: &[u8]) -> (r: AccessKey)
        ensures
            r@ == address@ + tag@,
    {
        let mut key = copy_bytes(address);
        let mut t = copy_bytes(tag);
        key.append(&mut t);
        AccessKey(key)
    }

    /// The key of the module with the access vector `access_vector`.
    pub fn module(access_vector: Vec<u8>) -> (r: AccessKey)
        ensures
            r@ == access_vector@,
    {
        AccessKey(access_vector)
    }

    /// The key of entry `key` of table `handle`.
    pub fn table_item(handle: &TableHandle, key: &[u8]) -> (r: AccessKey)
        ensures
            r@ == table_item_key(*handle, key@),
    {
        let mut k = handle.to_be_bytes();
        let mut rest = copy_bytes(key);
        k.append(&mut rest);
        AccessKey(k)
    }

    /// The bytes of the key.
    pub fn as_bytes(&self) -> (r: &[u8])
        ensures
            r@ == self@,
    {
        self.0.as_slice()
    }
}

} // verus!
