//! One table as seen within an execution: the entries read or written so far, over the remote
//! entries that the resolver holds, and the net number of entries added.
use crate::assoc::{
    assoc_map, keys_unique, lemma_assoc_insert_at, lemma_assoc_map_dom, lemma_assoc_map_index,
    lemma_assoc_map_update, lemma_assoc_push_unique,
};
use crate::bytes::{bytes_equal, bytes_less, bytes_lt, copy_bytes, lemma_bytes_lt_total};
use crate::change_set::{lemma_writes_sorted_insert, write_view, writes_sorted};
use crate::error::TableError;
use crate::handle::TableHandle;
use crate::resolver::{opt_bytes, ResolverError, TableResolver};
use vstd::prelude::*;

verus! {

/// What an execution knows of one key of a table.
#[derive(Debug)]
pub enum CachedEntry {
    /// Read from remote storage and not written since.
    Unchanged(Vec<u8>),
    /// Written with this value.
    Changed(Vec<u8>),
    /// Removed.
    Deleted,
}

/// The mathematical value of a [`CachedEntry`].
pub enum EntryView {
    Unchanged(Seq<u8>),
    Changed(Seq<u8>),
    Deleted,
}

impl EntryView {
    /// The value that the key holds, if any.
    pub open spec fn value(self) -> Option<Seq<u8>> {
        match self {
            EntryView::Unchanged(v) => Some(v),
            EntryView::Changed(v) => Some(v),
            EntryView::Deleted => None,
        }
    }

    /// The write that the entry stands for: none for a read, `Some(Some(v))` for an upsert of
    /// `v`, `Some(None)` for a deletion.
    pub open spec fn write(self) -> Option<Option<Seq<u8>>> {
        match self {
            EntryView::Unchanged(_) => None,
            EntryView::Changed(v) => Some(Some(v)),
            EntryView::Deleted => Some(None),
        }
    }
}

impl View for CachedEntry {
    type V = EntryView;

    open spec fn view(&self) -> EntryView {
        match self {
            CachedEntry::Unchanged(v) => EntryView::Unchanged(v@),
            CachedEntry::Changed(v) => EntryView::Changed(v@),
            CachedEntry::Deleted => EntryView::Deleted,
        }
    }
}

/// A key and its cached entry, as values.
pub open spec fn pair_view(p: (Vec<u8>, CachedEntry)) -> (Seq<u8>, EntryView) {
    (p.0@, p.1@)
}

/// The outcome of asking for a table's length, given the remote size and the net number of
/// entries added in this execution.
pub open spec fn effective_length(remote_size: nat, size_delta: int) -> Result<u64, TableError> {
    let n = remote_size + size_delta;
    if 0 <= n <= u64::MAX {
        Ok(n as u64)
    } else {
        Err(TableError::InconsistentSize)
    }
}

/// The outcome of destroying a table whose length came out as `len`.
pub open spec fn destroy_outcome(len: Result<u64, TableError>) -> Result<(), TableError> {
    match len {
        Ok(n) => if n == 0 {
            Ok(())
        } else {
            Err(TableError::NotEmpty)
        },
        Err(e) => Err(e),
    }
}

/// Whether looking `k` up fails: it is not cached and the resolver's answer is an error.
pub open spec fn lookup_fails(
    entries: Map<Seq<u8>, EntryView>,
    k: Seq<u8>,
    remote: Result<Option<Vec<u8>>, ResolverError>,
) -> bool {
    !entries.contains_key(k) && remote is Err
}

/// The value present under `k`, given the cached entries and the resolver's answer for `k`.
pub open spec fn present_in(
    entries: Map<Seq<u8>, EntryView>,
    k: Seq<u8>,
    remote: Result<Option<Vec<u8>>, ResolverError>,
) -> Option<Seq<u8>> {
    if entries.contains_key(k) {
        entries[k].value()
    } else {
        match remote {
            Ok(o) => opt_bytes(o),
            Err(_) => None,
        }
    }
}

/// The cached entries once `k` has been looked up with the resolver's answer `remote`: a value
/// found remotely for an uncached key is cached as unchanged.
pub open spec fn cache_after(
    entries: Map<Seq<u8>, EntryView>,
    k: Seq<u8>,
    remote: Result<Option<Vec<u8>>, ResolverError>,
) -> Map<Seq<u8>, EntryView> {
    if entries.contains_key(k) {
        entries
    } else {
        match remote {
            Ok(Some(v)) => entries.insert(k, EntryView::Unchanged(v@)),
            _ => entries,
        }
    }
}

/// The number of value bytes that looking `k` up with the resolver's answer `remote` fetches.
pub open spec fn fetched_len(
    entries: Map<Seq<u8>, EntryView>,
    k: Seq<u8>,
    remote: Result<Option<Vec<u8>>, ResolverError>,
) -> nat {
    if entries.contains_key(k) {
        0
    } else {
        match remote {
            Ok(Some(v)) => v@.len(),
            _ => 0,
        }
    }
}

/// The writes that cached entries stand for, by key: reads leave none.
pub open spec fn writes_of(entries: Map<Seq<u8>, EntryView>) -> Map<Seq<u8>, Option<Seq<u8>>> {
    Map::new(
        |k: Seq<u8>| entries.contains_key(k) && entries[k].write() is Some,
        |k: Seq<u8>| entries[k].write().unwrap(),
    )
}

/// A single table: the entries of the execution's cache, keyed by serialized key, and the net
/// number of entries added (inserts minus removes) in this execution.
pub struct Table {
    handle: TableHandle,
    content: Vec<(Vec<u8>, CachedEntry)>,
    size_delta: i64,
}

impl Table {
    /// The cache as a sequence of values.
    pub closed spec fn content_seq(&self) -> Seq<(Seq<u8>, EntryView)> {
        self.content@.map_values(|p: (Vec<u8>, CachedEntry)| pair_view(p))
    }

    /// The handle of the table.
    pub closed spec fn spec_handle(&self) -> TableHandle {
        self.handle
    }

    /// The cached entries, by key.
    pub closed spec fn entries(&self) -> Map<Seq<u8>, EntryView> {
        assoc_map(self.content_seq())
    }

    /// Inserts minus removes so far.
    pub closed spec fn delta(&self) -> int {
        self.size_delta as int
    }

    /// Each key is cached at most once.
    pub closed spec fn wf(&self) -> bool {
        keys_unique(self.content_seq())
    }

    /// The value present under `k`: the cached one if the key is cached, else the remote one.
    pub open spec fn present<R: TableResolver>(&self, r: &R, k: Seq<u8>) -> Option<Seq<u8>> {
        if self.entries().contains_key(k) {
            self.entries()[k].value()
        } else {
            r.spec_entry(self.spec_handle(), k)
        }
    }

    /// The cached entries once `k` has been looked up: a remote value found for an uncached key
    /// is cached as unchanged.
    pub open spec fn after_fetch<R: TableResolver>(&self, r: &R, k: Seq<u8>) -> Map<
        Seq<u8>,
        EntryView,
    > {
        if self.entries().contains_key(k) {
            self.entries()
        } else {
            match r.spec_entry(self.spec_handle(), k) {
                Some(v) => self.entries().insert(k, EntryView::Unchanged(v)),
                None => self.entries(),
            }
        }
    }

    /// The number of value bytes that looking up `k` fetches from remote storage.
    pub open spec fn fetched_size<R: TableResolver>(&self, r: &R, k: Seq<u8>) -> nat {
        if self.entries().contains_key(k) {
            0
        } else {
            match r.spec_entry(self.spec_handle(), k) {
                Some(v) => v.len(),
                None => 0,
            }
        }
    }

    /// A table of which nothing has been read or written yet.
    pub fn new(handle: TableHandle) -> (r: Table)
        ensures
            r.wf(),
            r.spec_handle() == handle,
            r.entries() == Map::<Seq<u8>, EntryView>::empty(),
            r.delta() == 0,
    {
        let t = Table { handle, content: Vec::new(), size_delta: 0 };
        proof {
            assert(t.content_seq() =~= Seq::<(Seq<u8>, EntryView)>::empty());
        }
        t
    }

    /// The table's handle.
    pub fn handle(&self) -> (r: TableHandle)
        ensures
            r == self.spec_handle(),
    {
        self.handle
    }

    /// Where `key` is cached, if it is.
    fn find(&self, key: &[u8]) -> (r: Option<usize>)
        requires
            self.wf(),
        ensures
            match r {
                Some(i) => {
                    &&& i < self.content@.len()
                    &&& self.content_seq()[i as int].0 == key@
                    &&& self.entries().contains_key(key@)
                    &&& self.entries()[key@] == self.content@[i as int].1@
                },
                None => !self.entries().contains_key(key@),
            },
    {
        let mut i: usize = 0;
        while i < self.content.len()
            invariant
                self.wf(),
                i <= self.content@.len(),
                forall|j: int| 0 <= j < i ==> #[trigger] self.content_seq()[j].0 != key@,
            decreases self.content@.len() - i,
        {
            if bytes_equal(self.content[i].0.as_slice(), key) {
                proof {
                    lemma_assoc_map_index(self.content_seq(), i as int);
                }
                return Some(i);
            }
            i = i + 1;
        }
        proof {
            lemma_assoc_map_dom(self.content_seq(), key@);
        }
        None
    }

    /// Looks `key` up given the resolver's answer for it, which counts only on a cache miss: a
    /// value found remotely is cached as unchanged. Returns where the key is cached (none if it
    /// is absent everywhere) and the number of value bytes fetched.
    fn global_value(&mut self, key: &[u8], remote: Result<Option<Vec<u8>>, ResolverError>) -> (r:
        Result<(Option<usize>, usize), TableError>)
        requires
            old(self).wf(),
        ensures
            final(self).wf(),
            final(self).spec_handle() == old(self).spec_handle(),
            final(self).delta() == old(self).delta(),
            lookup_fails(old(self).entries(), key@, remote) ==> {
                &&& r == Err::<(Option<usize>, usize), TableError>(TableError::ResolverFailure)
                &&& final(self).entries() == old(self).entries()
            },
            !lookup_fails(old(self).entries(), key@, remote) ==> {
                &&& r matches Ok((idx, vs))
                &&& final(self).entries() == cache_after(old(self).entries(), key@, remote)
                &&& vs == fetched_len(old(self).entries(), key@, remote)
                &&& match idx {
                    Some(i) => {
                        &&& i < final(self).content@.len()
                        &&& final(self).content_seq()[i as int].0 == key@
                        &&& final(self).entries().contains_key(key@)
                        &&& final(self).entries()[key@] == final(self).content_seq()[i as int].1
                        &&& final(self).content_seq()[i as int].1.value() == present_in(
                            old(self).entries(),
                            key@,
                            remote,
                        )
                    },
                    None => {
                        &&& !final(self).entries().contains_key(key@)
                        &&& present_in(old(self).entries(), key@, remote) is None
                    },
                }
            },
    {
        match self.find(key) {
            Some(i) => Ok((Some(i), 0)),
            None => {
                match remote {
                    Err(_) => Err(TableError::ResolverFailure),
                    Ok(None) => Ok((None, 0)),
                    Ok(Some(v)) => {
                        let vs = v.len();
                        let k = copy_bytes(key);
                        let ghost before = self.content_seq();
                        proof {
                            lemma_assoc_push_unique(before, key@, EntryView::Unchanged(v@));
                        }
                        self.content.push((k, CachedEntry::Unchanged(v)));
                        proof {
                            assert(self.content_seq() =~= before.push(
                                (key@, EntryView::Unchanged(v@)),
                            ));
                            lemma_assoc_map_index(self.content_seq(), self.content@.len() - 1);
                        }
                        Ok((Some(self.content.len() - 1), vs))
                    },
                }
            },
        }
    }

    /// Asks the resolver for `key` unless the key is cached, in which case nothing is asked and
    /// the answer is taken as "absent".
    fn ask<R: TableResolver>(&self, resolver: &R, key: &[u8]) -> (r: Result<
        Option<Vec<u8>>,
        ResolverError,
    >)
        requires
            self.wf(),
        ensures
            self.entries().contains_key(key@) ==> r matches Ok(None),
            !self.entries().contains_key(key@) ==> (r matches Ok(o) ==> opt_bytes(o)
                == resolver.spec_entry(self.spec_handle(), key@)),
    {
        if self.find(key).is_some() {
            Ok(None)
        } else {
            resolver.resolve_table_entry(&self.handle, key)
        }
    }

    /// Sets the entry cached at `i`.
    fn set_entry(&mut self, i: usize, entry: CachedEntry)
        requires
            old(self).wf(),
            i < old(self).content@.len(),
        ensures
            final(self).wf(),
            final(self).spec_handle() == old(self).spec_handle(),
            final(self).delta() == old(self).delta(),
            final(self).content@.len() == old(self).content@.len(),
            final(self).entries() == old(self).entries().insert(
                old(self).content_seq()[i as int].0,
                entry@,
            ),
    {
        let ghost before = self.content_seq();
        let ghost ev = entry@;
        proof {
            lemma_assoc_map_update(before, i as int, ev);
        }
        self.content[i].1 = entry;
        proof {
            assert(self.content_seq() =~= before.update(i as int, (before[i as int].0, ev)));
        }
    }

    /// The value cached at `i`, if the entry there holds one.
    fn value_at(&self, i: usize) -> (r: Option<Vec<u8>>)
        requires
            i < self.content@.len(),
        ensures
            match r {
                Some(v) => self.content_seq()[i as int].1.value() == Some(v@),
                None => self.content_seq()[i as int].1.value() is None,
            },
    {
        match &self.content[i].1 {
            CachedEntry::Unchanged(v) => Some(copy_bytes(v.as_slice())),
            CachedEntry::Changed(v) => Some(copy_bytes(v.as_slice())),
            CachedEntry::Deleted => None,
        }
    }

    /// The size delta lies in the range of `i64`.
    pub proof fn lemma_delta_range(&self)
        ensures
            i64::MIN <= self.delta() <= i64::MAX,
    {
    }

    /// Inserts `val` under `key`, given the resolver's answer for the key (consulted only if
    /// the key is not cached). Fails with `ResolverFailure` if that answer is needed and is an
    /// error, with `AlreadyExists` if a value is present under the key, and with
    /// `InconsistentSize` if the size delta is at its largest. Returns the sizes of the key and
    /// the value.
    pub fn insert_from_remote(
        &mut self,
        remote: Result<Option<Vec<u8>>, ResolverError>,
        key: Vec<u8>,
        val: Vec<u8>,
    ) -> (r: Result<(usize, usize), TableError>)
        requires
            old(self).wf(),
        ensures
            final(self).wf(),
            final(self).spec_handle() == old(self).spec_handle(),
            if lookup_fails(old(self).entries(), key@, remote) {
                &&& r == Err::<(usize, usize), TableError>(TableError::ResolverFailure)
                &&& final(self).entries() == old(self).entries()
                &&& final(self).delta() == old(self).delta()
            } else if present_in(old(self).entries(), key@, remote) is Some {
                &&& r == Err::<(usize, usize), TableError>(TableError::AlreadyExists)
                &&& final(self).entries() == cache_after(old(self).entries(), key@, remote)
                &&& final(self).delta() == old(self).delta()
            } else if old(self).delta() == i64::MAX {
                &&& r == Err::<(usize, usize), TableError>(TableError::InconsistentSize)
                &&& final(self).entries() == old(self).entries()
                &&& final(self).delta() == old(self).delta()
            } else {
                &&& r matches Ok((ks, vs)) && ks == key@.len() && vs == val@.len()
                &&& final(self).entries() == old(self).entries().insert(
                    key@,
                    EntryView::Changed(val@),
                )
                &&& final(self).delta() == old(self).delta() + 1
            },
    {
        let (idx, _) = self.global_value(key.as_slice(), remote)?;
        let present = match idx {
            Some(i) => self.value_at(i).is_some(),
            None => false,
        };
        if present {
            return Err(TableError::AlreadyExists);
        }
        if self.size_delta == i64::MAX {
            return Err(TableError::InconsistentSize);
        }
        let key_size = key.len();
        let val_size = val.len();
        match idx {
            Some(i) => {
                self.set_entry(i, CachedEntry::Changed(val));
            },
            None => {
                let ghost before = self.content_seq();
                let ghost kv = key@;
                let ghost vv = val@;
                proof {
                    lemma_assoc_push_unique(before, kv, EntryView::Changed(vv));
                }
                self.content.push((key, CachedEntry::Changed(val)));
                proof {
                    assert(self.content_seq() =~= before.push((kv, EntryView::Changed(vv))));
                }
            },
        }
        self.size_delta = self.size_delta + 1;
        Ok((key_size, val_size))
    }

    /// Inserts `val` under `key`. Fails with `AlreadyExists` if a value is present under the
    /// key, here or remotely. Returns the sizes of the key and the value.
    pub fn insert<R: TableResolver>(&mut self, resolver: &R, key: Vec<u8>, val: Vec<u8>) -> (r:
        Result<(usize, usize), TableError>)
        requires
            old(self).wf(),
        ensures
            final(self).wf(),
            final(self).spec_handle() == old(self).spec_handle(),
            match r {
                Ok((ks, vs)) => {
                    &&& old(self).present(resolver, key@) is None
                    &&& ks == key@.len()
                    &&& vs == val@.len()
                    &&& final(self).entries() == old(self).entries().insert(
                        key@,
                        EntryView::Changed(val@),
                    )
                    &&& final(self).delta() == old(self).delta() + 1
                },
                Err(TableError::AlreadyExists) => {
                    &&& old(self).present(resolver, key@) is Some
                    &&& final(self).entries() == old(self).after_fetch(resolver, key@)
                    &&& final(self).delta() == old(self).delta()
                },
                Err(TableError::InconsistentSize) => {
                    &&& old(self).present(resolver, key@) is None
                    &&& old(self).delta() == i64::MAX
                    &&& final(self).entries() == old(self).entries()
                    &&& final(self).delta() == old(self).delta()
                },
                Err(TableError::ResolverFailure) => {
                    &&& !old(self).entries().contains_key(key@)
                    &&& final(self).entries() == old(self).entries()
                    &&& final(self).delta() == old(self).delta()
                },
                Err(_) => false,
            },
    {
        let remote = self.ask(resolver, key.as_slice());
        self.insert_from_remote(remote, key, val)
    }

    /// The value present under `key`, given the resolver's answer for the key (consulted only
    /// if the key is not cached). Fails with `ResolverFailure` if that answer is needed and is
    /// an error, and with `NotFound` if no value is present. Returns the value and the sizes of
    /// the key and of what was fetched.
    pub fn borrow_from_remote(
        &mut self,
        remote: Result<Option<Vec<u8>>, ResolverError>,
        key: &[u8],
    ) -> (r: Result<(Vec<u8>, usize, usize), TableError>)
        requires
            old(self).wf(),
        ensures
            final(self).wf(),
            final(self).spec_handle() == old(self).spec_handle(),
            final(self).delta() == old(self).delta(),
            if lookup_fails(old(self).entries(), key@, remote) {
                &&& r == Err::<(Vec<u8>, usize, usize), TableError>(TableError::ResolverFailure)
                &&& final(self).entries() == old(self).entries()
            } else {
                &&& final(self).entries() == cache_after(old(self).entries(), key@, remote)
                &&& match present_in(old(self).entries(), key@, remote) {
                    Some(v) => r matches Ok((w, ks, vs)) && w@ == v && ks == key@.len() && vs
                        == fetched_len(old(self).entries(), key@, remote),
                    None => r == Err::<(Vec<u8>, usize, usize), TableError>(TableError::NotFound),
                }
            },
    {
        let (idx, vs) = self.global_value(key, remote)?;
        let found = match idx {
            Some(i) => self.value_at(i),
            None => None,
        };
        match found {
            Some(v) => Ok((v, key.len(), vs)),
            None => Err(TableError::NotFound),
        }
    }

    /// The value present under `key`. Fails with `NotFound` if there is none, here or
    /// remotely. Returns the value and the sizes of the key and of what was fetched.
    pub fn borrow_global<R: TableResolver>(&mut self, resolver: &R, key: &[u8]) -> (r: Result<
        (Vec<u8>, usize, usize),
        TableError,
    >)
        requires
            old(self).wf(),
        ensures
            final(self).wf(),
            final(self).spec_handle() == old(self).spec_handle(),
            final(self).delta() == old(self).delta(),
            match r {
                Ok((v, ks, vs)) => {
                    &&& old(self).present(resolver, key@) == Some(v@)
                    &&& ks == key@.len()
                    &&& vs == old(self).fetched_size(resolver, key@)
                    &&& final(self).entries() == old(self).after_fetch(resolver, key@)
                },
                Err(TableError::NotFound) => {
                    &&& old(self).present(resolver, key@) is None
                    &&& final(self).entries() == old(self).entries()
                },
                Err(TableError::ResolverFailure) => {
                    &&& !old(self).entries().contains_key(key@)
                    &&& final(self).entries() == old(self).entries()
                },
                Err(_) => false,
            },
    {
        let remote = self.ask(resolver, key);
        self.borrow_from_remote(remote, key)
    }

    /// Removes the value present under `key` and returns it, given the resolver's answer for
    /// the key (consulted only if the key is not cached). Fails with `ResolverFailure` if that
    /// answer is needed and is an error, with `NotFound` if no value is present, and with
    /// `InconsistentSize` if the size delta is at its smallest.
    pub fn remove_from_remote(
        &mut self,
        remote: Result<Option<Vec<u8>>, ResolverError>,
        key: &[u8],
    ) -> (r: Result<(Vec<u8>, usize, usize), TableError>)
        requires
            old(self).wf(),
        ensures
            final(self).wf(),
            final(self).spec_handle() == old(self).spec_handle(),
            if lookup_fails(old(self).entries(), key@, remote) {
                &&& r == Err::<(Vec<u8>, usize, usize), TableError>(TableError::ResolverFailure)
                &&& final(self).entries() == old(self).entries()
                &&& final(self).delta() == old(self).delta()
            } else {
                match present_in(old(self).entries(), key@, remote) {
                    Some(v) => if old(self).delta() == i64::MIN {
                        &&& r == Err::<(Vec<u8>, usize, usize), TableError>(
                            TableError::InconsistentSize,
                        )
                        &&& final(self).entries() == cache_after(old(self).entries(), key@, remote)
                        &&& final(self).delta() == old(self).delta()
                    } else {
                        &&& r matches Ok((w, ks, vs)) && w@ == v && ks == key@.len() && vs
                            == fetched_len(old(self).entries(), key@, remote)
                        &&& final(self).entries() == old(self).entries().insert(
                            key@,
                            EntryView::Deleted,
                        )
                        &&& final(self).delta() == old(self).delta() - 1
                    },
                    None => {
                        &&& r == Err::<(Vec<u8>, usize, usize), TableError>(TableError::NotFound)
                        &&& final(self).entries() == old(self).entries()
                        &&& final(self).delta() == old(self).delta()
                    },
                }
            },
    {
        let (idx, vs) = self.global_value(key, remote)?;
        let i = match idx {
            Some(i) => i,
            None => {
                return Err(TableError::NotFound);
            },
        };
        let v = match self.value_at(i) {
            Some(v) => v,
            None => {
                return Err(TableError::NotFound);
            },
        };
        if self.size_delta == i64::MIN {
            return Err(TableError::InconsistentSize);
        }
        self.set_entry(i, CachedEntry::Deleted);
        self.size_delta = self.size_delta - 1;
        Ok((v, key.len(), vs))
    }

    /// Removes the value present under `key` and returns it. Fails with `NotFound` if there is
    /// none, here or remotely. Returns the value and the sizes of the key and of what was
    /// fetched.
    pub fn remove<R: TableResolver>(&mut self, resolver: &R, key: &[u8]) -> (r: Result<
        (Vec<u8>, usize, usize),
        TableError,
    >)
        requires
            old(self).wf(),
        ensures
            final(self).wf(),
            final(self).spec_handle() == old(self).spec_handle(),
            match r {
                Ok((v, ks, vs)) => {
                    &&& old(self).present(resolver, key@) == Some(v@)
                    &&& ks == key@.len()
                    &&& vs == old(self).fetched_size(resolver, key@)
                    &&& final(self).entries() == old(self).entries().insert(
                        key@,
                        EntryView::Deleted,
                    )
                    &&& final(self).delta() == old(self).delta() - 1
                },
                Err(TableError::NotFound) => {
                    &&& old(self).present(resolver, key@) is None
                    &&& final(self).entries() == old(self).entries()
                    &&& final(self).delta() == old(self).delta()
                },
                Err(TableError::InconsistentSize) => {
                    &&& old(self).present(resolver, key@) is Some
                    &&& old(self).delta() == i64::MIN
                    &&& final(self).entries() == old(self).after_fetch(resolver, key@)
                    &&& final(self).delta() == old(self).delta()
                },
                Err(TableError::ResolverFailure) => {
                    &&& !old(self).entries().contains_key(key@)
                    &&& final(self).entries() == old(self).entries()
                    &&& final(self).delta() == old(self).delta()
                },
                Err(_) => false,
            },
    {
        let remote = self.ask(resolver, key);
        self.remove_from_remote(remote, key)
    }

    /// Whether a value is present under `key`, given the resolver's answer for the key
    /// (consulted only if the key is not cached). Fails only with `ResolverFailure`, when that
    /// answer is needed and is an error. Returns the answer and the sizes of the key and of
    /// what was fetched.
    pub fn contains_from_remote(
        &mut self,
        remote: Result<Option<Vec<u8>>, ResolverError>,
        key: &[u8],
    ) -> (r: Result<(bool, usize, usize), TableError>)
        requires
            old(self).wf(),
        ensures
            final(self).wf(),
            final(self).spec_handle() == old(self).spec_handle(),
            final(self).delta() == old(self).delta(),
            if lookup_fails(old(self).entries(), key@, remote) {
                &&& r == Err::<(bool, usize, usize), TableError>(TableError::ResolverFailure)
                &&& final(self).entries() == old(self).entries()
            } else {
                &&& r matches Ok((b, ks, vs)) && b == present_in(old(self).entries(), key@, remote)
                    is Some && ks == key@.len() && vs == fetched_len(
                    old(self).entries(),
                    key@,
                    remote,
                )
                &&& final(self).entries() == cache_after(old(self).entries(), key@, remote)
            },
    {
        let (idx, vs) = self.global_value(key, remote)?;
        let b = match idx {
            Some(i) => self.value_at(i).is_some(),
            None => false,
        };
        Ok((b, key.len(), vs))
    }

    /// Whether a value is present under `key`, here or remotely. Returns the answer and the
    /// sizes of the key and of what was fetched.
    pub fn contains<R: TableResolver>(&mut self, resolver: &R, key: &[u8]) -> (r: Result<
        (bool, usize, usize),
        TableError,
    >)
        requires
            old(self).wf(),
        ensures
            final(self).wf(),
            final(self).spec_handle() == old(self).spec_handle(),
            final(self).delta() == old(self).delta(),
            match r {
                Ok((b, ks, vs)) => {
                    &&& b == old(self).present(resolver, key@) is Some
                    &&& ks == key@.len()
                    &&& vs == old(self).fetched_size(resolver, key@)
                    &&& final(self).entries() == old(self).after_fetch(resolver, key@)
                },
                Err(e) => {
                    &&& e == TableError::ResolverFailure
                    &&& !old(self).entries().contains_key(key@)
                    &&& final(self).entries() == old(self).entries()
                },
            },
    {
        let remote = self.ask(resolver, key);
        self.contains_from_remote(remote, key)
    }

    /// Replaces the value present under `key` by `val`, as a write through a mutable borrow
    /// does, given the resolver's answer for the key (consulted only if the key is not
    /// cached). Fails with `ResolverFailure` if that answer is needed and is an error, and with
    /// `NotFound` if no value is present. Returns the sizes of the key and the new value.
    pub fn update_from_remote(
        &mut self,
        remote: Result<Option<Vec<u8>>, ResolverError>,
        key: &[u8],
        val: Vec<u8>,
    ) -> (r: Result<(usize, usize), TableError>)
        requires
            old(self).wf(),
        ensures
            final(self).wf(),
            final(self).spec_handle() == old(self).spec_handle(),
            final(self).delta() == old(self).delta(),
            if lookup_fails(old(self).entries(), key@, remote) {
                &&& r == Err::<(usize, usize), TableError>(TableError::ResolverFailure)
                &&& final(self).entries() == old(self).entries()
            } else if present_in(old(self).entries(), key@, remote) is Some {
                &&& r matches Ok((ks, vs)) && ks == key@.len() && vs == val@.len()
                &&& final(self).entries() == old(self).entries().insert(
                    key@,
                    EntryView::Changed(val@),
                )
            } else {
                &&& r == Err::<(usize, usize), TableError>(TableError::NotFound)
                &&& final(self).entries() == old(self).entries()
            },
    {
        let (idx, _) = self.global_value(key, remote)?;
        let i = match idx {
            Some(i) => i,
            None => {
                return Err(TableError::NotFound);
            },
        };
        if self.value_at(i).is_none() {
            return Err(TableError::NotFound);
        }
        let val_size = val.len();
        self.set_entry(i, CachedEntry::Changed(val));
        Ok((key.len(), val_size))
    }

    /// Replaces the value present under `key` by `val`, as a write through a mutable borrow
    /// does. Fails with `NotFound` if there is none, here or remotely.
    pub fn update<R: TableResolver>(&mut self, resolver: &R, key: &[u8], val: Vec<u8>) -> (r:
        Result<(usize, usize), TableError>)
        requires
            old(self).wf(),
        ensures
            final(self).wf(),
            final(self).spec_handle() == old(self).spec_handle(),
            final(self).delta() == old(self).delta(),
            match r {
                Ok((ks, vs)) => {
                    &&& old(self).present(resolver, key@) is Some
                    &&& ks == key@.len()
                    &&& vs == val@.len()
                    &&& final(self).entries() == old(self).entries().insert(
                        key@,
                        EntryView::Changed(val@),
                    )
                },
                Err(TableError::NotFound) => {
                    &&& old(self).present(resolver, key@) is None
                    &&& final(self).entries() == old(self).entries()
                },
                Err(TableError::ResolverFailure) => {
                    &&& !old(self).entries().contains_key(key@)
                    &&& final(self).entries() == old(self).entries()
                },
                Err(_) => false,
            },
    {
        let remote = self.ask(resolver, key);
        self.update_from_remote(remote, key, val)
    }

    /// The table's length given what the resolver answered for its remote size.
    pub fn length_from_remote(&self, remote: Result<usize, ResolverError>) -> (r:
        Result<u64, TableError>)
        ensures
            r == match remote {
                Ok(n) => effective_length(n as nat, self.delta()),
                Err(_) => Err(TableError::ResolverFailure),
            },
    {
        match remote {
            Err(_) => Err(TableError::ResolverFailure),
            Ok(n) => {
                let total: i128 = n as i128 + self.size_delta as i128;
                if total < 0 || total > u64::MAX as i128 {
                    Err(TableError::InconsistentSize)
                } else {
                    Ok(total as u64)
                }
            },
        }
    }

    /// The table's length: the remote size plus the entries added, minus those removed, in
    /// this execution. Fails if that falls outside the range of sizes.
    pub fn length<R: TableResolver>(&self, resolver: &R) -> (r: Result<u64, TableError>)
        ensures
            r == effective_length(resolver.spec_size(self.spec_handle()), self.delta()) || r
                == Err::<u64, TableError>(TableError::ResolverFailure),
    {
        let remote = resolver.table_size(&self.handle);
        self.length_from_remote(remote)
    }

    /// The writes that the cached entries stand for, one per key written: `Some(bytes)` for a
    /// changed entry, `None` for a deleted one; entries only read give none.
    pub fn writes(&self) -> (r: Vec<(Vec<u8>, Option<Vec<u8>>)>)
        requires
            self.wf(),
        ensures
            keys_unique(r@.map_values(|p: (Vec<u8>, Option<Vec<u8>>)| write_view(p))),
            writes_sorted(r@.map_values(|p: (Vec<u8>, Option<Vec<u8>>)| write_view(p))),
            assoc_map(r@.map_values(|p: (Vec<u8>, Option<Vec<u8>>)| write_view(p))) == writes_of(
                self.entries(),
            ),
    {
        let mut out: Vec<(Vec<u8>, Option<Vec<u8>>)> = Vec::new();
        let mut j: usize = 0;
        proof {
            assert(out@.map_values(|p: (Vec<u8>, Option<Vec<u8>>)| write_view(p))
                =~= Seq::<(Seq<u8>, Option<Seq<u8>>)>::empty());
            assert(self.content_seq().take(0) =~= Seq::<(Seq<u8>, EntryView)>::empty());
            assert(writes_of(Map::empty()) =~= Map::<Seq<u8>, Option<Seq<u8>>>::empty());
        }
        while j < self.content.len()
            invariant
                self.wf(),
                j <= self.content@.len(),
                keys_unique(out@.map_values(|p: (Vec<u8>, Option<Vec<u8>>)| write_view(p))),
                writes_sorted(out@.map_values(|p: (Vec<u8>, Option<Vec<u8>>)| write_view(p))),
                assoc_map(out@.map_values(|p: (Vec<u8>, Option<Vec<u8>>)| write_view(p)))
                    == writes_of(assoc_map(self.content_seq().take(j as int))),
            decreases self.content@.len() - j,
        {
            let ghost s = self.content_seq();
            let ghost before = out@.map_values(|p: (Vec<u8>, Option<Vec<u8>>)| write_view(p));
            let ghost m = assoc_map(s.take(j as int));
            let ghost k = s[j as int].0;
            let ghost e = s[j as int].1;
            proof {
                assert(s.take(j as int + 1).drop_last() =~= s.take(j as int));
                lemma_assoc_map_dom(s.take(j as int), k);
                assert(!m.contains_key(k));
                assert(!assoc_map(before).contains_key(k));
            }
            let w: Option<Option<Vec<u8>>> = match &self.content[j].1 {
                CachedEntry::Unchanged(_) => None,
                CachedEntry::Changed(v) => Some(Some(copy_bytes(v.as_slice()))),
                CachedEntry::Deleted => Some(None),
            };
            match w {
                Some(op) => {
                    let key = copy_bytes(self.content[j].0.as_slice());
                    let ghost wv = opt_bytes(op);
                    proof {
                        lemma_assoc_map_dom(before, k);
                    }
                    let mut p: usize = 0;
                    while p < out.len() && bytes_less(out[p].0.as_slice(), key.as_slice())
                        invariant
                            p <= out@.len(),
                            before == out@.map_values(
                                |q: (Vec<u8>, Option<Vec<u8>>)| write_view(q),
                            ),
                            forall|x: int| 0 <= x < p ==> bytes_lt(#[trigger] before[x].0, k),
                            key@ == k,
                        decreases out@.len() - p,
                    {
                        proof {
                            assert(before[p as int].0 == out@[p as int].0@);
                        }
                        p = p + 1;
                    }
                    proof {
                        if p < out@.len() {
                            assert(before[p as int].0 != k);
                            lemma_bytes_lt_total(before[p as int].0, k);
                        }
                        lemma_assoc_insert_at(before, p as int, k, wv);
                        lemma_writes_sorted_insert(before, p as int, (k, wv));
                    }
                    out.insert(p, (key, op));
                    proof {
                        assert(out@.map_values(|q: (Vec<u8>, Option<Vec<u8>>)| write_view(q))
                            =~= before.insert(p as int, (k, wv)));
                        assert(writes_of(m.insert(k, e)) =~= writes_of(m).insert(k, wv));
                    }
                },
                None => {
                    proof {
                        assert(writes_of(m.insert(k, e)) =~= writes_of(m));
                    }
                },
            }
            j = j + 1;
        }
        proof {
            assert(self.content_seq().take(self.content@.len() as int) =~= self.content_seq());
        }
        out
    }

    /// Checks that the table may be destroyed, given what the resolver answered for its remote
    /// size: fails with `ResolverFailure` on an error answer, with `InconsistentSize` if the
    /// length falls outside the range of sizes, and with `NotEmpty` unless the length is 0.
    pub fn destroy_from_remote(&self, remote: Result<usize, ResolverError>) -> (r: Result<
        (),
        TableError,
    >)
        ensures
            r == match remote {
                Ok(n) => destroy_outcome(effective_length(n as nat, self.delta())),
                Err(_) => Err(TableError::ResolverFailure),
            },
    {
        let len = self.length_from_remote(remote)?;
        if len > 0 {
            Err(TableError::NotEmpty)
        } else {
            Ok(())
        }
    }

    /// Checks that the table may be destroyed: fails with `NotEmpty` unless its length is 0.
    pub fn destroy_empty<R: TableResolver>(&self, resolver: &R) -> (r: Result<(), TableError>)
        ensures
            r == destroy_outcome(
                effective_length(resolver.spec_size(self.spec_handle()), self.delta()),
            ) || r == Err::<(), TableError>(TableError::ResolverFailure),
    {
        let remote = resolver.table_size(&self.handle);
        self.destroy_from_remote(remote)
    }
}

} // verus!
