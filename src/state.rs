//! The state layer: modules, resources and table entries kept in one key/value store, read
//! through composite keys and written by applying change sets.
use crate::assoc::{
    assoc_map, keys_unique, lemma_assoc_map_dom, lemma_assoc_map_last, lemma_assoc_map_update,
    lemma_assoc_push_unique,
};
use crate::change_set::{TableChange, TableChangeSet};
use crate::handle::TableHandle;
use crate::key::{table_item_key, AccessKey};
use crate::resolver::{opt_bytes, ResolverError, TableOperation, TableResolver};
use vstd::prelude::*;

verus! {

/// The value stored under `k` in `m`, if any.
pub open spec fn lookup(m: Map<Seq<u8>, Seq<u8>>, k: Seq<u8>) -> Option<Seq<u8>> {
    if m.contains_key(k) {
        Some(m[k])
    } else {
        None
    }
}

/// A key/value store addressed by opaque byte keys.
///
/// `contents` names what the store holds. By default nothing is known of it; a verified
/// implementation overrides it.
pub trait Storage {
    /// What the store holds.
    closed spec fn contents(&self) -> Map<Seq<u8>, Seq<u8>> {
        arbitrary()
    }

    /// The value stored under `key`.
    fn get(&self, key: &[u8]) -> (r: Option<Vec<u8>>)
        ensures
            opt_bytes(r) == lookup(self.contents(), key@),
    ;

    /// Stores `value` under `key`.
    fn insert(&mut self, key: &[u8], value: &[u8])
        ensures
            final(self).contents() == old(self).contents().insert(key@, value@),
    ;

    /// Deletes what is stored under `key`.
    fn remove(&mut self, key: &[u8])
        ensures
            final(self).contents() == old(self).contents().remove(key@),
    ;
}

/// Writes to the store: inserts and deletes by key.
///
/// `written` names what the store holds. By default nothing is known of it; a verified
/// implementation overrides it.
pub trait WriteEffects {
    /// What the store holds.
    closed spec fn written(&self) -> Map<Seq<u8>, Seq<u8>> {
        arbitrary()
    }

    /// Deletes what is stored under `path`.
    fn delete(&mut self, path: AccessKey)
        ensures
            final(self).written() == old(self).written().remove(path@),
    ;

    /// Stores `blob` under `path`.
    fn insert(&mut self, path: AccessKey, blob: Vec<u8>)
        ensures
            final(self).written() == old(self).written().insert(path@, blob@),
    ;
}

/// The store after the writes `w`, in order: `Some(v)` stores `v`, `None` deletes.
pub open spec fn apply_writes(m: Map<Seq<u8>, Seq<u8>>, w: Seq<(Seq<u8>, Option<Seq<u8>>)>) -> Map<
    Seq<u8>,
    Seq<u8>,
>
    decreases w.len(),
{
    if w.len() == 0 {
        m
    } else {
        let prev = apply_writes(m, w.drop_last());
        match w.last().1 {
            Some(v) => prev.insert(w.last().0, v),
            None => prev.remove(w.last().0),
        }
    }
}

/// The writes of table `h` under their store keys.
pub open spec fn keyed_writes(h: TableHandle, s: Seq<(Seq<u8>, Option<Seq<u8>>)>) -> Seq<
    (Seq<u8>, Option<Seq<u8>>),
> {
    s.map_values(|e: (Seq<u8>, Option<Seq<u8>>)| (table_item_key(h, e.0), e.1))
}

/// The store writes of a sequence of table changes, table after table.
pub open spec fn store_writes(changes: Seq<(TableHandle, TableChange)>) -> Seq<
    (Seq<u8>, Option<Seq<u8>>),
>
    decreases changes.len(),
{
    if changes.len() == 0 {
        Seq::empty()
    } else {
        store_writes(changes.drop_last()) + keyed_writes(
            changes.last().0,
            changes.last().1.entries_seq(),
        )
    }
}

/// The writes of table `h` with their handle.
pub open spec fn handle_writes(h: TableHandle, es: Seq<(Seq<u8>, Option<Seq<u8>>)>) -> Seq<
    (TableHandle, Seq<u8>, Option<Seq<u8>>),
> {
    es.map_values(|e: (Seq<u8>, Option<Seq<u8>>)| (h, e.0, e.1))
}

/// The table writes of a sequence of table changes, table after table: handle, entry key, and
/// the write.
pub open spec fn table_writes(changes: Seq<(TableHandle, TableChange)>) -> Seq<
    (TableHandle, Seq<u8>, Option<Seq<u8>>),
>
    decreases changes.len(),
{
    if changes.len() == 0 {
        Seq::empty()
    } else {
        table_writes(changes.drop_last()) + handle_writes(
            changes.last().0,
            changes.last().1.entries_seq(),
        )
    }
}

/// Table writes under their store keys.
pub open spec fn keys_of(tw: Seq<(TableHandle, Seq<u8>, Option<Seq<u8>>)>) -> Seq<
    (Seq<u8>, Option<Seq<u8>>),
> {
    tw.map_values(|w: (TableHandle, Seq<u8>, Option<Seq<u8>>)| (table_item_key(w.0, w.1), w.2))
}

/// The entry count of a table after one write to it: a value stored under a key that held
/// none adds one, a deletion of a key that held one takes one away (counts stay within
/// `0..=usize::MAX`).
pub open spec fn count_step(c: nat, present: bool, stores: bool) -> nat {
    if stores {
        if !present && c < usize::MAX {
            c + 1
        } else {
            c
        }
    } else {
        if present && c > 0 {
            (c - 1) as nat
        } else {
            c
        }
    }
}

/// The count of table `h`: 0 if none is kept.
pub open spec fn count_of(counts: Map<TableHandle, nat>, h: TableHandle) -> nat {
    if counts.contains_key(h) {
        counts[h]
    } else {
        0
    }
}

/// The entry counts after the table writes `tw`, applied to the store `m` in order.
pub open spec fn counts_after(
    counts: Map<TableHandle, nat>,
    m: Map<Seq<u8>, Seq<u8>>,
    tw: Seq<(TableHandle, Seq<u8>, Option<Seq<u8>>)>,
) -> Map<TableHandle, nat>
    decreases tw.len(),
{
    if tw.len() == 0 {
        counts
    } else {
        let p = tw.drop_last();
        let before = counts_after(counts, m, p);
        let w = tw.last();
        let present = apply_writes(m, keys_of(p)).contains_key(table_item_key(w.0, w.1));
        before.insert(w.0, count_step(count_of(before, w.0), present, w.2 is Some))
    }
}

/// The store writes of table changes are their table writes under store keys.
pub proof fn lemma_store_writes_keys(changes: Seq<(TableHandle, TableChange)>)
    ensures
        store_writes(changes) == keys_of(table_writes(changes)),
    decreases changes.len(),
{
    if changes.len() > 0 {
        let p = changes.drop_last();
        lemma_store_writes_keys(p);
        let c = changes.last();
        assert(keys_of(table_writes(p) + handle_writes(c.0, c.1.entries_seq())) =~= keys_of(
            table_writes(p),
        ) + keyed_writes(c.0, c.1.entries_seq()));
    }
}

/// A handle and its entry count, as values.
pub open spec fn count_view(p: (TableHandle, usize)) -> (TableHandle, nat) {
    (p.0, p.1 as nat)
}

/// The storage-backed state that executions read from and commit to. Beside the store it keeps
/// the number of entries of each table, counted over the table writes committed through it.
pub struct State<S: Storage> {
    store: S,
    sizes: Vec<(TableHandle, usize)>,
}

impl<S: Storage> State<S> {
    /// What the store holds.
    pub closed spec fn contents(&self) -> Map<Seq<u8>, Seq<u8>> {
        self.store.contents()
    }

    /// The entry counts, by handle.
    pub closed spec fn counts(&self) -> Map<TableHandle, nat> {
        assoc_map(self.sizes@.map_values(|p: (TableHandle, usize)| count_view(p)))
    }

    /// Each handle has one count.
    pub closed spec fn wf(&self) -> bool {
        keys_unique(self.sizes@.map_values(|p: (TableHandle, usize)| count_view(p)))
    }

    /// The number of entries of table `h`.
    pub open spec fn table_count(&self, h: TableHandle) -> nat {
        count_of(self.counts(), h)
    }

    /// A state over `store`, whose tables hold no entries yet.
    pub fn new(store: S) -> (r: State<S>)
        ensures
            r.wf(),
            r.contents() == store.contents(),
            forall|h: TableHandle| #[trigger] r.table_count(h) == 0,
    {
        let r = State { store, sizes: Vec::new() };
        proof {
            assert(r.sizes@.map_values(|p: (TableHandle, usize)| count_view(p)) =~= Seq::<
                (TableHandle, nat),
            >::empty());
        }
        r
    }

    /// The value stored for entry `key` of table `handle`.
    pub fn table_entry(&self, handle: &TableHandle, key: &[u8]) -> (r: Option<Vec<u8>>)
        ensures
            opt_bytes(r) == lookup(self.contents(), table_item_key(*handle, key@)),
    {
        let k = AccessKey::table_item(handle, key);
        self.store.get(k.as_bytes())
    }

    /// The number of entries of table `handle`.
    pub fn entry_count(&self, handle: &TableHandle) -> (r: usize)
        ensures
            r == self.table_count(*handle),
    {
        let ghost s = self.sizes@.map_values(|p: (TableHandle, usize)| count_view(p));
        let mut i: usize = self.sizes.len();
        while i > 0
            invariant
                i <= self.sizes@.len(),
                s == self.sizes@.map_values(|p: (TableHandle, usize)| count_view(p)),
                forall|j: int| i <= j < s.len() ==> #[trigger] s[j].0 != *handle,
            decreases i,
        {
            i = i - 1;
            if self.sizes[i].0 == *handle {
                proof {
                    lemma_assoc_map_last(s, i as int);
                }
                return self.sizes[i].1;
            }
        }
        proof {
            lemma_assoc_map_dom(s, *handle);
        }
        0
    }

    /// Applies one store of table writes' effect on the count of `handle`.
    fn count_write(&mut self, handle: TableHandle, present: bool, stores: bool)
        requires
            old(self).wf(),
        ensures
            final(self).wf(),
            final(self).contents() == old(self).contents(),
            final(self).counts() == old(self).counts().insert(
                handle,
                count_step(old(self).table_count(handle), present, stores),
            ),
    {
        let c = self.entry_count(&handle);
        let next: usize = if stores {
            if !present && c < usize::MAX {
                c + 1
            } else {
                c
            }
        } else {
            if present && c > 0 {
                c - 1
            } else {
                c
            }
        };
        let ghost s = self.sizes@.map_values(|p: (TableHandle, usize)| count_view(p));
        let mut i: usize = 0;
        while i < self.sizes.len()
            invariant
                self.wf(),
                self.contents() == old(self).contents(),
                self.counts() == old(self).counts(),
                next as nat == count_step(old(self).table_count(handle), present, stores),
                i <= self.sizes@.len(),
                s == self.sizes@.map_values(|p: (TableHandle, usize)| count_view(p)),
                forall|j: int| 0 <= j < i ==> #[trigger] s[j].0 != handle,
            decreases self.sizes@.len() - i,
        {
            if self.sizes[i].0 == handle {
                proof {
                    lemma_assoc_map_update(s, i as int, next as nat);
                }
                self.sizes.set(i, (handle, next));
                proof {
                    assert(self.sizes@.map_values(|p: (TableHandle, usize)| count_view(p))
                        =~= s.update(i as int, (s[i as int].0, next as nat)));
                }
                return;
            }
            i = i + 1;
        }
        proof {
            lemma_assoc_map_dom(s, handle);
            lemma_assoc_push_unique(s, handle, next as nat);
        }
        self.sizes.push((handle, next));
        proof {
            assert(self.sizes@.map_values(|p: (TableHandle, usize)| count_view(p)) =~= s.push(
                (handle, next as nat),
            ));
        }
    }

    /// The bytecode of the module with the access vector `module_id`.
    pub fn get_module(&self, module_id: &[u8]) -> (r: Option<Vec<u8>>)
        ensures
            opt_bytes(r) == lookup(self.contents(), module_id@),
    {
        let key = AccessKey::module(crate::bytes::copy_bytes(module_id));
        self.store.get(key.as_bytes())
    }

    /// The resource whose type has the access vector `tag`, stored under `address`.
    pub fn get_resource(&self, address: &[u8], tag: &[u8]) -> (r: Option<Vec<u8>>)
        ensures
            opt_bytes(r) == lookup(self.contents(), address@ + tag@),
    {
        let key = AccessKey::resource(address, tag);
        self.store.get(key.as_bytes())
    }

    /// Commits the effects of an execution: first the module and resource writes, in order,
    /// then the table writes of `table_changes`. Module and resource keys lie outside the
    /// table entries, so the first writes leave the entry counts as they are.
    pub fn commit(
        &mut self,
        writes: &Vec<(AccessKey, Option<Vec<u8>>)>,
        table_changes: &TableChangeSet,
    )
        requires
            old(self).wf(),
        ensures
            final(self).wf(),
            final(self).contents() == apply_writes(
                apply_writes(old(self).contents(), writes_view(writes@)),
                store_writes(table_changes.changes@),
            ),
            final(self).counts() == counts_after(
                old(self).counts(),
                apply_writes(old(self).contents(), writes_view(writes@)),
                table_writes(table_changes.changes@),
            ),
    {
        let ghost start = self.contents();
        let ghost counts0 = self.counts();
        let mut i: usize = 0;
        proof {
            assert(writes_view(writes@).take(0) =~= Seq::<(Seq<u8>, Option<Seq<u8>>)>::empty());
        }
        while i < writes.len()
            invariant
                self.wf(),
                self.counts() == counts0,
                i <= writes@.len(),
                self.contents() == apply_writes(start, writes_view(writes@).take(i as int)),
            decreases writes@.len() - i,
        {
            proof {
                let w = writes_view(writes@);
                assert(w.take(i as int + 1).drop_last() =~= w.take(i as int));
            }
            match &writes[i].1 {
                Some(blob) => {
                    self.store.insert(writes[i].0.as_bytes(), blob.as_slice());
                },
                None => {
                    self.store.remove(writes[i].0.as_bytes());
                },
            }
            i = i + 1;
        }
        proof {
            assert(writes_view(writes@).take(writes@.len() as int) =~= writes_view(writes@));
        }
        self.apply_table_changes(table_changes);
    }

    /// Applies the table writes of a change set, table after table and key after key: each
    /// `Some(bytes)` is stored under the entry's store key, each `None` deletes it. The count of
    /// each table follows: a value stored under a key that held none adds one entry, a
    /// deletion of a key that held one takes one away.
    pub fn apply_table_changes(&mut self, change_set: &TableChangeSet)
        requires
            old(self).wf(),
        ensures
            final(self).wf(),
            final(self).contents() == apply_writes(
                old(self).contents(),
                store_writes(change_set.changes@),
            ),
            final(self).counts() == counts_after(
                old(self).counts(),
                old(self).contents(),
                table_writes(change_set.changes@),
            ),
    {
        let ghost start = self.contents();
        let ghost counts0 = self.counts();
        let changes = &change_set.changes;
        let mut i: usize = 0;
        proof {
            assert(changes@.take(0) =~= Seq::<(TableHandle, TableChange)>::empty());
            assert(keys_of(Seq::empty()) =~= Seq::<(Seq<u8>, Option<Seq<u8>>)>::empty());
        }
        while i < changes.len()
            invariant
                self.wf(),
                i <= changes@.len(),
                self.contents() == apply_writes(
                    start,
                    keys_of(table_writes(changes@.take(i as int))),
                ),
                self.counts() == counts_after(
                    counts0,
                    start,
                    table_writes(changes@.take(i as int)),
                ),
            decreases changes@.len() - i,
        {
            let handle = changes[i].0;
            let entries = &changes[i].1.entries;
            let ghost done = table_writes(changes@.take(i as int));
            let ghost es = changes@[i as int].1.entries_seq();
            proof {
                assert(changes@.take(i as int + 1).drop_last() =~= changes@.take(i as int));
                assert(done + handle_writes(handle, es.take(0)) =~= done);
            }
            let mut j: usize = 0;
            while j < entries.len()
                invariant
                    self.wf(),
                    i < changes@.len(),
                    entries == &changes@[i as int].1.entries,
                    es == changes@[i as int].1.entries_seq(),
                    j <= entries@.len(),
                    self.contents() == apply_writes(start, keys_of(done + handle_writes(
                        handle,
                        es.take(j as int),
                    ))),
                    self.counts() == counts_after(counts0, start, done + handle_writes(
                        handle,
                        es.take(j as int),
                    )),
                decreases entries@.len() - j,
            {
                let ghost w = done + handle_writes(handle, es.take(j as int));
                let ghost x = (handle, es[j as int].0, es[j as int].1);
                proof {
                    assert(done + handle_writes(handle, es.take(j as int + 1)) =~= w.push(x));
                    assert(w.push(x).drop_last() =~= w);
                    assert(keys_of(w.push(x)) =~= keys_of(w).push(
                        (table_item_key(handle, es[j as int].0), es[j as int].1),
                    ));
                    assert(keys_of(w.push(x)).drop_last() =~= keys_of(w));
                }
                let key = AccessKey::table_item(&handle, entries[j].0.as_slice());
                let present = self.store.get(key.as_bytes()).is_some();
                match &entries[j].1 {
                    Some(blob) => {
                        self.store.insert(key.as_bytes(), blob.as_slice());
                        self.count_write(handle, present, true);
                    },
                    None => {
                        self.store.remove(key.as_bytes());
                        self.count_write(handle, present, false);
                    },
                }
                j = j + 1;
            }
            proof {
                assert(es.take(entries@.len() as int) =~= es);
            }
            i = i + 1;
        }
        proof {
            assert(changes@.take(changes@.len() as int) =~= changes@);
            lemma_store_writes_keys(changes@);
        }
    }
}

/// Store writes under their keys, as values.
pub open spec fn writes_view(w: Seq<(AccessKey, Option<Vec<u8>>)>) -> Seq<
    (Seq<u8>, Option<Seq<u8>>),
> {
    w.map_values(|p: (AccessKey, Option<Vec<u8>>)| (p.0@, opt_bytes(p.1)))
}

/// The cost of a table operation under this state's pricing: one unit per byte of key and
/// value, saturating at the largest cost.
pub open spec fn byte_cost(key_size: nat, val_size: nat) -> u64 {
    if key_size + val_size <= u64::MAX {
        (key_size + val_size) as u64
    } else {
        u64::MAX
    }
}

impl<S: Storage> TableResolver for State<S> {
    open spec fn spec_entry(&self, handle: TableHandle, key: Seq<u8>) -> Option<Seq<u8>> {
        lookup(self.contents(), table_item_key(handle, key))
    }

    open spec fn spec_size(&self, handle: TableHandle) -> nat {
        self.table_count(handle)
    }

    open spec fn spec_cost(&self, op: TableOperation, key_size: nat, val_size: nat) -> u64 {
        byte_cost(key_size, val_size)
    }

    /// Never fails: the entry is read from the store (see `table_entry`).
    fn resolve_table_entry(&self, handle: &TableHandle, key: &[u8]) -> (r: Result<
        Option<Vec<u8>>,
        ResolverError,
    >) {
        Ok(self.table_entry(handle, key))
    }

    /// Never fails: the size is the kept count (see `entry_count`).
    fn table_size(&self, handle: &TableHandle) -> (r: Result<usize, ResolverError>) {
        Ok(self.entry_count(handle))
    }

    fn operation_cost(&self, op: TableOperation, key_size: usize, val_size: usize) -> (r: u64) {
        let k = key_size as u64;
        let v = val_size as u64;
        if k > u64::MAX - v {
            u64::MAX
        } else {
            k + v
        }
    }
}

impl<S: Storage> WriteEffects for State<S> {
    closed spec fn written(&self) -> Map<Seq<u8>, Seq<u8>> {
        self.store.contents()
    }

    fn delete(&mut self, path: AccessKey) {
        self.store.remove(path.as_bytes());
    }

    fn insert(&mut self, path: AccessKey, blob: Vec<u8>) {
        self.store.insert(path.as_bytes(), blob.as_slice());
    }
}

} // verus!
