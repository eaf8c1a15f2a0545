//! The per-execution table context and the table operations that contract code calls.
use crate::assoc::{
    assoc_map, keys_unique, lemma_assoc_insert_at, lemma_assoc_map_dom, lemma_assoc_map_index,
    lemma_assoc_map_update, lemma_assoc_push_unique,
};
use crate::change_set::{
    changes_entries_wf, changes_view, handles_sorted, lemma_changes_insert, writes_sorted,
    TableChange, TableChangeSet,
};
use crate::error::TableError;
use crate::handle::{derive_handle, derived_handle, TableHandle};
use crate::resolver::{ResolverError, TableOperation, TableResolver};
use crate::table::{destroy_outcome, effective_length, writes_of, EntryView, Table};
use vstd::prelude::*;

verus! {

/// What a table operation hands back to the machine: its cost and its result.
pub struct NativeResult<T> {
    pub cost: u64,
    pub value: T,
}

/// The tables touched in one execution, and the handles created and destroyed in it.
struct TableData {
    new_tables: Vec<TableHandle>,
    removed_tables: Vec<TableHandle>,
    tables: Vec<Table>,
}

impl TableData {
    closed spec fn tables_seq(&self) -> Seq<(TableHandle, Table)> {
        self.tables@.map_values(|t: Table| (t.spec_handle(), t))
    }

    closed spec fn tables_map(&self) -> Map<TableHandle, Table> {
        assoc_map(self.tables_seq())
    }

    closed spec fn wf(&self) -> bool {
        &&& keys_unique(self.tables_seq())
        &&& forall|i: int| 0 <= i < self.tables@.len() ==> (#[trigger] self.tables@[i]).wf()
        &&& self.new_tables@.no_duplicates()
        &&& self.removed_tables@.no_duplicates()
    }

    closed spec fn cached(&self, h: TableHandle) -> Map<Seq<u8>, EntryView> {
        if self.tables_map().contains_key(h) {
            self.tables_map()[h].entries()
        } else {
            Map::empty()
        }
    }

    closed spec fn delta(&self, h: TableHandle) -> int {
        if self.tables_map().contains_key(h) {
            self.tables_map()[h].delta()
        } else {
            0
        }
    }

    fn new() -> (r: TableData)
        ensures
            r.wf(),
            r.new_tables@.len() == 0,
            r.removed_tables@.len() == 0,
            forall|h: TableHandle| #[trigger] r.cached(h) == Map::<Seq<u8>, EntryView>::empty(),
            forall|h: TableHandle| #[trigger] r.delta(h) == 0,
    {
        let r = TableData {
            new_tables: Vec::new(),
            removed_tables: Vec::new(),
            tables: Vec::new(),
        };
        proof {
            assert(r.tables_seq() =~= Seq::<(TableHandle, Table)>::empty());
        }
        r
    }

    /// The position of the table of `handle`, which is created on its first use.
    fn get_or_create_table(&mut self, handle: TableHandle) -> (i: usize)
        requires
            old(self).wf(),
        ensures
            final(self).wf(),
            i < final(self).tables@.len(),
            final(self).tables@[i as int].spec_handle() == handle,
            final(self).new_tables == old(self).new_tables,
            final(self).removed_tables == old(self).removed_tables,
            forall|h: TableHandle| #[trigger] final(self).cached(h) == old(self).cached(h),
            forall|h: TableHandle| #[trigger] final(self).delta(h) == old(self).delta(h),
            final(self).cached(handle) == final(self).tables@[i as int].entries(),
            final(self).delta(handle) == final(self).tables@[i as int].delta(),
    {
        let mut j: usize = 0;
        while j < self.tables.len()
            invariant
                self.wf(),
                j <= self.tables@.len(),
                forall|k: int| 0 <= k < j ==> #[trigger] self.tables_seq()[k].0 != handle,
            decreases self.tables@.len() - j,
        {
            if self.tables[j].handle() == handle {
                proof {
                    lemma_assoc_map_index(self.tables_seq(), j as int);
                }
                return j;
            }
            j = j + 1;
        }
        let ghost before = self.tables_seq();
        let ghost old_data = *self;
        proof {
            lemma_assoc_map_dom(before, handle);
        }
        let t = Table::new(handle);
        proof {
            lemma_assoc_push_unique(before, handle, t);
        }
        self.tables.push(t);
        proof {
            assert(self.tables_seq() =~= before.push((handle, t)));
            assert forall|h: TableHandle| #[trigger] self.cached(h) == old_data.cached(h) by {}
            assert forall|h: TableHandle| #[trigger] self.delta(h) == old_data.delta(h) by {}
            assert(self.tables@[self.tables@.len() - 1] == t);
        }
        self.tables.len() - 1
    }

    /// Replacing the table at `i` by one of the same handle changes the view of that handle
    /// alone.
    proof fn lemma_table_replaced(a: TableData, b: TableData, i: int)
        requires
            a.wf(),
            0 <= i < a.tables@.len(),
            b.tables@ == a.tables@.update(i, b.tables@[i]),
            b.tables@[i].wf(),
            b.tables@[i].spec_handle() == a.tables@[i].spec_handle(),
            b.new_tables == a.new_tables,
            b.removed_tables == a.removed_tables,
        ensures
            b.wf(),
            b.cached(a.tables@[i].spec_handle()) == b.tables@[i].entries(),
            b.delta(a.tables@[i].spec_handle()) == b.tables@[i].delta(),
            forall|h: TableHandle|
                h != a.tables@[i].spec_handle() ==> #[trigger] b.cached(h) == a.cached(h)
                    && b.delta(h) == a.delta(h),
    {
        let h = a.tables@[i].spec_handle();
        let t = b.tables@[i];
        lemma_assoc_map_update(a.tables_seq(), i, t);
        assert(b.tables_seq() =~= a.tables_seq().update(i, (a.tables_seq()[i].0, t)));
        assert forall|j: int| 0 <= j < b.tables@.len() implies (#[trigger] b.tables@[j]).wf() by {
            if j != i {
                assert(b.tables@[j] == a.tables@[j]);
            }
        }
    }
}

/// The table context of one execution: the tables touched so far, the identity of the
/// execution, and the resolver that answers for remote storage.
pub struct NativeTableContext<'a, R: TableResolver> {
    resolver: &'a R,
    txn_hash: u128,
    table_data: TableData,
}

impl<'a, R: TableResolver> NativeTableContext<'a, R> {
    /// The resolver of the context.
    pub closed spec fn spec_resolver(&self) -> R {
        *self.resolver
    }

    /// The identity of the execution.
    pub closed spec fn spec_txn_hash(&self) -> u128 {
        self.txn_hash
    }

    /// The handles created in this execution, in order of creation.
    pub closed spec fn created(&self) -> Seq<TableHandle> {
        self.table_data.new_tables@
    }

    /// The handles destroyed in this execution, in order of destruction.
    pub closed spec fn removed(&self) -> Seq<TableHandle> {
        self.table_data.removed_tables@
    }

    /// The entries of table `h` read or written in this execution.
    pub closed spec fn cached(&self, h: TableHandle) -> Map<Seq<u8>, EntryView> {
        self.table_data.cached(h)
    }

    /// Inserts minus removes on table `h` in this execution.
    pub closed spec fn delta(&self, h: TableHandle) -> int {
        self.table_data.delta(h)
    }

    /// Each table is registered once and caches each key once, and no handle is recorded twice
    /// as created or as destroyed.
    pub closed spec fn wf(&self) -> bool {
        self.table_data.wf()
    }

    /// The value present under `k` in table `h`: the cached one if the key was touched in this
    /// execution, else the remote one.
    pub open spec fn present(&self, h: TableHandle, k: Seq<u8>) -> Option<Seq<u8>> {
        if self.cached(h).contains_key(k) {
            self.cached(h)[k].value()
        } else {
            self.spec_resolver().spec_entry(h, k)
        }
    }

    /// The entries of table `h` once `k` has been looked up.
    pub open spec fn after_fetch(&self, h: TableHandle, k: Seq<u8>) -> Map<Seq<u8>, EntryView> {
        if self.cached(h).contains_key(k) {
            self.cached(h)
        } else {
            match self.spec_resolver().spec_entry(h, k) {
                Some(v) => self.cached(h).insert(k, EntryView::Unchanged(v)),
                None => self.cached(h),
            }
        }
    }

    /// The number of value bytes that looking up `k` in table `h` fetches from remote storage.
    pub open spec fn fetched_size(&self, h: TableHandle, k: Seq<u8>) -> nat {
        if self.cached(h).contains_key(k) {
            0
        } else {
            match self.spec_resolver().spec_entry(h, k) {
                Some(v) => v.len(),
                None => 0,
            }
        }
    }

    /// The outcome of asking for the length of table `h`.
    pub open spec fn length_of(&self, h: TableHandle) -> Result<u64, TableError> {
        effective_length(self.spec_resolver().spec_size(h), self.delta(h))
    }

    /// The cost of an operation, as the resolver prices it.
    pub open spec fn cost(&self, op: TableOperation, key_size: nat, val_size: nat) -> u64 {
        self.spec_resolver().spec_cost(op, key_size, val_size)
    }

    /// The two contexts have the same resolver and identity and the same created and destroyed
    /// handles.
    pub open spec fn same_frame(&self, other: &Self) -> bool {
        &&& self.spec_resolver() == other.spec_resolver()
        &&& self.spec_txn_hash() == other.spec_txn_hash()
        &&& self.created() == other.created()
        &&& self.removed() == other.removed()
    }

    /// The two contexts agree on every table but `h`.
    pub open spec fn same_tables_except(&self, other: &Self, h: TableHandle) -> bool {
        forall|g: TableHandle|
            g != h ==> #[trigger] self.cached(g) == other.cached(g) && self.delta(g) == other.delta(
                g,
            )
    }

    /// The two contexts agree on every table.
    pub open spec fn same_tables(&self, other: &Self) -> bool {
        forall|g: TableHandle|
            #[trigger] self.cached(g) == other.cached(g) && self.delta(g) == other.delta(g)
    }

    /// A context for the execution identified by `txn_hash`, reading remote storage through
    /// `resolver`, in which no table has been touched.
    pub fn new(txn_hash: u128, resolver: &'a R) -> (r: Self)
        ensures
            r.wf(),
            r.spec_resolver() == *resolver,
            r.spec_txn_hash() == txn_hash,
            r.created().len() == 0,
            r.removed().len() == 0,
            forall|h: TableHandle| #[trigger] r.cached(h) == Map::<Seq<u8>, EntryView>::empty(),
            forall|h: TableHandle| #[trigger] r.delta(h) == 0,
    {
        NativeTableContext { resolver, txn_hash, table_data: TableData::new() }
    }

    /// The change set of the execution: the created and destroyed handles, and for each table
    /// with writes, the write of each key written (`Some(bytes)` for a changed entry, `None`
    /// for a deleted one). Keys that were only read give nothing.
    pub fn into_change_set(self) -> (r: TableChangeSet)
        requires
            self.wf(),
        ensures
            r.wf(),
            r.new_tables@ == self.created(),
            r.removed_tables@ == self.removed(),
            forall|h: TableHandle|
                #[trigger] r.changes_map().contains_key(h) <==> writes_of(self.cached(h))
                    != Map::<Seq<u8>, Option<Seq<u8>>>::empty(),
            forall|h: TableHandle| #[trigger]
                r.changes_map().contains_key(h) ==> r.changes_map()[h] == writes_of(
                    self.cached(h),
                ),
    {
        let data = self.table_data;
        let mut changes: Vec<(TableHandle, TableChange)> = Vec::new();
        let mut i: usize = 0;
        proof {
            assert(changes_view(changes@)
                =~= Seq::<(TableHandle, Map<Seq<u8>, Option<Seq<u8>>>)>::empty());
        }
        while i < data.tables.len()
            invariant
                data.wf(),
                i <= data.tables@.len(),
                keys_unique(changes_view(changes@)),
                changes_entries_wf(changes@),
                handles_sorted(changes@),
                forall|h: TableHandle|
                    #[trigger] assoc_map(changes_view(changes@)).contains_key(h) <==> (assoc_map(
                        data.tables_seq().take(i as int),
                    ).contains_key(
                        h,
                    ) && writes_of(assoc_map(data.tables_seq().take(i as int))[h].entries())
                        != Map::<Seq<u8>, Option<Seq<u8>>>::empty()),
                forall|h: TableHandle|
                    #[trigger] assoc_map(changes_view(changes@)).contains_key(h) ==> assoc_map(
                        changes_view(changes@),
                    )[h] == writes_of(assoc_map(data.tables_seq().take(i as int))[h].entries()),
            decreases data.tables@.len() - i,
        {
            let ghost s = data.tables_seq();
            let ghost before = changes_view(changes@);
            let ghost m = assoc_map(s.take(i as int));
            let ghost h = s[i as int].0;
            let ghost t = s[i as int].1;
            proof {
                assert(s.take(i as int + 1).drop_last() =~= s.take(i as int));
                lemma_assoc_map_dom(s.take(i as int), h);
                assert(!m.contains_key(h));
                assert(t.wf());
            }
            let entries = data.tables[i].writes();
            let handle = data.tables[i].handle();
            if entries.len() > 0 {
                let change = TableChange { entries };
                let ghost cv = change.entries_map();
                proof {
                    assert(change.entries_seq()[0].0 == change.entries_seq()[0].0);
                    lemma_assoc_map_index(change.entries_seq(), 0);
                    assert(cv.contains_key(change.entries_seq()[0].0));
                    assert(writes_of(t.entries()) != Map::<Seq<u8>, Option<Seq<u8>>>::empty());
                    assert(!assoc_map(before).contains_key(h));
                }
                let ghost old_changes = changes@;
                let ghost pushed = (handle, change);
                proof {
                    assert(keys_unique(pushed.1.entries_seq()));
                    assert(writes_sorted(pushed.1.entries_seq()));
                    assert(pushed.1.entries@.len() > 0);
                    lemma_assoc_map_dom(before, h);
                }
                let mut p: usize = 0;
                while p < changes.len() && changes[p].0.0 < handle.0
                    invariant
                        p <= changes@.len(),
                        changes@ == old_changes,
                        forall|x: int| 0 <= x < p ==> (#[trigger] old_changes[x]).0.0 < handle.0,
                    decreases changes@.len() - p,
                {
                    p = p + 1;
                }
                proof {
                    if p < changes@.len() {
                        assert(before[p as int].0 == old_changes[p as int].0);
                        assert(old_changes[p as int].0 != handle);
                    }
                    lemma_changes_insert(old_changes, p as int, pushed);
                    lemma_assoc_insert_at(before, p as int, h, cv);
                }
                changes.insert(p, (handle, change));
                proof {
                    assert(changes_view(changes@) =~= before.insert(p as int, (h, cv)));
                }
            } else {
                proof {
                    assert(entries@.map_values(
                        |p: (Vec<u8>, Option<Vec<u8>>)| crate::change_set::write_view(p),
                    )
                        =~= Seq::<(Seq<u8>, Option<Seq<u8>>)>::empty());
                    assert(writes_of(t.entries()) == Map::<Seq<u8>, Option<Seq<u8>>>::empty());
                }
            }
            i = i + 1;
        }
        proof {
            assert(data.tables_seq().take(data.tables@.len() as int) =~= data.tables_seq());
            assert(writes_of(Map::<Seq<u8>, EntryView>::empty()) =~= Map::<
                Seq<u8>,
                Option<Seq<u8>>,
            >::empty());
        }
        TableChangeSet {
            new_tables: data.new_tables,
            removed_tables: data.removed_tables,
            changes,
        }
    }
}

/// Whether `h` is among `hs`.
fn contains_handle(hs: &Vec<TableHandle>, h: TableHandle) -> (r: bool)
    ensures
        r == hs@.contains(h),
{
    let mut i: usize = 0;
    while i < hs.len()
        invariant
            i <= hs@.len(),
            forall|j: int| 0 <= j < i ==> hs@[j] != h,
        decreases hs@.len() - i,
    {
        if hs[i] == h {
            return true;
        }
        i = i + 1;
    }
    false
}

proof fn lemma_push_no_duplicates(s: Seq<TableHandle>, h: TableHandle)
    requires
        s.no_duplicates(),
        !s.contains(h),
    ensures
        s.push(h).no_duplicates(),
{
    let t = s.push(h);
    assert forall|i: int, j: int| 0 <= i < t.len() && 0 <= j < t.len() && i != j implies t[i]
        != t[j] by {
        if i < s.len() && j < s.len() {
            assert(t[i] == s[i] && t[j] == s[j]);
        } else if i < s.len() {
            assert(t[i] == s[i]);
        } else {
            assert(t[j] == s[j]);
        }
    }
}

/// Creates a new table: derives its handle from the execution's identity and the number of
/// tables created before it, and records it as created. Fails with `DuplicateHandle` if that
/// handle was already created in this execution.
pub fn native_new_table_handle<R: TableResolver>(context: &mut NativeTableContext<'_, R>) -> (r:
    Result<NativeResult<TableHandle>, TableError>)
    requires
        old(context).wf(),
    ensures
        final(context).wf(),
        final(context).spec_resolver() == old(context).spec_resolver(),
        final(context).spec_txn_hash() == old(context).spec_txn_hash(),
        final(context).removed() == old(context).removed(),
        final(context).same_tables(old(context)),
        match r {
            Ok(res) => {
                &&& res.value == derived_handle(
                    old(context).spec_txn_hash(),
                    old(context).created().len(),
                )
                &&& !old(context).created().contains(res.value)
                &&& final(context).created() == old(context).created().push(res.value)
                &&& res.cost == old(context).cost(TableOperation::NewHandle, 0, 0)
            },
            Err(e) => {
                &&& e == TableError::DuplicateHandle
                &&& old(context).created().contains(
                    derived_handle(old(context).spec_txn_hash(), old(context).created().len()),
                )
                &&& final(context).created() == old(context).created()
            },
        },
{
    let count = context.table_data.new_tables.len();
    let handle = derive_handle(context.txn_hash, count);
    if contains_handle(&context.table_data.new_tables, handle) {
        return Err(TableError::DuplicateHandle);
    }
    proof {
        lemma_push_no_duplicates(context.table_data.new_tables@, handle);
    }
    context.table_data.new_tables.push(handle);
    let cost = context.resolver.operation_cost(TableOperation::NewHandle, 0, 0);
    Ok(NativeResult { cost, value: handle })
}

/// Inserts `val` under `key` in the table of `handle`. Fails with `AlreadyExists` if a value is
/// present under the key, in this execution's cache or remotely.
pub fn native_add_box<R: TableResolver>(
    context: &mut NativeTableContext<'_, R>,
    handle: TableHandle,
    key: Vec<u8>,
    val: Vec<u8>,
) -> (r: Result<NativeResult<()>, TableError>)
    requires
        old(context).wf(),
    ensures
        final(context).wf(),
        final(context).same_frame(old(context)),
        final(context).same_tables_except(old(context), handle),
        match r {
            Ok(res) => {
                &&& old(context).present(handle, key@) is None
                &&& final(context).cached(handle) == old(context).cached(handle).insert(
                    key@,
                    EntryView::Changed(val@),
                )
                &&& final(context).delta(handle) == old(context).delta(handle) + 1
                &&& res.cost == old(context).cost(TableOperation::Insert, key@.len(), val@.len())
            },
            Err(TableError::AlreadyExists) => {
                &&& old(context).present(handle, key@) is Some
                &&& final(context).cached(handle) == old(context).after_fetch(handle, key@)
                &&& final(context).delta(handle) == old(context).delta(handle)
            },
            Err(TableError::InconsistentSize) => {
                &&& old(context).present(handle, key@) is None
                &&& old(context).delta(handle) == i64::MAX
                &&& final(context).cached(handle) == old(context).cached(handle)
                &&& final(context).delta(handle) == old(context).delta(handle)
            },
            Err(TableError::ResolverFailure) => {
                &&& !old(context).cached(handle).contains_key(key@)
                &&& final(context).cached(handle) == old(context).cached(handle)
                &&& final(context).delta(handle) == old(context).delta(handle)
            },
            Err(_) => false,
        },
{
    let i = context.table_data.get_or_create_table(handle);
    let ghost mid = context.table_data;
    let resolver = context.resolver;
    let status = context.table_data.tables[i].insert(resolver, key, val);
    proof {
        TableData::lemma_table_replaced(mid, context.table_data, i as int);
    }
    let (key_size, val_size) = status?;
    let cost = resolver.operation_cost(TableOperation::Insert, key_size, val_size);
    Ok(NativeResult { cost, value: () })
}

/// The length of the table of `handle`: its remote size plus the entries inserted, minus those
/// removed, in this execution.
pub fn native_length_box<R: TableResolver>(
    context: &mut NativeTableContext<'_, R>,
    handle: TableHandle,
) -> (r: Result<NativeResult<u64>, TableError>)
    requires
        old(context).wf(),
    ensures
        final(context).wf(),
        final(context).same_frame(old(context)),
        final(context).same_tables(old(context)),
        match r {
            Ok(res) => {
                &&& old(context).length_of(handle) == Ok::<u64, TableError>(res.value)
                &&& res.cost == old(context).cost(TableOperation::Length, 0, 0)
            },
            Err(e) => old(context).length_of(handle) == Err::<u64, TableError>(e) || e
                == TableError::ResolverFailure,
        },
{
    let i = context.table_data.get_or_create_table(handle);
    let len = context.table_data.tables[i].length(context.resolver)?;
    let cost = context.resolver.operation_cost(TableOperation::Length, 0, 0);
    Ok(NativeResult { cost, value: len })
}

/// The value present under `key` in the table of `handle`, fetched from remote storage on a
/// cache miss. Fails with `NotFound` if there is none.
pub fn native_borrow_box<R: TableResolver>(
    context: &mut NativeTableContext<'_, R>,
    handle: TableHandle,
    key: Vec<u8>,
) -> (r: Result<NativeResult<Vec<u8>>, TableError>)
    requires
        old(context).wf(),
    ensures
        final(context).wf(),
        final(context).same_frame(old(context)),
        final(context).same_tables_except(old(context), handle),
        final(context).delta(handle) == old(context).delta(handle),
        match r {
            Ok(res) => {
                &&& old(context).present(handle, key@) == Some(res.value@)
                &&& final(context).cached(handle) == old(context).after_fetch(handle, key@)
                &&& res.cost == old(context).cost(
                    TableOperation::Borrow,
                    key@.len(),
                    old(context).fetched_size(handle, key@),
                )
            },
            Err(TableError::NotFound) => {
                &&& old(context).present(handle, key@) is None
                &&& final(context).cached(handle) == old(context).cached(handle)
            },
            Err(TableError::ResolverFailure) => {
                &&& !old(context).cached(handle).contains_key(key@)
                &&& final(context).cached(handle) == old(context).cached(handle)
            },
            Err(_) => false,
        },
{
    let i = context.table_data.get_or_create_table(handle);
    let ghost mid = context.table_data;
    let resolver = context.resolver;
    let status = context.table_data.tables[i].borrow_global(resolver, key.as_slice());
    proof {
        TableData::lemma_table_replaced(mid, context.table_data, i as int);
    }
    let (val, key_size, val_size) = status?;
    let cost = resolver.operation_cost(TableOperation::Borrow, key_size, val_size);
    Ok(NativeResult { cost, value: val })
}

/// Whether a value is present under `key` in the table of `handle`, here or remotely.
pub fn native_contains_box<R: TableResolver>(
    context: &mut NativeTableContext<'_, R>,
    handle: TableHandle,
    key: Vec<u8>,
) -> (r: Result<NativeResult<bool>, TableError>)
    requires
        old(context).wf(),
    ensures
        final(context).wf(),
        final(context).same_frame(old(context)),
        final(context).same_tables_except(old(context), handle),
        final(context).delta(handle) == old(context).delta(handle),
        match r {
            Ok(res) => {
                &&& res.value == old(context).present(handle, key@) is Some
                &&& final(context).cached(handle) == old(context).after_fetch(handle, key@)
                &&& res.cost == old(context).cost(
                    TableOperation::Contains,
                    key@.len(),
                    old(context).fetched_size(handle, key@),
                )
            },
            Err(e) => {
                &&& e == TableError::ResolverFailure
                &&& !old(context).cached(handle).contains_key(key@)
                &&& final(context).cached(handle) == old(context).cached(handle)
            },
        },
{
    let i = context.table_data.get_or_create_table(handle);
    let ghost mid = context.table_data;
    let resolver = context.resolver;
    let status = context.table_data.tables[i].contains(resolver, key.as_slice());
    proof {
        TableData::lemma_table_replaced(mid, context.table_data, i as int);
    }
    let (b, key_size, val_size) = status?;
    let cost = resolver.operation_cost(TableOperation::Contains, key_size, val_size);
    Ok(NativeResult { cost, value: b })
}

/// Removes the value present under `key` in the table of `handle` and returns it. Fails with
/// `NotFound` if there is none.
pub fn native_remove_box<R: TableResolver>(
    context: &mut NativeTableContext<'_, R>,
    handle: TableHandle,
    key: Vec<u8>,
) -> (r: Result<NativeResult<Vec<u8>>, TableError>)
    requires
        old(context).wf(),
    ensures
        final(context).wf(),
        final(context).same_frame(old(context)),
        final(context).same_tables_except(old(context), handle),
        match r {
            Ok(res) => {
                &&& old(context).present(handle, key@) == Some(res.value@)
                &&& final(context).cached(handle) == old(context).cached(handle).insert(
                    key@,
                    EntryView::Deleted,
                )
                &&& final(context).delta(handle) == old(context).delta(handle) - 1
                &&& res.cost == old(context).cost(
                    TableOperation::Remove,
                    key@.len(),
                    old(context).fetched_size(handle, key@),
                )
            },
            Err(TableError::NotFound) => {
                &&& old(context).present(handle, key@) is None
                &&& final(context).cached(handle) == old(context).cached(handle)
                &&& final(context).delta(handle) == old(context).delta(handle)
            },
            Err(TableError::InconsistentSize) => {
                &&& old(context).present(handle, key@) is Some
                &&& old(context).delta(handle) == i64::MIN
                &&& final(context).cached(handle) == old(context).after_fetch(handle, key@)
                &&& final(context).delta(handle) == old(context).delta(handle)
            },
            Err(TableError::ResolverFailure) => {
                &&& !old(context).cached(handle).contains_key(key@)
                &&& final(context).cached(handle) == old(context).cached(handle)
                &&& final(context).delta(handle) == old(context).delta(handle)
            },
            Err(_) => false,
        },
{
    let i = context.table_data.get_or_create_table(handle);
    let ghost mid = context.table_data;
    let resolver = context.resolver;
    let status = context.table_data.tables[i].remove(resolver, key.as_slice());
    proof {
        TableData::lemma_table_replaced(mid, context.table_data, i as int);
    }
    let (val, key_size, val_size) = status?;
    let cost = resolver.operation_cost(TableOperation::Remove, key_size, val_size);
    Ok(NativeResult { cost, value: val })
}

/// The outcome of destroying table `h` when the emptiness check gave `check` and the handles
/// `removed` were destroyed before: the check's error, or `DuplicateHandle` if `h` was already
/// destroyed, or success.
pub open spec fn destroy_result(
    removed: Seq<TableHandle>,
    h: TableHandle,
    check: Result<(), TableError>,
) -> Result<(), TableError> {
    match check {
        Err(e) => Err(e),
        Ok(()) => if removed.contains(h) {
            Err(TableError::DuplicateHandle)
        } else {
            Ok(())
        },
    }
}

impl<'a, R: TableResolver> NativeTableContext<'a, R> {
    /// The size delta of each table lies in the range of `i64`.
    pub proof fn lemma_delta_range(&self, h: TableHandle)
        requires
            self.wf(),
        ensures
            i64::MIN <= self.delta(h) <= i64::MAX,
    {
        if self.table_data.tables_map().contains_key(h) {
            self.table_data.tables_map()[h].lemma_delta_range();
        }
    }

    /// Destroys the table of `handle` given what the resolver answered for its remote size:
    /// the emptiness check decides from that answer, and on success the handle is recorded as
    /// removed, unless it already was (`DuplicateHandle`).
    pub fn destroy_with_size(
        &mut self,
        handle: TableHandle,
        remote: Result<usize, ResolverError>,
    ) -> (r: Result<(), TableError>)
        requires
            old(self).wf(),
        ensures
            final(self).wf(),
            final(self).spec_resolver() == old(self).spec_resolver(),
            final(self).spec_txn_hash() == old(self).spec_txn_hash(),
            final(self).created() == old(self).created(),
            final(self).same_tables(old(self)),
            r == destroy_result(
                old(self).removed(),
                handle,
                match remote {
                    Ok(n) => destroy_outcome(effective_length(n as nat, old(self).delta(handle))),
                    Err(_) => Err(TableError::ResolverFailure),
                },
            ),
            r is Ok ==> final(self).removed() == old(self).removed().push(handle),
            r is Err ==> final(self).removed() == old(self).removed(),
    {
        let i = self.table_data.get_or_create_table(handle);
        self.table_data.tables[i].destroy_from_remote(remote)?;
        if contains_handle(&self.table_data.removed_tables, handle) {
            return Err(TableError::DuplicateHandle);
        }
        proof {
            lemma_push_no_duplicates(self.table_data.removed_tables@, handle);
        }
        let ghost mid = self.table_data;
        self.table_data.removed_tables.push(handle);
        proof {
            assert(self.table_data.tables == mid.tables);
            assert forall|g: TableHandle| #[trigger] self.table_data.cached(g) == mid.cached(g)
                && self.table_data.delta(g) == mid.delta(g) by {
                assert(self.table_data.tables_seq() == mid.tables_seq());
            }
        }
        Ok(())
    }
}

/// Destroys the table of `handle`, recording it as removed. Fails with `NotEmpty` unless its
/// length is 0, and with `DuplicateHandle` if it was already destroyed in this execution. Its
/// cached entries stay: deletion is expressed by the change set.
pub fn native_destroy_empty_box<R: TableResolver>(
    context: &mut NativeTableContext<'_, R>,
    handle: TableHandle,
) -> (r: Result<NativeResult<()>, TableError>)
    requires
        old(context).wf(),
    ensures
        final(context).wf(),
        final(context).spec_resolver() == old(context).spec_resolver(),
        final(context).spec_txn_hash() == old(context).spec_txn_hash(),
        final(context).created() == old(context).created(),
        final(context).same_tables(old(context)),
        match r {
            Ok(res) => {
                &&& old(context).length_of(handle) == Ok::<u64, TableError>(0)
                &&& !old(context).removed().contains(handle)
                &&& final(context).removed() == old(context).removed().push(handle)
                &&& res.cost == old(context).cost(TableOperation::Destroy, 0, 0)
            },
            Err(TableError::NotEmpty) => {
                &&& old(context).length_of(handle) matches Ok(n) && n > 0
                &&& final(context).removed() == old(context).removed()
            },
            Err(TableError::InconsistentSize) => {
                &&& old(context).length_of(handle) == Err::<u64, TableError>(
                    TableError::InconsistentSize,
                )
                &&& final(context).removed() == old(context).removed()
            },
            Err(TableError::DuplicateHandle) => {
                &&& old(context).length_of(handle) == Ok::<u64, TableError>(0)
                &&& old(context).removed().contains(handle)
                &&& final(context).removed() == old(context).removed()
            },
            Err(TableError::ResolverFailure) => final(context).removed() == old(context).removed(),
            Err(_) => false,
        },
{
    let remote = context.resolver.table_size(&handle);
    context.destroy_with_size(handle, remote)?;
    let cost = context.resolver.operation_cost(TableOperation::Destroy, 0, 0);
    Ok(NativeResult { cost, value: () })
}

/// Replaces the value present under `key` in the table of `handle` by `val`: the write that
/// contract code makes through a mutable borrow of the entry. Fails with `NotFound` if no value
/// is present, here or remotely.
pub fn native_update_box<R: TableResolver>(
    context: &mut NativeTableContext<'_, R>,
    handle: TableHandle,
    key: Vec<u8>,
    val: Vec<u8>,
) -> (r: Result<NativeResult<()>, TableError>)
    requires
        old(context).wf(),
    ensures
        final(context).wf(),
        final(context).same_frame(old(context)),
        final(context).same_tables_except(old(context), handle),
        final(context).delta(handle) == old(context).delta(handle),
        match r {
            Ok(res) => {
                &&& old(context).present(handle, key@) is Some
                &&& final(context).cached(handle) == old(context).cached(handle).insert(
                    key@,
                    EntryView::Changed(val@),
                )
                &&& res.cost == old(context).cost(TableOperation::Borrow, key@.len(), val@.len())
            },
            Err(TableError::NotFound) => {
                &&& old(context).present(handle, key@) is None
                &&& final(context).cached(handle) == old(context).cached(handle)
            },
            Err(TableError::ResolverFailure) => {
                &&& !old(context).cached(handle).contains_key(key@)
                &&& final(context).cached(handle) == old(context).cached(handle)
            },
            Err(_) => false,
        },
{
    let i = context.table_data.get_or_create_table(handle);
    let ghost mid = context.table_data;
    let resolver = context.resolver;
    let status = context.table_data.tables[i].update(resolver, key.as_slice(), val);
    proof {
        TableData::lemma_table_replaced(mid, context.table_data, i as int);
    }
    let (key_size, val_size) = status?;
    let cost = resolver.operation_cost(TableOperation::Borrow, key_size, val_size);
    Ok(NativeResult { cost, value: () })
}

/// Drops a table handle without any check or bookkeeping, at no cost. This lets a table that
/// still holds entries go out of scope: callers take on keeping storage consistent.
pub fn native_drop_unchecked_box<R: TableResolver>(
    context: &NativeTableContext<'_, R>,
    handle: TableHandle,
) -> (r: NativeResult<()>)
    ensures
        r.cost == 0,
{
    NativeResult { cost: 0, value: () }
}

/// A table operation that contract code can call.
#[derive(Clone, Copy, Debug, PartialEq, Eq, Structural)]
pub enum TableNative {
    NewTableHandle,
    AddBox,
    LengthBox,
    BorrowBox,
    RemoveBox,
    ContainsBox,
    DestroyEmptyBox,
    DropUncheckedBox,
}

/// The names under which the table operations are registered: module name, function name, and
/// the operation. Both borrows hand out the entry's value; what contract code writes through
/// the mutable borrow comes back through `native_update_box`.
pub open spec fn table_native_names() -> Seq<(Seq<char>, Seq<char>, TableNative)> {
    seq![
        ("Table"@, "new_table_handle"@, TableNative::NewTableHandle),
        ("Table"@, "add_box"@, TableNative::AddBox),
        ("Table"@, "length_box"@, TableNative::LengthBox),
        ("Table"@, "borrow_box"@, TableNative::BorrowBox),
        ("Table"@, "borrow_box_mut"@, TableNative::BorrowBox),
        ("Table"@, "remove_box"@, TableNative::RemoveBox),
        ("Table"@, "contains_box"@, TableNative::ContainsBox),
        ("Table"@, "destroy_empty_box"@, TableNative::DestroyEmptyBox),
        ("Table"@, "drop_unchecked_box"@, TableNative::DropUncheckedBox),
    ]
}

/// The registration table of the table operations, all under the module address
/// `table_addr`: address, module name, function name, and operation.
pub fn table_natives(table_addr: &[u8]) -> (r: Vec<
    (Vec<u8>, &'static str, &'static str, TableNative),
>)
    ensures
        r@.len() == table_native_names().len(),
        forall|i: int|
            0 <= i < r@.len() ==> {
                &&& (#[trigger] r@[i]).0@ == table_addr@
                &&& r@[i].1@ == table_native_names()[i].0
                &&& r@[i].2@ == table_native_names()[i].1
                &&& r@[i].3 == table_native_names()[i].2
            },
{
    let names = vec![
        ("Table", "new_table_handle", TableNative::NewTableHandle),
        ("Table", "add_box", TableNative::AddBox),
        ("Table", "length_box", TableNative::LengthBox),
        ("Table", "borrow_box", TableNative::BorrowBox),
        ("Table", "borrow_box_mut", TableNative::BorrowBox),
        ("Table", "remove_box", TableNative::RemoveBox),
        ("Table", "contains_box", TableNative::ContainsBox),
        ("Table", "destroy_empty_box", TableNative::DestroyEmptyBox),
        ("Table", "drop_unchecked_box", TableNative::DropUncheckedBox),
    ];
    proof {
        assert(names@.map_values(|e: (&'static str, &'static str, TableNative)| (e.0@, e.1@, e.2))
            =~= table_native_names());
    }
    let mut r: Vec<(Vec<u8>, &'static str, &'static str, TableNative)> = Vec::new();
    let mut i: usize = 0;
    while i < names.len()
        invariant
            i <= names@.len(),
            names@.map_values(|e: (&'static str, &'static str, TableNative)| (e.0@, e.1@, e.2))
                == table_native_names(),
            r@.len() == i,
            forall|j: int|
                0 <= j < i ==> {
                    &&& (#[trigger] r@[j]).0@ == table_addr@
                    &&& r@[j].1@ == table_native_names()[j].0
                    &&& r@[j].2@ == table_native_names()[j].1
                    &&& r@[j].3 == table_native_names()[j].2
                },
        decreases names@.len() - i,
    {
        let (module, function, native) = names[i];
        proof {
            let v = names@.map_values(
                |e: (&'static str, &'static str, TableNative)| (e.0@, e.1@, e.2),
            );
            assert(v[i as int] == (names@[i as int].0@, names@[i as int].1@, names@[i as int].2));
        }
        r.push((crate::bytes::copy_bytes(table_addr), module, function, native));
        i = i + 1;
    }
    r
}

} // verus!
