//! Properties of sequences of table operations within one execution.
use crate::assoc::{assoc_map, keys_unique, lemma_assoc_map_dom};
use crate::change_set::{changes_view, TableChange, TableChangeSet};
use crate::key::{lemma_table_item_key_injective, table_item_key};
use crate::state::{apply_writes, count_step, keyed_writes, lookup, store_writes};
use crate::context::NativeTableContext;
use crate::handle::{derived_handle, TableHandle};
use crate::resolver::TableResolver;
use crate::table::{writes_of, EntryView};
use vstd::prelude::*;

verus! {

/// One operation on a table, by its effect on the table's cached entries: an insert of a value
/// under a key, a removal of a key, or a lookup of a key that found `remote` in remote storage
/// (a borrow, a `contains`, or an insert that failed because the key was occupied).
pub enum TableStep {
    Insert(Seq<u8>, Seq<u8>),
    Remove(Seq<u8>),
    Lookup(Seq<u8>, Option<Seq<u8>>),
}

/// The cached entries after one step: what `native_add_box`, `native_remove_box`,
/// `native_borrow_box` and `native_contains_box` leave when they succeed.
pub open spec fn step_entries(m: Map<Seq<u8>, EntryView>, s: TableStep) -> Map<Seq<u8>, EntryView> {
    match s {
        TableStep::Insert(k, v) => m.insert(k, EntryView::Changed(v)),
        TableStep::Remove(k) => m.insert(k, EntryView::Deleted),
        TableStep::Lookup(k, remote) => {
            if m.contains_key(k) {
                m
            } else {
                match remote {
                    Some(v) => m.insert(k, EntryView::Unchanged(v)),
                    None => m,
                }
            }
        },
    }
}

/// The cached entries after the steps, in order.
pub open spec fn replay(m: Map<Seq<u8>, EntryView>, steps: Seq<TableStep>) -> Map<
    Seq<u8>,
    EntryView,
>
    decreases steps.len(),
{
    if steps.len() == 0 {
        m
    } else {
        step_entries(replay(m, steps.drop_last()), steps.last())
    }
}

/// The last write to `k` among the steps: `Some(Some(v))` for an insert of `v`, `Some(None)` for
/// a removal, and `None` if no step wrote `k`.
pub open spec fn last_write(steps: Seq<TableStep>, k: Seq<u8>) -> Option<Option<Seq<u8>>>
    decreases steps.len(),
{
    if steps.len() == 0 {
        None
    } else {
        match steps.last() {
            TableStep::Insert(k2, v) => if k2 == k {
                Some(Some(v))
            } else {
                last_write(steps.drop_last(), k)
            },
            TableStep::Remove(k2) => if k2 == k {
                Some(None)
            } else {
                last_write(steps.drop_last(), k)
            },
            TableStep::Lookup(_, _) => last_write(steps.drop_last(), k),
        }
    }
}

/// The write that the entries hold for `k`, if any.
pub open spec fn write_at(m: Map<Seq<u8>, EntryView>, k: Seq<u8>) -> Option<Option<Seq<u8>>> {
    if writes_of(m).contains_key(k) {
        Some(writes_of(m)[k])
    } else {
        None
    }
}

/// After any sequence of operations on a table, the write that the change set holds for a key
/// is the last write to that key; if no operation wrote the key, it is what it was before, so a
/// key that was only read gets no write.
pub proof fn law_last_write_wins(m: Map<Seq<u8>, EntryView>, steps: Seq<TableStep>, k: Seq<u8>)
    ensures
        write_at(replay(m, steps), k) == match last_write(steps, k) {
            Some(w) => Some(w),
            None => write_at(m, k),
        },
    decreases steps.len(),
{
    if steps.len() > 0 {
        let prev = replay(m, steps.drop_last());
        law_last_write_wins(m, steps.drop_last(), k);
        let next = step_entries(prev, steps.last());
        match steps.last() {
            TableStep::Insert(k2, v) => {
                if k2 != k {
                    assert(next.contains_key(k) == prev.contains_key(k));
                }
            },
            TableStep::Remove(k2) => {
                if k2 != k {
                    assert(next.contains_key(k) == prev.contains_key(k));
                }
            },
            TableStep::Lookup(k2, remote) => {
                if k2 == k && !prev.contains_key(k) {
                    assert(writes_of(prev).contains_key(k) == false);
                }
            },
        }
    }
}

/// From a table untouched in the execution, a key that no operation wrote gets no write in the
/// change set, whatever was read.
pub proof fn law_reads_write_nothing(steps: Seq<TableStep>, k: Seq<u8>)
    requires
        last_write(steps, k) is None,
    ensures
        !writes_of(replay(Map::empty(), steps)).contains_key(k),
{
    law_last_write_wins(Map::empty(), steps, k);
}

/// The change set holds, for a key of a table first touched in this execution, the last write
/// to that key among the operations on the table, and nothing for a key that was only read.
/// `entries` are the table's cached entries when the change set is taken, as
/// `NativeTableContext::into_change_set` relates them to the change set.
pub proof fn law_change_set_holds_last_writes(
    change_set: TableChangeSet,
    entries: Map<Seq<u8>, EntryView>,
    steps: Seq<TableStep>,
    h: TableHandle,
    k: Seq<u8>,
)
    requires
        entries == replay(Map::empty(), steps),
        change_set.changes_map().contains_key(h) <==> writes_of(entries) != Map::<
            Seq<u8>,
            Option<Seq<u8>>,
        >::empty(),
        change_set.changes_map().contains_key(h) ==> change_set.changes_map()[h] == writes_of(
            entries,
        ),
    ensures
        match last_write(steps, k) {
            Some(w) => {
                &&& change_set.changes_map().contains_key(h)
                &&& change_set.changes_map()[h].contains_key(k)
                &&& change_set.changes_map()[h][k] == w
            },
            None => !(change_set.changes_map().contains_key(h) && change_set.changes_map()[
                h
            ].contains_key(k)),
        },
{
    law_last_write_wins(Map::empty(), steps, k);
    assert(!writes_of(Map::<Seq<u8>, EntryView>::empty()).contains_key(k));
    if last_write(steps, k) is Some {
        assert(writes_of(entries).contains_key(k));
        assert(writes_of(entries) != Map::<Seq<u8>, Option<Seq<u8>>>::empty());
    }
}

/// After an insert of `v` under `k` in table `h` succeeded, `v` is present under `k`, and a
/// lookup of `k` changes nothing: a second insert under `k` fails with `AlreadyExists` and leaves
/// the entry as the first insert made it.
pub proof fn law_insert_then_insert<R: TableResolver>(
    before: &NativeTableContext<'_, R>,
    after: &NativeTableContext<'_, R>,
    h: TableHandle,
    k: Seq<u8>,
    v: Seq<u8>,
)
    requires
        after.spec_resolver() == before.spec_resolver(),
        after.cached(h) == before.cached(h).insert(k, EntryView::Changed(v)),
    ensures
        after.present(h, k) == Some(v),
        after.cached(h).contains_key(k),
        after.after_fetch(h, k) == after.cached(h),
{
}

/// After a removal of `k` from table `h` succeeded, no value is present under `k` and the key
/// is cached: a borrow of `k` fails with `NotFound`, without asking the resolver.
pub proof fn law_remove_then_borrow<R: TableResolver>(
    before: &NativeTableContext<'_, R>,
    after: &NativeTableContext<'_, R>,
    h: TableHandle,
    k: Seq<u8>,
)
    requires
        after.spec_resolver() == before.spec_resolver(),
        after.cached(h) == before.cached(h).insert(k, EntryView::Deleted),
    ensures
        after.present(h, k) is None,
        after.cached(h).contains_key(k),
{
}

/// The first `n` handles derived for the execution identified by `txn_hash`.
pub open spec fn derived_handles(txn_hash: u128, n: nat) -> Seq<TableHandle> {
    Seq::new(n, |i: int| derived_handle(txn_hash, i as nat))
}

/// Handles depend on the execution's identity and the order of creation alone: when the
/// handles created so far are the first ones derived for the execution, creating one more
/// keeps them so. From a fresh context, which has created none, every run with the same
/// identity and the same number of creations creates the same handles in the same order.
pub proof fn law_handles_deterministic(txn_hash: u128, created: Seq<TableHandle>, next: TableHandle)
    requires
        created == derived_handles(txn_hash, created.len()),
        next == derived_handle(txn_hash, created.len()),
    ensures
        created.push(next) == derived_handles(txn_hash, created.len() + 1),
{
    assert(created.push(next) =~= derived_handles(txn_hash, created.len() + 1));
}

/// The last write under `key` among the writes `w`, if any.
pub open spec fn last_write_under(w: Seq<(Seq<u8>, Option<Seq<u8>>)>, key: Seq<u8>) -> Option<
    Option<Seq<u8>>,
>
    decreases w.len(),
{
    if w.len() == 0 {
        None
    } else if w.last().0 == key {
        Some(w.last().1)
    } else {
        last_write_under(w.drop_last(), key)
    }
}

/// After a sequence of writes, a key holds what its last write left, or what it held before if
/// no write touched it.
pub proof fn lemma_apply_writes_lookup(
    m: Map<Seq<u8>, Seq<u8>>,
    w: Seq<(Seq<u8>, Option<Seq<u8>>)>,
    key: Seq<u8>,
)
    ensures
        lookup(apply_writes(m, w), key) == match last_write_under(w, key) {
            Some(x) => x,
            None => lookup(m, key),
        },
    decreases w.len(),
{
    if w.len() > 0 {
        lemma_apply_writes_lookup(m, w.drop_last(), key);
    }
}

proof fn lemma_last_write_under_concat(
    a: Seq<(Seq<u8>, Option<Seq<u8>>)>,
    b: Seq<(Seq<u8>, Option<Seq<u8>>)>,
    key: Seq<u8>,
)
    ensures
        last_write_under(a + b, key) == match last_write_under(b, key) {
            Some(x) => Some(x),
            None => last_write_under(a, key),
        },
    decreases b.len(),
{
    if b.len() == 0 {
        assert(a + b =~= a);
    } else {
        assert((a + b).drop_last() =~= a + b.drop_last());
        assert((a + b).last() == b.last());
        lemma_last_write_under_concat(a, b.drop_last(), key);
    }
}

/// The writes of one table, under their store keys, reach the store key of entry `k` of table
/// `h` only from that table, and then as its changes map them.
proof fn lemma_keyed_writes_under(
    g: TableHandle,
    es: Seq<(Seq<u8>, Option<Seq<u8>>)>,
    h: TableHandle,
    k: Seq<u8>,
)
    ensures
        last_write_under(keyed_writes(g, es), table_item_key(h, k)) == if g == h && assoc_map(
            es,
        ).contains_key(k) {
            Some(assoc_map(es)[k])
        } else {
            None::<Option<Seq<u8>>>
        },
    decreases es.len(),
{
    if es.len() > 0 {
        let p = es.drop_last();
        assert(keyed_writes(g, es).drop_last() =~= keyed_writes(g, p));
        lemma_keyed_writes_under(g, p, h, k);
        let e = es.last();
        if table_item_key(g, e.0) == table_item_key(h, k) {
            lemma_table_item_key_injective(g, e.0, h, k);
        }
    }
}

/// With each handle listed once, the store writes of the changes reach the store key of entry
/// `k` of table `h` exactly as the changes map them.
proof fn lemma_store_writes_under(
    changes: Seq<(TableHandle, TableChange)>,
    h: TableHandle,
    k: Seq<u8>,
)
    requires
        keys_unique(changes_view(changes)),
    ensures
        last_write_under(store_writes(changes), table_item_key(h, k)) == if assoc_map(
            changes_view(changes),
        ).contains_key(h) && assoc_map(changes_view(changes))[h].contains_key(k) {
            Some(assoc_map(changes_view(changes))[h][k])
        } else {
            None::<Option<Seq<u8>>>
        },
    decreases changes.len(),
{
    if changes.len() > 0 {
        let p = changes.drop_last();
        let c = changes.last();
        assert(changes_view(p) =~= changes_view(changes).drop_last());
        assert forall|a: int, b: int|
            0 <= a < changes_view(p).len() && 0 <= b < changes_view(p).len() && a != b
                implies #[trigger] changes_view(p)[a].0 != #[trigger] changes_view(p)[b].0 by {
            assert(changes_view(p)[a] == changes_view(changes)[a]);
            assert(changes_view(p)[b] == changes_view(changes)[b]);
        }
        lemma_store_writes_under(p, h, k);
        lemma_last_write_under_concat(
            store_writes(p),
            keyed_writes(c.0, c.1.entries_seq()),
            table_item_key(h, k),
        );
        lemma_keyed_writes_under(c.0, c.1.entries_seq(), h, k);
        if c.0 == h {
            lemma_assoc_map_dom(changes_view(p), h);
            if assoc_map(changes_view(p)).contains_key(h) {
                let i = choose|i: int|
                    0 <= i < changes_view(p).len() && #[trigger] changes_view(p)[i].0 == h;
                assert(changes_view(changes)[i].0 == h);
                assert(changes_view(changes)[changes.len() - 1].0 == h);
            }
        }
    }
}

/// Committing a well-formed change set stores, under the store key of each table entry it
/// writes, exactly that write (the value, or nothing for a deletion), and leaves the store key
/// of every other table entry as it was.
pub proof fn law_apply_realizes_change_set(
    m: Map<Seq<u8>, Seq<u8>>,
    change_set: TableChangeSet,
    h: TableHandle,
    k: Seq<u8>,
)
    requires
        change_set.wf(),
    ensures
        lookup(apply_writes(m, store_writes(change_set.changes@)), table_item_key(h, k))
            == if change_set.changes_map().contains_key(h)
            && change_set.changes_map()[h].contains_key(k) {
            change_set.changes_map()[h][k]
        } else {
            lookup(m, table_item_key(h, k))
        },
{
    lemma_apply_writes_lookup(m, store_writes(change_set.changes@), table_item_key(h, k));
    lemma_store_writes_under(change_set.changes@, h, k);
}

/// The entry keys stored under table `h`.
pub open spec fn stored_keys(m: Map<Seq<u8>, Seq<u8>>, h: TableHandle) -> Set<Seq<u8>> {
    Set::new(|k: Seq<u8>| m.contains_key(table_item_key(h, k)))
}

/// The store after one write under `key`.
pub open spec fn write_one(m: Map<Seq<u8>, Seq<u8>>, key: Seq<u8>, w: Option<Seq<u8>>) -> Map<
    Seq<u8>,
    Seq<u8>,
> {
    match w {
        Some(v) => m.insert(key, v),
        None => m.remove(key),
    }
}

/// A count that equals the number of entries stored under table `h` still does after a table
/// write to entry `k` of table `g` and the count step that `State::apply_table_changes` takes
/// for it (the count moves only for `g == h`). From a store holding no entries under `h`, the
/// kept count is therefore the number of entries stored under `h`.
pub proof fn law_count_tracks_entries(
    m: Map<Seq<u8>, Seq<u8>>,
    c: nat,
    h: TableHandle,
    g: TableHandle,
    k: Seq<u8>,
    w: Option<Seq<u8>>,
)
    requires
        stored_keys(m, h).finite(),
        c == stored_keys(m, h).len(),
        c < usize::MAX,
    ensures
        stored_keys(write_one(m, table_item_key(g, k), w), h).finite(),
        stored_keys(write_one(m, table_item_key(g, k), w), h).len() == if g == h {
            count_step(c, m.contains_key(table_item_key(g, k)), w is Some)
        } else {
            c
        },
{
    let m2 = write_one(m, table_item_key(g, k), w);
    let before = stored_keys(m, h);
    let after = stored_keys(m2, h);
    if g != h {
        assert forall|x: Seq<u8>| after.contains(x) <==> before.contains(x) by {
            if table_item_key(h, x) == table_item_key(g, k) {
                lemma_table_item_key_injective(h, x, g, k);
            }
        }
        assert(after =~= before);
    } else {
        assert forall|x: Seq<u8>| table_item_key(h, x) == table_item_key(g, k) implies x == k by {
            lemma_table_item_key_injective(h, x, g, k);
        }
        match w {
            Some(v) => {
                assert(after =~= before.insert(k));
            },
            None => {
                assert(after =~= before.remove(k));
                if before.contains(k) {
                    assert(before.len() > 0);
                }
            },
        }
    }
}

} // verus!
