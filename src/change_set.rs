//! The record of table mutations that one execution leaves, to be applied to storage.
use crate::assoc::{assoc_map, keys_unique};
use crate::bytes::{bytes_lt, lemma_bytes_lt_trans};
use crate::handle::TableHandle;
use crate::resolver::opt_bytes;
use vstd::prelude::*;

verus! {

/// A key and its write, as values: `Some(v)` stores `v`, `None` deletes.
pub open spec fn write_view(p: (Vec<u8>, Option<Vec<u8>>)) -> (Seq<u8>, Option<Seq<u8>>) {
    (p.0@, opt_bytes(p.1))
}

/// The changes to a single table: for each key written, `Some(bytes)` to store or `None` to
/// delete.
pub struct TableChange {
    pub entries: Vec<(Vec<u8>, Option<Vec<u8>>)>,
}

impl TableChange {
    /// The writes as values, in order.
    pub open spec fn entries_seq(&self) -> Seq<(Seq<u8>, Option<Seq<u8>>)> {
        self.entries@.map_values(|p: (Vec<u8>, Option<Vec<u8>>)| write_view(p))
    }

    /// The writes, by key.
    pub open spec fn entries_map(&self) -> Map<Seq<u8>, Option<Seq<u8>>> {
        assoc_map(self.entries_seq())
    }
}

/// A handle and the changes to its table, as values.
pub open spec fn change_view(p: (TableHandle, TableChange)) -> (
    TableHandle,
    Map<Seq<u8>, Option<Seq<u8>>>,
) {
    (p.0, p.1.entries_map())
}

/// A sequence of handles and changes, as values.
pub open spec fn changes_view(s: Seq<(TableHandle, TableChange)>) -> Seq<
    (TableHandle, Map<Seq<u8>, Option<Seq<u8>>>),
> {
    s.map_values(|p: (TableHandle, TableChange)| change_view(p))
}

/// The writes are in increasing order of key.
pub open spec fn writes_sorted(s: Seq<(Seq<u8>, Option<Seq<u8>>)>) -> bool {
    forall|i: int, j: int| 0 <= i < j < s.len() ==> bytes_lt(#[trigger] s[i].0, #[trigger] s[j].0)
}

/// The changes are in increasing order of handle.
pub open spec fn handles_sorted(s: Seq<(TableHandle, TableChange)>) -> bool {
    forall|i: int, j: int| 0 <= i < j < s.len() ==> (#[trigger] s[i]).0.0 < (#[trigger] s[j]).0.0
}

/// Each change holds at least one write, no key twice, and its writes in order of key.
pub open spec fn changes_entries_wf(s: Seq<(TableHandle, TableChange)>) -> bool {
    forall|i: int|
        0 <= i < s.len() ==> {
            &&& keys_unique(#[trigger] s[i].1.entries_seq())
            &&& writes_sorted(s[i].1.entries_seq())
            &&& s[i].1.entries@.len() > 0
        }
}

/// Inserting a write whose key falls between those before and after position `j` keeps the
/// writes in order.
pub proof fn lemma_writes_sorted_insert(
    s: Seq<(Seq<u8>, Option<Seq<u8>>)>,
    j: int,
    x: (Seq<u8>, Option<Seq<u8>>),
)
    requires
        writes_sorted(s),
        0 <= j <= s.len(),
        forall|m: int| 0 <= m < j ==> bytes_lt(#[trigger] s[m].0, x.0),
        j < s.len() ==> bytes_lt(x.0, s[j].0),
    ensures
        writes_sorted(s.insert(j, x)),
{
    let t = s.insert(j, x);
    assert forall|a: int, b: int| 0 <= a < b < t.len() implies bytes_lt(
        #[trigger] t[a].0,
        #[trigger] t[b].0,
    ) by {
        if b < j {
            assert(t[a] == s[a] && t[b] == s[b]);
        } else if b == j {
            assert(t[a] == s[a]);
        } else if a < j {
            assert(t[a] == s[a] && t[b] == s[b - 1]);
            assert(bytes_lt(s[a].0, x.0));
            assert(bytes_lt(x.0, s[j].0));
            if b - 1 > j {
                lemma_bytes_lt_trans(x.0, s[j].0, s[b - 1].0);
            }
            lemma_bytes_lt_trans(s[a].0, x.0, s[b - 1].0);
        } else if a == j {
            assert(t[b] == s[b - 1]);
            if b - 1 > j {
                lemma_bytes_lt_trans(x.0, s[j].0, s[b - 1].0);
            }
        } else {
            assert(t[a] == s[a - 1] && t[b] == s[b - 1]);
        }
    }
}

/// Inserting a change with writes in order, unique keys and a handle that falls between those
/// before and after position `j` keeps the changes in order and well formed.
pub proof fn lemma_changes_insert(
    s: Seq<(TableHandle, TableChange)>,
    j: int,
    c: (TableHandle, TableChange),
)
    requires
        changes_entries_wf(s),
        handles_sorted(s),
        0 <= j <= s.len(),
        forall|m: int| 0 <= m < j ==> (#[trigger] s[m]).0.0 < c.0.0,
        j < s.len() ==> c.0.0 < s[j].0.0,
        keys_unique(c.1.entries_seq()),
        writes_sorted(c.1.entries_seq()),
        c.1.entries@.len() > 0,
    ensures
        changes_entries_wf(s.insert(j, c)),
        handles_sorted(s.insert(j, c)),
{
    let t = s.insert(j, c);
    assert forall|i: int| 0 <= i < t.len() implies {
        &&& keys_unique(#[trigger] t[i].1.entries_seq())
        &&& writes_sorted(t[i].1.entries_seq())
        &&& t[i].1.entries@.len() > 0
    } by {
        if i < j {
            assert(t[i] == s[i]);
        } else if i > j {
            assert(t[i] == s[i - 1]);
        }
    }
    assert forall|a: int, b: int| 0 <= a < b < t.len() implies (#[trigger] t[a]).0.0 < (
    #[trigger] t[b]).0.0 by {
        if b < j {
            assert(t[a] == s[a] && t[b] == s[b]);
        } else if b == j {
            assert(t[a] == s[a]);
        } else if a < j {
            assert(t[a] == s[a] && t[b] == s[b - 1]);
            assert(s[a].0.0 < c.0.0);
            assert(c.0.0 <= s[b - 1].0.0);
        } else if a == j {
            assert(t[b] == s[b - 1]);
            assert(c.0.0 < s[j].0.0);
            assert(s[j].0.0 <= s[b - 1].0.0);
        } else {
            assert(t[a] == s[a - 1] && t[b] == s[b - 1]);
        }
    }
}

/// The table changes of one execution: the tables it created, those it destroyed, and the
/// writes to each table, in the order in which the tables were first touched.
pub struct TableChangeSet {
    pub new_tables: Vec<TableHandle>,
    pub removed_tables: Vec<TableHandle>,
    pub changes: Vec<(TableHandle, TableChange)>,
}

impl TableChangeSet {
    /// The changes as values, in order.
    pub open spec fn changes_seq(&self) -> Seq<(TableHandle, Map<Seq<u8>, Option<Seq<u8>>>)> {
        changes_view(self.changes@)
    }

    /// The writes, by handle and key.
    pub open spec fn changes_map(&self) -> Map<TableHandle, Map<Seq<u8>, Option<Seq<u8>>>> {
        assoc_map(self.changes_seq())
    }

    /// No handle is listed twice, no key twice for a handle, and no handle without writes; the
    /// changes come in increasing order of handle, and the writes of each in increasing order of
    /// key.
    pub open spec fn wf(&self) -> bool {
        &&& self.new_tables@.no_duplicates()
        &&& self.removed_tables@.no_duplicates()
        &&& keys_unique(self.changes_seq())
        &&& handles_sorted(self.changes@)
        &&& changes_entries_wf(self.changes@)
    }
}

impl Default for TableChangeSet {
    fn default() -> (r: TableChangeSet)
        ensures
            r.new_tables@.len() == 0,
            r.removed_tables@.len() == 0,
            r.changes@.len() == 0,
    {
        TableChangeSet { new_tables: Vec::new(), removed_tables: Vec::new(), changes: Vec::new() }
    }
}

} // verus!
