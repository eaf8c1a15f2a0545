use std::collections::HashMap;
use table_extension::change_set::{TableChange, TableChangeSet};
use table_extension::context::{
    native_add_box, native_borrow_box, native_destroy_empty_box, native_length_box,
    native_remove_box, NativeTableContext,
};
use table_extension::handle::TableHandle;
use table_extension::key::AccessKey;
use table_extension::resolver::{TableOperation, TableResolver};
use table_extension::state::{State, Storage, WriteEffects};

#[derive(Default)]
struct MemoryStore {
    data: HashMap<Vec<u8>, Vec<u8>>,
}

impl Storage for MemoryStore {
    fn get(&self, key: &[u8]) -> Option<Vec<u8>> {
        self.data.get(key).cloned()
    }

    fn insert(&mut self, key: &[u8], value: &[u8]) {
        self.data.insert(key.to_vec(), value.to_vec());
    }

    fn remove(&mut self, key: &[u8]) {
        self.data.remove(key);
    }
}

fn item_key(handle: u128, key: &[u8]) -> Vec<u8> {
    let mut k = handle.to_be_bytes().to_vec();
    k.extend_from_slice(key);
    k
}

#[test]
fn state_reads_modules_and_resources() {
    let mut store = MemoryStore::default();
    store.data.insert(vec![1, 2, 3], b"module".to_vec());
    store.data.insert(vec![7, 7, 5, 5], b"resource".to_vec());
    let state = State::new(store);
    assert_eq!(state.get_module(&[1, 2, 3]), Some(b"module".to_vec()));
    assert_eq!(state.get_module(&[1, 2]), None);
    assert_eq!(state.get_resource(&[7, 7], &[5, 5]), Some(b"resource".to_vec()));
    assert_eq!(state.get_resource(&[7], &[7, 5, 5]), Some(b"resource".to_vec()));
}

#[test]
fn state_resolves_table_entries() {
    let mut state = State::new(MemoryStore::default());
    let h = TableHandle(5);
    assert_eq!(state.table_size(&h).unwrap(), 0);
    state.apply_table_changes(&TableChangeSet {
        new_tables: vec![h],
        removed_tables: vec![],
        changes: vec![(
            h,
            TableChange {
                entries: vec![
                    (b"k".to_vec(), Some(b"v".to_vec())),
                    (b"j".to_vec(), Some(b"w".to_vec())),
                ],
            },
        )],
    });
    assert_eq!(state.resolve_table_entry(&h, b"k").unwrap(), Some(b"v".to_vec()));
    assert_eq!(state.table_entry(&h, b"j"), Some(b"w".to_vec()));
    assert_eq!(state.resolve_table_entry(&TableHandle(6), b"k").unwrap(), None);
    assert_eq!(state.table_size(&h).unwrap(), 2);
    assert_eq!(state.entry_count(&TableHandle(6)), 0);
    assert_eq!(state.operation_cost(TableOperation::Insert, 3, 4), 7);
    assert_eq!(state.operation_cost(TableOperation::Borrow, usize::MAX, usize::MAX), u64::MAX);
}

#[test]
fn state_applies_table_changes() {
    let mut store = MemoryStore::default();
    store.data.insert(item_key(1, b"gone"), b"x".to_vec());
    store.data.insert(item_key(1, b"kept"), b"y".to_vec());
    let mut state = State::new(store);
    let cs = TableChangeSet {
        new_tables: vec![],
        removed_tables: vec![],
        changes: vec![
            (
                TableHandle(1),
                TableChange {
                    entries: vec![(b"gone".to_vec(), None), (b"new".to_vec(), Some(b"z".to_vec()))],
                },
            ),
            (
                TableHandle(2),
                TableChange { entries: vec![(b"gone".to_vec(), Some(b"w".to_vec()))] },
            ),
        ],
    };
    state.apply_table_changes(&cs);
    assert_eq!(state.resolve_table_entry(&TableHandle(1), b"gone").unwrap(), None);
    assert_eq!(state.resolve_table_entry(&TableHandle(1), b"kept").unwrap(), Some(b"y".to_vec()));
    assert_eq!(state.resolve_table_entry(&TableHandle(1), b"new").unwrap(), Some(b"z".to_vec()));
    assert_eq!(state.resolve_table_entry(&TableHandle(2), b"gone").unwrap(), Some(b"w".to_vec()));
}

#[test]
fn state_write_effects() {
    let mut state = State::new(MemoryStore::default());
    WriteEffects::insert(&mut state, AccessKey::module(vec![1]), b"m".to_vec());
    assert_eq!(state.get_module(&[1]), Some(b"m".to_vec()));
    state.delete(AccessKey::module(vec![1]));
    assert_eq!(state.get_module(&[1]), None);
}

#[test]
fn execution_over_state_commits_its_writes() {
    let mut state = State::new(MemoryStore::default());
    state.apply_table_changes(&TableChangeSet {
        new_tables: vec![],
        removed_tables: vec![],
        changes: vec![(
            TableHandle(9),
            TableChange { entries: vec![(b"seed".to_vec(), Some(b"s".to_vec()))] },
        )],
    });
    let cs = {
        let mut ctx = NativeTableContext::new(1, &state);
        let h = TableHandle(9);
        assert_eq!(native_borrow_box(&mut ctx, h, b"seed".to_vec()).unwrap().value, b"s".to_vec());
        native_add_box(&mut ctx, h, b"a".to_vec(), b"1".to_vec()).unwrap();
        native_remove_box(&mut ctx, h, b"seed".to_vec()).unwrap();
        ctx.into_change_set()
    };
    state.apply_table_changes(&cs);
    assert_eq!(state.resolve_table_entry(&TableHandle(9), b"a").unwrap(), Some(b"1".to_vec()));
    assert_eq!(state.resolve_table_entry(&TableHandle(9), b"seed").unwrap(), None);
}

#[test]
fn commit_applies_writes_then_table_changes() {
    let mut store = MemoryStore::default();
    store.data.insert(vec![1], b"old module".to_vec());
    store.data.insert(vec![2], b"old resource".to_vec());
    let mut state = State::new(store);
    let writes = vec![
        (AccessKey::module(vec![1]), Some(b"new module".to_vec())),
        (AccessKey::resource(&[2], &[]), None),
    ];
    let cs = TableChangeSet {
        new_tables: vec![TableHandle(3)],
        removed_tables: vec![],
        changes: vec![(
            TableHandle(3),
            TableChange { entries: vec![(b"k".to_vec(), Some(b"v".to_vec()))] },
        )],
    };
    state.commit(&writes, &cs);
    assert_eq!(state.get_module(&[1]), Some(b"new module".to_vec()));
    assert_eq!(state.get_resource(&[2], &[]), None);
    assert_eq!(state.resolve_table_entry(&TableHandle(3), b"k").unwrap(), Some(b"v".to_vec()));
}

#[test]
fn state_counts_entries_per_table() {
    let mut state = State::new(MemoryStore::default());
    let a = TableHandle(1);
    let b = TableHandle(2);
    let change = |h: TableHandle, entries: Vec<(Vec<u8>, Option<Vec<u8>>)>| TableChangeSet {
        new_tables: vec![],
        removed_tables: vec![],
        changes: vec![(h, TableChange { entries })],
    };
    state.apply_table_changes(&change(a, vec![(b"x".to_vec(), Some(b"1".to_vec()))]));
    state.apply_table_changes(&change(a, vec![(b"x".to_vec(), Some(b"2".to_vec()))]));
    assert_eq!(state.entry_count(&a), 1);
    state.apply_table_changes(&change(b, vec![(b"y".to_vec(), Some(b"3".to_vec()))]));
    assert_eq!(state.entry_count(&b), 1);
    state.apply_table_changes(&change(a, vec![(b"nothing".to_vec(), None)]));
    assert_eq!(state.entry_count(&a), 1);
    state.apply_table_changes(&change(a, vec![(b"x".to_vec(), None)]));
    assert_eq!(state.entry_count(&a), 0);
    assert_eq!(state.entry_count(&b), 1);
}

#[test]
fn length_over_state_after_removing_a_stored_entry() {
    let h = TableHandle(9);
    let mut state = State::new(MemoryStore::default());
    state.apply_table_changes(&TableChangeSet {
        new_tables: vec![],
        removed_tables: vec![],
        changes: vec![(
            h,
            TableChange {
                entries: vec![
                    (b"a".to_vec(), Some(b"1".to_vec())),
                    (b"b".to_vec(), Some(b"2".to_vec())),
                ],
            },
        )],
    });
    let mut ctx = NativeTableContext::new(1, &state);
    native_remove_box(&mut ctx, h, b"a".to_vec()).unwrap();
    assert_eq!(native_length_box(&mut ctx, h).unwrap().value, 1);
    native_remove_box(&mut ctx, h, b"b".to_vec()).unwrap();
    assert_eq!(native_length_box(&mut ctx, h).unwrap().value, 0);
    native_destroy_empty_box(&mut ctx, h).unwrap();
}
