use std::collections::HashMap;
use table_extension::context::{
    native_add_box, native_borrow_box, native_contains_box, native_destroy_empty_box,
    native_drop_unchecked_box, native_length_box, native_new_table_handle, native_remove_box,
    native_update_box, table_natives, NativeTableContext, TableNative,
};
use table_extension::table::Table;
use table_extension::error::TableError;
use table_extension::handle::TableHandle;
use table_extension::resolver::{ResolverError, TableOperation, TableResolver};

#[derive(Default)]
struct MockResolver {
    entries: HashMap<(u128, Vec<u8>), Vec<u8>>,
    sizes: HashMap<u128, usize>,
    failing: bool,
}

impl MockResolver {
    fn seed(&mut self, handle: TableHandle, key: &[u8], value: &[u8]) {
        self.entries.insert((handle.0, key.to_vec()), value.to_vec());
        *self.sizes.entry(handle.0).or_insert(0) += 1;
    }
}

impl TableResolver for MockResolver {
    fn resolve_table_entry(
        &self,
        handle: &TableHandle,
        key: &[u8],
    ) -> Result<Option<Vec<u8>>, ResolverError> {
        if self.failing {
            return Err(ResolverError { message: "backend down".to_string() });
        }
        Ok(self.entries.get(&(handle.0, key.to_vec())).cloned())
    }

    fn table_size(&self, handle: &TableHandle) -> Result<usize, ResolverError> {
        if self.failing {
            return Err(ResolverError { message: "backend down".to_string() });
        }
        Ok(*self.sizes.get(&handle.0).unwrap_or(&0))
    }

    fn operation_cost(&self, op: TableOperation, key_size: usize, val_size: usize) -> u64 {
        let base = match op {
            TableOperation::NewHandle => 1000,
            TableOperation::Destroy => 2000,
            TableOperation::Insert => 3000,
            TableOperation::Borrow => 4000,
            TableOperation::Length => 5000,
            TableOperation::Remove => 6000,
            TableOperation::Contains => 7000,
        };
        base + 10 * key_size as u64 + val_size as u64
    }
}

const H: TableHandle = TableHandle(42);

#[test]
fn insert_then_borrow_and_change_set() {
    let resolver = MockResolver::default();
    let mut ctx = NativeTableContext::new(0, &resolver);
    let created = native_new_table_handle(&mut ctx).unwrap();
    assert_eq!(created.value, TableHandle(294284197927973660676668354886091714884));
    assert_eq!(created.cost, 1000);
    let h = created.value;
    let inserted = native_add_box(&mut ctx, h, b"a".to_vec(), b"1".to_vec()).unwrap();
    assert_eq!(inserted.cost, 3000 + 10 + 1);
    let borrowed = native_borrow_box(&mut ctx, h, b"a".to_vec()).unwrap();
    assert_eq!(borrowed.value, b"1".to_vec());
    assert_eq!(borrowed.cost, 4000 + 10);
    let cs = ctx.into_change_set();
    assert_eq!(cs.new_tables, vec![h]);
    assert!(cs.removed_tables.is_empty());
    assert_eq!(cs.changes.len(), 1);
    assert_eq!(cs.changes[0].0, h);
    assert_eq!(cs.changes[0].1.entries, vec![(b"a".to_vec(), Some(b"1".to_vec()))]);
}

#[test]
fn reading_a_remote_entry_writes_nothing() {
    let mut resolver = MockResolver::default();
    resolver.seed(H, b"k", b"remote");
    let mut ctx = NativeTableContext::new(0, &resolver);
    let borrowed = native_borrow_box(&mut ctx, H, b"k".to_vec()).unwrap();
    assert_eq!(borrowed.value, b"remote".to_vec());
    assert_eq!(borrowed.cost, 4000 + 10 + 6);
    let again = native_borrow_box(&mut ctx, H, b"k".to_vec()).unwrap();
    assert_eq!(again.cost, 4000 + 10);
    let cs = ctx.into_change_set();
    assert!(cs.new_tables.is_empty());
    assert!(cs.changes.is_empty());
}

#[test]
fn second_insert_fails_and_keeps_first_value() {
    let resolver = MockResolver::default();
    let mut ctx = NativeTableContext::new(0, &resolver);
    native_add_box(&mut ctx, H, b"k".to_vec(), b"first".to_vec()).unwrap();
    let err = native_add_box(&mut ctx, H, b"k".to_vec(), b"second".to_vec()).err();
    assert_eq!(err, Some(TableError::AlreadyExists));
    assert_eq!(native_borrow_box(&mut ctx, H, b"k".to_vec()).unwrap().value, b"first".to_vec());
    assert_eq!(native_length_box(&mut ctx, H).unwrap().value, 1);
}

#[test]
fn insert_over_remote_entry_fails() {
    let mut resolver = MockResolver::default();
    resolver.seed(H, b"k", b"v");
    let mut ctx = NativeTableContext::new(0, &resolver);
    let err = native_add_box(&mut ctx, H, b"k".to_vec(), b"w".to_vec()).err();
    assert_eq!(err, Some(TableError::AlreadyExists));
    let cs = ctx.into_change_set();
    assert!(cs.changes.is_empty());
}

#[test]
fn borrow_after_remove_is_not_found() {
    let mut resolver = MockResolver::default();
    resolver.seed(H, b"k", b"v");
    let mut ctx = NativeTableContext::new(0, &resolver);
    let removed = native_remove_box(&mut ctx, H, b"k".to_vec()).unwrap();
    assert_eq!(removed.value, b"v".to_vec());
    assert_eq!(removed.cost, 6000 + 10 + 1);
    let err = native_borrow_box(&mut ctx, H, b"k".to_vec()).err();
    assert_eq!(err, Some(TableError::NotFound));
    let err = native_remove_box(&mut ctx, H, b"k".to_vec()).err();
    assert_eq!(err, Some(TableError::NotFound));
    let cs = ctx.into_change_set();
    assert_eq!(cs.changes[0].1.entries, vec![(b"k".to_vec(), None)]);
}

#[test]
fn borrow_of_missing_key_is_not_found() {
    let resolver = MockResolver::default();
    let mut ctx = NativeTableContext::new(0, &resolver);
    let err = native_borrow_box(&mut ctx, H, b"nothing".to_vec()).err();
    assert_eq!(err, Some(TableError::NotFound));
}

#[test]
fn insert_after_remove_writes_new_value() {
    let mut resolver = MockResolver::default();
    resolver.seed(H, b"k", b"old");
    let mut ctx = NativeTableContext::new(0, &resolver);
    native_remove_box(&mut ctx, H, b"k".to_vec()).unwrap();
    native_add_box(&mut ctx, H, b"k".to_vec(), b"new".to_vec()).unwrap();
    assert_eq!(native_length_box(&mut ctx, H).unwrap().value, 1);
    let cs = ctx.into_change_set();
    assert_eq!(cs.changes[0].1.entries, vec![(b"k".to_vec(), Some(b"new".to_vec()))]);
}

#[test]
fn last_write_wins_per_key() {
    let resolver = MockResolver::default();
    let mut ctx = NativeTableContext::new(0, &resolver);
    native_add_box(&mut ctx, H, b"x".to_vec(), b"1".to_vec()).unwrap();
    native_add_box(&mut ctx, H, b"y".to_vec(), b"2".to_vec()).unwrap();
    native_remove_box(&mut ctx, H, b"x".to_vec()).unwrap();
    native_contains_box(&mut ctx, H, b"z".to_vec()).unwrap();
    let cs = ctx.into_change_set();
    assert_eq!(
        cs.changes[0].1.entries,
        vec![(b"x".to_vec(), None), (b"y".to_vec(), Some(b"2".to_vec()))]
    );
}

#[test]
fn contains_reports_presence() {
    let mut resolver = MockResolver::default();
    resolver.seed(H, b"remote", b"r");
    let mut ctx = NativeTableContext::new(0, &resolver);
    native_add_box(&mut ctx, H, b"local".to_vec(), b"l".to_vec()).unwrap();
    assert!(!native_contains_box(&mut ctx, H, b"absent".to_vec()).unwrap().value);
    assert!(native_contains_box(&mut ctx, H, b"remote".to_vec()).unwrap().value);
    assert!(native_contains_box(&mut ctx, H, b"local".to_vec()).unwrap().value);
    native_remove_box(&mut ctx, H, b"remote".to_vec()).unwrap();
    assert!(!native_contains_box(&mut ctx, H, b"remote".to_vec()).unwrap().value);
}

#[test]
fn length_counts_remote_size_and_net_inserts() {
    let mut resolver = MockResolver::default();
    resolver.seed(H, b"a", b"1");
    resolver.seed(H, b"b", b"2");
    resolver.seed(H, b"c", b"3");
    let mut ctx = NativeTableContext::new(0, &resolver);
    assert_eq!(native_length_box(&mut ctx, H).unwrap().value, 3);
    native_add_box(&mut ctx, H, b"d".to_vec(), b"4".to_vec()).unwrap();
    assert_eq!(native_length_box(&mut ctx, H).unwrap().value, 4);
    native_remove_box(&mut ctx, H, b"a".to_vec()).unwrap();
    let len = native_length_box(&mut ctx, H).unwrap();
    assert_eq!(len.value, 3);
    assert_eq!(len.cost, 5000);
}

#[test]
fn handles_are_deterministic() {
    let resolver = MockResolver::default();
    let txn: u128 = 0x0123456789abcdef0123456789abcdef;
    let mut first = NativeTableContext::new(txn, &resolver);
    let mut second = NativeTableContext::new(txn, &resolver);
    let a: Vec<TableHandle> =
        (0..3).map(|_| native_new_table_handle(&mut first).unwrap().value).collect();
    let b: Vec<TableHandle> =
        (0..3).map(|_| native_new_table_handle(&mut second).unwrap().value).collect();
    assert_eq!(a, b);
    assert_eq!(
        a,
        vec![
            TableHandle(108898510012658016668441536261433486943),
            TableHandle(260114421598277137834439058473237534100),
            TableHandle(121361415696441576961092802928611702287),
        ]
    );
    let cs = first.into_change_set();
    assert_eq!(cs.new_tables, a);
}

#[test]
fn destroy_empty_table_marks_it_removed() {
    let resolver = MockResolver::default();
    let mut ctx = NativeTableContext::new(7, &resolver);
    let h = native_new_table_handle(&mut ctx).unwrap().value;
    assert_eq!(h, TableHandle(6614293348177655952933358258946379576));
    let destroyed = native_destroy_empty_box(&mut ctx, h).unwrap();
    assert_eq!(destroyed.cost, 2000);
    let cs = ctx.into_change_set();
    assert_eq!(cs.removed_tables, vec![h]);
}

#[test]
fn destroy_nonempty_table_fails() {
    let resolver = MockResolver::default();
    let mut ctx = NativeTableContext::new(7, &resolver);
    native_add_box(&mut ctx, H, b"k".to_vec(), b"v".to_vec()).unwrap();
    let err = native_destroy_empty_box(&mut ctx, H).err();
    assert_eq!(err, Some(TableError::NotEmpty));
    native_remove_box(&mut ctx, H, b"k".to_vec()).unwrap();
    native_destroy_empty_box(&mut ctx, H).unwrap();
    let err = native_destroy_empty_box(&mut ctx, H).err();
    assert_eq!(err, Some(TableError::DuplicateHandle));
    let cs = ctx.into_change_set();
    assert_eq!(cs.removed_tables, vec![H]);
}

#[test]
fn resolver_failure_is_fatal() {
    let resolver = MockResolver { failing: true, ..Default::default() };
    let mut ctx = NativeTableContext::new(0, &resolver);
    let failure = Some(TableError::ResolverFailure);
    assert_eq!(native_borrow_box(&mut ctx, H, b"k".to_vec()).err(), failure);
    assert_eq!(native_contains_box(&mut ctx, H, b"k".to_vec()).err(), failure);
    assert_eq!(native_length_box(&mut ctx, H).err(), Some(TableError::ResolverFailure));
    assert!(!TableError::ResolverFailure.is_abort());
}

#[test]
fn negative_size_is_inconsistent() {
    let mut resolver = MockResolver::default();
    resolver.entries.insert((H.0, b"k".to_vec()), b"v".to_vec());
    let mut ctx = NativeTableContext::new(0, &resolver);
    native_remove_box(&mut ctx, H, b"k".to_vec()).unwrap();
    assert_eq!(native_length_box(&mut ctx, H).err(), Some(TableError::InconsistentSize));
}

#[test]
fn drop_unchecked_costs_nothing() {
    let resolver = MockResolver::default();
    let mut ctx = NativeTableContext::new(0, &resolver);
    native_add_box(&mut ctx, H, b"k".to_vec(), b"v".to_vec()).unwrap();
    assert_eq!(native_drop_unchecked_box(&ctx, H).cost, 0);
    let cs = ctx.into_change_set();
    assert!(cs.removed_tables.is_empty());
    assert_eq!(cs.changes.len(), 1);
}

#[test]
fn natives_are_registered_by_name() {
    let natives = table_natives(&[0, 1]);
    assert_eq!(natives.len(), 9);
    assert!(natives.iter().all(|(addr, module, _, _)| *addr == vec![0, 1] && *module == "Table"));
    assert_eq!(natives[0], (vec![0, 1], "Table", "new_table_handle", TableNative::NewTableHandle));
    assert_eq!(natives[3], (vec![0, 1], "Table", "borrow_box", TableNative::BorrowBox));
    assert_eq!(natives[4], (vec![0, 1], "Table", "borrow_box_mut", TableNative::BorrowBox));
    let last = (vec![0, 1], "Table", "drop_unchecked_box", TableNative::DropUncheckedBox);
    assert_eq!(natives[8], last);
}

#[test]
fn table_steps_follow_the_resolver_answer() {
    let mut t = Table::new(H);
    let absent: Result<Option<Vec<u8>>, ResolverError> = Ok(None);
    assert_eq!(t.insert_from_remote(Ok(None), b"k".to_vec(), b"v".to_vec()), Ok((1, 1)));
    let failing = || Err(ResolverError { message: "down".to_string() });
    // A cached key never needs the answer.
    let occupied = t.insert_from_remote(failing(), b"k".to_vec(), b"w".to_vec());
    assert_eq!(occupied, Err(TableError::AlreadyExists));
    assert_eq!(t.borrow_from_remote(failing(), b"k").unwrap().0, b"v".to_vec());
    // An uncached key follows the answer.
    let failed = t.insert_from_remote(failing(), b"n".to_vec(), b"w".to_vec());
    assert_eq!(failed, Err(TableError::ResolverFailure));
    assert_eq!(
        t.insert_from_remote(Ok(Some(b"r".to_vec())), b"n".to_vec(), b"w".to_vec()),
        Err(TableError::AlreadyExists)
    );
    assert_eq!(t.borrow_from_remote(absent, b"zz").err(), Some(TableError::NotFound));
    assert_eq!(t.contains_from_remote(Ok(None), b"zz"), Ok((false, 2, 0)));
    assert_eq!(t.contains_from_remote(Ok(Some(b"abc".to_vec())), b"q"), Ok((true, 1, 3)));
    assert_eq!(t.contains_from_remote(failing(), b"p").err(), Some(TableError::ResolverFailure));
    let removed = t.remove_from_remote(failing(), b"n").unwrap();
    assert_eq!(removed, (b"r".to_vec(), 1, 0));
    assert_eq!(t.remove_from_remote(Ok(None), b"n").err(), Some(TableError::NotFound));
    assert_eq!(t.update_from_remote(Ok(None), b"k", b"new".to_vec()), Ok((1, 3)));
    let missing = t.update_from_remote(Ok(None), b"gone", b"x".to_vec()).err();
    assert_eq!(missing, Some(TableError::NotFound));
    assert_eq!(t.length_from_remote(Ok(1)), Ok(1));
    assert_eq!(t.destroy_from_remote(Ok(0)), Ok(()));
    assert_eq!(t.destroy_from_remote(Ok(1)).err(), Some(TableError::NotEmpty));
    let down = Err(ResolverError { message: "down".to_string() });
    assert_eq!(t.destroy_from_remote(down).err(), Some(TableError::ResolverFailure));
    let writes = t.writes();
    assert_eq!(
        writes,
        vec![(b"k".to_vec(), Some(b"new".to_vec())), (b"n".to_vec(), None)]
    );
}

#[test]
fn update_writes_through_to_change_set() {
    let mut resolver = MockResolver::default();
    resolver.seed(H, b"k", b"old");
    let mut ctx = NativeTableContext::new(0, &resolver);
    let updated = native_update_box(&mut ctx, H, b"k".to_vec(), b"newer".to_vec()).unwrap();
    assert_eq!(updated.cost, 4000 + 10 + 5);
    assert_eq!(native_borrow_box(&mut ctx, H, b"k".to_vec()).unwrap().value, b"newer".to_vec());
    let err = native_update_box(&mut ctx, H, b"missing".to_vec(), b"x".to_vec()).err();
    assert_eq!(err, Some(TableError::NotFound));
    assert_eq!(native_length_box(&mut ctx, H).unwrap().value, 1);
    let cs = ctx.into_change_set();
    assert_eq!(cs.changes[0].1.entries, vec![(b"k".to_vec(), Some(b"newer".to_vec()))]);
}

#[test]
fn destroy_step_records_removal_once() {
    let resolver = MockResolver::default();
    let mut ctx = NativeTableContext::new(0, &resolver);
    assert_eq!(ctx.destroy_with_size(H, Ok(2)), Err(TableError::NotEmpty));
    let down = Err(ResolverError { message: "x".to_string() });
    assert_eq!(ctx.destroy_with_size(H, down), Err(TableError::ResolverFailure));
    assert_eq!(ctx.destroy_with_size(H, Ok(0)), Ok(()));
    assert_eq!(ctx.destroy_with_size(H, Ok(0)), Err(TableError::DuplicateHandle));
    let cs = ctx.into_change_set();
    assert_eq!(cs.removed_tables, vec![H]);
}

#[test]
fn change_set_is_ordered_by_handle_and_key() {
    let resolver = MockResolver::default();
    let mut ctx = NativeTableContext::new(0, &resolver);
    let (high, low) = (TableHandle(50), TableHandle(3));
    native_add_box(&mut ctx, high, b"b".to_vec(), b"1".to_vec()).unwrap();
    native_add_box(&mut ctx, high, b"a".to_vec(), b"2".to_vec()).unwrap();
    native_add_box(&mut ctx, high, b"ab".to_vec(), b"3".to_vec()).unwrap();
    native_add_box(&mut ctx, low, b"z".to_vec(), b"4".to_vec()).unwrap();
    let cs = ctx.into_change_set();
    assert_eq!(cs.changes.len(), 2);
    assert_eq!(cs.changes[0].0, low);
    assert_eq!(cs.changes[1].0, high);
    let keys: Vec<Vec<u8>> = cs.changes[1].1.entries.iter().map(|e| e.0.clone()).collect();
    assert_eq!(keys, vec![b"a".to_vec(), b"ab".to_vec(), b"b".to_vec()]);
}
