use sorted_table::btree::BtreeMut;
use sorted_table::btree_bulk::BtreeBulkBuilder;
use sorted_table::catalog::{TableEntry, TableType};
use sorted_table::database::{CommitError, Database, DatabaseImage};
use sorted_table::error::{Error, StorageError, TableError};
use sorted_table::layout::{
    branch_required_bytes, leaf_required_bytes, max_encoded_page_bytes, single_record_bytes,
    MAX_PAIR_LENGTH, MAX_VALUE_LENGTH,
};
use sorted_table::page::{renumber, BtreeHeader, Page, PageNumber, PageStore, DEFERRED};
use sorted_table::sorted_table::{
    check_pair_lengths, SortedTableBuilder, SortedTableOptions, TableDefinition,
};
use sorted_table::text::is_utf8;
use sorted_table::types::{Key, Value};
use std::cmp::Ordering;

fn numbers() -> TableDefinition<'static, u64, u64> {
    TableDefinition::new("numbers")
}

fn words() -> TableDefinition<'static, &'static str, &'static str> {
    TableDefinition::new("words")
}

fn number(bytes: &[u8]) -> u64 {
    u64::from_le_bytes(bytes.try_into().unwrap())
}

fn fill(builder: &mut SortedTableBuilder<u64, u64>, count: u64) -> Result<(), Error> {
    for key in 0..count {
        builder.insert(key, key)?;
    }
    Ok(())
}

/// A database with one table that maps the first `count` numbers to themselves.
fn database_of(count: u64, target: usize) -> Database {
    let mut db = Database::create(4096, 1 << 20);
    let options = SortedTableOptions::default().with_target_page_size(target);
    let txn = db
        .begin_write()
        .build_sorted_table_with_options(numbers(), options, |builder| fill(builder, count))
        .unwrap();
    txn.commit(&mut db).unwrap();
    db
}

fn leaf_count(image: &DatabaseImage) -> usize {
    let is_leaf = |page: &&Page| matches!(page, Page::Leaf { .. });
    image.pages.iter().filter(is_leaf).count()
}

fn children_counts(image: &DatabaseImage) -> Vec<usize> {
    let mut counts = vec![];
    for page in &image.pages {
        if let Page::Branch { children, keys } = page {
            assert_eq!(children.len(), keys.len() + 1);
            assert!(children.iter().all(|child| child.1 == DEFERRED));
            counts.push(children.len());
        }
    }
    counts
}

#[test]
fn leaf_sizes_count_header_offsets_and_payload() {
    assert_eq!(leaf_required_bytes(2, 10, Some(8), Some(8)), Some(14));
    assert_eq!(leaf_required_bytes(2, 10, None, Some(8)), Some(22));
    assert_eq!(leaf_required_bytes(2, 10, Some(8), None), Some(22));
    assert_eq!(leaf_required_bytes(2, 10, None, None), Some(30));
    assert_eq!(leaf_required_bytes(0, 0, None, None), Some(4));
}

#[test]
fn branch_sizes_count_header_children_offsets_and_separators() {
    assert_eq!(branch_required_bytes(3, 24, Some(8)), Some(128));
    assert_eq!(branch_required_bytes(3, 24, None), Some(140));
    assert_eq!(branch_required_bytes(0, 0, None), Some(32));
}

#[test]
fn sizes_beyond_usize_are_not_reported() {
    assert_eq!(leaf_required_bytes(usize::MAX, 0, None, Some(8)), None);
    assert_eq!(leaf_required_bytes(usize::MAX / 8, usize::MAX, None, None), None);
    assert_eq!(leaf_required_bytes(1, usize::MAX - 3, Some(8), Some(8)), None);
    assert_eq!(leaf_required_bytes(1, usize::MAX - 4, Some(8), Some(8)), Some(usize::MAX));
    assert_eq!(branch_required_bytes(usize::MAX, 0, Some(8)), None);
    assert_eq!(branch_required_bytes(usize::MAX / 24, 0, Some(8)), None);
    assert_eq!(branch_required_bytes(0, usize::MAX - 31, Some(8)), None);
    assert_eq!(branch_required_bytes(0, usize::MAX - 32, Some(8)), Some(usize::MAX));
}

#[test]
fn largest_page_is_bounded_by_offsets_and_allocations() {
    if usize::BITS <= 32 {
        assert_eq!(max_encoded_page_bytes(), isize::MAX as usize);
    } else {
        assert_eq!(max_encoded_page_bytes(), u32::MAX as usize);
    }
    assert_eq!(PageNumber::serialized_size(), 8);
}

#[test]
fn pages_of_the_database_size_by_default() {
    // 255 records fill a leaf, and 128 children fill a branch.
    let image = database_of(50_000, 0).close();
    assert_eq!(leaf_count(&image), 197);
    assert_eq!(children_counts(&image), vec![127, 70, 2]);
}

#[test]
fn pages_of_the_target_size_on_demand() {
    // 4095 records fill a leaf.
    let image = database_of(50_000, 64 * 1024).close();
    assert_eq!(leaf_count(&image), 13);
    assert_eq!(children_counts(&image), vec![13]);
}

#[test]
fn target_below_the_database_size_is_raised() {
    let image = database_of(256, 1).close();
    assert_eq!(leaf_count(&image), 2);
    assert_eq!(children_counts(&image), vec![2]);
}

#[test]
fn last_child_is_carried_over() {
    // One record more than 128 full leaves: without the carry the last branch had one child.
    let image = database_of(32_641, 0).close();
    assert_eq!(leaf_count(&image), 129);
    assert_eq!(children_counts(&image), vec![127, 2, 2]);
    let image = database_of(32_640, 0).close();
    assert_eq!(leaf_count(&image), 128);
    assert_eq!(children_counts(&image), vec![128]);
}

#[test]
fn leaf_holds_no_more_records_than_can_be_counted() {
    let image = database_of(65_536, 1 << 30).close();
    assert_eq!(leaf_count(&image), 2);
    match &image.pages[0] {
        Page::Leaf { pairs } => assert_eq!(pairs.len(), 65_535),
        Page::Branch { .. } => panic!("the first page is a leaf"),
    }
}

#[test]
fn records_larger_than_the_target_remain_valid() {
    let mut db = Database::create(4096, 100);
    let long = "x".repeat(10_000);
    let txn = db
        .begin_write()
        .build_sorted_table(words(), |builder| {
            builder.insert("a", "short")?;
            builder.insert("b", long.as_str())?;
            builder.insert("c", "short")
        })
        .unwrap();
    txn.commit(&mut db).unwrap();
    let table = db.open_table(words()).unwrap();
    assert_eq!(table.len(), 3);
    assert_eq!(table.get("b").unwrap(), long.as_bytes());
    assert_eq!(leaf_count(&db.close()), 3);
}

#[test]
fn long_separators_still_leave_two_children_in_a_branch() {
    // Two separators already exceed the page.
    let mut db = Database::create(4096, 100);
    let keys: Vec<String> = ["a", "b", "c", "d", "e", "f", "g"]
        .iter()
        .map(|letter| letter.repeat(4000))
        .collect();
    let txn = db
        .begin_write()
        .build_sorted_table(words(), |builder| {
            for key in &keys {
                builder.insert(key.as_str(), "value")?;
            }
            Ok(())
        })
        .unwrap();
    txn.commit(&mut db).unwrap();
    assert!(db.check_integrity());
    let table = db.open_table(words()).unwrap();
    for key in &keys {
        assert_eq!(table.get(key.as_str()).unwrap(), b"value");
    }
    let image = db.close();
    assert_eq!(leaf_count(&image), 7);
    assert!(children_counts(&image).iter().all(|count| *count == 2 || *count == 3));
}

#[test]
fn equal_keys_are_refused() {
    let db = Database::create(4096, 100);
    let result = db.begin_write().build_sorted_table(numbers(), |builder| {
        builder.insert(1, 10)?;
        builder.insert(1, 11)
    });
    assert!(matches!(result, Err(Error::SortedTableKeyOrder)));
}

#[test]
fn numbers_are_ordered_by_value() {
    assert_eq!(
        <u64 as Key>::compare(&<u64 as Value>::as_bytes(&255), &<u64 as Value>::as_bytes(&256)),
        Ordering::Less
    );
    assert_eq!(
        <u64 as Key>::compare(&<u64 as Value>::as_bytes(&7), &<u64 as Value>::as_bytes(&7)),
        Ordering::Equal
    );
    assert_eq!(
        <u64 as Key>::compare(&<u64 as Value>::as_bytes(&8), &<u64 as Value>::as_bytes(&7)),
        Ordering::Greater
    );
}

#[test]
fn number_pairs_are_ordered_by_the_first_number_first() {
    let compare = |a: [u64; 2], b: [u64; 2]| {
        <[u64; 2] as Key>::compare(
            &<[u64; 2] as Value>::as_bytes(&a),
            &<[u64; 2] as Value>::as_bytes(&b),
        )
    };
    assert_eq!(compare([0, 9], [1, 0]), Ordering::Less);
    assert_eq!(compare([1, 0], [0, 9]), Ordering::Greater);
    assert_eq!(compare([3, 255], [3, 256]), Ordering::Less);
    assert_eq!(compare([3, 4], [3, 3]), Ordering::Greater);
    assert_eq!(compare([3, 4], [3, 4]), Ordering::Equal);
}

#[test]
fn strings_and_bytes_are_ordered_lexicographically() {
    assert_eq!(<&str as Key>::compare(b"a", b"alphabet"), Ordering::Less);
    assert_eq!(<&str as Key>::compare(b"b", b"alphabet"), Ordering::Greater);
    assert_eq!(<&str as Key>::compare(b"a", b"a"), Ordering::Equal);
    assert_eq!(<&[u8] as Key>::compare(&[], &[0]), Ordering::Less);
    assert_eq!(<&[u8] as Key>::compare(&[200], &[100, 1]), Ordering::Greater);
}

#[test]
fn encodings_are_little_endian_and_utf8() {
    assert_eq!(<u64 as Value>::as_bytes(&0x0102), vec![2, 1, 0, 0, 0, 0, 0, 0]);
    assert_eq!(
        <[u64; 2] as Value>::as_bytes(&[1, 2]),
        vec![1, 0, 0, 0, 0, 0, 0, 0, 2, 0, 0, 0, 0, 0, 0, 0]
    );
    assert_eq!(<&str as Value>::as_bytes(&"z\u{e9}"), vec![b'z', 0xc3, 0xa9]);
    assert_eq!(<u64 as Value>::fixed_width(), Some(8));
    assert_eq!(<[u64; 2] as Value>::fixed_width(), Some(16));
    assert_eq!(<&str as Value>::fixed_width(), None);
    assert_eq!(<&[u8] as Value>::fixed_width(), None);
}

#[test]
fn overlong_keys_values_and_pairs_are_refused() {
    let size = |result: Result<(), Error>| match result {
        Err(Error::ValueTooLarge(size)) => size,
        _ => panic!("the lengths were accepted"),
    };
    assert!(check_pair_lengths(MAX_VALUE_LENGTH, MAX_PAIR_LENGTH - MAX_VALUE_LENGTH).is_ok());
    assert!(check_pair_lengths(MAX_PAIR_LENGTH - MAX_VALUE_LENGTH, MAX_VALUE_LENGTH).is_ok());
    assert!(check_pair_lengths(0, 0).is_ok());
    assert_eq!(size(check_pair_lengths(usize::MAX, 1)), usize::MAX);
    assert_eq!(size(check_pair_lengths(MAX_VALUE_LENGTH + 1, 5)), MAX_VALUE_LENGTH + 1);
    assert_eq!(size(check_pair_lengths(5, MAX_VALUE_LENGTH + 1)), MAX_VALUE_LENGTH + 6);
    assert_eq!(
        size(check_pair_lengths(MAX_PAIR_LENGTH - MAX_VALUE_LENGTH + 1, MAX_VALUE_LENGTH)),
        MAX_PAIR_LENGTH + 1
    );
}

#[test]
fn records_that_no_page_can_hold_are_refused() {
    let limit = max_encoded_page_bytes();
    assert!(matches!(single_record_bytes(3, 4, None, None), Ok(19)));
    assert!(matches!(single_record_bytes(8, 8, Some(8), Some(8)), Ok(20)));
    assert!(matches!(single_record_bytes(1, limit - 13, None, None), Ok(size) if size == limit));
    assert!(matches!(
        single_record_bytes(1, limit - 12, None, None),
        Err(StorageError::ValueTooLarge(size)) if size == limit + 1
    ));
    assert!(matches!(
        single_record_bytes(usize::MAX, 1, None, None),
        Err(StorageError::ValueTooLarge(usize::MAX))
    ));
    assert!(matches!(
        single_record_bytes(usize::MAX, 0, None, None),
        Err(StorageError::ValueTooLarge(usize::MAX))
    ));
}

#[test]
fn bulk_builder_hands_back_the_tree_and_its_length() {
    let tree: BtreeMut<&[u8], &[u8]> = BtreeMut::new(None, PageStore::new(4096, 7, 100));
    let mut builder = BtreeBulkBuilder::new(tree, 0);
    builder.push(vec![1], vec![2]).unwrap();
    let (tree, length) = builder.finish().unwrap();
    assert_eq!(length, 1);
    let root = PageNumber { index: 7 };
    assert_eq!(tree.get_root(), Some(BtreeHeader { root, checksum: DEFERRED, length: 1 }));
    assert_eq!(tree.mem.page_count(), 1);
}

#[test]
fn bulk_builder_without_records_leaves_the_tree_empty() {
    let tree: BtreeMut<u64, u64> = BtreeMut::new(None, PageStore::new(4096, 7, 100));
    let (tree, length) = BtreeBulkBuilder::new(tree, 0).finish().unwrap();
    assert_eq!(length, 0);
    assert_eq!(tree.get_root(), None);
    assert_eq!(tree.mem.page_count(), 0);
}

#[test]
fn running_out_of_pages_aborts_the_build() {
    // The first leaf takes the only page; the second one is written when the producer is done.
    let db = Database::create(4096, 1);
    let result = db.begin_write().build_sorted_table(numbers(), |builder| fill(builder, 256));
    assert!(matches!(result, Err(Error::OutOfPages)));
    let result = db.begin_write().build_sorted_table(numbers(), |builder| fill(builder, 511));
    assert!(matches!(result, Err(Error::OutOfPages)));
    assert!(db.begin_write().build_sorted_table(numbers(), |builder| fill(builder, 255)).is_ok());
    assert!(matches!(db.open_table(numbers()), Err(TableError::TableDoesNotExist(_))));
}

#[test]
fn empty_tables_need_no_pages() {
    let mut db = Database::create(4096, 0);
    let txn = db.begin_write().build_sorted_table(numbers(), |_| Ok(())).unwrap();
    txn.commit(&mut db).unwrap();
    let table = db.open_table(numbers()).unwrap();
    assert_eq!(table.len(), 0);
    assert_eq!(table.get(1), None);
    assert!(table.entries().is_empty());
}

#[test]
fn nothing_makes_up_for_a_refused_record() {
    let db = Database::create(4096, 100);
    let result = db.begin_write().build_sorted_table(numbers(), |builder| {
        builder.insert(2, 20)?;
        assert!(matches!(builder.insert(1, 10), Err(Error::SortedTableKeyOrder)));
        assert!(builder.insert(3, 30).is_ok());
        assert!(matches!(builder.insert(3, 31), Err(Error::SortedTableKeyOrder)));
        Ok(())
    });
    assert!(matches!(result, Err(Error::SortedTableBuilderFailed)));
}

#[test]
fn producer_error_comes_before_a_refused_record() {
    let db = Database::create(4096, 100);
    let result = db.begin_write().build_sorted_table(numbers(), |builder| {
        builder.insert(2, 20)?;
        let _ = builder.insert(1, 10);
        Err(Error::Corrupted("from the producer".into()))
    });
    assert!(matches!(result, Err(Error::Corrupted(message)) if message == "from the producer"));
}

#[test]
fn builder_can_be_driven_without_a_producer() {
    let mut db = Database::create(4096, 100);
    let txn = db.begin_write();
    let mut builder = txn.open_sorted_table(&numbers(), SortedTableOptions::default()).unwrap();
    builder.insert(5, 50).unwrap();
    builder.insert(6, 60).unwrap();
    let txn = txn.close_sorted_table(&numbers(), builder, Ok(())).unwrap();
    txn.commit(&mut db).unwrap();
    let table = db.open_table(numbers()).unwrap();
    assert_eq!(number(table.get(6).unwrap()), 60);
    assert_eq!(table.get(7), None);
}

fn named(name: &str) -> TableDefinition<'_, u64, u64> {
    TableDefinition::new(name)
}

#[test]
fn build_returns_its_own_transaction_whatever_the_producer_leaves_behind() {
    let mut db = Database::create(4096, 100);
    let other = Database::create(4096, 100);
    let txn = db
        .begin_write()
        .build_sorted_table(named("a"), |builder| fill(builder, 300))
        .unwrap()
        .build_sorted_table(named("b"), |builder| {
            builder.insert(7, 70)?;
            *builder = other
                .begin_write()
                .open_sorted_table(&named("c"), SortedTableOptions::default())?;
            fill(builder, 600)
        })
        .unwrap();
    txn.commit(&mut db).unwrap();
    assert!(db.check_integrity());
    let table = db.open_table(named("a")).unwrap();
    assert_eq!(table.len(), 300);
    assert_eq!(number(table.get(299).unwrap()), 299);
    let table = db.open_table(named("b")).unwrap();
    assert_eq!(table.len(), 600);
    assert_eq!(number(table.get(599).unwrap()), 599);
    assert!(matches!(db.open_table(named("c")), Err(TableError::TableDoesNotExist(_))));
    assert!(matches!(other.open_table(named("c")), Err(TableError::TableDoesNotExist(_))));
}

#[test]
fn swapped_builders_exchange_records_and_nothing_else() {
    let mut left = Database::create(4096, 100);
    let mut right = Database::create(4096, 100);
    let mut right_txn = None;
    let left_txn = left
        .begin_write()
        .build_sorted_table(named("a"), |builder| fill(builder, 600))
        .unwrap()
        .build_sorted_table(named("b"), |outer| {
            fill(outer, 300)?;
            let built = right.begin_write().build_sorted_table(named("c"), |inner| {
                fill(inner, 900)?;
                std::mem::swap(outer, inner);
                Ok(())
            })?;
            right_txn = Some(built);
            outer.insert(900, 900)
        })
        .unwrap();
    left_txn.commit(&mut left).unwrap();
    right_txn.unwrap().commit(&mut right).unwrap();
    assert!(left.check_integrity());
    assert!(right.check_integrity());
    assert_eq!(left.open_table(named("a")).unwrap().len(), 600);
    let table = left.open_table(named("b")).unwrap();
    assert_eq!(table.len(), 901);
    assert_eq!(number(table.get(900).unwrap()), 900);
    let table = right.open_table(named("c")).unwrap();
    assert_eq!(table.len(), 300);
    assert_eq!(number(table.get(299).unwrap()), 299);
}

#[test]
fn pages_of_another_builder_need_room() {
    let other = Database::create(4096, 100);
    let build = |limit: usize, count: u64| {
        Database::create(4096, limit)
            .begin_write()
            .build_sorted_table(named("a"), |builder| fill(builder, 1))
            .unwrap()
            .build_sorted_table(named("b"), |builder| {
                *builder = other
                    .begin_write()
                    .open_sorted_table(&named("c"), SortedTableOptions::default())?;
                fill(builder, count)
            })
    };
    // Two leaves and their parent, after the leaf of the first table.
    assert!(build(4, 300).is_ok());
    assert!(matches!(build(3, 300), Err(Error::OutOfPages)));
    assert!(build(1, 0).is_ok());
}

#[test]
fn moved_pages_follow_on_the_pages_before_them() {
    let mut store = PageStore::new(4096, 0, 10);
    store.allocate(Page::Leaf { pairs: vec![] }).unwrap();
    let mut other = PageStore::new(4096, 5, 10);
    let first = other.allocate(Page::Leaf { pairs: vec![(vec![1], vec![2])] }).unwrap();
    let second = other.allocate(Page::Leaf { pairs: vec![(vec![3], vec![4])] }).unwrap();
    let children = vec![(first, DEFERRED), (second, DEFERRED)];
    other.allocate(Page::Branch { children, keys: vec![vec![1]] }).unwrap();
    store.join(other).unwrap();
    assert_eq!(store.page_count(), 4);
    assert_eq!(store.next_index(), 4);
    match store.get(PageNumber { index: 3 }) {
        Some(Page::Branch { children, keys }) => {
            assert_eq!(children[0], (PageNumber { index: 1 }, DEFERRED));
            assert_eq!(children[1], (PageNumber { index: 2 }, DEFERRED));
            assert_eq!(keys, &vec![vec![1]]);
        }
        _ => panic!("the last page is a branch"),
    }
    assert_eq!(renumber(PageNumber { index: 7 }, 5, 3, 1), PageNumber { index: 3 });
    assert_eq!(renumber(PageNumber { index: 8 }, 5, 3, 1), PageNumber { index: 8 });
    assert_eq!(renumber(PageNumber { index: 4 }, 5, 3, 1), PageNumber { index: 4 });
}

#[test]
fn leaves_have_no_room_for_the_record_that_follows() {
    let mut db = Database::create(128, 1000);
    let txn = db
        .begin_write()
        .build_sorted_table(words(), |builder| {
            for i in 0..200usize {
                let key = format!("{i:04}");
                builder.insert(key.as_str(), "x".repeat(i * 7 % 90).as_str())?;
            }
            Ok(())
        })
        .unwrap();
    txn.commit(&mut db).unwrap();
    let image = db.close();
    let mut leaves = vec![];
    for page in &image.pages {
        if let Page::Leaf { pairs } = page {
            leaves.push(pairs);
        }
    }
    let size = |pairs: &[(Vec<u8>, Vec<u8>)]| {
        let payload = pairs.iter().map(|pair| pair.0.len() + pair.1.len()).sum();
        leaf_required_bytes(pairs.len(), payload, None, None).unwrap()
    };
    assert!(leaves.len() > 50);
    for i in 0..leaves.len() {
        assert!(size(leaves[i]) <= 128);
        if i + 1 < leaves.len() {
            let mut joined = leaves[i].clone();
            joined.push(leaves[i + 1][0].clone());
            assert!(size(&joined) > 128);
        }
    }
}

#[test]
fn producer_is_not_called_for_a_refused_table() {
    let mut called = false;
    let result = Database::create(4096, 100)
        .begin_write()
        .build_sorted_table(numbers(), |builder| fill(builder, 1))
        .unwrap()
        .build_sorted_table(numbers(), |_| {
            called = true;
            Ok(())
        });
    assert!(matches!(result, Err(Error::SortedTableNotEmpty(name)) if name == "numbers"));
    assert!(!called);
}

#[test]
fn empty_tables_can_be_built_again() {
    let mut db = Database::create(4096, 100);
    let txn = db
        .begin_write()
        .build_sorted_table(numbers(), |_| Ok(()))
        .unwrap()
        .build_sorted_table(numbers(), |builder| builder.insert(1, 10))
        .unwrap();
    txn.commit(&mut db).unwrap();
    assert_eq!(db.open_table(numbers()).unwrap().len(), 1);
}

#[test]
fn tables_are_built_once_within_a_transaction() {
    let db = Database::create(4096, 100);
    let result = db
        .begin_write()
        .build_sorted_table(numbers(), |builder| builder.insert(1, 10))
        .unwrap()
        .build_sorted_table(numbers(), |builder| builder.insert(2, 20));
    assert!(matches!(result, Err(Error::SortedTableNotEmpty(name)) if name == "numbers"));
}

#[test]
fn tables_keep_their_types() {
    let mut db = Database::create(4096, 100);
    let txn = db.begin_write().build_sorted_table(numbers(), |_| Ok(())).unwrap();
    txn.commit(&mut db).unwrap();
    let other: TableDefinition<'static, &'static str, u64> = TableDefinition::new("numbers");
    let result = db.begin_write().build_sorted_table(other, |_| Ok(()));
    assert!(matches!(
        result,
        Err(Error::TableTypeMismatch { table, key, value })
            if table == "numbers" && key == "u64" && value == "u64"
    ));
    let other: TableDefinition<'static, u64, &'static [u8]> = TableDefinition::new("numbers");
    assert!(matches!(
        db.open_table(other),
        Err(TableError::TableTypeMismatch { table, key, value })
            if table == "numbers" && key == "u64" && value == "u64"
    ));
}

#[test]
fn multimaps_are_not_built() {
    let mut image = Database::create(4096, 100).close();
    image.tables.push(TableEntry {
        name: "numbers".to_string(),
        table_type: TableType::Multimap,
        key_type: "u64".to_string(),
        value_type: "u64".to_string(),
        root: None,
        length: 0,
    });
    let db = Database::open(image).unwrap();
    let result = db.begin_write().build_sorted_table(numbers(), |_| Ok(()));
    assert!(matches!(result, Err(Error::TableIsMultimap(name)) if name == "numbers"));
    assert!(matches!(
        db.open_table(numbers()),
        Err(TableError::TableIsMultimap(name)) if name == "numbers"
    ));
}

#[test]
fn outdated_transactions_are_not_committed() {
    let mut db = Database::create(4096, 100);
    let early = db.begin_write().build_sorted_table(numbers(), |_| Ok(())).unwrap();
    let late = db
        .begin_write()
        .build_sorted_table(numbers(), |builder| builder.insert(1, 10))
        .unwrap();
    early.commit(&mut db).unwrap();
    assert_eq!(late.commit(&mut db), Err(CommitError::Outdated));
    assert_eq!(db.open_table(numbers()).unwrap().len(), 0);
}

#[test]
fn transactions_without_a_build_change_nothing() {
    let mut db = Database::create(4096, 100);
    let idle = db.begin_write();
    let txn = db.begin_write().build_sorted_table(numbers(), |_| Ok(())).unwrap();
    txn.commit(&mut db).unwrap();
    assert_eq!(idle.commit(&mut db), Ok(()));
    assert_eq!(db.close().generation, 1);
}

#[test]
fn every_record_is_found_by_its_key() {
    let mut db = Database::create(512, 10_000);
    let txn = db
        .begin_write()
        .build_sorted_table(numbers(), |builder| {
            for key in 0..5_000u64 {
                builder.insert(2 * key, key)?;
            }
            Ok(())
        })
        .unwrap();
    txn.commit(&mut db).unwrap();
    let table = db.open_table(numbers()).unwrap();
    for key in 0..5_000u64 {
        assert_eq!(number(table.get(2 * key).unwrap()), key);
        assert_eq!(table.get(2 * key + 1), None);
    }
    // Three levels of branches: a leaf holds 31 records at most, a branch 16 children.
    let image = db.close();
    let leaves = leaf_count(&image);
    assert_eq!(leaves, 162);
    let counts = children_counts(&image);
    assert!(counts.iter().all(|count| *count >= 2 && *count <= 16));
    assert_eq!(counts.iter().sum::<usize>(), leaves + counts.len() - 1);
}

#[test]
fn contradictory_images_are_not_opened() {
    let corrupted = |change: fn(&mut DatabaseImage)| {
        let mut image = database_of(600, 0).close();
        change(&mut image);
        matches!(Database::open(image), Err(StorageError::Corrupted(_)))
    };
    assert!(!corrupted(|_| {}));
    assert!(corrupted(|image| image.tables[0].length = 599));
    assert!(corrupted(|image| image.tables[0].root = None));
    assert!(corrupted(|image| {
        image.pages.pop();
    }));
    assert!(corrupted(|image| {
        if let Page::Leaf { pairs } = &mut image.pages[0] {
            pairs.clear();
        }
    }));
    assert!(corrupted(|image| {
        if let Some(Page::Branch { keys, .. }) = image.pages.last_mut() {
            keys[0] = vec![0; 8];
        }
    }));
    assert!(corrupted(|image| {
        if let Some(Page::Branch { keys, .. }) = image.pages.last_mut() {
            keys.pop();
        }
    }));
    assert!(corrupted(|image| {
        let own_number = PageNumber { index: image.pages.len() - 1 };
        if let Some(Page::Branch { children, .. }) = image.pages.last_mut() {
            children[0].0 = own_number;
        }
    }));
}

#[test]
fn sorted_keys_are_told_from_unsorted_ones() {
    let db = database_of(600, 0);
    assert!(db.open_table(numbers()).unwrap().has_sorted_keys());

    // A sound tree of one leaf, whose keys are what the test wants.
    let image_of = |key_type: &str, keys: &[&[u8]]| {
        let pairs = keys.iter().map(|key| (key.to_vec(), vec![0; 8])).collect();
        let root = PageNumber { index: 0 };
        let length = keys.len() as u64;
        DatabaseImage {
            page_size: 4096,
            page_limit: 100,
            pages: vec![Page::Leaf { pairs }],
            tables: vec![TableEntry {
                name: "keys".to_string(),
                table_type: TableType::Normal,
                key_type: key_type.to_string(),
                value_type: "u64".to_string(),
                root: Some(BtreeHeader { root, checksum: DEFERRED, length }),
                length,
            }],
            generation: 0,
        }
    };
    let numbers_sorted = |keys: &[&[u8]]| {
        let db = Database::open(image_of("u64", keys)).unwrap();
        let table = db.open_table(TableDefinition::<u64, u64>::new("keys")).unwrap();
        table.has_sorted_keys()
    };
    assert!(numbers_sorted(&[&[1, 0, 0, 0, 0, 0, 0, 0], &[0, 1, 0, 0, 0, 0, 0, 0]]));
    assert!(!numbers_sorted(&[&[0, 1, 0, 0, 0, 0, 0, 0], &[1, 0, 0, 0, 0, 0, 0, 0]]));
    assert!(!numbers_sorted(&[&[1, 0, 0, 0, 0, 0, 0, 0], &[1, 0, 0, 0, 0, 0, 0, 0]]));
    assert!(!numbers_sorted(&[&[1, 2, 3]]));
    let words_sorted = |keys: &[&[u8]]| {
        let db = Database::open(image_of("&str", keys)).unwrap();
        let table = db.open_table(TableDefinition::<&str, u64>::new("keys")).unwrap();
        table.has_sorted_keys()
    };
    assert!(words_sorted(&[b"a", b"alphabet", b"z"]));
    assert!(!words_sorted(&[b"a", b"z", b"alphabet"]));
    assert!(!words_sorted(&[b"a", &[0xff]]));
}

#[test]
fn text_is_recognised_as_the_standard_library_does() {
    let samples: Vec<Vec<u8>> = vec![
        vec![],
        b"plain".to_vec(),
        "z\u{e9}\u{20ac}\u{10348}".as_bytes().to_vec(),
        vec![0x7f],
        vec![0x80],
        vec![0xbf, 0x80],
        vec![0xc0, 0x80],
        vec![0xc1, 0xbf],
        vec![0xc2, 0x80],
        vec![0xc2],
        vec![0xc2, 0x41],
        vec![0xdf, 0xbf],
        vec![0xe0, 0x9f, 0xbf],
        vec![0xe0, 0xa0, 0x80],
        vec![0xed, 0x9f, 0xbf],
        vec![0xed, 0xa0, 0x80],
        vec![0xed, 0xbf, 0xbf],
        vec![0xee, 0x80, 0x80],
        vec![0xef, 0xbf],
        vec![0xf0, 0x8f, 0xbf, 0xbf],
        vec![0xf0, 0x90, 0x80, 0x80],
        vec![0xf4, 0x8f, 0xbf, 0xbf],
        vec![0xf4, 0x90, 0x80, 0x80],
        vec![0xf7, 0xbf, 0xbf, 0xbf],
        vec![0xf8, 0x80, 0x80, 0x80],
        vec![0xf0, 0x90, 0x80],
        vec![b'a', 0xe2, 0x82, 0xac, b'b', 0xff],
    ];
    for bytes in &samples {
        assert_eq!(is_utf8(bytes), std::str::from_utf8(bytes).is_ok(), "{bytes:x?}");
        assert_eq!(<&str as Value>::check_encoding(bytes), is_utf8(bytes));
        assert!(<&[u8] as Value>::check_encoding(bytes));
        assert_eq!(<u64 as Value>::check_encoding(bytes), bytes.len() == 8);
        assert_eq!(<[u64; 2] as Value>::check_encoding(bytes), bytes.len() == 16);
    }
    assert!(<u64 as Value>::check_encoding(&[0; 8]));
    assert!(<[u64; 2] as Value>::check_encoding(&[0; 16]));
}

#[test]
fn builds_do_not_depend_on_the_pages_before_them() {
    let build = |store: PageStore| {
        let tree: BtreeMut<u64, u64> = BtreeMut::new(None, store);
        let mut builder = BtreeBulkBuilder::new(tree, 0);
        for key in 0..600u64 {
            let bytes = <u64 as Value>::as_bytes(&key);
            builder.push(bytes.clone(), bytes).unwrap();
        }
        builder.finish().unwrap()
    };
    let mut filled = PageStore::new(4096, 5, 100);
    filled.allocate(Page::Leaf { pairs: vec![] }).unwrap();
    filled.allocate(Page::Leaf { pairs: vec![] }).unwrap();
    let (first, first_length) = build(filled);
    let (second, second_length) = build(PageStore::new(4096, 7, 100));
    assert_eq!(first_length, second_length);
    assert_eq!(first.get_root(), second.get_root());
    assert_eq!(first.mem.page_count(), second.mem.page_count() + 2);
    for index in 7..second.mem.next_index() {
        let number = PageNumber { index };
        assert_eq!(
            format!("{:?}", first.mem.get(number)),
            format!("{:?}", second.mem.get(number))
        );
    }
}
