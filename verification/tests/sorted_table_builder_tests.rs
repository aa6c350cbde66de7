use sorted_table::{Database, Error, SortedTableOptions, TableDefinition, TableError};

type VariableDefinition = TableDefinition<'static, &'static str, &'static [u8]>;

fn empty() -> TableDefinition<'static, u64, u64> {
    TableDefinition::new("empty")
}

fn fixed() -> TableDefinition<'static, u64, u64> {
    TableDefinition::new("fixed")
}

fn variable() -> VariableDefinition {
    TableDefinition::new("variable")
}

fn tuple_like() -> TableDefinition<'static, [u64; 2], u64> {
    TableDefinition::new("tuple_like")
}

fn first() -> TableDefinition<'static, u64, u64> {
    TableDefinition::new("first")
}

fn second() -> TableDefinition<'static, u64, u64> {
    TableDefinition::new("second")
}

fn create_database() -> Database {
    Database::create(4096, 1 << 20)
}

fn number(bytes: &[u8]) -> u64 {
    u64::from_le_bytes(bytes.try_into().unwrap())
}

#[test]
fn builds_empty_fixed_variable_and_tuple_tables() {
    let mut db = create_database();
    let txn = db
        .begin_write()
        .build_sorted_table(empty(), |_| Ok(()))
        .unwrap()
        .build_sorted_table(fixed(), |builder| {
            for key in 0..256u64 {
                builder.insert(key, key * 2)?;
            }
            Ok(())
        })
        .unwrap()
        .build_sorted_table(variable(), |builder| {
            builder.insert("a", b"one".as_slice())?;
            builder.insert("alphabet", b"two-two".as_slice())?;
            builder.insert("z", b"three".as_slice())?;
            Ok(())
        })
        .unwrap()
        .build_sorted_table(tuple_like(), |builder| {
            for major in 0..8u64 {
                for minor in 0..8u64 {
                    builder.insert([major, minor], major * 100 + minor)?;
                }
            }
            Ok(())
        })
        .unwrap();
    txn.commit(&mut db).unwrap();

    assert_eq!(db.open_table(empty()).unwrap().len(), 0);
    let fixed_table = db.open_table(fixed()).unwrap();
    assert_eq!(fixed_table.len(), 256);
    assert_eq!(number(fixed_table.get(17).unwrap()), 34);
    let variable_table = db.open_table(variable()).unwrap();
    assert_eq!(variable_table.len(), 3);
    assert_eq!(variable_table.get("alphabet").unwrap(), b"two-two");
    let tuples = db.open_table(tuple_like()).unwrap();
    assert_eq!(tuples.len(), 64);
    assert_eq!(number(tuples.get([7, 3]).unwrap()), 703);
}

#[test]
fn larger_target_pages_commit_and_reopen() {
    let large = || -> TableDefinition<'static, u64, u64> { TableDefinition::new("large_pages") };
    let mut db = create_database();
    let txn = db
        .begin_write()
        .build_sorted_table_with_options(
            large(),
            SortedTableOptions::default().with_target_page_size(64 * 1024),
            |builder| {
                for key in 0..50_000u64 {
                    builder.insert(key, key)?;
                }
                Ok(())
            },
        )
        .unwrap();
    txn.commit(&mut db).unwrap();

    let db = Database::open(db.close()).unwrap();
    assert!(db.check_integrity());
    let table = db.open_table(large()).unwrap();
    assert_eq!(table.len(), 50_000);
    assert_eq!(number(table.get(49_999).unwrap()), 49_999);
}

#[test]
fn trailing_single_child_is_rebalanced_before_finish() {
    let boundary = || -> TableDefinition<'static, u64, u64> { TableDefinition::new("boundary") };
    let mut db = create_database();
    let txn = db
        .begin_write()
        .build_sorted_table(boundary(), |builder| {
            for key in 0..32_641u64 {
                builder.insert(key, key)?;
            }
            Ok(())
        })
        .unwrap();
    txn.commit(&mut db).unwrap();
    let table = db.open_table(boundary()).unwrap();
    assert_eq!(table.len(), 32_641);
    assert_eq!(number(table.get(32_640).unwrap()), 32_640);
}

#[test]
fn builds_multilevel_table_and_reopens_with_integrity() {
    let mut db = create_database();
    let txn = db
        .begin_write()
        .build_sorted_table(fixed(), |builder| {
            for key in 0..50_000u64 {
                builder.insert(key, key ^ 0x55aa)?;
            }
            Ok(())
        })
        .unwrap();
    txn.commit(&mut db).unwrap();
    assert!(db.check_integrity());

    let reopened = Database::open(db.close()).unwrap();
    assert!(reopened.check_integrity());
    let table = reopened.open_table(fixed()).unwrap();
    assert_eq!(table.len(), 50_000);
    assert_eq!(number(table.get(0).unwrap()), 0x55aa);
    assert_eq!(number(table.get(49_999).unwrap()), 49_999 ^ 0x55aa);
    let mut expected = 0u64;
    for (key, value) in table.entries() {
        assert_eq!(number(&key), expected);
        assert_eq!(number(&value), expected ^ 0x55aa);
        expected += 1;
    }
    assert_eq!(expected, 50_000);
}

#[test]
fn nonmonotonic_input_aborts_the_consumed_transaction() {
    let db = create_database();
    let result = db.begin_write().build_sorted_table(fixed(), |builder| {
        builder.insert(2, 20)?;
        builder.insert(1, 10)?;
        Ok(())
    });
    assert!(matches!(result, Err(Error::SortedTableKeyOrder)));

    assert!(matches!(
        db.open_table(fixed()),
        Err(TableError::TableDoesNotExist(_))
    ));
}

#[test]
fn ignored_insert_error_still_aborts_the_consumed_transaction() {
    let db = create_database();
    let result = db.begin_write().build_sorted_table(fixed(), |builder| {
        builder.insert(2, 20)?;
        let _ = builder.insert(1, 10);
        Ok(())
    });
    assert!(matches!(result, Err(Error::SortedTableBuilderFailed)));

    assert!(matches!(
        db.open_table(fixed()),
        Err(TableError::TableDoesNotExist(_))
    ));
}

#[test]
fn producer_error_aborts_the_consumed_transaction() {
    let db = create_database();
    let result = db.begin_write().build_sorted_table(fixed(), |builder| {
        builder.insert(1, 10)?;
        Err(Error::Corrupted("injected producer failure".into()))
    });
    assert!(matches!(result, Err(Error::Corrupted(message)) if message.contains("injected")));

    assert!(matches!(
        db.open_table(fixed()),
        Err(TableError::TableDoesNotExist(_))
    ));
}

#[test]
fn nonempty_target_is_rejected_without_changing_existing_data() {
    let mut db = create_database();
    let txn = db
        .begin_write()
        .build_sorted_table(fixed(), |builder| builder.insert(7, 77))
        .unwrap();
    txn.commit(&mut db).unwrap();

    let result = db.begin_write().build_sorted_table(fixed(), |_| Ok(()));
    assert!(matches!(result, Err(Error::SortedTableNotEmpty(name)) if name == "fixed"));

    let table = db.open_table(fixed()).unwrap();
    assert_eq!(table.len(), 1);
    assert_eq!(number(table.get(7).unwrap()), 77);
}

#[test]
fn sequential_builds_publish_both_tables_in_one_commit() {
    let mut db = create_database();
    let txn = db
        .begin_write()
        .build_sorted_table(first(), |builder| {
            for key in 0..1_000u64 {
                builder.insert(key, key + 1)?;
            }
            Ok(())
        })
        .unwrap()
        .build_sorted_table(second(), |builder| {
            for key in 1_000..2_000u64 {
                builder.insert(key, key + 1)?;
            }
            Ok(())
        })
        .unwrap();
    txn.commit(&mut db).unwrap();

    assert_eq!(db.open_table(first()).unwrap().len(), 1_000);
    assert_eq!(db.open_table(second()).unwrap().len(), 1_000);
    assert_eq!(
        number(db.open_table(second()).unwrap().get(1_999).unwrap()),
        2_000
    );
}
