//! A database of tables.

use std::marker::PhantomData;

use vstd::prelude::*;

use crate::catalog::all_stored;
use crate::catalog::lemma_all_stored_within;
use crate::catalog::tables_of;
use crate::catalog::TableCatalog;
use crate::catalog::TableEntry;
use crate::catalog::TableModel;
use crate::catalog::TableType;
use crate::error::StorageError;
use crate::error::TableError;
use crate::error::TableFault;
use crate::page::pairs_view;
use crate::page::BtreeHeader;
use crate::page::Page;
use crate::page::PageStore;
use crate::page::Pair;
use crate::page::StoreModel;
use crate::search::bytes_of;
use crate::search::collect_below;
use crate::search::find_below;
use crate::search::is_value_of;
use crate::sorted_table::TableDefinition;
use crate::sorted_table::TransactionModel;
use crate::sorted_table::WriteTransaction;
use crate::types::has_keys_of;
use crate::types::has_sorted_keys;
use crate::types::is_sorted;
use crate::types::Key;
use crate::types::Value;

verus! {

/// Why a transaction cannot be committed.
#[derive(Clone, Copy, PartialEq, Eq, Structural, Debug)]
pub enum CommitError {
    /// The database has changed since the transaction began.
    Outdated,
}

/// The committed state of a database.
#[verifier::ext_equal]
pub struct DatabaseModel {
    pub store: StoreModel,
    pub tables: Map<Seq<char>, TableModel>,
    pub generation: u64,
}

impl DatabaseModel {
    /// What holds of every database: pages are numbered from zero, and all tables are stored.
    pub open spec fn is_valid(self) -> bool {
        &&& self.store.base == 0
        &&& all_stored(self.tables, self.store)
    }

    /// The transaction was begun on this state.
    pub open spec fn is_current(self, transaction: TransactionModel) -> bool {
        &&& transaction.generation == self.generation
        &&& transaction.store.base == self.store.next()
    }

    /// The state after a commit.
    pub open spec fn committed(self, transaction: TransactionModel) -> DatabaseModel {
        if transaction.dirty {
            DatabaseModel {
                store: StoreModel {
                    pages: self.store.pages + transaction.store.pages,
                    ..self.store
                },
                tables: self.tables.union_prefer_right(transaction.staged),
                generation: if self.generation < u64::MAX {
                    (self.generation + 1) as u64
                } else {
                    0
                },
            }
        } else {
            self
        }
    }
}

/// Everything that a database keeps, as plain data.
pub struct DatabaseImage {
    pub page_size: usize,
    pub page_limit: usize,
    pub pages: Vec<Page>,
    pub tables: Vec<TableEntry>,
    pub generation: u64,
}

impl View for DatabaseImage {
    type V = DatabaseModel;

    open spec fn view(&self) -> DatabaseModel {
        DatabaseModel {
            store: StoreModel {
                page_size: self.page_size as nat,
                base: 0,
                limit: self.page_limit,
                pages: self.pages@.map_values(|page: Page| page@),
            },
            tables: tables_of(self.tables@),
            generation: self.generation,
        }
    }
}

/// A database of tables.
pub struct Database {
    mem: PageStore,
    tables: TableCatalog,
    generation: u64,
}

impl View for Database {
    type V = DatabaseModel;

    closed spec fn view(&self) -> DatabaseModel {
        DatabaseModel {
            store: self.mem@,
            tables: self.tables@,
            generation: self.generation,
        }
    }
}

impl Database {
    #[verifier::type_invariant]
    spec fn type_inv(self) -> bool {
        self@.is_valid()
    }

    /// A database without tables, whose pages should have the given size and of which there may be
    /// `page_limit`.
    pub fn create(page_size: usize, page_limit: usize) -> (database: Database)
        ensures
            database@ == (DatabaseModel {
                store: StoreModel {
                    page_size: page_size as nat,
                    base: 0,
                    limit: page_limit,
                    pages: Seq::empty(),
                },
                tables: Map::empty(),
                generation: 0,
            }),
    {
        Database {
            mem: PageStore::new(page_size, 0, page_limit),
            tables: TableCatalog::new(),
            generation: 0,
        }
    }

    /// Opens what a database has kept. Fails if it does not describe stored tables.
    pub fn open(image: DatabaseImage) -> (result: Result<Database, StorageError>)
        ensures
            match result {
                Ok(database) => image@.is_valid() && database@ == image@,
                Err(error) => !image@.is_valid() && error is Corrupted,
            },
    {
        assert(image.pages@.len() == image.pages.len());
        let mem: PageStore = PageStore::with_pages(
            image.page_size,
            0,
            image.page_limit,
            image.pages,
        );
        let tables: TableCatalog = TableCatalog::from_entries(image.tables);
        if tables.is_stored_in(&mem) {
            Ok(Database { mem, tables, generation: image.generation })
        } else {
            Err(StorageError::Corrupted("a table is not stored".to_owned()))
        }
    }

    /// Everything that the database keeps. It can be opened again.
    pub fn close(self) -> (image: DatabaseImage)
        ensures
            image@ == self@,
            image@.is_valid(),
    {
        proof {
            use_type_invariant(&self);
        }
        let page_size: usize = self.mem.get_page_size();
        let page_limit: usize = self.mem.limit_index();
        let image = DatabaseImage {
            page_size,
            page_limit,
            pages: self.mem.into_pages(),
            tables: self.tables.into_entries(),
            generation: self.generation,
        };
        image
    }

    /// Checks that the pages of all tables form trees with as many records as the tables count.
    pub fn check_integrity(&self) -> (sound: bool)
        ensures
            sound == all_stored(self@.tables, self@.store),
            sound,
    {
        proof {
            use_type_invariant(self);
        }
        self.tables.is_stored_in(&self.mem)
    }

    /// Begins a transaction.
    pub fn begin_write(&self) -> (transaction: WriteTransaction)
        ensures
            transaction@ == (TransactionModel {
                store: StoreModel {
                    page_size: self@.store.page_size,
                    base: self@.store.next(),
                    limit: self@.store.limit,
                    pages: Seq::empty(),
                },
                committed: self@.tables,
                staged: Map::empty(),
                generation: self@.generation,
                dirty: false,
            }),
            self@.is_current(transaction@),
    {
        proof {
            use_type_invariant(self);
        }
        let mem: PageStore = PageStore::new(
            self.mem.get_page_size(),
            self.mem.page_count(),
            self.mem.limit_index(),
        );
        WriteTransaction::new(mem, self.tables.copy(), self.generation)
    }

    /// Opens a table for reading.
    pub fn open_table<K: Key, V: Value>(
        &self,
        definition: TableDefinition<K, V>,
    ) -> (result: Result<ReadOnlyTable<'_, K, V>, TableError>)
        ensures
            ({
                let name = definition.table_name();
                let table = self@.tables[name];
                match result {
                    Ok(opened) => {
                        &&& self@.tables.contains_key(name)
                        &&& table.table_type is Normal
                        &&& table.key_type == K::name()
                        &&& table.value_type == V::name()
                        &&& opened.records() == table.records(self@.store)
                    },
                    Err(error) => error@ == if !self@.tables.contains_key(name) {
                        TableFault::TableDoesNotExist(name)
                    } else if table.table_type is Multimap {
                        TableFault::TableIsMultimap(name)
                    } else {
                        TableFault::TableTypeMismatch {
                            table: name,
                            key: table.key_type,
                            value: table.value_type,
                        }
                    },
                }
            }),
            result is Ok <==> self@.tables.contains_key(definition.table_name())
                && self@.tables[definition.table_name()].table_type is Normal
                && self@.tables[definition.table_name()].key_type == K::name()
                && self@.tables[definition.table_name()].value_type == V::name(),
    {
        proof {
            use_type_invariant(self);
        }
        let name: String = definition.name().to_owned();
        match self.tables.get(&name) {
            Some(entry) => {
                match entry.table_type {
                    TableType::Normal => {},
                    TableType::Multimap => {
                        return Err(TableError::TableIsMultimap(name));
                    },
                }
                if entry.key_type != K::stored_name() || entry.value_type != V::stored_name() {
                    return Err(
                        TableError::TableTypeMismatch {
                            table: name,
                            key: entry.key_type.clone(),
                            value: entry.value_type.clone(),
                        },
                    );
                }
                assert(self@.tables[name@].is_stored_in(self@.store));
                Ok(
                    ReadOnlyTable {
                        mem: &self.mem,
                        root: entry.root,
                        length: entry.length,
                        types: PhantomData,
                    },
                )
            },
            None => Err(TableError::TableDoesNotExist(name)),
        }
    }
}

impl WriteTransaction {
    /// Makes everything that the transaction has built visible in the database on which it was
    /// begun. If the database has changed since, it is left alone. A transaction that has built
    /// nothing changes nothing.
    pub fn commit(self, database: &mut Database) -> (result: Result<(), CommitError>)
        ensures
            match result {
                Ok(()) => {
                    &&& !self@.dirty || old(database)@.is_current(self@)
                    &&& final(database)@ == old(database)@.committed(self@)
                },
                Err(error) => {
                    &&& self@.dirty && !old(database)@.is_current(self@)
                    &&& final(database)@ == old(database)@
                    &&& error == CommitError::Outdated
                },
            },
    {
        proof {
            use_type_invariant(&*database);
        }
        let ghost before = database@;
        let (pages, staged, generation, dirty): (PageStore, TableCatalog, u64, bool) =
            self.into_parts();
        if !dirty {
            return Ok(());
        }
        if generation != database.generation || pages.base_index() != database.mem.page_count() {
            return Err(CommitError::Outdated);
        }
        // No table is visible while the pages are put together.
        let mut tables: TableCatalog = TableCatalog::new();
        std::mem::swap(&mut database.tables, &mut tables);
        let mut mem: PageStore = PageStore::new(0, 0, 0);
        std::mem::swap(&mut database.mem, &mut mem);
        mem.absorb(pages);
        tables.put_all(&staged);
        proof {
            lemma_all_stored_within(before.tables, before.store, mem@);
            lemma_all_stored_within(staged@, pages@, mem@);
        }
        std::mem::swap(&mut database.mem, &mut mem);
        std::mem::swap(&mut database.tables, &mut tables);
        database.generation = generation.wrapping_add(1);
        Ok(())
    }
}

/// A table that is open for reading.
pub struct ReadOnlyTable<'a, K: Key, V: Value> {
    mem: &'a PageStore,
    root: Option<BtreeHeader>,
    length: u64,
    types: PhantomData<(K, V)>,
}

impl<'a, K: Key, V: Value> ReadOnlyTable<'a, K, V> {
    #[verifier::type_invariant]
    spec fn type_inv(self) -> bool {
        &&& self.length == self.records().len()
        &&& self.root matches Some(header) ==> self.mem@.has_tree(header.root)
    }

    /// The records of the table, by ascending key.
    pub closed spec fn records(self) -> Seq<Pair> {
        match self.root {
            Some(header) => self.mem@.records_below(header.root),
            None => Seq::empty(),
        }
    }

    /// The number of records.
    pub fn len(&self) -> (length: u64)
        ensures
            length == self.records().len(),
    {
        proof {
            use_type_invariant(self);
        }
        self.length
    }

    /// Tells whether the records have keys of the table's key type that increase strictly, so that
    /// values can be found by their keys. This holds of every table that was built; of a table that
    /// was opened from plain data it has to be checked.
    pub fn has_sorted_keys(&self) -> (sorted: bool)
        ensures
            sorted == (is_sorted::<K>(self.records()) && has_keys_of::<K>(self.records())),
    {
        has_sorted_keys::<K>(&self.entries())
    }

    /// The value of a key.
    pub fn get<'k>(&self, key: K::SelfType<'k>) -> (value: Option<&'a Vec<u8>>)
        requires
            is_sorted::<K>(self.records()),
            has_keys_of::<K>(self.records()),
        ensures
            is_value_of::<K>(self.records(), K::encoding(key), bytes_of(value)),
    {
        proof {
            use_type_invariant(self);
        }
        let key_bytes: Vec<u8> = K::as_bytes(&key);
        match self.root {
            Some(header) => find_below::<K>(
                self.mem,
                header.root,
                &key_bytes,
                Ghost(self.mem@.height_of(header.root)),
            ),
            None => None,
        }
    }

    /// All records, by ascending key.
    pub fn entries(&self) -> (entries: Vec<(Vec<u8>, Vec<u8>)>)
        ensures
            pairs_view(entries@) == self.records(),
    {
        proof {
            use_type_invariant(self);
        }
        let mut entries: Vec<(Vec<u8>, Vec<u8>)> = Vec::new();
        assert(pairs_view(entries@) =~= Seq::empty());
        match self.root {
            Some(header) => {
                collect_below(
                    self.mem,
                    header.root,
                    &mut entries,
                    Ghost(self.mem@.height_of(header.root)),
                );
                assert(pairs_view(entries@) =~= self.records());
            },
            None => {},
        }
        entries
    }
}

/// An image is seen as it is: its pages are numbered from zero, and its tables are those that its
/// entries name.
pub proof fn law_image_is_seen_as_it_is(image: DatabaseImage, i: int)
    ensures
        image@.store.base == 0,
        image@.store.page_size == image.page_size,
        image@.store.limit == image.page_limit,
        image@.store.pages.len() == image.pages@.len(),
        0 <= i < image.pages@.len() ==> image@.store.pages[i] == image.pages@[i]@,
        image@.tables == tables_of(image.tables@),
        image@.generation == image.generation,
{
}

/// A commit of a transaction that has started no build changes nothing. Any other commit adds the
/// pages of the transaction after those of the database, and its tables to those of the database,
/// where they replace tables of the same names.
pub proof fn law_commit_adds_pages_and_tables(
    database: DatabaseModel,
    transaction: TransactionModel,
    name: Seq<char>,
    i: int,
)
    ensures
        ({
            let after = database.committed(transaction);
            &&& !transaction.dirty ==> after == database
            &&& transaction.dirty ==> {
                &&& after.store.base == database.store.base
                &&& after.store.limit == database.store.limit
                &&& after.store.page_size == database.store.page_size
                &&& after.store.pages.len() == database.store.pages.len()
                    + transaction.store.pages.len()
                &&& 0 <= i < database.store.pages.len() ==> after.store.pages[i]
                    == database.store.pages[i]
                &&& 0 <= i < transaction.store.pages.len() ==> after.store.pages[
                    database.store.pages.len() + i
                ] == transaction.store.pages[i]
                &&& after.tables.contains_key(name) <==> database.tables.contains_key(name)
                    || transaction.staged.contains_key(name)
                &&& transaction.staged.contains_key(name) ==> after.tables[name]
                    == transaction.staged[name]
                &&& database.tables.contains_key(name) && !transaction.staged.contains_key(name)
                    ==> after.tables[name] == database.tables[name]
                &&& after.generation != database.generation
            }
        }),
{
}

} // verus!
