//! Transactions that build tables from strictly sorted streams.

use std::marker::PhantomData;

use vstd::prelude::*;

use crate::btree::BtreeMut;
use crate::btree_bulk::initial_state;
use crate::btree_bulk::BtreeBulkBuilder;
use crate::bulk_laws::law_clean_build_can_finish;
use crate::bulk_laws::law_finish_keeps_records;
use crate::bulk_laws::law_initial_state_is_clean;
use crate::bulk_laws::law_push_appends_record;
use crate::bulk_model::BulkModel;
use crate::catalog::all_stored;
use crate::catalog::lemma_all_stored_within;
use crate::catalog::TableCatalog;
use crate::catalog::TableEntry;
use crate::catalog::TableModel;
use crate::catalog::TableType;
use crate::error::Error;
use crate::error::Fault;
use crate::error::StorageFault;
use crate::error::TableError;
use crate::error::TableFault;
use crate::layout::MAX_PAIR_LENGTH;
use crate::layout::MAX_VALUE_LENGTH;
use crate::packing::are_filled;
use crate::packing::law_finish_keeps_leaves_filled;
use crate::packing::law_finish_keeps_limits;
use crate::packing::law_initial_state_is_filled;
use crate::packing::law_initial_state_is_packed;
use crate::packing::law_push_keeps_leaves_filled;
use crate::packing::law_push_keeps_limits;
use crate::packing::lemma_tree_fits;
use crate::packing::page_fits;
use crate::packing::tree_fits;
use crate::page::lemma_moved_to_same_base;
use crate::page::renumber;
use crate::page::renumbered_page;
use crate::page::BtreeHeader;
use crate::page::PageNumber;
use crate::page::PageStore;
use crate::page::Pair;
use crate::page::StoreModel;
use crate::tree::lemma_moved_records;
use crate::tree::lemma_records_below;
use crate::tree::lemma_records_below_within;
use crate::tree::lemma_tree_within;
use crate::types::has_keys_of;
use crate::types::is_smaller;
use crate::types::is_sorted;
use crate::types::Key;
use crate::types::Value;

verus! {

/// Names a table and the types of its keys and values.
pub struct TableDefinition<'a, K: Key, V: Value> {
    name: &'a str,
    types: PhantomData<(K, V)>,
}

impl<'a, K: Key, V: Value> TableDefinition<'a, K, V> {
    /// The name of the table.
    pub closed spec fn table_name(self) -> Seq<char> {
        self.name@
    }

    pub fn new(name: &'a str) -> (definition: Self)
        ensures
            definition.table_name() == name@,
    {
        TableDefinition { name, types: PhantomData }
    }

    /// The name of the table.
    pub fn name(&self) -> (name: &'a str)
        ensures
            name@ == self.table_name(),
    {
        self.name
    }
}

/// Packing policy for [`WriteTransaction::build_sorted_table_with_options`].
#[derive(Clone, Copy, Debug)]
pub struct SortedTableOptions {
    target_page_size: usize,
}

impl Default for SortedTableOptions {
    /// Pages of the size that the database prefers.
    fn default() -> (options: Self)
        ensures
            options.target() == 0,
    {
        SortedTableOptions { target_page_size: 0 }
    }
}

impl SortedTableOptions {
    /// The encoded size that pages should have at least.
    pub closed spec fn target(self) -> usize {
        self.target_page_size
    }

    /// Prefer pages of at least this encoded size. Records larger than the target remain valid.
    #[must_use]
    pub fn with_target_page_size(self, bytes: usize) -> (options: Self)
        ensures
            options.target() == bytes,
    {
        let mut options = self;
        options.target_page_size = bytes;
        options
    }
}

/// The state of a transaction: its own pages, the tables that were there when it began, and the
/// tables that it has built.
#[verifier::ext_equal]
pub struct TransactionModel {
    pub store: StoreModel,
    pub committed: Map<Seq<char>, TableModel>,
    pub staged: Map<Seq<char>, TableModel>,
    pub generation: u64,
    pub dirty: bool,
}

impl TransactionModel {
    /// The tables as the transaction sees them.
    pub open spec fn tables(self) -> Map<Seq<char>, TableModel> {
        self.committed.union_prefer_right(self.staged)
    }

    /// The tables that the transaction has built are stored in its own pages.
    pub open spec fn is_valid(self) -> bool {
        all_stored(self.staged, self.store)
    }

    /// Why the table of the given name cannot be built, if there is a reason.
    pub open spec fn open_fault<K: Key, V: Value>(self, name: Seq<char>) -> Option<Fault> {
        if self.tables().contains_key(name) {
            let table = self.tables()[name];
            if table.table_type is Multimap {
                Some(Fault::Table(TableFault::TableIsMultimap(name)))
            } else if table.key_type != K::name() || table.value_type != V::name() {
                Some(
                    Fault::Table(
                        TableFault::TableTypeMismatch {
                            table: name,
                            key: table.key_type,
                            value: table.value_type,
                        },
                    ),
                )
            } else if table.root is Some || table.length != 0 {
                Some(Fault::SortedTableNotEmpty(name))
            } else {
                None
            }
        } else {
            None
        }
    }

    /// The builder with which a build starts. It writes its pages to a store of its own, whose
    /// numbers follow on those of the transaction.
    pub open spec fn opened<K: Key, V: Value>(self, target: usize) -> BuilderModel {
        let store = StoreModel { base: self.store.next(), pages: Seq::empty(), ..self.store };
        BuilderModel {
            bulk: initial_state::<K, V>(store, target as nat),
            last_key: None,
            failed: false,
        }
    }

    /// The transaction once the given builder was completed as the table of the given name.
    pub open spec fn completed<K: Key, V: Value>(
        self,
        name: Seq<char>,
        builder: BuilderModel,
    ) -> Result<TransactionModel, Fault> {
        match builder.completed() {
            Ok((store, root)) => if self.store.can_join(store) {
                Ok(
                    TransactionModel {
                        store: self.store.joined(store),
                        staged: self.staged.insert(
                            name,
                            TableModel {
                                table_type: TableType::Normal,
                                key_type: K::name(),
                                value_type: V::name(),
                                root: match root {
                                    Some(header) => Some(
                                        BtreeHeader {
                                            root: store.renumbered(header.root, self.store.next()),
                                            ..header
                                        },
                                    ),
                                    None => None,
                                },
                                length: builder.bulk.length as u64,
                            },
                        ),
                        dirty: true,
                        ..self
                    },
                )
            } else {
                Err(Fault::Storage(StorageFault::OutOfPages))
            },
            Err(fault) => Err(fault),
        }
    }

    /// `after` is this transaction with the table of the given name built: its pages, the tables
    /// that were there when it began, and all other tables that it has built are as they were.
    pub open spec fn continues_as(self, name: Seq<char>, after: TransactionModel) -> bool {
        &&& after.is_valid()
        &&& after.dirty
        &&& after.generation == self.generation
        &&& after.committed == self.committed
        &&& after.staged.contains_key(name)
        &&& after.staged == self.staged.insert(name, after.staged[name])
        &&& after.store == (StoreModel { pages: after.store.pages, ..self.store })
        &&& self.store.within(after.store)
        &&& forall|other: Seq<char>|
            self.staged.contains_key(other) && other != name ==> (
            #[trigger] after.staged[other]).records(after.store) == self.staged[other].records(
                self.store,
            )
    }
}

/// The state of a build: the tree so far, the last key, and whether an insertion has failed.
#[verifier::ext_equal]
pub struct BuilderModel {
    pub bulk: BulkModel,
    pub last_key: Option<Seq<u8>>,
    pub failed: bool,
}

/// The fault of a record or a page of the given size.
pub open spec fn too_large(size: usize) -> Fault {
    Fault::Storage(StorageFault::ValueTooLarge(size))
}

/// Why a key and a value of the given lengths are not accepted, if there is a reason.
pub open spec fn length_fault(key_len: nat, value_len: nat) -> Option<Fault> {
    if key_len + value_len > usize::MAX {
        Some(too_large(usize::MAX))
    } else if key_len > MAX_VALUE_LENGTH {
        Some(too_large(key_len as usize))
    } else if value_len > MAX_VALUE_LENGTH || key_len + value_len > MAX_PAIR_LENGTH {
        Some(too_large((key_len + value_len) as usize))
    } else {
        None
    }
}

/// Checks that a key and a value of the given lengths are accepted.
pub fn check_pair_lengths(key_len: usize, value_len: usize) -> (result: Result<(), Error>)
    ensures
        match length_fault(key_len as nat, value_len as nat) {
            Some(fault) => refuses(result, fault),
            None => result is Ok,
        },
{
    let pair_len: usize = match key_len.checked_add(value_len) {
        Some(pair_len) => pair_len,
        None => {
            return Err(Error::ValueTooLarge(usize::MAX));
        },
    };
    if key_len > MAX_VALUE_LENGTH {
        return Err(Error::ValueTooLarge(key_len));
    }
    if value_len > MAX_VALUE_LENGTH || pair_len > MAX_PAIR_LENGTH {
        return Err(Error::ValueTooLarge(pair_len));
    }
    Ok(())
}

impl BuilderModel {
    /// The records that were inserted so far.
    pub open spec fn records(self) -> Seq<Pair> {
        self.bulk.records()
    }

    /// What holds of every builder. As long as no insertion has failed, the tree so far holds the
    /// inserted records, their keys increase strictly, and the pages keep within their limits.
    pub open spec fn is_valid<K: Key, V: Value>(self) -> bool {
        &&& self.last_key matches Some(key) ==> K::is_encoding(key)
        &&& !self.failed ==> {
            &&& self.bulk.key_width == K::width()
            &&& self.bulk.value_width == V::width()
            &&& self.bulk.is_clean()
            &&& self.bulk.is_packed(0)
            &&& self.bulk.leaves_are_filled()
            &&& is_sorted::<K>(self.records())
            &&& has_keys_of::<K>(self.records())
            &&& self.last_key == if self.records().len() == 0 {
                None
            } else {
                Some(self.records().last().0)
            }
        }
    }

    /// Offers a record. Whatever is refused makes the whole build fail.
    pub open spec fn insert<K: Key>(self, key: Seq<u8>, value: Seq<u8>) -> (
        BuilderModel,
        Result<(), Fault>,
    ) {
        let refused = BuilderModel { failed: true, ..self };
        let too_long = length_fault(key.len(), value.len());
        if too_long is Some {
            (refused, Err(too_long->Some_0))
        } else if self.last_key is Some && !K::precedes(self.last_key->Some_0, key) {
            (refused, Err(Fault::SortedTableKeyOrder))
        } else {
            let (bulk, pushed) = self.bulk.push(key, value);
            match pushed {
                Ok(()) => (BuilderModel { bulk, last_key: Some(key), ..self }, Ok(())),
                Err(fault) => (
                    BuilderModel { bulk, failed: true, ..self },
                    Err(Fault::Storage(fault)),
                ),
            }
        }
    }

    /// The pages of the completed tree and its root; a tree without records has none.
    pub open spec fn completed(self) -> Result<(StoreModel, Option<BtreeHeader>), Fault> {
        if self.failed {
            Err(Fault::SortedTableBuilderFailed)
        } else {
            let (bulk, root) = self.bulk.finish();
            match root {
                Ok(root) => Ok((bulk.store, root)),
                Err(fault) => Err(Fault::Storage(fault)),
            }
        }
    }
}

/// A builder keeps its promises through an insertion, and an accepted record comes last.
pub proof fn law_insert_keeps_promises<K: Key, V: Value>(
    builder: BuilderModel,
    key: Seq<u8>,
    value: Seq<u8>,
)
    requires
        builder.is_valid::<K, V>(),
        K::is_encoding(key),
    ensures
        builder.insert::<K>(key, value).0.is_valid::<K, V>(),
        !builder.failed && builder.insert::<K>(key, value).1 is Ok ==> builder.insert::<K>(
            key,
            value,
        ).0.records() == builder.records().push((key, value)),
{
    let (after, result) = builder.insert::<K>(key, value);
    if !after.failed {
        law_push_appends_record(builder.bulk, key, value);
        law_push_keeps_limits(builder.bulk, key, value, 0);
        law_push_keeps_leaves_filled(builder.bulk, key, value);
        let before = builder.records();
        assert forall|i: int, j: int| 0 <= i < j < after.records().len() implies K::precedes(
            #[trigger] after.records()[i].0,
            #[trigger] after.records()[j].0,
        ) by {
            if j == before.len() && i < before.len() - 1 {
                assert(K::precedes(before[i].0, before[before.len() - 1].0));
                K::precedes_transitive(before[i].0, before.last().0, key);
            }
        }
    }
}

/// A build that completes stages a table with exactly the inserted records, by strictly increasing
/// key, whichever builder was completed. Nothing else about the transaction changes.
pub proof fn law_completed_table_holds_records<K: Key, V: Value>(
    transaction: TransactionModel,
    name: Seq<char>,
    builder: BuilderModel,
)
    requires
        transaction.is_valid(),
        builder.is_valid::<K, V>(),
        transaction.completed::<K, V>(name, builder) is Ok,
    ensures
        ({
            let after = transaction.completed::<K, V>(name, builder)->Ok_0;
            let table = after.staged[name];
            &&& transaction.continues_as(name, after)
            &&& table.table_type is Normal
            &&& table.records(after.store) == builder.records()
            &&& table.length == builder.records().len()
            &&& table.root is None <==> builder.records().len() == 0
            &&& is_sorted::<K>(table.records(after.store))
            &&& has_keys_of::<K>(table.records(after.store))
        }),
{
    let after = transaction.completed::<K, V>(name, builder)->Ok_0;
    let next = transaction.store.next();
    let (store, root) = builder.completed()->Ok_0;
    let moved = store.moved_to(next);
    law_clean_build_can_finish(builder.bulk);
    law_finish_keeps_records(builder.bulk);
    lemma_moved_to_same_base(store);
    assert(moved.within(after.store));
    assert(transaction.store.within(after.store));
    if let Some(header) = root {
        if store.base != next {
            lemma_moved_records(store, next, header.root);
        }
        lemma_records_below_within(moved, after.store, store.renumbered(header.root, next));
    } else {
        assert(builder.records() =~= Seq::empty());
    }
    lemma_all_stored_within(transaction.staged, transaction.store, after.store);
    assert forall|other: Seq<char>| after.staged.contains_key(other) implies (
    #[trigger] after.staged[other]).is_stored_in(after.store) by {
        if other != name {
            assert(transaction.staged[other].is_stored_in(after.store));
        }
    }
    assert forall|other: Seq<char>|
        transaction.staged.contains_key(other) && other != name implies (
    #[trigger] after.staged[other]).records(after.store) == transaction.staged[other].records(
        transaction.store,
    ) by {
        assert(transaction.staged[other].records(after.store)
            == transaction.staged[other].records(transaction.store));
    }
}

/// All pages that a build adds, those of the table among them, keep within their limits, and none
/// of the table's leaves but the last could take the first record of the next leaf as well.
pub proof fn law_completed_table_is_packed<K: Key, V: Value>(
    transaction: TransactionModel,
    name: Seq<char>,
    builder: BuilderModel,
)
    requires
        builder.is_valid::<K, V>(),
        transaction.completed::<K, V>(name, builder) is Ok,
    ensures
        ({
            let after = transaction.completed::<K, V>(name, builder)->Ok_0;
            let target = builder.bulk.target;
            &&& forall|i: int|
                transaction.store.pages.len() <= i < after.store.pages.len() ==> page_fits(
                    #[trigger] after.store.pages[i],
                    K::width(),
                    V::width(),
                    target,
                )
            &&& after.staged[name].root matches Some(header) ==> {
                &&& tree_fits(
                    after.store,
                    header.root,
                    after.store.height_of(header.root),
                    K::width(),
                    V::width(),
                    target,
                )
                &&& are_filled(
                    after.store.leaves_below(header.root),
                    K::width(),
                    V::width(),
                    target,
                )
            }
        }),
{
    let after = transaction.completed::<K, V>(name, builder)->Ok_0;
    let next = transaction.store.next();
    let (store, root) = builder.completed()->Ok_0;
    let moved = store.moved_to(next);
    law_clean_build_can_finish(builder.bulk);
    law_finish_keeps_records(builder.bulk);
    law_finish_keeps_limits(builder.bulk, 0);
    law_finish_keeps_leaves_filled(builder.bulk);
    lemma_moved_to_same_base(store);
    let before = transaction.store.pages.len();
    assert forall|i: int| before <= i < after.store.pages.len() implies page_fits(
        #[trigger] after.store.pages[i],
        K::width(),
        V::width(),
        builder.bulk.target,
    ) by {
        assert(page_fits(
            store.pages[i - before],
            K::width(),
            V::width(),
            builder.bulk.target,
        ));
        assert(after.store.pages[i] == renumbered_page(
            store.pages[i - before],
            store.base,
            store.pages.len(),
            next,
        ));
    }
    assert(moved.within(after.store));
    if let Some(header) = root {
        let moved_root = store.renumbered(header.root, next);
        if store.base != next {
            lemma_moved_records(store, next, header.root);
        }
        lemma_records_below_within(moved, after.store, moved_root);
        assert forall|i: int| 0 <= i < moved.pages.len() implies page_fits(
            #[trigger] moved.pages[i],
            K::width(),
            V::width(),
            builder.bulk.target,
        ) by {
            assert(after.store.pages[before + i] == moved.pages[i]);
        }
        let height = moved.height_of(moved_root);
        lemma_tree_within(moved, after.store, moved_root, height);
        lemma_records_below(after.store, moved_root, height);
        lemma_tree_fits(
            moved,
            after.store,
            moved_root,
            height,
            K::width(),
            V::width(),
            builder.bulk.target,
        );
    }
}

/// A transaction that builds tables.
///
/// What it builds becomes visible when it is committed. A transaction that is dropped, by its owner
/// or by a build that fails, leaves the database as it was.
pub struct WriteTransaction {
    mem: PageStore,
    committed: TableCatalog,
    staged: TableCatalog,
    generation: u64,
    dirty: bool,
}

impl View for WriteTransaction {
    type V = TransactionModel;

    closed spec fn view(&self) -> TransactionModel {
        TransactionModel {
            store: self.mem@,
            committed: self.committed@,
            staged: self.staged@,
            generation: self.generation,
            dirty: self.dirty,
        }
    }
}

/// Typed one-shot writer used by [`WriteTransaction::build_sorted_table`].
pub struct SortedTableBuilder<K: Key, V: Value> {
    inner: BtreeBulkBuilder<K, V>,
    last_key: Option<Vec<u8>>,
    failed: bool,
}

impl<K: Key, V: Value> View for SortedTableBuilder<K, V> {
    type V = BuilderModel;

    closed spec fn view(&self) -> BuilderModel {
        BuilderModel {
            bulk: self.inner@,
            last_key: match self.last_key {
                Some(key) => Some(key@),
                None => None,
            },
            failed: self.failed,
        }
    }
}

/// A refusal that says the same as `fault`.
pub open spec fn refuses<T>(result: Result<T, Error>, fault: Fault) -> bool {
    result matches Err(error) && error@ == fault
}

/// What an insertion left behind and returned.
pub open spec fn inserts_as(
    state: BuilderModel,
    result: Result<(), Error>,
    expected: (BuilderModel, Result<(), Fault>),
) -> bool {
    &&& state == expected.0
    &&& match expected.1 {
        Ok(()) => result is Ok,
        Err(fault) => refuses(result, fault),
    }
}

/// What a build of the table of the given name returns once its producer has returned `outcome`
/// and left `builder` behind.
pub open spec fn completes_as<K: Key, V: Value>(
    transaction: TransactionModel,
    name: Seq<char>,
    builder: BuilderModel,
    outcome: Result<(), Error>,
    result: Result<WriteTransaction, Error>,
) -> bool {
    match outcome {
        Ok(()) => match transaction.completed::<K, V>(name, builder) {
            Ok(expected) => result matches Ok(after) && {
                &&& after@ == expected
                &&& after@.staged[name].records(after@.store) == builder.records()
            },
            Err(fault) => refuses(result, fault),
        },
        Err(error) => result == Err::<WriteTransaction, Error>(error),
    }
}

impl<K: Key, V: Value> SortedTableBuilder<K, V> {
    #[verifier::type_invariant]
    spec fn type_inv(self) -> bool {
        self@.is_valid::<K, V>()
    }

    /// Append one key/value pair. Keys must be strictly increasing according to [`Key::compare`].
    /// Values are serialized before the tree changes.
    ///
    /// Once an insertion has failed, the build as a whole fails.
    pub fn insert<'k, 'v>(&mut self, key: K::SelfType<'k>, value: V::SelfType<'v>) -> (result:
        Result<(), Error>)
        ensures
            inserts_as(
                final(self)@,
                result,
                old(self)@.insert::<K>(K::encoding(key), V::encoding(value)),
            ),
            final(self)@.is_valid::<K, V>(),
            result is Ok && !old(self)@.failed ==> final(self)@.records()
                == old(self)@.records().push((K::encoding(key), V::encoding(value))),
    {
        proof {
            use_type_invariant(&*self);
        }
        let key_bytes: Vec<u8> = K::as_bytes(&key);
        let value_bytes: Vec<u8> = V::as_bytes(&value);
        proof {
            law_insert_keeps_promises::<K, V>(self@, key_bytes@, value_bytes@);
        }
        match check_pair_lengths(key_bytes.len(), value_bytes.len()) {
            Ok(()) => {},
            Err(error) => {
                self.failed = true;
                return Err(error);
            },
        }
        let in_order: bool = match &self.last_key {
            Some(last) => is_smaller::<K>(last, &key_bytes),
            None => true,
        };
        if !in_order {
            self.failed = true;
            return Err(Error::SortedTableKeyOrder);
        }

        let owned_key: Vec<u8> = key_bytes.clone();
        assert(owned_key@ =~= key_bytes@);
        // The build counts as failed until the record is in.
        let failed_before: bool = self.failed;
        self.failed = true;
        let mut inner: BtreeBulkBuilder<K, V> = BtreeBulkBuilder::new(
            BtreeMut::new(None, PageStore::new(0, 0, 0)),
            0,
        );
        std::mem::swap(&mut self.inner, &mut inner);
        let pushed = inner.push(key_bytes, value_bytes);
        std::mem::swap(&mut self.inner, &mut inner);
        match pushed {
            Ok(()) => {
                self.last_key = Some(owned_key);
                self.failed = failed_before;
                Ok(())
            },
            Err(error) => Err(Error::from(error)),
        }
    }
}

impl WriteTransaction {
    #[verifier::type_invariant]
    spec fn type_inv(self) -> bool {
        self@.is_valid()
    }

    /// A transaction over the given tables that has not built any yet.
    pub(crate) fn new(
        mem: PageStore,
        committed: TableCatalog,
        generation: u64,
    ) -> (transaction: Self)
        ensures
            transaction@ == (TransactionModel {
                store: mem@,
                committed: committed@,
                staged: Map::empty(),
                generation,
                dirty: false,
            }),
    {
        WriteTransaction {
            mem,
            committed,
            staged: TableCatalog::new(),
            generation,
            dirty: false,
        }
    }

    /// The parts of the transaction: its pages, the tables that it has built, the generation of
    /// the database in which it began, and whether it has started a build.
    pub(crate) fn into_parts(self) -> (parts: (PageStore, TableCatalog, u64, bool))
        ensures
            parts.0@ == self@.store,
            parts.1@ == self@.staged,
            parts.2 == self@.generation,
            parts.3 == self@.dirty,
            self@.is_valid(),
    {
        proof {
            use_type_invariant(&self);
        }
        (self.mem, self.staged, self.generation, self.dirty)
    }

    /// The root and the length of a table that is to be built; a table that does not exist has no
    /// root and no records.
    fn inner_open<K: Key, V: Value>(&self, name: &String) -> (result: Result<
        (Option<BtreeHeader>, u64),
        TableError,
    >)
        ensures
            match result {
                Ok((root, length)) => {
                    &&& self@.tables().contains_key(name@) ==> root == self@.tables()[name@].root
                        && length == self@.tables()[name@].length
                    &&& !self@.tables().contains_key(name@) ==> root is None && length == 0
                    &&& self@.open_fault::<K, V>(name@) == if root is Some || length != 0 {
                        Some(Fault::SortedTableNotEmpty(name@))
                    } else {
                        None
                    }
                },
                Err(error) => self@.open_fault::<K, V>(name@) == Some(Fault::Table(error@)),
            },
    {
        let found: Option<&TableEntry> = match self.staged.get(name) {
            Some(entry) => Some(entry),
            None => self.committed.get(name),
        };
        match found {
            Some(entry) => {
                match entry.table_type {
                    TableType::Normal => {},
                    TableType::Multimap => {
                        return Err(TableError::TableIsMultimap(name.clone()));
                    },
                }
                if entry.key_type != K::stored_name() || entry.value_type != V::stored_name() {
                    return Err(
                        TableError::TableTypeMismatch {
                            table: name.clone(),
                            key: entry.key_type.clone(),
                            value: entry.value_type.clone(),
                        },
                    );
                }
                Ok((entry.root, entry.length))
            },
            None => Ok((None, 0)),
        }
    }

    /// Starts a build of the given table, which must be empty.
    pub fn open_sorted_table<K: Key, V: Value>(
        &self,
        definition: &TableDefinition<K, V>,
        options: SortedTableOptions,
    ) -> (result: Result<SortedTableBuilder<K, V>, Error>)
        ensures
            match self@.open_fault::<K, V>(definition.table_name()) {
                Some(fault) => refuses(result, fault),
                None => result matches Ok(builder) && builder@ == self@.opened::<K, V>(
                    options.target(),
                ),
            },
    {
        let name: String = definition.name().to_owned();
        let (root, length): (Option<BtreeHeader>, u64) = match self.inner_open::<K, V>(&name) {
            Ok(found) => found,
            Err(error) => {
                return Err(Error::from(error));
            },
        };
        if root.is_some() || length != 0 {
            return Err(Error::SortedTableNotEmpty(name));
        }
        let mem: PageStore = PageStore::new(
            self.mem.get_page_size(),
            self.mem.next_index(),
            self.mem.limit_index(),
        );
        proof {
            law_initial_state_is_clean::<K, V>(mem@, options.target() as nat);
            law_initial_state_is_packed::<K, V>(mem@, options.target() as nat);
            law_initial_state_is_filled::<K, V>(mem@, options.target() as nat);
        }
        let tree: BtreeMut<K, V> = BtreeMut::new(None, mem);
        Ok(
            SortedTableBuilder {
                inner: BtreeBulkBuilder::new(tree, options.target_page_size),
                last_key: None,
                failed: false,
            },
        )
    }

    /// Ends a build of the given table after its producer has returned `outcome`, and gives the
    /// transaction back if everything has succeeded.
    ///
    /// A producer can leave the builder of another transaction behind. The pages of that builder
    /// are then renumbered to become pages of this transaction.
    pub fn close_sorted_table<K: Key, V: Value>(
        self,
        definition: &TableDefinition<K, V>,
        builder: SortedTableBuilder<K, V>,
        outcome: Result<(), Error>,
    ) -> (result: Result<Self, Error>)
        requires
            self@.open_fault::<K, V>(definition.table_name()) is None,
        ensures
            builder@.is_valid::<K, V>(),
            completes_as::<K, V>(self@, definition.table_name(), builder@, outcome, result),
            result matches Ok(after) ==> {
                &&& self@.continues_as(definition.table_name(), after@)
                &&& is_sorted::<K>(
                    after@.staged[definition.table_name()].records(after@.store),
                )
            },
    {
        proof {
            use_type_invariant(&self);
            use_type_invariant(&builder);
        }
        match outcome {
            Ok(()) => {},
            Err(error) => {
                return Err(error);
            },
        }
        if builder.failed {
            return Err(Error::SortedTableBuilderFailed);
        }
        proof {
            law_clean_build_can_finish(builder.inner@);
        }
        let (tree, length): (BtreeMut<K, V>, u64) = match builder.inner.finish() {
            Ok(finished) => finished,
            Err(error) => {
                return Err(Error::from(error));
            },
        };
        proof {
            law_finish_keeps_records(builder.inner@);
        }
        let name: String = definition.name().to_owned();
        let root: Option<BtreeHeader> = tree.get_root();
        let first: usize = tree.mem.base_index();
        let count: usize = tree.mem.page_count();
        let mut mem: PageStore = self.mem;
        let next: usize = mem.next_index();
        match mem.join(tree.mem) {
            Ok(()) => {},
            Err(error) => {
                return Err(Error::from(error));
            },
        }
        let root: Option<BtreeHeader> = match root {
            Some(header) => Some(
                BtreeHeader::new(
                    renumber(header.root, first, count, next),
                    header.checksum,
                    header.length,
                ),
            ),
            None => None,
        };
        let mut staged: TableCatalog = self.staged;
        staged.put(
            TableEntry {
                name,
                table_type: TableType::Normal,
                key_type: K::stored_name(),
                value_type: V::stored_name(),
                root,
                length,
            },
        );
        proof {
            law_completed_table_holds_records::<K, V>(
                self@,
                definition.table_name(),
                builder@,
            );
        }
        Ok(
            WriteTransaction {
                mem,
                committed: self.committed,
                staged,
                generation: self.generation,
                dirty: true,
            },
        )
    }

    /// Build a normal table bottom-up from a strictly sorted stream.
    ///
    /// The transaction is consumed so any producer, ordering, allocation, or table error aborts all
    /// pages built by this transaction. The target table must be empty. On success the transaction
    /// is returned and may build another table or commit normally.
    pub fn build_sorted_table<K, V, F>(
        self,
        definition: TableDefinition<K, V>,
        producer: F,
    ) -> (result: Result<Self, Error>) where
        K: Key,
        V: Value,
        F: FnOnce(&mut SortedTableBuilder<K, V>) -> Result<(), Error>,

        requires
            self@.open_fault::<K, V>(definition.table_name()) is None ==> forall|
                builder: &mut SortedTableBuilder<K, V>,
            |
                (*builder)@ == self@.opened::<K, V>(0) ==> call_requires(producer, (builder,)),
        ensures
            match self@.open_fault::<K, V>(definition.table_name()) {
                Some(fault) => refuses(result, fault),
                None => exists|
                    builder: &mut SortedTableBuilder<K, V>,
                    outcome: Result<(), Error>,
                |
                    {
                        &&& #[trigger] call_ensures(producer, (builder,), outcome)
                        &&& (*builder)@ == self@.opened::<K, V>(0)
                        &&& (*final(builder))@.is_valid::<K, V>()
                        &&& completes_as::<K, V>(
                            self@,
                            definition.table_name(),
                            (*final(builder))@,
                            outcome,
                            result,
                        )
                    },
            },
            result matches Ok(after) ==> {
                &&& self@.continues_as(definition.table_name(), after@)
                &&& is_sorted::<K>(
                    after@.staged[definition.table_name()].records(after@.store),
                )
            },
    {
        self.build_sorted_table_with_options(definition, SortedTableOptions::default(), producer)
    }

    /// Build a normal empty table with an explicit bottom-up packing policy.
    ///
    /// Whatever the producer does, the transaction that is returned is this one with the table
    /// added. A table that is refused does not cause the producer to be called.
    pub fn build_sorted_table_with_options<K, V, F>(
        self,
        definition: TableDefinition<K, V>,
        options: SortedTableOptions,
        producer: F,
    ) -> (result: Result<Self, Error>) where
        K: Key,
        V: Value,
        F: FnOnce(&mut SortedTableBuilder<K, V>) -> Result<(), Error>,

        requires
            self@.open_fault::<K, V>(definition.table_name()) is None ==> forall|
                builder: &mut SortedTableBuilder<K, V>,
            |
                (*builder)@ == self@.opened::<K, V>(options.target()) ==> call_requires(
                    producer,
                    (builder,),
                ),
        ensures
            match self@.open_fault::<K, V>(definition.table_name()) {
                Some(fault) => refuses(result, fault),
                None => exists|
                    builder: &mut SortedTableBuilder<K, V>,
                    outcome: Result<(), Error>,
                |
                    {
                        &&& #[trigger] call_ensures(producer, (builder,), outcome)
                        &&& (*builder)@ == self@.opened::<K, V>(options.target())
                        &&& (*final(builder))@.is_valid::<K, V>()
                        &&& completes_as::<K, V>(
                            self@,
                            definition.table_name(),
                            (*final(builder))@,
                            outcome,
                            result,
                        )
                    },
            },
            result matches Ok(after) ==> {
                &&& self@.continues_as(definition.table_name(), after@)
                &&& is_sorted::<K>(
                    after@.staged[definition.table_name()].records(after@.store),
                )
            },
    {
        let mut builder: SortedTableBuilder<K, V> = match self.open_sorted_table(
            &definition,
            options,
        ) {
            Ok(builder) => builder,
            Err(error) => {
                return Err(error);
            },
        };
        let outcome = producer(&mut builder);
        self.close_sorted_table(&definition, builder, outcome)
    }
}

/// A refusal is an error that says the right thing, and an insertion or a build that is not refused
/// returns what it should.
pub proof fn law_results_say_what_they_should<K: Key, V: Value>(
    transaction: TransactionModel,
    name: Seq<char>,
    builder: BuilderModel,
    outcome: Result<(), Error>,
    built: Result<WriteTransaction, Error>,
    inserted: Result<(), Error>,
    expected: (BuilderModel, Result<(), Fault>),
    fault: Fault,
)
    ensures
        refuses(inserted, fault) ==> inserted is Err && inserted->Err_0@ == fault,
        refuses(built, fault) ==> built is Err && built->Err_0@ == fault,
        inserts_as(builder, inserted, expected) ==> {
            &&& builder == expected.0
            &&& inserted is Ok <==> expected.1 is Ok
            &&& inserted is Err ==> inserted->Err_0@ == expected.1->Err_0
        },
        completes_as::<K, V>(transaction, name, builder, outcome, built) ==> {
            let completed = transaction.completed::<K, V>(name, builder);
            &&& outcome is Err ==> built is Err && built->Err_0 == outcome->Err_0
            &&& outcome is Ok && completed is Err ==> built is Err && built->Err_0@
                == completed->Err_0
            &&& outcome is Ok && completed is Ok ==> {
                &&& built is Ok
                &&& built->Ok_0@ == completed->Ok_0
                &&& built->Ok_0@.staged[name].records(built->Ok_0@.store) == builder.records()
            }
        },
{
}

/// A table can be built if there is none of its name, or if the one that the transaction sees is a
/// table with one value for each key, has the same types, and is empty. Else the refusal says which
/// of these does not hold. A table that the transaction has built hides one that was there before.
pub proof fn law_only_empty_tables_are_built<K: Key, V: Value>(
    transaction: TransactionModel,
    name: Seq<char>,
)
    ensures
        ({
            let fault = transaction.open_fault::<K, V>(name);
            let is_staged = transaction.staged.contains_key(name);
            let is_known = is_staged || transaction.committed.contains_key(name);
            let table = if is_staged {
                transaction.staged[name]
            } else {
                transaction.committed[name]
            };
            let has_types = table.key_type == K::name() && table.value_type == V::name();
            let is_empty = table.root is None && table.length == 0;
            &&& transaction.tables().contains_key(name) <==> is_known
            &&& is_known ==> transaction.tables()[name] == table
            &&& fault is None <==> !is_known || (table.table_type is Normal && has_types
                && is_empty)
            &&& is_known && table.table_type is Multimap ==> fault == Some(
                Fault::Table(TableFault::TableIsMultimap(name)),
            )
            &&& is_known && table.table_type is Normal && !has_types ==> fault == Some(
                Fault::Table(
                    TableFault::TableTypeMismatch {
                        table: name,
                        key: table.key_type,
                        value: table.value_type,
                    },
                ),
            )
            &&& is_known && table.table_type is Normal && has_types && !is_empty ==> fault == Some(
                Fault::SortedTableNotEmpty(name),
            )
        }),
{
}

/// A record is refused for its length, or else for its key if that is not greater than the last key
/// that was accepted, or else if the tree cannot take it. A record that is refused for its length
/// or its key does not reach the tree. The last key changes with each record that is accepted, and
/// only then.
pub proof fn law_records_are_refused_for_a_reason<K: Key>(
    builder: BuilderModel,
    key: Seq<u8>,
    value: Seq<u8>,
)
    ensures
        ({
            let (after, result) = builder.insert::<K>(key, value);
            let pair_len = key.len() + value.len();
            let is_too_long = key.len() > 0xc000_0000 || value.len() > 0xc000_0000 || pair_len
                > 0xf000_0000;
            let is_misplaced = builder.last_key is Some && !K::precedes(
                builder.last_key->Some_0,
                key,
            );
            let (bulk, pushed) = builder.bulk.push(key, value);
            &&& pair_len > usize::MAX ==> result == Err::<(), Fault>(
                Fault::Storage(StorageFault::ValueTooLarge(usize::MAX)),
            )
            &&& pair_len <= usize::MAX && key.len() > 0xc000_0000 ==> result == Err::<(), Fault>(
                Fault::Storage(StorageFault::ValueTooLarge(key.len() as usize)),
            )
            &&& pair_len <= usize::MAX && key.len() <= 0xc000_0000 && is_too_long ==> result
                == Err::<(), Fault>(Fault::Storage(StorageFault::ValueTooLarge(pair_len as usize)))
            &&& !is_too_long && is_misplaced ==> result == Err::<(), Fault>(
                Fault::SortedTableKeyOrder,
            )
            &&& is_too_long || is_misplaced ==> after == (BuilderModel { failed: true, ..builder })
            &&& !is_too_long && !is_misplaced ==> {
                &&& after.bulk == bulk
                &&& result is Ok <==> pushed is Ok
                &&& result is Err ==> result == Err::<(), Fault>(Fault::Storage(pushed->Err_0))
            }
            &&& result is Ok ==> after.last_key == Some(key) && after.failed == builder.failed
            &&& result is Err ==> after.last_key == builder.last_key && after.failed
        }),
{
}

/// A build whose records were all accepted fails only if its tree cannot be completed, or if its
/// pages come from elsewhere and there is no room for them. Else the table has the types that it
/// was built with, the root of the completed tree, and the number of its records.
pub proof fn law_builds_fail_for_a_reason<K: Key, V: Value>(
    transaction: TransactionModel,
    name: Seq<char>,
    builder: BuilderModel,
)
    ensures
        ({
            let completed = transaction.completed::<K, V>(name, builder);
            let (bulk, root) = builder.bulk.finish();
            let next = transaction.store.base + transaction.store.pages.len();
            &&& builder.failed ==> completed == Err::<TransactionModel, Fault>(
                Fault::SortedTableBuilderFailed,
            )
            &&& !builder.failed && root is Err ==> completed == Err::<TransactionModel, Fault>(
                Fault::Storage(root->Err_0),
            )
            &&& !builder.failed && root is Ok && completed is Err ==> bulk.store.base != next
                && next + bulk.store.pages.len() > transaction.store.limit && completed
                == Err::<TransactionModel, Fault>(Fault::Storage(StorageFault::OutOfPages))
            &&& completed is Ok ==> {
                let table = completed->Ok_0.staged[name];
                &&& !builder.failed
                &&& root is Ok
                &&& completed->Ok_0.staged.contains_key(name)
                &&& table.table_type is Normal
                &&& table.key_type == K::name()
                &&& table.value_type == V::name()
                &&& table.length == builder.bulk.length as u64
                &&& table.root is Some <==> root->Ok_0 is Some
                &&& table.root is Some ==> table.root->Some_0.checksum
                    == root->Ok_0->Some_0.checksum && table.root->Some_0.length
                    == root->Ok_0->Some_0.length
                &&& table.root is Some && bulk.store.base == next ==> table.root == root->Ok_0
                &&& completed->Ok_0.store.pages.len() == transaction.store.pages.len()
                    + bulk.store.pages.len()
            }
        }),
{
    let (bulk, root) = builder.bulk.finish();
    lemma_moved_to_same_base(bulk.store);
}

/// A transaction that continues is the same transaction: it was begun on the same state of the
/// database, it keeps its pages, and it has built the same tables and one more.
pub proof fn law_transaction_continues(
    before: TransactionModel,
    name: Seq<char>,
    after: TransactionModel,
    number: PageNumber,
)
    requires
        before.continues_as(name, after),
    ensures
        after.dirty,
        after.generation == before.generation,
        after.committed == before.committed,
        after.staged.dom() == before.staged.dom().insert(name),
        forall|other: Seq<char>|
            before.staged.contains_key(other) && other != name ==> #[trigger] after.staged[other]
                == before.staged[other],
        after.store.base == before.store.base,
        after.store.limit == before.store.limit,
        after.store.page_size == before.store.page_size,
        after.store.pages.len() >= before.store.pages.len(),
        before.store.holds(number) ==> after.store.page(number) == before.store.page(number),
        after.staged[name].is_stored_in(after.store),
{
    assert(after.staged.dom() =~= before.staged.dom().insert(name));
}

/// Lengths are refused if the key, the value or both together are too long, and the refusal says
/// the length of the key where that is too long, and else the length of both.
pub proof fn law_lengths_are_refused_for_a_reason(key_len: nat, value_len: nat)
    ensures
        ({
            let fault = length_fault(key_len, value_len);
            let pair_len = key_len + value_len;
            &&& fault is None <==> key_len <= 0xc000_0000 && value_len <= 0xc000_0000 && pair_len
                <= 0xf000_0000
            &&& pair_len > usize::MAX ==> fault == Some(
                Fault::Storage(StorageFault::ValueTooLarge(usize::MAX)),
            )
            &&& fault is Some && pair_len <= usize::MAX && key_len > 0xc000_0000 ==> fault == Some(
                Fault::Storage(StorageFault::ValueTooLarge(key_len as usize)),
            )
            &&& fault is Some && pair_len <= usize::MAX && key_len <= 0xc000_0000 ==> fault == Some(
                Fault::Storage(StorageFault::ValueTooLarge(pair_len as usize)),
            )
        }),
{
}

} // verus!
