//! What a sorted build guarantees to those who produce, commit and read a table.

use vstd::prelude::*;

use crate::branch_packing::branches_are_filled;
use crate::branch_packing::law_accepted_records_waste_nothing;
use crate::branch_packing::lemma_branches_filled_within;
use crate::btree_bulk::effective_target;
use crate::bulk_laws::law_finish_keeps_records;
use crate::bulk_laws::law_initial_state_is_clean;
use crate::bulk_laws::law_push_appends_record;
use crate::bulk_model::waiting;
use crate::catalog::all_stored;
use crate::catalog::lemma_all_stored_within;
use crate::database::DatabaseModel;
use crate::error::Fault;
use crate::error::StorageFault;
use crate::layout::branch_bytes;
use crate::layout::leaf_bytes;
use crate::layout::max_encoded_page;
use crate::layout::MAX_PAIR_LENGTH;
use crate::layout::MAX_VALUE_LENGTH;
use crate::packing::are_filled;
use crate::packing::law_accepted_records_are_packed;
use crate::packing::law_initial_state_is_filled;
use crate::packing::law_initial_state_is_packed;
use crate::packing::lemma_tree_fits;
use crate::packing::push_all;
use crate::packing::tree_fits;
use crate::page::lemma_moved_to_same_base;
use crate::page::Pair;
use crate::page::StoreModel;
use crate::search::is_value_of;
use crate::sorted_table::law_completed_table_holds_records;
use crate::sorted_table::law_insert_keeps_promises;
use crate::sorted_table::BuilderModel;
use crate::sorted_table::TransactionModel;
use crate::success::law_finish_succeeds;
use crate::success::law_push_succeeds;
use crate::tree::lemma_records_below;
use crate::tree::lemma_records_below_within;
use crate::tree::lemma_tree_within;
use crate::types::has_keys_of;
use crate::types::is_sorted;
use crate::types::same_key;
use crate::types::Key;
use crate::types::Value;

verus! {

/// The builder after all records were offered in turn, whether or not some were refused.
pub open spec fn insert_all<K: Key>(builder: BuilderModel, pairs: Seq<Pair>) -> BuilderModel
    decreases pairs.len(),
{
    if pairs.len() == 0 {
        builder
    } else {
        insert_all::<K>(builder, pairs.drop_last()).insert::<K>(pairs.last().0, pairs.last().1).0
    }
}

/// What becomes of a transaction whose producer offers all records in turn and then returns
/// successfully.
pub open spec fn built_from<K: Key, V: Value>(
    transaction: TransactionModel,
    name: Seq<char>,
    target: usize,
    pairs: Seq<Pair>,
) -> Result<TransactionModel, Fault> {
    transaction.completed::<K, V>(
        name,
        insert_all::<K>(transaction.opened::<K, V>(target), pairs),
    )
}

/// A refused record makes the build fail, and nothing that follows makes up for it.
pub proof fn law_failure_is_final<K: Key, V: Value>(
    transaction: TransactionModel,
    name: Seq<char>,
    builder: BuilderModel,
    key: Seq<u8>,
    value: Seq<u8>,
)
    ensures
        builder.insert::<K>(key, value).1 is Err ==> builder.insert::<K>(key, value).0.failed,
        builder.failed ==> builder.insert::<K>(key, value).0.failed,
        builder.failed ==> transaction.completed::<K, V>(name, builder) == Err::<
            TransactionModel,
            Fault,
        >(Fault::SortedTableBuilderFailed),
{
}

/// A failed build stays failed.
proof fn lemma_failed_stays<K: Key>(builder: BuilderModel, pairs: Seq<Pair>, i: int)
    requires
        0 <= i <= pairs.len(),
        insert_all::<K>(builder, pairs.take(i)).failed,
    ensures
        insert_all::<K>(builder, pairs).failed,
    decreases pairs.len() - i,
{
    if i == pairs.len() {
        assert(pairs.take(i) =~= pairs);
    } else {
        assert(pairs.drop_last().take(i) =~= pairs.take(i));
        lemma_failed_stays::<K>(builder, pairs.drop_last(), i);
    }
}

/// A producer that ignores a refusal and returns successfully still gets no table.
pub proof fn law_ignored_refusal_fails_build<K: Key, V: Value>(
    transaction: TransactionModel,
    name: Seq<char>,
    builder: BuilderModel,
    pairs: Seq<Pair>,
    i: int,
)
    requires
        0 <= i < pairs.len(),
        insert_all::<K>(builder, pairs.take(i)).insert::<K>(pairs[i].0, pairs[i].1).1 is Err,
    ensures
        transaction.completed::<K, V>(name, insert_all::<K>(builder, pairs)) == Err::<
            TransactionModel,
            Fault,
        >(Fault::SortedTableBuilderFailed),
{
    assert(pairs.take(i + 1).drop_last() =~= pairs.take(i));
    lemma_failed_stays::<K>(builder, pairs, i + 1);
}

/// The state of a build over a stream, as long as no record is refused.
proof fn lemma_stream<K: Key, V: Value>(
    transaction: TransactionModel,
    target: usize,
    pairs: Seq<Pair>,
)
    requires
        has_keys_of::<K>(pairs),
    ensures
        ({
            let after = insert_all::<K>(transaction.opened::<K, V>(target), pairs);
            &&& after.is_valid::<K, V>()
            &&& !after.failed ==> {
                &&& after.records() == pairs
                &&& after.bulk.store.base == transaction.store.next()
            }
        }),
    decreases pairs.len(),
{
    let fresh = transaction.opened::<K, V>(target);
    if pairs.len() == 0 {
        law_initial_state_is_clean::<K, V>(fresh.bulk.store, target as nat);
        law_initial_state_is_packed::<K, V>(fresh.bulk.store, target as nat);
        law_initial_state_is_filled::<K, V>(fresh.bulk.store, target as nat);
        assert(fresh.records() =~= pairs);
    } else {
        let (key, value) = pairs.last();
        let before = insert_all::<K>(fresh, pairs.drop_last());
        assert forall|i: int| 0 <= i < pairs.drop_last().len() implies K::is_encoding(
            #[trigger] pairs.drop_last()[i].0,
        ) by {
            assert(K::is_encoding(pairs[i].0));
        }
        lemma_stream::<K, V>(transaction, target, pairs.drop_last());
        assert(K::is_encoding(pairs[pairs.len() - 1].0));
        law_insert_keeps_promises::<K, V>(before, key, value);
        let after = insert_all::<K>(fresh, pairs);
        if !after.failed {
            assert(after.records() =~= pairs);
            law_push_appends_record(before.bulk, key, value);
        }
    }
}

/// A table holds what its producer has inserted: if a build over a stream completes, the keys of
/// the stream increase strictly, the table holds the stream and nothing else, and nothing else
/// about the transaction changes.
pub proof fn law_table_holds_its_stream<K: Key, V: Value>(
    transaction: TransactionModel,
    name: Seq<char>,
    target: usize,
    pairs: Seq<Pair>,
)
    requires
        transaction.is_valid(),
        has_keys_of::<K>(pairs),
        built_from::<K, V>(transaction, name, target, pairs) is Ok,
    ensures
        ({
            let after = built_from::<K, V>(transaction, name, target, pairs)->Ok_0;
            &&& is_sorted::<K>(pairs)
            &&& transaction.continues_as(name, after)
            &&& after.tables().contains_key(name)
            &&& after.tables()[name].records(after.store) == pairs
            &&& after.tables()[name].length == pairs.len()
        }),
{
    let built = insert_all::<K>(transaction.opened::<K, V>(target), pairs);
    lemma_stream::<K, V>(transaction, target, pairs);
    law_completed_table_holds_records::<K, V>(transaction, name, built);
}

/// A build touches one table: every other table that the transaction sees is the same before and
/// after.
pub proof fn law_other_tables_are_untouched(
    transaction: TransactionModel,
    name: Seq<char>,
    after: TransactionModel,
    other: Seq<char>,
)
    requires
        transaction.continues_as(name, after),
        other != name,
    ensures
        after.tables().contains_key(other) <==> transaction.tables().contains_key(other),
        after.tables().contains_key(other) ==> after.tables()[other]
            == transaction.tables()[other],
        transaction.staged.contains_key(other) ==> after.staged[other].records(after.store)
            == transaction.staged[other].records(transaction.store),
{
    assert(after.staged.contains_key(other) <==> transaction.staged.contains_key(other));
}

/// A stream whose keys do not increase strictly does not become a table.
pub proof fn law_unsorted_stream_fails<K: Key, V: Value>(
    transaction: TransactionModel,
    name: Seq<char>,
    target: usize,
    pairs: Seq<Pair>,
)
    requires
        has_keys_of::<K>(pairs),
        !is_sorted::<K>(pairs),
    ensures
        built_from::<K, V>(transaction, name, target, pairs) == Err::<TransactionModel, Fault>(
            Fault::SortedTableBuilderFailed,
        ),
{
    lemma_stream::<K, V>(transaction, target, pairs);
}

/// Every record is one that a table accepts, with a key of at most `longest` bytes.
pub open spec fn are_acceptable<K: Key, V: Value>(pairs: Seq<Pair>, longest: nat) -> bool {
    forall|i: int|
        #![trigger pairs[i]]
        0 <= i < pairs.len() ==> {
            &&& K::is_encoding(pairs[i].0)
            &&& pairs[i].0.len() <= longest
            &&& pairs[i].0.len() <= MAX_VALUE_LENGTH
            &&& pairs[i].1.len() <= MAX_VALUE_LENGTH
            &&& pairs[i].0.len() + pairs[i].1.len() <= MAX_PAIR_LENGTH
            &&& leaf_bytes(1, pairs[i].0.len() + pairs[i].1.len(), K::width(), V::width())
                <= max_encoded_page()
        }
}

/// The state of a build over an acceptable stream, while there are pages.
proof fn lemma_acceptable_stream<K: Key, V: Value>(
    transaction: TransactionModel,
    target: usize,
    pairs: Seq<Pair>,
    remaining: nat,
    longest: nat,
)
    requires
        is_sorted::<K>(pairs),
        are_acceptable::<K, V>(pairs, longest),
        branch_bytes(2, 2 * longest, K::width()) <= max_encoded_page(),
        transaction.store.next() + 2 * (pairs.len() + remaining) <= transaction.store.limit,
        pairs.len() + remaining <= u64::MAX,
    ensures
        ({
            let after = insert_all::<K>(transaction.opened::<K, V>(target), pairs);
            &&& !after.failed
            &&& after.bulk.has_pages_for(remaining, longest)
        }),
    decreases pairs.len(),
{
    let fresh = transaction.opened::<K, V>(target);
    if pairs.len() == 0 {
        assert(waiting(fresh.bulk.levels) == 0);
        law_initial_state_is_packed::<K, V>(fresh.bulk.store, target as nat);
    } else {
        let shorter = pairs.drop_last();
        let (key, value) = pairs.last();
        let before = insert_all::<K>(fresh, shorter);
        assert forall|i: int, j: int| 0 <= i < j < shorter.len() implies K::precedes(
            #[trigger] shorter[i].0,
            #[trigger] shorter[j].0,
        ) by {
            assert(K::precedes(pairs[i].0, pairs[j].0));
        }
        assert(are_acceptable::<K, V>(shorter, longest)) by {
            assert forall|i: int|
                #![trigger shorter[i]]
                0 <= i < shorter.len() implies K::is_encoding(shorter[i].0) && shorter[i].0.len()
                <= longest && shorter[i].0.len() <= MAX_VALUE_LENGTH && shorter[i].1.len()
                <= MAX_VALUE_LENGTH && shorter[i].0.len() + shorter[i].1.len() <= MAX_PAIR_LENGTH
                && leaf_bytes(1, shorter[i].0.len() + shorter[i].1.len(), K::width(), V::width())
                <= max_encoded_page() by {
                assert(shorter[i] == pairs[i]);
            }
        }
        lemma_acceptable_stream::<K, V>(
            transaction,
            target,
            shorter,
            remaining + 1,
            longest,
        );
        assert(has_keys_of::<K>(shorter)) by {
            assert forall|i: int| 0 <= i < shorter.len() implies K::is_encoding(
                #[trigger] shorter[i].0,
            ) by {
                assert(K::is_encoding(pairs[i].0));
            }
        }
        lemma_stream::<K, V>(transaction, target, shorter);
        assert(pairs[pairs.len() - 1] == (key, value));
        if shorter.len() > 0 {
            assert(before.last_key == Some(pairs[pairs.len() - 2].0));
            assert(K::precedes(pairs[pairs.len() - 2].0, pairs[pairs.len() - 1].0));
        }
        law_push_succeeds(
            before.bulk,
            key,
            value,
            remaining + 1,
            longest,
            0,
        );
    }
}

/// A strictly sorted stream of acceptable records becomes a table, if there are two pages for each
/// record and a branch page can hold two of the longest keys.
pub proof fn law_sorted_stream_succeeds<K: Key, V: Value>(
    transaction: TransactionModel,
    name: Seq<char>,
    target: usize,
    pairs: Seq<Pair>,
    longest: nat,
)
    requires
        is_sorted::<K>(pairs),
        are_acceptable::<K, V>(pairs, longest),
        branch_bytes(2, 2 * longest, K::width()) <= max_encoded_page(),
        transaction.store.next() + 2 * pairs.len() <= transaction.store.limit,
        pairs.len() <= u64::MAX,
    ensures
        built_from::<K, V>(transaction, name, target, pairs) is Ok,
{
    let built = insert_all::<K>(transaction.opened::<K, V>(target), pairs);
    assert(has_keys_of::<K>(pairs)) by {
        assert forall|i: int| 0 <= i < pairs.len() implies K::is_encoding(
            #[trigger] pairs[i].0,
        ) by {
            assert(pairs[i] == pairs[i]);
        }
    }
    lemma_acceptable_stream::<K, V>(transaction, target, pairs, 0, longest);
    lemma_stream::<K, V>(transaction, target, pairs);
    law_finish_succeeds(built.bulk, longest);
    law_finish_keeps_records(built.bulk);
}

/// An empty stream becomes an empty table, even without pages.
pub proof fn law_empty_stream_becomes_empty_table<K: Key, V: Value>(
    transaction: TransactionModel,
    name: Seq<char>,
    target: usize,
)
    ensures
        ({
            let completed = built_from::<K, V>(transaction, name, target, Seq::empty());
            &&& completed is Ok
            &&& completed->Ok_0.store == transaction.store
            &&& completed->Ok_0.staged.contains_key(name)
            &&& completed->Ok_0.staged[name].root is None
            &&& completed->Ok_0.staged[name].length == 0
        }),
{
    let completed = built_from::<K, V>(transaction, name, target, Seq::empty());
    assert(completed->Ok_0.store.pages =~= transaction.store.pages);
}

/// A table that was built with records is not built again. One that was built without records
/// counts as empty, and can be built again.
pub proof fn law_built_table_is_not_built_again<K: Key, V: Value>(
    transaction: TransactionModel,
    name: Seq<char>,
    builder: BuilderModel,
)
    requires
        transaction.is_valid(),
        builder.is_valid::<K, V>(),
        transaction.completed::<K, V>(name, builder) is Ok,
    ensures
        transaction.completed::<K, V>(name, builder)->Ok_0.open_fault::<K, V>(name)
            == if builder.records().len() > 0 {
            Some(Fault::SortedTableNotEmpty(name))
        } else {
            None
        },
{
    law_completed_table_holds_records::<K, V>(transaction, name, builder);
}

/// A commit publishes every table that the transaction has built, with its records, and leaves all
/// other tables as they were.
pub proof fn law_commit_publishes_tables(database: DatabaseModel, transaction: TransactionModel)
    requires
        database.is_valid(),
        transaction.is_valid(),
        transaction.dirty,
        database.is_current(transaction),
    ensures
        ({
            let after = database.committed(transaction);
            &&& after.is_valid()
            &&& forall|name: Seq<char>|
                transaction.staged.contains_key(name) ==> after.tables.contains_key(name) && (
                #[trigger] after.tables[name]).records(after.store)
                    == transaction.staged[name].records(transaction.store)
            &&& forall|name: Seq<char>|
                !transaction.staged.contains_key(name) ==> (after.tables.contains_key(name)
                    <==> database.tables.contains_key(name))
            &&& forall|name: Seq<char>|
                database.tables.contains_key(name) && !transaction.staged.contains_key(name) ==> (
                #[trigger] after.tables[name]).records(after.store)
                    == database.tables[name].records(database.store)
        }),
{
    let after = database.committed(transaction);
    assert(database.store.within(after.store));
    assert(transaction.store.within(after.store));
    lemma_all_stored_within(database.tables, database.store, after.store);
    lemma_all_stored_within(transaction.staged, transaction.store, after.store);
    assert forall|name: Seq<char>| after.tables.contains_key(name) implies (
    #[trigger] after.tables[name]).is_stored_in(after.store) by {
        if transaction.staged.contains_key(name) {
            assert(transaction.staged[name].is_stored_in(after.store));
        } else {
            assert(database.tables[name].is_stored_in(after.store));
        }
    }
    assert forall|name: Seq<char>|
        transaction.staged.contains_key(name) implies after.tables.contains_key(name) && (
    #[trigger] after.tables[name]).records(after.store) == transaction.staged[name].records(
        transaction.store,
    ) by {
        assert(after.tables[name] == transaction.staged[name]);
    }
    assert forall|name: Seq<char>|
        database.tables.contains_key(name) && !transaction.staged.contains_key(name) implies (
    #[trigger] after.tables[name]).records(after.store) == database.tables[name].records(
        database.store,
    ) by {
        assert(after.tables[name] == database.tables[name]);
    }
}

/// A read gives back what was written: the value that sorted records hold for one of their keys is
/// the value that was inserted with it.
pub proof fn law_read_gives_back_written_value<K: Key>(
    pairs: Seq<Pair>,
    i: int,
    value: Option<Seq<u8>>,
)
    requires
        is_sorted::<K>(pairs),
        0 <= i < pairs.len(),
        is_value_of::<K>(pairs, pairs[i].0, value),
    ensures
        value == Some(pairs[i].1),
{
    K::precedes_irreflexive(pairs[i].0);
    assert(same_key::<K>(pairs[i].0, pairs[i].0));
    match value {
        Some(bytes) => {
            let j = choose|j: int|
                0 <= j < pairs.len() && same_key::<K>(#[trigger] pairs[j].0, pairs[i].0)
                    && pairs[j].1 == bytes;
            if j < i {
                assert(K::precedes(pairs[j].0, pairs[i].0));
            } else if i < j {
                assert(K::precedes(pairs[i].0, pairs[j].0));
            }
        },
        None => {},
    }
}

/// Pages are packed for the size that was asked for or the size that the database prefers,
/// whichever is larger, up to the longest pair and the largest page.
pub proof fn law_target_is_at_least_asked_for(target: nat, page_size: nat)
    ensures
        ({
            let packed_for = effective_target(target, page_size);
            &&& packed_for <= MAX_PAIR_LENGTH
            &&& packed_for <= max_encoded_page()
            &&& packed_for >= target || packed_for == MAX_PAIR_LENGTH || packed_for
                == max_encoded_page()
            &&& packed_for >= page_size || packed_for == MAX_PAIR_LENGTH || packed_for
                == max_encoded_page()
            &&& packed_for <= target || packed_for <= page_size
        }),
{
}

/// A build starts without records, in the types of its table, and packs for the size that was asked
/// for, whatever the types are.
pub proof fn law_build_starts_with_the_options<K: Key, V: Value>(
    transaction: TransactionModel,
    target: usize,
)
    ensures
        ({
            let fresh = transaction.opened::<K, V>(target);
            let packed_for = fresh.bulk.target;
            let page_size = transaction.store.page_size;
            &&& fresh.records().len() == 0
            &&& fresh.last_key is None
            &&& !fresh.failed
            &&& fresh.bulk.key_width == K::width()
            &&& fresh.bulk.value_width == V::width()
            &&& fresh.bulk.length == 0
            &&& fresh.bulk.store.pages.len() == 0
            &&& fresh.bulk.store.next() == transaction.store.next()
            &&& fresh.bulk.store.limit == transaction.store.limit
            &&& target <= MAX_PAIR_LENGTH && target <= max_encoded_page() && target >= page_size
                ==> packed_for == target
            &&& page_size <= MAX_PAIR_LENGTH && page_size <= max_encoded_page() && target
                <= page_size ==> packed_for == page_size
            &&& target > MAX_PAIR_LENGTH || target > max_encoded_page() || page_size
                > MAX_PAIR_LENGTH || page_size > max_encoded_page() ==> packed_for
                == MAX_PAIR_LENGTH || packed_for == max_encoded_page()
            &&& packed_for <= MAX_PAIR_LENGTH
            &&& packed_for <= max_encoded_page()
        }),
{
    let fresh = transaction.opened::<K, V>(target);
    law_initial_state_is_clean::<K, V>(fresh.bulk.store, target as nat);
}

/// A build whose records were all accepted has added them in turn.
proof fn lemma_insert_all_pushes<K: Key, V: Value>(
    transaction: TransactionModel,
    target: usize,
    pairs: Seq<Pair>,
)
    requires
        !insert_all::<K>(transaction.opened::<K, V>(target), pairs).failed,
    ensures
        push_all(transaction.opened::<K, V>(target).bulk, pairs) == (
            insert_all::<K>(transaction.opened::<K, V>(target), pairs).bulk,
            Ok::<(), StorageFault>(()),
        ),
    decreases pairs.len(),
{
    if pairs.len() > 0 {
        lemma_insert_all_pushes::<K, V>(transaction, target, pairs.drop_last());
    }
}

/// A table is packed for the size that was asked for, whatever its types are:
/// - its pages keep within that size, except for a leaf with a single record or a branch with two
///   or three children;
/// - no leaf but the last could take the first record of the next leaf as well;
/// - a branch that is not the last of its height could take the first child of the next branch as
///   well, unless it has two children only, but not the first two;
/// - the build has added the pages of the table and no others.
pub proof fn law_table_is_packed_for_its_target<K: Key, V: Value>(
    transaction: TransactionModel,
    name: Seq<char>,
    target: usize,
    pairs: Seq<Pair>,
)
    requires
        has_keys_of::<K>(pairs),
        pairs.len() > 0,
        built_from::<K, V>(transaction, name, target, pairs) is Ok,
    ensures
        ({
            let after = built_from::<K, V>(transaction, name, target, pairs)->Ok_0;
            let packed_for = effective_target(target as nat, transaction.store.page_size);
            &&& after.staged[name].root matches Some(header) && {
                let height = after.store.height_of(header.root);
                &&& after.store.is_tree(header.root, height)
                &&& after.store.leaves_below(header.root).flatten() == pairs
                &&& tree_fits(
                    after.store,
                    header.root,
                    height,
                    K::width(),
                    V::width(),
                    packed_for,
                )
                &&& are_filled(
                    after.store.leaves_below(header.root),
                    K::width(),
                    V::width(),
                    packed_for,
                )
                &&& branches_are_filled(
                    after.store,
                    header.root,
                    height,
                    K::width(),
                    packed_for,
                )
                &&& after.store.pages.len() == transaction.store.pages.len()
                    + after.store.page_count(header.root, height)
            }
        }),
{
    let after = built_from::<K, V>(transaction, name, target, pairs)->Ok_0;
    let fresh = transaction.opened::<K, V>(target);
    let built = insert_all::<K>(fresh, pairs);
    let empty = fresh.bulk.store;
    let (finished, root) = built.bulk.finish();
    let root = root->Ok_0;
    let pages = finished.store;
    lemma_stream::<K, V>(transaction, target, pairs);
    lemma_insert_all_pushes::<K, V>(transaction, target, pairs);
    law_finish_keeps_records(built.bulk);
    law_accepted_records_are_packed::<K, V>(empty, target as nat, pairs);
    law_accepted_records_waste_nothing::<K, V>(empty, target as nat, pairs);
    lemma_moved_to_same_base(pages);
    let header = root->Some_0;
    let height = pages.height_of(header.root);
    let packed_for = effective_target(target as nat, transaction.store.page_size);
    assert(pages.within(after.store));
    lemma_records_below_within(pages, after.store, header.root);
    lemma_tree_within(pages, after.store, header.root, height);
    lemma_records_below(after.store, header.root, height);
    lemma_branches_filled_within(
        pages,
        after.store,
        header.root,
        height,
        K::width(),
        packed_for,
    );
    lemma_tree_fits(
        pages,
        after.store,
        header.root,
        height,
        K::width(),
        V::width(),
        packed_for,
    );
}

/// What a transaction is right after it has begun on a database.
pub open spec fn begun_on(database: DatabaseModel) -> TransactionModel {
    TransactionModel {
        store: StoreModel {
            base: database.store.base + database.store.pages.len(),
            pages: Seq::empty(),
            ..database.store
        },
        committed: database.tables,
        staged: Map::empty(),
        generation: database.generation,
        dirty: false,
    }
}

/// The transactions lead from one to the next by builds of the named tables.
pub open spec fn are_successive_builds(
    states: Seq<TransactionModel>,
    names: Seq<Seq<char>>,
) -> bool {
    &&& states.len() == names.len() + 1
    &&& forall|i: int, j: int|
        0 <= i < names.len() && j == i + 1 ==> (#[trigger] states[i]).continues_as(
            names[i],
            #[trigger] states[j],
        )
}

/// What a transaction has built after successive builds.
proof fn lemma_successive_builds(
    database: DatabaseModel,
    states: Seq<TransactionModel>,
    names: Seq<Seq<char>>,
)
    requires
        are_successive_builds(states, names),
        states[0] == begun_on(database),
    ensures
        ({
            let last = states.last();
            &&& last.is_valid()
            &&& last.generation == database.generation
            &&& last.store.base == database.store.base + database.store.pages.len()
            &&& last.dirty <==> names.len() > 0
            &&& forall|name: Seq<char>|
                last.staged.contains_key(name) <==> #[trigger] names.contains(name)
        }),
    decreases names.len(),
{
    if names.len() > 0 {
        let shorter = states.drop_last();
        let fewer = names.drop_last();
        let last = states.len() - 1;
        assert forall|i: int, j: int| 0 <= i < fewer.len() && j == i + 1 implies (
        #[trigger] shorter[i]).continues_as(fewer[i], #[trigger] shorter[j]) by {
            assert(states[i].continues_as(names[i], states[j]));
        }
        lemma_successive_builds(database, shorter, fewer);
        assert(states[last - 1].continues_as(names[last - 1], states[last]));
        assert(shorter.last() == states[last - 1]);
        assert forall|name: Seq<char>|
            states.last().staged.contains_key(name) <==> #[trigger] names.contains(name) by {
            assert(names =~= fewer.push(names[last - 1]));
            if fewer.contains(name) {
                let i = fewer.index_of(name);
                assert(names[i] == name);
            }
            if names.contains(name) && name != names[last - 1] {
                let i = names.index_of(name);
                assert(fewer[i] == name);
            }
            assert(names.contains(names[last - 1]));
        }
    } else {
        assert forall|name: Seq<char>|
            states.last().staged.contains_key(name) <==> #[trigger] names.contains(name) by {}
    }
}

/// A transaction commits to the database on which it was begun as long as that has not changed,
/// however many tables it has built and however often the database was written before. The commit
/// publishes every table that was built, as it was built, and leaves all other tables alone.
pub proof fn law_transaction_commits_where_it_began(
    database: DatabaseModel,
    states: Seq<TransactionModel>,
    names: Seq<Seq<char>>,
    name: Seq<char>,
)
    requires
        database.is_valid(),
        are_successive_builds(states, names),
        states[0] == begun_on(database),
    ensures
        ({
            let last = states.last();
            let after = database.committed(last);
            &&& database.is_current(last)
            &&& after.is_valid()
            &&& names.len() == 0 ==> after == database
            &&& names.len() > 0 ==> after.generation != database.generation
            &&& names.contains(name) ==> {
                &&& after.tables.contains_key(name)
                &&& after.tables[name] == last.staged[name]
                &&& after.tables[name].records(after.store) == last.staged[name].records(
                    last.store,
                )
            }
            &&& !names.contains(name) ==> {
                &&& after.tables.contains_key(name) <==> database.tables.contains_key(name)
                &&& after.tables.contains_key(name) ==> after.tables[name]
                    == database.tables[name] && after.tables[name].records(after.store)
                    == database.tables[name].records(database.store)
            }
            &&& after.store.page_size == database.store.page_size
            &&& after.store.limit == database.store.limit
            &&& after.store.pages.len() == database.store.pages.len() + if names.len() > 0 {
                last.store.pages.len()
            } else {
                0
            }
        }),
{
    lemma_successive_builds(database, states, names);
    let last = states.last();
    if names.len() > 0 {
        law_commit_publishes_tables(database, last);
    }
    assert(last.staged.contains_key(name) <==> names.contains(name));
}

/// A transaction that was begun before another commit is not committed.
pub proof fn law_changed_database_refuses(
    database: DatabaseModel,
    first: TransactionModel,
    second: TransactionModel,
)
    requires
        first.dirty,
        database.is_current(first),
        database.is_current(second),
    ensures
        !database.committed(first).is_current(second),
{
}

/// A database and a transaction that agree on the state on which the transaction was begun are all
/// that a commit asks for.
pub proof fn law_current_means_begun_on_this_state(
    database: DatabaseModel,
    transaction: TransactionModel,
)
    ensures
        database.is_current(transaction) <==> transaction.generation == database.generation
            && transaction.store.base == database.store.base + database.store.pages.len(),
        database.is_valid() <==> database.store.base == 0 && all_stored(
            database.tables,
            database.store,
        ),
        transaction.is_valid() <==> all_stored(transaction.staged, transaction.store),
{
}

/// What was inserted is read back: a stream that becomes a table and is committed is found in the
/// database under its name and with its types, and a read of each key gives the value that was
/// inserted with it.
pub proof fn law_committed_stream_is_read_back<K: Key, V: Value>(
    database: DatabaseModel,
    name: Seq<char>,
    target: usize,
    pairs: Seq<Pair>,
    i: int,
    value: Option<Seq<u8>>,
)
    requires
        database.is_valid(),
        has_keys_of::<K>(pairs),
        0 <= i < pairs.len(),
        built_from::<K, V>(begun_on(database), name, target, pairs) is Ok,
        ({
            let built = built_from::<K, V>(begun_on(database), name, target, pairs)->Ok_0;
            let after = database.committed(built);
            is_value_of::<K>(after.tables[name].records(after.store), pairs[i].0, value)
        }),
    ensures
        ({
            let built = built_from::<K, V>(begun_on(database), name, target, pairs)->Ok_0;
            let after = database.committed(built);
            &&& database.is_current(built)
            &&& after.tables.contains_key(name)
            &&& after.tables[name].table_type is Normal
            &&& after.tables[name].key_type == K::name()
            &&& after.tables[name].value_type == V::name()
            &&& after.tables[name].length == pairs.len()
            &&& after.tables[name].records(after.store) == pairs
            &&& value == Some(pairs[i].1)
        }),
{
    let begun = begun_on(database);
    let built = built_from::<K, V>(begun, name, target, pairs)->Ok_0;
    law_table_holds_its_stream::<K, V>(begun, name, target, pairs);
    law_transaction_commits_where_it_began(database, seq![begun, built], seq![name], name);
    assert(seq![name][0] == name);
    law_read_gives_back_written_value::<K>(pairs, i, value);
}

} // verus!
