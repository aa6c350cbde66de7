//! When a bottom-up build succeeds.

use vstd::prelude::*;

use crate::bulk_laws::law_clean_build_can_finish;
use crate::bulk_laws::lemma_close_leaf_records;
use crate::bulk_model::branch_size;
use crate::bulk_model::empty_level;
use crate::bulk_model::is_full;
use crate::bulk_model::key_bytes;
use crate::bulk_model::lemma_close_leaf_levels;
use crate::bulk_model::lemma_push_child_levels;
use crate::bulk_model::lemma_waiting_push_empty;
use crate::bulk_model::lemma_waiting_update;
use crate::bulk_model::waiting;
use crate::bulk_model::BulkModel;
use crate::bulk_model::ChildModel;
use crate::bulk_model::LevelModel;
use crate::error::StorageFault;
use crate::layout::branch_bytes;
use crate::layout::leaf_bytes;
use crate::layout::lemma_branch_bytes_monotone;
use crate::layout::max_encoded_page;
use crate::packing::leaf_size;
use crate::packing::lemma_full_monotone;
use crate::packing::lemma_leaf_push;
use crate::packing::level_fits;
use crate::page::BtreeHeader;
use crate::page::PageModel;
use crate::page::PageNumber;
use crate::page::Pair;

verus! {

/// The largest keys of all children have at most `longest` bytes.
pub open spec fn has_short_keys(children: Seq<ChildModel>, longest: nat) -> bool {
    forall|i: int| 0 <= i < children.len() ==> (#[trigger] children[i]).max_key.len() <= longest
}

impl BulkModel {
    /// The largest keys of all waiting children have at most `longest` bytes.
    pub open spec fn levels_have_short_keys(self, longest: nat) -> bool {
        forall|i: int|
            0 <= i < self.levels.len() ==> has_short_keys(
                (#[trigger] self.levels[i]).children,
                longest,
            )
    }

    /// Waiting children have keys of at most `longest` bytes, and a branch page can hold two such
    /// keys.
    pub open spec fn branches_can_hold(self, longest: nat) -> bool {
        &&& self.target <= max_encoded_page()
        &&& branch_bytes(2, 2 * longest, self.key_width) <= max_encoded_page()
        &&& self.levels_fit()
        &&& self.levels_have_short_keys(longest)
    }
}

/// The branch page over children that fit, or over at most three, can be encoded.
proof fn lemma_branch_can_hold(
    children: Seq<ChildModel>,
    key_width: Option<usize>,
    target: nat,
    longest: nat,
)
    requires
        children.len() >= 2,
        children.len() <= 3 || !is_full(children.drop_last(), key_width, target),
        has_short_keys(children, longest),
        target <= max_encoded_page(),
        branch_bytes(2, 2 * longest, key_width) <= max_encoded_page(),
    ensures
        branch_size(children, key_width) <= max_encoded_page(),
{
    if children.len() <= 3 {
        let keys = children.drop_last();
        reveal_with_fuel(key_bytes, 3);
        assert(keys[0] == children[0]);
        assert(keys.last() == children[keys.len() - 1]);
        if keys.len() == 2 {
            assert(keys.drop_last()[0] == children[0]);
            assert(keys.drop_last().last() == children[0]);
        }
        assert(key_bytes(keys) <= 2 * longest);
        lemma_branch_bytes_monotone(keys.len(), key_bytes(keys), 2, 2 * longest, key_width);
    }
}

/// Adding a subtree succeeds while there is a page for every child that waits.
proof fn lemma_push_child_succeeds(
    state: BulkModel,
    level: nat,
    child: ChildModel,
    longest: nat,
)
    requires
        level <= state.levels.len(),
        state.branches_can_hold(longest),
        child.max_key.len() <= longest,
        state.store.next() + waiting(state.levels) + 1 <= state.store.limit,
    ensures
        ({
            let (after, result) = state.push_child(level, child);
            &&& result is Ok
            &&& after == (BulkModel { store: after.store, levels: after.levels, ..state })
            &&& after.branches_can_hold(longest)
            &&& after.store.limit == state.store.limit
            &&& after.store.next() + waiting(after.levels) <= state.store.next() + waiting(
                state.levels,
            ) + 1
        }),
    decreases state.levels.len() - level,
{
    let all = state.with_levels_to(level);
    let here = all.levels[level as int];
    if level == state.levels.len() {
        assert(all.levels =~= state.levels.push(empty_level()));
        lemma_waiting_push_empty(state.levels);
    }
    if here.children.len() >= 3 && is_full(here.children, state.key_width, state.target) {
        let kept = LevelModel { children: seq![here.children.last(), child], emitted: true };
        let group = here.children.drop_last();
        let marked = all.with_level(level as int, kept);
        lemma_waiting_update(all.levels, level as int, kept);
        assert(level_fits(state.levels[level as int], state.key_width, state.target));
        assert(has_short_keys(state.levels[level as int].children, longest));
        if here.children.len() > 3 {
            lemma_full_monotone(group, state.key_width, state.target);
        }
        assert forall|i: int| 0 <= i < group.len() implies (#[trigger] group[i]).max_key.len()
            <= longest by {
            assert(group[i] == here.children[i]);
        }
        lemma_branch_can_hold(group, state.key_width, state.target, longest);
        let (built, parent) = marked.build_branch(group);
        assert(here.children[here.children.len() - 1].max_key.len() <= longest);
        assert(has_short_keys(kept.children, longest));
        assert(built.levels_fit());
        assert(built.levels_have_short_keys(longest));
        assert(group[group.len() - 1].max_key.len() <= longest);
        lemma_push_child_succeeds(built, level + 1, parent->Ok_0, longest);
    } else {
        let grown = LevelModel { children: here.children.push(child), ..here };
        lemma_waiting_update(all.levels, level as int, grown);
        assert(grown.children.drop_last() =~= here.children);
        assert(level_fits(grown, state.key_width, state.target));
        if level < state.levels.len() {
            assert(has_short_keys(state.levels[level as int].children, longest));
        }
        assert(has_short_keys(grown.children, longest));
    }
}

/// The keys of all records have at most `longest` bytes.
pub open spec fn has_short_record_keys(pairs: Seq<Pair>, longest: nat) -> bool {
    forall|i: int| 0 <= i < pairs.len() ==> (#[trigger] pairs[i]).0.len() <= longest
}

/// Writing the current leaf out succeeds while there are pages.
proof fn lemma_close_leaf_succeeds(state: BulkModel, longest: nat)
    requires
        state.leaf.len() > 0,
        state.branches_can_hold(longest),
        has_short_record_keys(state.leaf, longest),
        state.store.next() + waiting(state.levels) + 2 <= state.store.limit,
    ensures
        ({
            let (after, result) = state.close_leaf();
            &&& result is Ok
            &&& after.branches_can_hold(longest)
            &&& after.leaf.len() == 0
            &&& after.store.limit == state.store.limit
            &&& after.length == state.length
            &&& after.store.next() + waiting(after.levels) <= state.store.next() + waiting(
                state.levels,
            ) + 2
            &&& after.leaf_key_bytes == 0
            &&& after.leaf_value_bytes == 0
        }),
{
    let written = BulkModel {
        store: state.store.with_page(PageModel::Leaf { pairs: state.leaf }),
        leaf: Seq::empty(),
        leaf_key_bytes: 0,
        leaf_value_bytes: 0,
        ..state
    };
    let child = ChildModel {
        page: PageNumber { index: state.store.next() as usize },
        max_key: state.leaf.last().0,
    };
    assert(state.leaf[state.leaf.len() - 1].0.len() <= longest);
    lemma_push_child_succeeds(written, 0, child, longest);
}

impl BulkModel {
    /// There is a page for everything that waits, and two for each of the `remaining` records to
    /// come; and all keys have at most `longest` bytes.
    pub open spec fn has_pages_for(self, remaining: nat, longest: nat) -> bool {
        &&& self.branches_can_hold(longest)
        &&& has_short_record_keys(self.leaf, longest)
        &&& self.store.next() + waiting(self.levels) + 2 * (self.leaf.len() + remaining)
            <= self.store.limit
        &&& self.length + remaining <= u64::MAX
    }
}

/// With two pages for each record, a record that a page can hold is accepted.
pub proof fn law_push_succeeds(
    state: BulkModel,
    key: Seq<u8>,
    value: Seq<u8>,
    remaining: nat,
    longest: nat,
    first: nat,
)
    requires
        state.is_clean(),
        state.is_packed(first),
        remaining > 0,
        state.has_pages_for(remaining, longest),
        key.len() <= longest,
        leaf_bytes(1, key.len() + value.len(), state.key_width, state.value_width)
            <= max_encoded_page(),
    ensures
        state.push(key, value).1 is Ok,
        state.push(key, value).0.has_pages_for((remaining - 1) as nat, longest),
{
    let closed = if state.must_close(key, value) {
        lemma_close_leaf_succeeds(state, longest);
        state.close_leaf().0
    } else {
        state
    };
    let after = state.push(key, value).0;
    assert(closed.append(key, value).1 is Ok);
    assert(after.levels == closed.levels);
    assert forall|i: int| 0 <= i < after.leaf.len() implies (#[trigger] after.leaf[i]).0.len()
        <= longest by {
        if i < closed.leaf.len() {
            assert(after.leaf[i] == closed.leaf[i]);
        }
    }
}

/// Completing the levels succeeds while there is a page for every child that waits.
proof fn lemma_finish_levels_succeeds(state: BulkModel, level: nat, longest: nat)
    requires
        state.can_finish_from(level),
        state.branches_can_hold(longest),
        state.store.next() + waiting(state.levels) <= state.store.limit,
    ensures
        state.finish_levels(level).1 is Ok,
    decreases waiting(state.levels.skip(level as int)),
{
    let here = state.levels[level as int];
    let rest = state.with_level(level as int, LevelModel { children: Seq::empty(), ..here });
    assert(here == state.levels.skip(level as int)[0]);
    if !here.emitted && here.children.len() == 1 {
    } else {
        let emptied = LevelModel { children: Seq::empty(), emitted: true };
        assert(level_fits(here, state.key_width, state.target));
        assert(has_short_keys(here.children, longest));
        lemma_branch_can_hold(here.children, state.key_width, state.target, longest);
        lemma_waiting_update(state.levels, level as int, emptied);
        let (built, parent) = rest.build_branch(here.children);
        let parent = parent->Ok_0;
        let before = built.with_level(level as int, emptied);
        assert(before.levels =~= state.levels.update(level as int, emptied));
        assert(before.levels_fit());
        assert(before.levels_have_short_keys(longest));
        assert(here.children[here.children.len() - 1].max_key.len() <= longest);
        lemma_push_child_succeeds(before, level + 1, parent, longest);
        lemma_push_child_levels(before, level + 1, parent, level + 1);
        assert(state.levels.skip(level as int).drop_first() =~= before.levels.skip(
            (level + 1) as int,
        ));
        assert forall|i: int|
            0 <= i < before.levels.skip((level + 1) as int).len() implies
            #[trigger] before.levels.skip((level + 1) as int)[i]
            == state.levels.skip(level as int)[i + 1] by {}
        lemma_finish_levels_succeeds(before.push_child(level + 1, parent).0, level + 1, longest);
    }
}

/// With two pages for each record, a build completes.
pub proof fn law_finish_succeeds(state: BulkModel, longest: nat)
    requires
        state.is_clean(),
        state.has_pages_for(0, longest),
    ensures
        state.finish().1 is Ok,
{
    law_clean_build_can_finish(state);
    lemma_close_leaf_levels(state);
    let closed = if state.leaf.len() > 0 {
        lemma_close_leaf_succeeds(state, longest);
        state.close_leaf().0
    } else {
        state
    };
    assert(closed.levels.skip(0) =~= closed.levels);
    if closed.length > 0 {
        lemma_finish_levels_succeeds(closed, 0, longest);
    }
}

/// Adding a subtree fails for want of room only.
proof fn lemma_push_child_faults(state: BulkModel, level: nat, child: ChildModel)
    requires
        level <= state.levels.len(),
    ensures
        match state.push_child(level, child).1 {
            Ok(()) => true,
            Err(fault) => fault is ValueTooLarge || fault is OutOfPages,
        },
    decreases state.levels.len() - level,
{
    let all = state.with_levels_to(level);
    let here = all.levels[level as int];
    if here.children.len() >= 3 && is_full(here.children, state.key_width, state.target) {
        let kept = LevelModel { children: seq![here.children.last(), child], emitted: true };
        let (built, parent) = all.with_level(level as int, kept).build_branch(
            here.children.drop_last(),
        );
        if let Ok(parent) = parent {
            lemma_push_child_faults(built, level + 1, parent);
        }
    }
}

/// A build in which no step has failed refuses a record for want of room only, unless it already
/// has the largest count of records: the lengths that it adds up for the current leaf never
/// overflow.
pub proof fn law_push_faults(state: BulkModel, key: Seq<u8>, value: Seq<u8>)
    requires
        state.is_clean(),
        state.target <= max_encoded_page(),
        state.length < u64::MAX,
    ensures
        match state.push(key, value).1 {
            Ok(()) => true,
            Err(fault) => fault is ValueTooLarge || fault is OutOfPages,
        },
{
    if state.must_close(key, value) && state.store.has_room() {
        let written = BulkModel {
            store: state.store.with_page(PageModel::Leaf { pairs: state.leaf }),
            leaf: Seq::empty(),
            leaf_key_bytes: 0,
            leaf_value_bytes: 0,
            ..state
        };
        let child = ChildModel {
            page: PageNumber { index: state.store.next() as usize },
            max_key: state.leaf.last().0,
        };
        lemma_push_child_faults(written, 0, child);
        if state.close_leaf().1 is Ok {
            lemma_close_leaf_records(state);
        }
    }
}

/// Adding a subtree fails only where no page is left, or where a branch page would be too large.
proof fn lemma_push_child_reasons(state: BulkModel, level: nat, child: ChildModel)
    requires
        level <= state.levels.len(),
    ensures
        ({
            let (after, result) = state.push_child(level, child);
            &&& after.store.limit == state.store.limit
            &&& after.store.base == state.store.base
            &&& result matches Err(fault) ==> is_reason(after, fault)
        }),
    decreases state.levels.len() - level,
{
    let all = state.with_levels_to(level);
    let here = all.levels[level as int];
    if here.children.len() >= 3 && is_full(here.children, state.key_width, state.target) {
        let kept = LevelModel { children: seq![here.children.last(), child], emitted: true };
        let (built, parent) = all.with_level(level as int, kept).build_branch(
            here.children.drop_last(),
        );
        if let Ok(parent) = parent {
            lemma_push_child_reasons(built, level + 1, parent);
        }
    }
}

/// The state gives a reason for the fault: no page number below the limit is left, or a page of the
/// given size would be larger than a page can be.
pub open spec fn is_reason(state: BulkModel, fault: StorageFault) -> bool {
    match fault {
        StorageFault::OutOfPages => state.store.base + state.store.pages.len()
            >= state.store.limit,
        StorageFault::ValueTooLarge(size) => size > max_encoded_page(),
        StorageFault::Corrupted(message) => false,
    }
}

/// Writing the current leaf out fails only where no page is left, or where a branch page would be
/// too large.
proof fn lemma_close_leaf_reasons(state: BulkModel)
    ensures
        ({
            let (after, result) = state.close_leaf();
            &&& after.store.limit == state.store.limit
            &&& after.store.base == state.store.base
            &&& result matches Err(fault) ==> is_reason(after, fault)
        }),
{
    if state.store.has_room() {
        let written = BulkModel {
            store: state.store.with_page(PageModel::Leaf { pairs: state.leaf }),
            leaf: Seq::empty(),
            leaf_key_bytes: 0,
            leaf_value_bytes: 0,
            ..state
        };
        let child = ChildModel {
            page: PageNumber { index: state.store.next() as usize },
            max_key: state.leaf.last().0,
        };
        lemma_push_child_reasons(written, 0, child);
    }
}

/// A record is refused only for a reason: alone it would need a larger page than there can be, and
/// the refusal says which; or no page is left for the leaf that it completes; or a branch page
/// would be too large. A record that joins the current leaf, or begins the first one, needs no
/// page.
pub proof fn law_push_is_refused_for_a_reason(state: BulkModel, key: Seq<u8>, value: Seq<u8>)
    requires
        state.is_clean(),
        state.target <= max_encoded_page(),
        state.length < u64::MAX,
    ensures
        ({
            let (after, result) = state.push(key, value);
            let alone = leaf_size(seq![(key, value)], state.key_width, state.value_width);
            let joined = state.leaf.push((key, value));
            let fits = leaf_size(joined, state.key_width, state.value_width) <= state.target
                && joined.len() <= 65535;
            &&& after.store.limit == state.store.limit
            &&& alone > max_encoded_page() ==> {
                &&& after == state
                &&& alone <= usize::MAX ==> result == Err::<(), StorageFault>(
                    StorageFault::ValueTooLarge(alone as usize),
                )
                &&& alone > usize::MAX ==> result == Err::<(), StorageFault>(
                    StorageFault::ValueTooLarge(usize::MAX),
                )
            }
            &&& alone <= max_encoded_page() && (state.leaf.len() == 0 || fits) ==> result is Ok
                && after.store == state.store
            &&& result matches Err(fault) ==> is_reason(after, fault)
            &&& alone <= max_encoded_page() && state.leaf.len() > 0 && !fits && state.store.base
                + state.store.pages.len() >= state.store.limit ==> result == Err::<
                (),
                StorageFault,
            >(StorageFault::OutOfPages)
        }),
{
    let none = Seq::<Pair>::empty();
    assert(seq![(key, value)] =~= none.push((key, value)));
    lemma_leaf_push(none, key, value);
    lemma_leaf_push(state.leaf, key, value);
    if state.must_close(key, value) {
        lemma_close_leaf_reasons(state);
        if state.close_leaf().1 is Ok {
            lemma_close_leaf_records(state);
        }
    }
}

/// Completing the levels fails only where no page is left, or where a branch page would be too
/// large.
proof fn lemma_finish_levels_reasons(state: BulkModel, level: nat)
    requires
        state.can_finish_from(level),
    ensures
        ({
            let (after, root) = state.finish_levels(level);
            &&& after.store.limit == state.store.limit
            &&& after.store.base == state.store.base
            &&& root matches Err(fault) ==> is_reason(after, fault)
        }),
    decreases waiting(state.levels.skip(level as int)),
{
    let here = state.levels[level as int];
    let rest = state.with_level(level as int, LevelModel { children: Seq::empty(), ..here });
    assert(here == state.levels.skip(level as int)[0]);
    if !here.emitted && here.children.len() == 1 {
    } else {
        let (built, parent) = rest.build_branch(here.children);
        if let Ok(parent) = parent {
            let emptied = LevelModel { children: Seq::empty(), emitted: true };
            let before = built.with_level(level as int, emptied);
            lemma_push_child_reasons(before, level + 1, parent);
            lemma_push_child_levels(before, level + 1, parent, level + 1);
            assert(state.levels.skip(level as int).drop_first() =~= before.levels.skip(
                (level + 1) as int,
            ));
            assert forall|i: int|
                0 <= i < before.levels.skip((level + 1) as int).len() implies
                #[trigger] before.levels.skip((level + 1) as int)[i]
                == state.levels.skip(level as int)[i + 1] by {}
            let (pushed, result) = before.push_child(level + 1, parent);
            if result is Ok {
                lemma_finish_levels_reasons(pushed, level + 1);
            }
        }
    }
}

/// A build is not completed only for a reason: no page is left, or a branch page would be too
/// large. A build without records is always completed, and needs no page.
pub proof fn law_finish_fails_for_a_reason(state: BulkModel)
    requires
        state.is_clean(),
    ensures
        ({
            let (after, root) = state.finish();
            &&& after.store.limit == state.store.limit
            &&& root matches Err(fault) ==> is_reason(after, fault)
            &&& state.records().len() == 0 ==> root == Ok::<Option<BtreeHeader>, StorageFault>(
                None,
            ) && after.store == state.store
        }),
{
    law_clean_build_can_finish(state);
    lemma_close_leaf_levels(state);
    lemma_close_leaf_reasons(state);
    let (closed, result) = if state.leaf.len() > 0 {
        state.close_leaf()
    } else {
        (state, Ok(()))
    };
    assert(closed.levels.skip(0) =~= closed.levels);
    if result is Ok && closed.length > 0 {
        if state.leaf.len() > 0 {
            lemma_close_leaf_records(state);
        }
        lemma_finish_levels_reasons(closed, 0);
    }
}

/// A build that has the largest count of records takes no other, and says so.
pub proof fn law_count_of_records_is_bounded(state: BulkModel, key: Seq<u8>, value: Seq<u8>)
    requires
        state.is_clean(),
        state.target <= max_encoded_page(),
        state.length == u64::MAX,
    ensures
        ({
            let (after, result) = state.push(key, value);
            let alone = leaf_size(seq![(key, value)], state.key_width, state.value_width);
            let joined = state.leaf.push((key, value));
            let fits = leaf_size(joined, state.key_width, state.value_width) <= state.target
                && joined.len() <= 65535;
            &&& result is Err
            &&& alone <= max_encoded_page() && (state.leaf.len() == 0 || fits) ==> result == Err::<
                (),
                StorageFault,
            >(StorageFault::Corrupted("sorted table length overflow"@))
        }),
{
    let none = Seq::<Pair>::empty();
    assert(seq![(key, value)] =~= none.push((key, value)));
    lemma_leaf_push(none, key, value);
    lemma_leaf_push(state.leaf, key, value);
    if state.must_close(key, value) && state.close_leaf().1 is Ok {
        lemma_close_leaf_records(state);
    }
}

} // verus!
