//! How full the pages of a bottom-up build are.

use vstd::prelude::*;

use crate::btree_bulk::initial_state;
use crate::bulk_laws::law_clean_build_can_finish;
use crate::bulk_laws::law_finish_keeps_records;
use crate::bulk_laws::law_initial_state_is_clean;
use crate::bulk_laws::law_push_appends_record;
use crate::bulk_laws::lemma_append_records;
use crate::bulk_laws::lemma_close_leaf_records;
use crate::bulk_laws::total_key_bytes;
use crate::bulk_laws::total_value_bytes;
use crate::bulk_model::branch_page;
use crate::bulk_model::is_full;
use crate::bulk_model::key_bytes;
use crate::bulk_model::lemma_close_leaf_levels;
use crate::bulk_model::lemma_push_child_levels;
use crate::bulk_model::waiting;
use crate::bulk_model::BulkModel;
use crate::bulk_model::ChildModel;
use crate::bulk_model::LevelModel;
use crate::earlier_pages::lemma_finish_later;
use crate::earlier_pages::lemma_push_later;
use crate::earlier_pages::lemma_without_first_within;
use crate::error::StorageFault;
use crate::layout::branch_bytes;
use crate::layout::leaf_bytes;
use crate::layout::lemma_branch_bytes_monotone;
use crate::layout::max_encoded_page;
use crate::layout::MAX_PAGE_ENTRIES;
use crate::page::PageModel;
use crate::page::PageNumber;
use crate::page::Pair;
use crate::page::StoreModel;
use crate::page::DEFERRED;
use crate::tree::law_leaves_hold_records;
use crate::tree::lemma_records_below;
use crate::tree::lemma_tree_within;
use crate::types::Key;
use crate::types::Value;

verus! {

/// Bytes of all separators.
pub open spec fn separator_bytes(keys: Seq<Seq<u8>>) -> nat
    decreases keys.len(),
{
    if keys.len() == 0 {
        0
    } else {
        separator_bytes(keys.drop_last()) + keys.last().len()
    }
}

/// Encoded size of a leaf page with the given records.
pub open spec fn leaf_size(
    pairs: Seq<Pair>,
    key_width: Option<usize>,
    value_width: Option<usize>,
) -> nat {
    leaf_bytes(
        pairs.len(),
        total_key_bytes(pairs) + total_value_bytes(pairs),
        key_width,
        value_width,
    )
}

/// A page keeps within its limits:
/// - its entries can be counted and its encoding addressed;
/// - a branch has one child more than separators, and leaves all checksums for later;
/// - it is no larger than the target, unless it is a leaf with a single record or a branch with
///   at most three children.
pub open spec fn page_fits(
    page: PageModel,
    key_width: Option<usize>,
    value_width: Option<usize>,
    target: nat,
) -> bool {
    match page {
        PageModel::Leaf { pairs } => {
            let size = leaf_size(pairs, key_width, value_width);
            &&& pairs.len() <= MAX_PAGE_ENTRIES
            &&& size <= max_encoded_page()
            &&& size <= target || pairs.len() == 1
        },
        PageModel::Branch { children, keys } => {
            let size = branch_bytes(keys.len(), separator_bytes(keys), key_width);
            &&& children.len() == keys.len() + 1
            &&& forall|i: int| 0 <= i < children.len() ==> (#[trigger] children[i]).1 == DEFERRED
            &&& keys.len() <= MAX_PAGE_ENTRIES
            &&& size <= max_encoded_page()
            &&& size <= target || children.len() <= 3
        },
    }
}

/// All pages of the tree of the given height below `root` keep within their limits.
pub open spec fn tree_fits(
    store: StoreModel,
    root: PageNumber,
    height: nat,
    key_width: Option<usize>,
    value_width: Option<usize>,
    target: nat,
) -> bool
    decreases height,
{
    &&& page_fits(store.page(root), key_width, value_width, target)
    &&& match store.page(root) {
        PageModel::Leaf { pairs } => true,
        PageModel::Branch { children, keys } => height > 0 ==> forall|i: int|
            0 <= i < children.len() ==> tree_fits(
                store,
                (#[trigger] children[i]).0,
                (height - 1) as nat,
                key_width,
                value_width,
                target,
            ),
    }
}

/// A leaf cannot take the first record of the next leaf as well: together they exceed the target
/// or the count of records that a leaf can have.
pub open spec fn is_filled_before(
    leaf: Seq<Pair>,
    next: Seq<Pair>,
    key_width: Option<usize>,
    value_width: Option<usize>,
    target: nat,
) -> bool {
    let joined = leaf.push(next.first());
    ||| leaf_size(joined, key_width, value_width) > target
    ||| joined.len() > MAX_PAGE_ENTRIES
}

/// Every leaf holds a record, and none could have taken one from the next leaf.
pub open spec fn are_filled(
    leaves: Seq<Seq<Pair>>,
    key_width: Option<usize>,
    value_width: Option<usize>,
    target: nat,
) -> bool {
    &&& forall|i: int| 0 <= i < leaves.len() ==> (#[trigger] leaves[i]).len() > 0
    &&& forall|i: int, j: int|
        0 <= i && i + 1 == j && j < leaves.len() ==> is_filled_before(
            #[trigger] leaves[i],
            #[trigger] leaves[j],
            key_width,
            value_width,
            target,
        )
}

/// The children of a level go on one page of the target size, or there are at most three.
pub open spec fn level_fits(level: LevelModel, key_width: Option<usize>, target: nat) -> bool {
    level.children.len() <= 3 || !is_full(level.children.drop_last(), key_width, target)
}

impl BulkModel {
    /// All pages from position `first` on keep within their limits.
    pub open spec fn pages_fit_from(self, first: nat) -> bool {
        forall|i: int|
            first <= i < self.store.pages.len() ==> page_fits(
                #[trigger] self.store.pages[i],
                self.key_width,
                self.value_width,
                self.target,
            )
    }

    /// The children of all levels fit.
    pub open spec fn levels_fit(self) -> bool {
        forall|i: int|
            0 <= i < self.levels.len() ==> level_fits(
                #[trigger] self.levels[i],
                self.key_width,
                self.target,
            )
    }

    /// The current leaf could be written out as it is.
    pub open spec fn leaf_fits(self) -> bool {
        &&& self.leaf_key_bytes == total_key_bytes(self.leaf)
        &&& self.leaf_value_bytes == total_value_bytes(self.leaf)
        &&& self.leaf.len() > 0 ==> page_fits(
            PageModel::Leaf { pairs: self.leaf },
            self.key_width,
            self.value_width,
            self.target,
        )
    }

    /// All leaves but the last are as full as the records allow. A leaf was written out only to
    /// begin another.
    pub open spec fn leaves_are_filled(self) -> bool {
        &&& are_filled(self.leaves(), self.key_width, self.value_width, self.target)
        &&& self.leaf.len() == 0 ==> self.levels.len() == 0
    }

    /// Everything that waits, and every page from position `first` on, keeps within its limits.
    pub open spec fn is_packed(self, first: nat) -> bool {
        &&& self.target <= max_encoded_page()
        &&& self.leaf_fits()
        &&& self.levels_fit()
        &&& self.pages_fit_from(first)
    }
}

/// The separators of a branch page take the bytes that were counted for them.
pub proof fn lemma_separator_bytes(children: Seq<ChildModel>)
    ensures
        separator_bytes(children.map_values(|child: ChildModel| child.max_key)) == key_bytes(
            children,
        ),
    decreases children.len(),
{
    if children.len() > 0 {
        lemma_separator_bytes(children.drop_last());
        let keys = children.map_values(|child: ChildModel| child.max_key);
        assert(keys.drop_last() =~= children.drop_last().map_values(
            |child: ChildModel| child.max_key,
        ));
    }
}

/// A branch page that is built keeps within its limits if its children fit.
proof fn lemma_branch_page_fits(state: BulkModel, children: Seq<ChildModel>, first: nat)
    requires
        state.pages_fit_from(first),
        state.build_branch(children).1 is Ok,
        children.len() >= 2,
        children.len() <= 3 || !is_full(children.drop_last(), state.key_width, state.target),
    ensures
        state.build_branch(children).0.pages_fit_from(first),
{
    lemma_separator_bytes(children.drop_last());
    let after = state.build_branch(children).0;
    assert forall|i: int| first <= i < after.store.pages.len() implies page_fits(
        #[trigger] after.store.pages[i],
        after.key_width,
        after.value_width,
        after.target,
    ) by {
        if i < state.store.pages.len() {
            assert(after.store.pages[i] == state.store.pages[i]);
        } else {
            assert(after.store.pages[i] == branch_page(children));
        }
    }
}

/// Fewer children need a smaller page.
pub proof fn lemma_full_monotone(children: Seq<ChildModel>, key_width: Option<usize>, target: nat)
    requires
        children.len() > 0,
        !is_full(children, key_width, target),
    ensures
        !is_full(children.drop_last(), key_width, target),
{
    lemma_branch_bytes_monotone(
        (children.len() - 1) as nat,
        key_bytes(children.drop_last()),
        children.len(),
        key_bytes(children),
        key_width,
    );
}

/// Adding a subtree keeps everything within its limits.
pub proof fn lemma_push_child_packed(state: BulkModel, level: nat, child: ChildModel, first: nat)
    requires
        level <= state.levels.len(),
        state.levels_fit(),
        state.pages_fit_from(first),
        state.push_child(level, child).1 is Ok,
    ensures
        ({
            let after = state.push_child(level, child).0;
            &&& after == (BulkModel { store: after.store, levels: after.levels, ..state })
            &&& after.levels_fit()
            &&& after.pages_fit_from(first)
        }),
    decreases state.levels.len() - level,
{
    let all = state.with_levels_to(level);
    let here = all.levels[level as int];
    if here.children.len() >= 3 && is_full(here.children, state.key_width, state.target) {
        let kept = LevelModel { children: seq![here.children.last(), child], emitted: true };
        let group = here.children.drop_last();
        let marked = all.with_level(level as int, kept);
        let (built, parent) = marked.build_branch(group);
        assert(level_fits(state.levels[level as int], state.key_width, state.target));
        if here.children.len() > 3 {
            lemma_full_monotone(group, state.key_width, state.target);
        }
        lemma_branch_page_fits(marked, group, first);
        assert(built.levels_fit());
        lemma_push_child_packed(built, level + 1, parent->Ok_0, first);
    } else {
        let grown = LevelModel { children: here.children.push(child), ..here };
        assert(grown.children.drop_last() =~= here.children);
        assert(level_fits(grown, state.key_width, state.target));
    }
}

/// Writing the current leaf out keeps everything within its limits.
proof fn lemma_close_leaf_packed(state: BulkModel, first: nat)
    requires
        state.is_packed(first),
        state.leaf.len() > 0,
        state.close_leaf().1 is Ok,
    ensures
        state.close_leaf().0.is_packed(first),
        state.close_leaf().0.leaf.len() == 0,
        state.close_leaf().0.target == state.target,
        state.close_leaf().0.key_width == state.key_width,
        state.close_leaf().0.value_width == state.value_width,
{
    let written = BulkModel {
        store: state.store.with_page(PageModel::Leaf { pairs: state.leaf }),
        leaf: Seq::empty(),
        leaf_key_bytes: 0,
        leaf_value_bytes: 0,
        ..state
    };
    let child = ChildModel {
        page: PageNumber { index: state.store.next() as usize },
        max_key: state.leaf.last().0,
    };
    assert forall|i: int| first <= i < written.store.pages.len() implies page_fits(
        #[trigger] written.store.pages[i],
        written.key_width,
        written.value_width,
        written.target,
    ) by {
        if i < state.store.pages.len() {
            assert(written.store.pages[i] == state.store.pages[i]);
        }
    }
    lemma_push_child_packed(written, 0, child, first);
}

/// The sizes of a leaf with one more record.
pub proof fn lemma_leaf_push(pairs: Seq<Pair>, key: Seq<u8>, value: Seq<u8>)
    ensures
        total_key_bytes(pairs.push((key, value))) == total_key_bytes(pairs) + key.len(),
        total_value_bytes(pairs.push((key, value))) == total_value_bytes(pairs) + value.len(),
{
    assert(pairs.push((key, value)).drop_last() =~= pairs);
}

/// A leaf is filled before the next one begins: a record that is accepted joins the current leaf,
/// unless the two together exceed the target or the count of records that a leaf can have.
pub proof fn law_leaf_is_filled_first(state: BulkModel, key: Seq<u8>, value: Seq<u8>)
    requires
        state.is_clean(),
        state.push(key, value).1 is Ok,
    ensures
        ({
            let joined = state.leaf.push((key, value));
            let after = state.push(key, value).0;
            let fits = leaf_size(joined, state.key_width, state.value_width) <= state.target
                && joined.len() <= MAX_PAGE_ENTRIES;
            &&& after.leaf == if state.leaf.len() == 0 || fits {
                joined
            } else {
                seq![(key, value)]
            }
            &&& state.leaf.len() == 0 || fits ==> after.store == state.store && after.levels
                == state.levels
        }),
{
    lemma_leaf_push(state.leaf, key, value);
    if state.must_close(key, value) {
        lemma_close_leaf_records(state);
        assert(state.close_leaf().0.leaf.push((key, value)) =~= seq![(key, value)]);
    }
}

/// A build starts with nothing beyond its limits.
pub proof fn law_initial_state_is_packed<K: Key, V: Value>(store: StoreModel, target: nat)
    ensures
        initial_state::<K, V>(store, target).is_packed(store.pages.len()),
{
}

/// Adding a record keeps everything within its limits.
pub proof fn law_push_keeps_limits(state: BulkModel, key: Seq<u8>, value: Seq<u8>, first: nat)
    requires
        state.is_packed(first),
        state.push(key, value).1 is Ok,
    ensures
        state.push(key, value).0.is_packed(first),
{
    let closed = if state.must_close(key, value) {
        lemma_close_leaf_packed(state, first);
        state.close_leaf().0
    } else {
        state
    };
    lemma_leaf_push(closed.leaf, key, value);
    assert(closed.leaf.len() == 0 ==> total_key_bytes(closed.leaf) == 0 && total_value_bytes(
        closed.leaf,
    ) == 0);
}

/// Completing the levels keeps all pages within their limits.
proof fn lemma_finish_levels_packed(state: BulkModel, level: nat, first: nat)
    requires
        state.can_finish_from(level),
        state.levels_fit(),
        state.pages_fit_from(first),
        state.finish_levels(level).1 is Ok,
    ensures
        state.finish_levels(level).0.pages_fit_from(first),
    decreases waiting(state.levels.skip(level as int)),
{
    let here = state.levels[level as int];
    let rest = state.with_level(level as int, LevelModel { children: Seq::empty(), ..here });
    assert(here == state.levels.skip(level as int)[0]);
    if !here.emitted && here.children.len() == 1 {
    } else {
        let (built, parent) = rest.build_branch(here.children);
        let parent = parent->Ok_0;
        let emptied = LevelModel { children: Seq::empty(), emitted: true };
        let before = built.with_level(level as int, emptied);
        lemma_branch_page_fits(rest, here.children, first);
        assert(before.pages_fit_from(first));
        assert(before.levels_fit());
        lemma_push_child_packed(before, level + 1, parent, first);
        lemma_push_child_levels(before, level + 1, parent, level + 1);
        assert(state.levels.skip(level as int).drop_first() =~= before.levels.skip(
            (level + 1) as int,
        ));
        assert forall|i: int|
            0 <= i < before.levels.skip((level + 1) as int).len() implies
            #[trigger] before.levels.skip((level + 1) as int)[i]
            == state.levels.skip(level as int)[i + 1] by {}
        lemma_finish_levels_packed(before.push_child(level + 1, parent).0, level + 1, first);
    }
}

/// Every page of a completed build keeps within its limits.
pub proof fn law_finish_keeps_limits(state: BulkModel, first: nat)
    requires
        state.can_finish(),
        state.is_packed(first),
        state.finish().1 is Ok,
    ensures
        state.finish().0.pages_fit_from(first),
{
    lemma_close_leaf_levels(state);
    let closed = if state.leaf.len() > 0 {
        lemma_close_leaf_packed(state, first);
        state.close_leaf().0
    } else {
        state
    };
    assert(closed.levels.skip(0) =~= closed.levels);
    if closed.length > 0 {
        lemma_finish_levels_packed(closed, 0, first);
    }
}

/// A tree keeps within its limits if the pages in which it is stored do.
pub proof fn lemma_tree_fits(
    pages: StoreModel,
    store: StoreModel,
    root: PageNumber,
    height: nat,
    key_width: Option<usize>,
    value_width: Option<usize>,
    target: nat,
)
    requires
        pages.within(store),
        pages.is_tree(root, height),
        forall|i: int|
            0 <= i < pages.pages.len() ==> page_fits(
                #[trigger] pages.pages[i],
                key_width,
                value_width,
                target,
            ),
    ensures
        tree_fits(store, root, height, key_width, value_width, target),
    decreases height,
{
    assert(store.page(root) == pages.page(root));
    if let PageModel::Branch { children, keys } = pages.page(root) {
        let below = (height - 1) as nat;
        assert forall|i: int| 0 <= i < children.len() implies tree_fits(
            store,
            (#[trigger] children[i]).0,
            below,
            key_width,
            value_width,
            target,
        ) by {
            lemma_tree_fits(
                pages,
                store,
                children[i].0,
                below,
                key_width,
                value_width,
                target,
            );
        }
    }
}

/// A build starts without leaves.
pub proof fn law_initial_state_is_filled<K: Key, V: Value>(store: StoreModel, target: nat)
    ensures
        initial_state::<K, V>(store, target).leaves_are_filled(),
{
}

/// Adding a record leaves no leaf but the last with room for the record that follows it.
pub proof fn law_push_keeps_leaves_filled(state: BulkModel, key: Seq<u8>, value: Seq<u8>)
    requires
        state.is_clean(),
        state.leaves_are_filled(),
        state.push(key, value).1 is Ok,
    ensures
        state.push(key, value).0.leaves_are_filled(),
{
    let after = state.push(key, value).0;
    let before = state.leaves();
    let leaves = after.leaves();
    lemma_leaf_push(state.leaf, key, value);
    if state.must_close(key, value) {
        lemma_close_leaf_records(state);
        lemma_append_records(state.close_leaf().0, key, value);
        assert(after.leaf =~= seq![(key, value)]);
        assert(leaves == before.push(after.leaf));
    } else {
        lemma_append_records(state, key, value);
        if state.leaf.len() > 0 {
            assert(after.leaf.first() == state.leaf.first());
            assert(leaves =~= before.update(before.len() - 1, after.leaf));
        }
    }
    assert forall|i: int, j: int|
        0 <= i && i + 1 == j && j < leaves.len() implies is_filled_before(
        #[trigger] leaves[i],
        #[trigger] leaves[j],
        after.key_width,
        after.value_width,
        after.target,
    ) by {
        if j < before.len() {
            assert(is_filled_before(
                before[i],
                before[j],
                state.key_width,
                state.value_width,
                state.target,
            ));
        }
    }
}

/// Of the leaves of a completed tree, none but the last could take the first record of the next
/// leaf as well.
pub proof fn law_finish_keeps_leaves_filled(state: BulkModel)
    requires
        state.is_clean(),
        state.leaves_are_filled(),
        state.finish().1 is Ok,
    ensures
        state.finish().1->Ok_0 matches Some(header) ==> are_filled(
            state.finish().0.store.leaves_below(header.root),
            state.key_width,
            state.value_width,
            state.target,
        ),
{
    law_finish_keeps_records(state);
}

/// Adds records in turn, up to the first that is refused.
pub open spec fn push_all(state: BulkModel, pairs: Seq<Pair>) -> (
    BulkModel,
    Result<(), StorageFault>,
)
    decreases pairs.len(),
{
    if pairs.len() == 0 {
        (state, Ok(()))
    } else {
        let (before, pushed) = push_all(state, pairs.drop_last());
        match pushed {
            Ok(()) => before.push(pairs.last().0, pairs.last().1),
            Err(fault) => (before, Err(fault)),
        }
    }
}

/// The state of a build whose records were all accepted.
pub proof fn lemma_push_all<K: Key, V: Value>(store: StoreModel, target: nat, pairs: Seq<Pair>)
    requires
        push_all(initial_state::<K, V>(store, target), pairs).1 is Ok,
    ensures
        ({
            let fresh = initial_state::<K, V>(store, target);
            let state = push_all(fresh, pairs).0;
            &&& state.is_clean()
            &&& state.is_packed(store.pages.len())
            &&& state.leaves_are_filled()
            &&& state.records() == pairs
            &&& state.key_width == fresh.key_width
            &&& state.value_width == fresh.value_width
            &&& state.target == fresh.target
        }),
    decreases pairs.len(),
{
    let fresh = initial_state::<K, V>(store, target);
    if pairs.len() == 0 {
        law_initial_state_is_clean::<K, V>(store, target);
        assert(pairs =~= Seq::empty());
    } else {
        let (key, value) = pairs.last();
        let before = push_all(fresh, pairs.drop_last()).0;
        lemma_push_all::<K, V>(store, target, pairs.drop_last());
        law_push_appends_record(before, key, value);
        law_push_keeps_limits(before, key, value, store.pages.len());
        law_push_keeps_leaves_filled(before, key, value);
        assert(pairs.drop_last().push(pairs.last()) =~= pairs);
    }
}

/// Adding records in turn commutes with leaving out the first pages of the store.
proof fn lemma_push_all_later(state: BulkModel, pairs: Seq<Pair>, count: nat)
    requires
        count <= state.store.pages.len(),
    ensures
        ({
            let (after, result) = push_all(state, pairs);
            &&& count <= after.store.pages.len()
            &&& push_all(state.without_first(count), pairs) == (
                after.without_first(count),
                result,
            )
        }),
    decreases pairs.len(),
{
    if pairs.len() > 0 {
        lemma_push_all_later(state, pairs.drop_last(), count);
        let before = push_all(state, pairs.drop_last()).0;
        lemma_push_later(before, pairs.last().0, pairs.last().1, count);
    }
}

/// Records that were all accepted become a tree that holds them in order. The tree and all pages
/// that were written keep within their limits, and of the leaves of the tree none but the last
/// could take the first record of the next leaf as well.
pub proof fn law_accepted_records_are_packed<K: Key, V: Value>(
    store: StoreModel,
    target: nat,
    pairs: Seq<Pair>,
)
    requires
        push_all(initial_state::<K, V>(store, target), pairs).1 is Ok,
        push_all(initial_state::<K, V>(store, target), pairs).0.finish().1 is Ok,
        pairs.len() > 0,
    ensures
        ({
            let fresh = initial_state::<K, V>(store, target);
            let (after, root) = push_all(fresh, pairs).0.finish();
            &&& after.target == fresh.target
            &&& after.pages_fit_from(store.pages.len())
            &&& root->Ok_0 matches Some(header) && {
                &&& header.length == pairs.len()
                &&& after.store.has_tree(header.root)
                &&& after.store.records_below(header.root) == pairs
                &&& after.store.leaves_below(header.root).flatten() == pairs
                &&& are_filled(
                    after.store.leaves_below(header.root),
                    K::width(),
                    V::width(),
                    fresh.target,
                )
                &&& tree_fits(
                    after.store,
                    header.root,
                    after.store.height_of(header.root),
                    K::width(),
                    V::width(),
                    fresh.target,
                )
            }
        }),
{
    let state = push_all(initial_state::<K, V>(store, target), pairs).0;
    lemma_push_all::<K, V>(store, target, pairs);
    law_clean_build_can_finish(state);
    law_finish_keeps_records(state);
    law_finish_keeps_limits(state, store.pages.len());
    law_finish_keeps_leaves_filled(state);
    let (after, root) = state.finish();
    let root = root->Ok_0->Some_0.root;
    law_leaves_hold_records(after.store, root);
    // The same build in a store without pages writes the same tree, so that it is among the pages
    // that were written.
    let count = store.pages.len();
    let empty = store.without_first(count);
    let later = push_all(initial_state::<K, V>(empty, target), pairs).0;
    let written = after.store.without_first(count);
    assert(initial_state::<K, V>(empty, target) == initial_state::<K, V>(
        store,
        target,
    ).without_first(count));
    lemma_push_all_later(initial_state::<K, V>(store, target), pairs, count);
    lemma_finish_later(state, count);
    lemma_push_all::<K, V>(empty, target, pairs);
    law_finish_keeps_records(later);
    law_clean_build_can_finish(later);
    law_finish_keeps_limits(later, 0);
    lemma_without_first_within(after.store, count);
    let height = written.height_of(root);
    lemma_tree_within(written, after.store, root, height);
    lemma_records_below(after.store, root, height);
    lemma_tree_fits(
        written,
        after.store,
        root,
        height,
        K::width(),
        V::width(),
        state.target,
    );
}

/// The size of a leaf adds up: four bytes without records, and for each record its key, its value
/// and an offset for each of them that varies in width.
pub proof fn law_leaf_size_adds_up(
    pairs: Seq<Pair>,
    key: Seq<u8>,
    value: Seq<u8>,
    key_width: Option<usize>,
    value_width: Option<usize>,
)
    ensures
        leaf_size(Seq::empty(), key_width, value_width) == 4,
        leaf_size(pairs.push((key, value)), key_width, value_width) - leaf_size(
            pairs,
            key_width,
            value_width,
        ) == key.len() + value.len() + (if key_width is None {
            4int
        } else {
            0
        }) + (if value_width is None {
            4int
        } else {
            0
        }),
{
    lemma_leaf_push(pairs, key, value);
}

/// The bytes of separators add up.
pub proof fn law_separator_bytes_add_up(keys: Seq<Seq<u8>>, key: Seq<u8>)
    ensures
        separator_bytes(Seq::empty()) == 0,
        separator_bytes(keys.push(key)) == separator_bytes(keys) + key.len(),
{
    assert(keys.push(key).drop_last() =~= keys);
}

} // verus!
