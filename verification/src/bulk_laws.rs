//! What a bottom-up build guarantees: the finished tree holds the records that were added, in the
//! order in which they were added, and its pages keep within their limits.

use vstd::prelude::*;

use crate::btree_bulk::initial_state;
use crate::bulk_model::branch_page;
use crate::bulk_model::is_full;
use crate::bulk_model::lemma_push_child_levels;
use crate::bulk_model::waiting;
use crate::bulk_model::BulkModel;
use crate::bulk_model::ChildModel;
use crate::bulk_model::LevelModel;
use crate::layout::leaf_bytes;
use crate::layout::max_encoded_page;
use crate::page::PageModel;
use crate::page::PageNumber;
use crate::page::Pair;
use crate::page::StoreModel;
use crate::page::DEFERRED;
use crate::tree::child_numbers;
use crate::tree::lemma_contents_of_one;
use crate::tree::lemma_records_below;
use crate::tree::lemma_row_within;
use crate::tree::lemma_tree_nonempty;
use crate::tree::lemma_tree_within;
use crate::tree::max_key;
use crate::types::Key;
use crate::types::Value;

verus! {

/// The root pages of the children.
pub open spec fn child_pages(children: Seq<ChildModel>) -> Seq<PageNumber> {
    children.map_values(|child: ChildModel| child.page)
}

/// The child is a tree of the given height, and its largest key is known.
pub open spec fn is_subtree(store: StoreModel, child: ChildModel, height: nat) -> bool {
    &&& store.is_tree(child.page, height)
    &&& child.max_key == max_key(store.contents(child.page, height))
}

/// All children are trees of the given height.
pub open spec fn are_subtrees(store: StoreModel, children: Seq<ChildModel>, height: nat) -> bool {
    forall|i: int| 0 <= i < children.len() ==> is_subtree(store, #[trigger] children[i], height)
}

/// Bytes of the keys of all records.
pub open spec fn total_key_bytes(pairs: Seq<Pair>) -> nat
    decreases pairs.len(),
{
    if pairs.len() == 0 {
        0
    } else {
        total_key_bytes(pairs.drop_last()) + pairs.last().0.len()
    }
}

/// Bytes of the values of all records.
pub open spec fn total_value_bytes(pairs: Seq<Pair>) -> nat
    decreases pairs.len(),
{
    if pairs.len() == 0 {
        0
    } else {
        total_value_bytes(pairs.drop_last()) + pairs.last().1.len()
    }
}

impl BulkModel {
    /// The records of the subtrees that wait from `level` up. Higher levels hold earlier records.
    pub open spec fn pending(self, level: nat) -> Seq<Pair>
        decreases self.levels.len() - level,
    {
        if level < self.levels.len() {
            self.pending(level + 1) + self.store.contents_of(
                child_pages(self.levels[level as int].children),
                level,
            )
        } else {
            Seq::empty()
        }
    }

    /// The leaves of the subtrees that wait from `level` up, from left to right.
    pub open spec fn pending_leaves(self, level: nat) -> Seq<Seq<Pair>>
        decreases self.levels.len() - level,
    {
        if level < self.levels.len() {
            self.pending_leaves(level + 1) + self.store.leaves_of(
                child_pages(self.levels[level as int].children),
                level,
            )
        } else {
            Seq::empty()
        }
    }

    /// The records that were added so far, in the order in which they were added.
    pub open spec fn records(self) -> Seq<Pair> {
        self.pending(0) + self.leaf
    }

    /// The leaves that were written so far, and the current one, from left to right.
    pub open spec fn leaves(self) -> Seq<Seq<Pair>> {
        if self.leaf.len() > 0 {
            self.pending_leaves(0).push(self.leaf)
        } else {
            self.pending_leaves(0)
        }
    }

    /// What holds of a level: its children are trees; at least one waits, and at least two where
    /// others already have a parent; and others have a parent exactly where there is a next level.
    pub open spec fn is_sound_level(self, level: nat) -> bool {
        let here = self.levels[level as int];
        &&& are_subtrees(self.store, here.children, level)
        &&& here.children.len() >= 1
        &&& here.emitted ==> here.children.len() >= 2
        &&& here.emitted <==> level + 1 < self.levels.len()
    }

    /// All levels from `level` up are sound.
    pub open spec fn is_sound_from(self, level: nat) -> bool {
        forall|i: nat| level <= i < self.levels.len() ==> #[trigger] self.is_sound_level(i)
    }

    /// No step has failed: what waits is exactly what was added.
    pub open spec fn is_clean(self) -> bool {
        &&& self.root is None
        &&& self.is_sound_from(0)
        &&& self.leaf_key_bytes == total_key_bytes(self.leaf)
        &&& self.leaf_value_bytes == total_value_bytes(self.leaf)
        &&& self.length == self.records().len()
        &&& self.length <= u64::MAX
    }
}

/// What waits above is the same in two states whose levels agree there, where pages were only
/// added.
pub proof fn lemma_pending_within(a: BulkModel, b: BulkModel, level: nat)
    requires
        a.store.within(b.store),
        a.levels.len() == b.levels.len(),
        forall|i: nat| level <= i < a.levels.len() ==> a.levels[i as int] == b.levels[i as int],
        a.is_sound_from(level),
    ensures
        b.is_sound_from(level),
        b.pending(level) == a.pending(level),
        b.pending_leaves(level) == a.pending_leaves(level),
    decreases a.levels.len() - level,
{
    if level < a.levels.len() {
        lemma_pending_within(a, b, level + 1);
        let children = a.levels[level as int].children;
        assert(a.is_sound_level(level));
        lemma_subtrees_within(a.store, b.store, children, level);
        assert(b.is_sound_level(level));
        assert forall|i: nat| level <= i < b.levels.len() implies #[trigger] b.is_sound_level(
            i,
        ) by {
            if i > level {
                assert(level + 1 <= i);
            }
        }
    }
}

/// Subtrees do not change as pages are added.
pub proof fn lemma_subtrees_within(
    a: StoreModel,
    b: StoreModel,
    children: Seq<ChildModel>,
    height: nat,
)
    requires
        a.within(b),
        are_subtrees(a, children, height),
    ensures
        are_subtrees(b, children, height),
        b.contents_of(child_pages(children), height) == a.contents_of(
            child_pages(children),
            height,
        ),
        b.leaves_of(child_pages(children), height) == a.leaves_of(child_pages(children), height),
{
    let pages = child_pages(children);
    assert forall|i: int| 0 <= i < pages.len() implies a.is_tree(#[trigger] pages[i], height) by {
        assert(is_subtree(a, children[i], height));
    }
    lemma_row_within(a, b, pages, height);
    assert forall|i: int| 0 <= i < children.len() implies is_subtree(
        b,
        #[trigger] children[i],
        height,
    ) by {
        assert(is_subtree(a, children[i], height));
        lemma_tree_within(a, b, children[i].page, height);
    }
}

/// A branch page over trees of one height is a tree of the next height, with their records.
pub proof fn lemma_branch_is_subtree(store: StoreModel, children: Seq<ChildModel>, height: nat)
    requires
        store.has_room(),
        children.len() >= 2,
        are_subtrees(store, children, height),
    ensures
        ({
            let after = store.with_page(branch_page(children));
            let parent = ChildModel {
                page: PageNumber { index: store.next() as usize },
                max_key: children.last().max_key,
            };
            &&& store.within(after)
            &&& is_subtree(after, parent, height + 1)
            &&& after.contents(parent.page, height + 1) == store.contents_of(
                child_pages(children),
                height,
            )
            &&& after.leaves(parent.page, height + 1) == store.leaves_of(
                child_pages(children),
                height,
            )
        }),
{
    let page = branch_page(children);
    let after = store.with_page(page);
    let parent = ChildModel {
        page: PageNumber { index: store.next() as usize },
        max_key: children.last().max_key,
    };
    assert(store.within(after));
    lemma_subtrees_within(store, after, children, height);
    assert(after.page(parent.page) == page);
    if let PageModel::Branch { children: numbered, keys } = page {
        assert(child_numbers(numbered) =~= child_pages(children));
        assert forall|i: int| 0 <= i < numbered.len() implies (#[trigger] numbered[i]).0.index
            < parent.page.index && after.is_tree(numbered[i].0, height) by {
            assert(is_subtree(store, children[i], height));
            assert(is_subtree(after, children[i], height));
        }
        assert forall|i: int| 0 <= i < keys.len() implies #[trigger] keys[i] == max_key(
            after.contents(numbered[i].0, height),
        ) by {
            assert(is_subtree(after, children[i], height));
        }
        let pages = child_pages(children);
        assert(pages.last() == children.last().page);
        assert(is_subtree(after, children[children.len() - 1], height));
        lemma_tree_nonempty(after, pages.last(), height);
        assert(after.contents_of(pages, height).last() == after.contents(
            pages.last(),
            height,
        ).last());
    }
}

/// The records and the leaves of a row with one more child.
proof fn lemma_row_push(
    store: StoreModel,
    children: Seq<ChildModel>,
    child: ChildModel,
    height: nat,
)
    ensures
        store.contents_of(child_pages(children.push(child)), height) == store.contents_of(
            child_pages(children),
            height,
        ) + store.contents(child.page, height),
        store.leaves_of(child_pages(children.push(child)), height) == store.leaves_of(
            child_pages(children),
            height,
        ) + store.leaves(child.page, height),
{
    assert(child_pages(children.push(child)) =~= child_pages(children).push(child.page));
    assert(child_pages(children).push(child.page).drop_last() =~= child_pages(children));
}

/// Adding a subtree adds its records and its leaves to what waits, at the end.
pub proof fn lemma_push_child_pending(state: BulkModel, level: nat, child: ChildModel)
    requires
        level <= state.levels.len(),
        state.is_sound_from(level),
        is_subtree(state.store, child, level),
        state.push_child(level, child).1 is Ok,
    ensures
        ({
            let after = state.push_child(level, child).0;
            &&& after == (BulkModel { store: after.store, levels: after.levels, ..state })
            &&& state.store.within(after.store)
            &&& after.store.base == state.store.base
            &&& after.levels.len() > level
            &&& after.levels.len() >= state.levels.len()
            &&& after.is_sound_from(level)
            &&& after.pending(level) == state.pending(level) + state.store.contents(
                child.page,
                level,
            )
            &&& after.pending_leaves(level) == state.pending_leaves(level) + state.store.leaves(
                child.page,
                level,
            )
        }),
    decreases state.levels.len() - level,
{
    let all = state.with_levels_to(level);
    let here = all.levels[level as int];
    let after = state.push_child(level, child).0;
    let records = state.store.contents(child.page, level);
    let leaves = state.store.leaves(child.page, level);
    if here.children.len() >= 3 && is_full(here.children, state.key_width, state.target) {
        let group = here.children.drop_last();
        let carry = here.children.last();
        let kept = LevelModel { children: seq![carry, child], emitted: true };
        let marked = all.with_level(level as int, kept);
        let (built, parent) = marked.build_branch(group);
        let parent = parent->Ok_0;
        assert(state.is_sound_level(level));
        assert(are_subtrees(state.store, group, level)) by {
            assert forall|i: int| 0 <= i < group.len() implies is_subtree(
                state.store,
                #[trigger] group[i],
                level,
            ) by {
                assert(group[i] == here.children[i]);
            }
        }
        lemma_branch_is_subtree(state.store, group, level);
        lemma_pending_within(state, built, level + 1);
        lemma_push_child_pending(built, level + 1, parent);
        lemma_push_child_levels(built, level + 1, parent, level + 1);
        assert(after.levels[level as int] == after.levels.take((level + 1) as int)[level as int]);
        assert(after.levels[level as int] == kept);
        assert(state.store.within(after.store)) by {
            lemma_within_transitive(state.store, built.store, after.store);
        }
        assert(is_subtree(state.store, here.children[here.children.len() - 1], level));
        assert(are_subtrees(state.store, kept.children, level));
        lemma_subtrees_within(state.store, after.store, kept.children, level);
        assert forall|i: nat| level <= i < after.levels.len() implies #[trigger]
        after.is_sound_level(i) by {
            if i > level {
                assert(level + 1 <= i);
            }
        }
        // The records of the group, of the last child that stays, and of the new child.
        let row = state.store.contents_of(child_pages(here.children), level);
        assert(here.children =~= group.push(carry));
        lemma_row_push(state.store, group, carry, level);
        assert(kept.children =~= seq![carry].push(child));
        lemma_row_push(state.store, seq![carry], child, level);
        assert(child_pages(seq![carry]) =~= seq![carry.page]);
        lemma_contents_of_one(state.store, carry.page, level);
        assert(after.pending(level) =~= state.pending(level) + records);
        assert(after.pending_leaves(level) =~= state.pending_leaves(level) + leaves);
    } else {
        let grown = LevelModel { children: here.children.push(child), ..here };
        assert(after == all.with_level(level as int, grown));
        assert forall|i: nat| level < i < after.levels.len() implies #[trigger]
        after.is_sound_level(i) by {
            assert(state.is_sound_level(i));
        }
        if level < state.levels.len() {
            assert(state.is_sound_level(level));
        } else {
            assert(after.pending(level + 1) == Seq::<Pair>::empty());
            assert(after.pending_leaves(level + 1) == Seq::<Seq<Pair>>::empty());
            assert(child_pages(here.children) =~= Seq::empty());
        }
        assert(are_subtrees(after.store, grown.children, level));
        assert(after.is_sound_level(level));
        assert(after.is_sound_from(level));
        lemma_pending_above(state, after, level + 1);
        lemma_row_push(state.store, here.children, child, level);
        assert(after.pending(level) =~= state.pending(level) + records);
        assert(after.pending_leaves(level) =~= state.pending_leaves(level) + leaves);
    }
}

/// What waits above depends on the levels there alone.
proof fn lemma_pending_above(a: BulkModel, b: BulkModel, level: nat)
    requires
        a.store == b.store,
        a.levels.len() == b.levels.len() || (a.levels.len() <= level && b.levels.len() <= level),
        forall|i: nat|
            level <= i < a.levels.len() ==> a.levels[i as int] == b.levels[i as int],
    ensures
        b.pending(level) == a.pending(level),
        b.pending_leaves(level) == a.pending_leaves(level),
    decreases a.levels.len() - level,
{
    if level < a.levels.len() {
        lemma_pending_above(a, b, level + 1);
    }
}

/// Pages that were added to a store to which pages were added.
pub proof fn lemma_within_transitive(a: StoreModel, b: StoreModel, c: StoreModel)
    requires
        a.within(b),
        b.within(c),
    ensures
        a.within(c),
{
    assert forall|n: PageNumber| a.holds(n) implies #[trigger] c.page(n) == a.page(n) by {
        assert(b.page(n) == a.page(n));
    }
}

/// Writing the current leaf out keeps the records.
pub proof fn lemma_close_leaf_records(state: BulkModel)
    requires
        state.is_clean(),
        state.leaf.len() > 0,
        state.close_leaf().1 is Ok,
    ensures
        ({
            let after = state.close_leaf().0;
            &&& after.is_clean()
            &&& after.records() == state.records()
            &&& after.pending_leaves(0) == state.pending_leaves(0).push(state.leaf)
            &&& after.leaf.len() == 0
            &&& state.store.within(after.store)
            &&& after.store.base == state.store.base
            &&& after == (BulkModel {
                store: after.store,
                levels: after.levels,
                leaf: Seq::empty(),
                leaf_key_bytes: 0,
                leaf_value_bytes: 0,
                ..state
            })
        }),
{
    let written = BulkModel {
        store: state.store.with_page(PageModel::Leaf { pairs: state.leaf }),
        leaf: Seq::empty(),
        leaf_key_bytes: 0,
        leaf_value_bytes: 0,
        ..state
    };
    let child = ChildModel {
        page: PageNumber { index: state.store.next() as usize },
        max_key: state.leaf.last().0,
    };
    let after = state.close_leaf().0;
    assert(written.store.page(child.page) == PageModel::Leaf { pairs: state.leaf });
    assert(is_subtree(written.store, child, 0));
    lemma_pending_within(state, written, 0);
    lemma_push_child_pending(written, 0, child);
    lemma_within_transitive(state.store, written.store, after.store);
    assert(after.records() =~= state.records());
    assert(after.pending_leaves(0) =~= state.pending_leaves(0).push(state.leaf));
}

/// Adding a record to the current leaf adds it to the records.
pub proof fn lemma_append_records(state: BulkModel, key: Seq<u8>, value: Seq<u8>)
    requires
        state.is_clean(),
        state.append(key, value).1 is Ok,
    ensures
        state.append(key, value).0.is_clean(),
        state.append(key, value).0.records() == state.records().push((key, value)),
        state.append(key, value).0.pending_leaves(0) == state.pending_leaves(0),
{
    let after = state.append(key, value).0;
    lemma_pending_within(state, after, 0);
    assert(after.records() =~= state.records().push((key, value)));
    assert(after.leaf.drop_last() =~= state.leaf);
}

/// A build starts without records.
pub proof fn law_initial_state_is_clean<K: Key, V: Value>(store: StoreModel, target: nat)
    ensures
        initial_state::<K, V>(store, target).is_clean(),
        initial_state::<K, V>(store, target).records() == Seq::<Pair>::empty(),
{
    let state = initial_state::<K, V>(store, target);
    assert(state.records() =~= Seq::empty());
}

/// A record that is accepted comes after all records before it, and nothing else about the records
/// changes.
pub proof fn law_push_appends_record(state: BulkModel, key: Seq<u8>, value: Seq<u8>)
    requires
        state.is_clean(),
        state.push(key, value).1 is Ok,
    ensures
        ({
            let after = state.push(key, value).0;
            &&& after.is_clean()
            &&& after.records() == state.records().push((key, value))
            &&& after.length == state.length + 1
            &&& after.target == state.target
            &&& after.key_width == state.key_width
            &&& after.value_width == state.value_width
            &&& state.store.within(after.store)
            &&& after.store.base == state.store.base
        }),
{
    if state.must_close(key, value) {
        lemma_close_leaf_records(state);
        lemma_append_records(state.close_leaf().0, key, value);
    } else {
        lemma_append_records(state, key, value);
    }
}

/// A record that no page can hold is refused, and the build can go on as if it had not been
/// offered.
pub proof fn law_unencodable_record_changes_nothing(state: BulkModel, key: Seq<u8>, value: Seq<u8>)
    requires
        leaf_bytes(1, key.len() + value.len(), state.key_width, state.value_width)
            > max_encoded_page(),
    ensures
        state.push(key, value).0 == state,
        state.push(key, value).1 is Err,
{
}

/// A record may be larger than the target: while no leaf is open, every record that a page can
/// hold is accepted, up to the largest count of records.
pub proof fn law_record_beyond_target_is_accepted(state: BulkModel, key: Seq<u8>, value: Seq<u8>)
    requires
        state.is_clean(),
        state.leaf.len() == 0,
        state.length < u64::MAX,
        leaf_bytes(1, key.len() + value.len(), state.key_width, state.value_width)
            <= max_encoded_page(),
    ensures
        state.push(key, value).1 is Ok,
        state.push(key, value).0.leaf == seq![(key, value)],
{
    assert(state.leaf.push((key, value)) =~= seq![(key, value)]);
}

/// A build in which no step has failed can be completed.
pub proof fn law_clean_build_can_finish(state: BulkModel)
    requires
        state.is_clean(),
    ensures
        state.can_finish(),
{
    assert forall|i: int|
        #![trigger state.levels[i]]
        0 <= i < state.levels.len() implies state.levels[i].children.len() >= 1 && (
    state.levels[i].emitted ==> state.levels[i].children.len() >= 2) by {
        assert(state.is_sound_level(i as nat));
    }
}

/// Completing the levels yields one tree with everything that waits.
proof fn lemma_finish_levels_tree(state: BulkModel, level: nat)
    requires
        state.can_finish_from(level),
        state.is_sound_from(level),
        state.finish_levels(level).1 is Ok,
    ensures
        ({
            let (after, root) = state.finish_levels(level);
            let root = root->Ok_0;
            &&& state.store.within(after.store)
            &&& after.store.base == state.store.base
            &&& after == (BulkModel { store: after.store, levels: after.levels, ..state })
            &&& after.store.has_tree(root.page)
            &&& after.store.records_below(root.page) == state.pending(level)
            &&& after.store.leaves_below(root.page) == state.pending_leaves(level)
        }),
    decreases waiting(state.levels.skip(level as int)),
{
    let here = state.levels[level as int];
    let rest = state.with_level(level as int, LevelModel { children: Seq::empty(), ..here });
    let (after, root) = state.finish_levels(level);
    let root = root->Ok_0;
    assert(state.is_sound_level(level));
    if !here.emitted && here.children.len() == 1 {
        assert(child_pages(here.children) =~= seq![root.page]);
        lemma_contents_of_one(state.store, root.page, level);
        assert(is_subtree(state.store, here.children[0], level));
        assert(state.pending(level + 1) == Seq::<Pair>::empty());
        assert(state.pending(level) =~= state.store.contents(root.page, level));
        assert(state.pending_leaves(level + 1) == Seq::<Seq<Pair>>::empty());
        assert(state.pending_leaves(level) =~= state.store.leaves(root.page, level));
        lemma_records_below(after.store, root.page, level);
    } else {
        let (built, parent) = rest.build_branch(here.children);
        let parent = parent->Ok_0;
        let emptied = LevelModel { children: Seq::empty(), emitted: true };
        let before = built.with_level(level as int, emptied);
        lemma_branch_is_subtree(state.store, here.children, level);
        lemma_pending_within(state, before, level + 1);
        lemma_push_child_pending(before, level + 1, parent);
        lemma_push_child_levels(before, level + 1, parent, level + 1);
        assert(state.levels.skip(level as int).drop_first() =~= before.levels.skip(
            (level + 1) as int,
        ));
        assert(here == state.levels.skip(level as int)[0]);
        assert forall|i: int|
            0 <= i < before.levels.skip((level + 1) as int).len() implies
            #[trigger] before.levels.skip((level + 1) as int)[i]
            == state.levels.skip(level as int)[i + 1] by {}
        let pushed = before.push_child(level + 1, parent).0;
        lemma_finish_levels_tree(pushed, level + 1);
        lemma_within_transitive(state.store, before.store, pushed.store);
        lemma_within_transitive(state.store, pushed.store, after.store);
    }
}

/// Completing a build yields a tree that holds the records that were added, in the order in which
/// they were added, all leaves at one depth and no branch with a single child. Without records
/// there is no tree.
pub proof fn law_finish_keeps_records(state: BulkModel)
    requires
        state.is_clean(),
        state.finish().1 is Ok,
    ensures
        ({
            let (after, root) = state.finish();
            &&& state.store.within(after.store)
            &&& after.store.base == state.store.base
            &&& after.length == state.records().len()
            &&& after.target == state.target
            &&& after.key_width == state.key_width
            &&& after.value_width == state.value_width
            &&& match root->Ok_0 {
                Some(header) => {
                    &&& state.records().len() > 0
                    &&& header.length == state.records().len()
                    &&& header.checksum == DEFERRED
                    &&& after.store.has_tree(header.root)
                    &&& after.store.records_below(header.root) == state.records()
                    &&& after.store.leaves_below(header.root) == state.leaves()
                },
                None => state.records().len() == 0,
            }
        }),
{
    law_clean_build_can_finish(state);
    let closed = if state.leaf.len() > 0 {
        lemma_close_leaf_records(state);
        state.close_leaf().0
    } else {
        state
    };
    law_clean_build_can_finish(closed);
    if closed.length > 0 {
        assert(closed.records() =~= closed.pending(0));
        assert(closed.levels.skip(0) =~= closed.levels);
        lemma_finish_levels_tree(closed, 0);
        lemma_within_transitive(state.store, closed.store, state.finish().0.store);
    }
}

} // verus!
