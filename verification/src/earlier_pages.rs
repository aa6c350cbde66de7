//! A build does not depend on the pages that its store held before: every step commutes with
//! leaving those pages out.

use vstd::prelude::*;

use crate::bulk_model::branch_page;
use crate::bulk_model::is_full;
use crate::bulk_model::lemma_close_leaf_levels;
use crate::bulk_model::lemma_push_child_levels;
use crate::bulk_model::waiting;
use crate::bulk_model::BulkModel;
use crate::bulk_model::ChildModel;
use crate::bulk_model::LevelModel;
use crate::page::PageModel;
use crate::page::PageNumber;
use crate::page::StoreModel;

verus! {

impl StoreModel {
    /// The store without its first pages.
    pub open spec fn without_first(self, count: nat) -> StoreModel {
        StoreModel { base: self.base + count, pages: self.pages.skip(count as int), ..self }
    }
}

impl BulkModel {
    /// The build in a store without the first pages.
    pub open spec fn without_first(self, count: nat) -> BulkModel {
        BulkModel { store: self.store.without_first(count), ..self }
    }
}

/// The pages that are left are pages of the store, under the same numbers.
pub proof fn lemma_without_first_within(store: StoreModel, count: nat)
    requires
        count <= store.pages.len(),
    ensures
        store.without_first(count).within(store),
        store.without_first(count).next() == store.next(),
{
}

/// Adding a page commutes with leaving out the first pages.
proof fn lemma_with_page_later(store: StoreModel, page: PageModel, count: nat)
    requires
        count <= store.pages.len(),
    ensures
        store.with_page(page).without_first(count) == store.without_first(count).with_page(page),
{
    assert(store.with_page(page).without_first(count) =~= store.without_first(count).with_page(
        page,
    ));
}

/// Writing a branch page commutes with leaving out the first pages.
proof fn lemma_build_branch_later(state: BulkModel, children: Seq<ChildModel>, count: nat)
    requires
        count <= state.store.pages.len(),
    ensures
        ({
            let (after, parent) = state.build_branch(children);
            &&& count <= after.store.pages.len()
            &&& state.without_first(count).build_branch(children) == (
                after.without_first(count),
                parent,
            )
        }),
{
    lemma_with_page_later(state.store, branch_page(children), count);
}

/// Adding a subtree commutes with leaving out the first pages.
proof fn lemma_push_child_later(state: BulkModel, level: nat, child: ChildModel, count: nat)
    requires
        level <= state.levels.len(),
        count <= state.store.pages.len(),
    ensures
        ({
            let (after, result) = state.push_child(level, child);
            &&& count <= after.store.pages.len()
            &&& state.without_first(count).push_child(level, child) == (
                after.without_first(count),
                result,
            )
        }),
    decreases state.levels.len() - level,
{
    let all = state.with_levels_to(level);
    let here = all.levels[level as int];
    assert(state.without_first(count).with_levels_to(level) == all.without_first(count));
    if here.children.len() >= 3 && is_full(here.children, state.key_width, state.target) {
        let kept = LevelModel { children: seq![here.children.last(), child], emitted: true };
        let marked = all.with_level(level as int, kept);
        let (built, parent) = marked.build_branch(here.children.drop_last());
        assert(all.without_first(count).with_level(level as int, kept) == marked.without_first(
            count,
        ));
        lemma_build_branch_later(marked, here.children.drop_last(), count);
        if let Ok(parent) = parent {
            lemma_push_child_later(built, level + 1, parent, count);
        }
    }
}

/// Writing the current leaf out commutes with leaving out the first pages.
proof fn lemma_close_leaf_later(state: BulkModel, count: nat)
    requires
        count <= state.store.pages.len(),
    ensures
        ({
            let (after, result) = state.close_leaf();
            &&& count <= after.store.pages.len()
            &&& state.without_first(count).close_leaf() == (after.without_first(count), result)
        }),
{
    if state.store.has_room() {
        let page = PageModel::Leaf { pairs: state.leaf };
        let written = BulkModel {
            store: state.store.with_page(page),
            leaf: Seq::empty(),
            leaf_key_bytes: 0,
            leaf_value_bytes: 0,
            ..state
        };
        let child = ChildModel {
            page: PageNumber { index: state.store.next() as usize },
            max_key: state.leaf.last().0,
        };
        lemma_with_page_later(state.store, page, count);
        lemma_push_child_later(written, 0, child, count);
    }
}

/// Adding a record commutes with leaving out the first pages.
pub proof fn lemma_push_later(state: BulkModel, key: Seq<u8>, value: Seq<u8>, count: nat)
    requires
        count <= state.store.pages.len(),
    ensures
        ({
            let (after, result) = state.push(key, value);
            &&& count <= after.store.pages.len()
            &&& state.without_first(count).push(key, value) == (
                after.without_first(count),
                result,
            )
        }),
{
    lemma_close_leaf_later(state, count);
}

/// Completing the levels commutes with leaving out the first pages.
proof fn lemma_finish_levels_later(state: BulkModel, level: nat, count: nat)
    requires
        state.can_finish_from(level),
        count <= state.store.pages.len(),
    ensures
        ({
            let (after, root) = state.finish_levels(level);
            &&& count <= after.store.pages.len()
            &&& state.without_first(count).finish_levels(level) == (
                after.without_first(count),
                root,
            )
        }),
    decreases waiting(state.levels.skip(level as int)),
{
    let here = state.levels[level as int];
    let rest = state.with_level(level as int, LevelModel { children: Seq::empty(), ..here });
    assert(here == state.levels.skip(level as int)[0]);
    if !here.emitted && here.children.len() == 1 {
    } else {
        let (built, parent) = rest.build_branch(here.children);
        lemma_build_branch_later(rest, here.children, count);
        if let Ok(parent) = parent {
            let emptied = LevelModel { children: Seq::empty(), emitted: true };
            let before = built.with_level(level as int, emptied);
            lemma_push_child_later(before, level + 1, parent, count);
            lemma_push_child_levels(before, level + 1, parent, level + 1);
            assert(state.levels.skip(level as int).drop_first() =~= before.levels.skip(
                (level + 1) as int,
            ));
            assert forall|i: int|
                0 <= i < before.levels.skip((level + 1) as int).len() implies
                #[trigger] before.levels.skip((level + 1) as int)[i]
                == state.levels.skip(level as int)[i + 1] by {}
            let (pushed, result) = before.push_child(level + 1, parent);
            if result is Ok {
                lemma_finish_levels_later(pushed, level + 1, count);
            }
        }
    }
}

/// Completing a build commutes with leaving out the first pages.
pub proof fn lemma_finish_later(state: BulkModel, count: nat)
    requires
        state.can_finish(),
        count <= state.store.pages.len(),
    ensures
        ({
            let (after, root) = state.finish();
            &&& count <= after.store.pages.len()
            &&& state.without_first(count).finish() == (after.without_first(count), root)
        }),
{
    lemma_close_leaf_levels(state);
    lemma_close_leaf_later(state, count);
    let (closed, result) = if state.leaf.len() > 0 {
        state.close_leaf()
    } else {
        (state, Ok(()))
    };
    assert(closed.levels.skip(0) =~= closed.levels);
    if result is Ok && closed.length > 0 {
        lemma_finish_levels_later(closed, 0, count);
    }
}

} // verus!
