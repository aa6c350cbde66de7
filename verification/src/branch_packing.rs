//! How full the branch pages of a bottom-up build are, and how many pages it takes.

use vstd::prelude::*;

use crate::btree_bulk::effective_target;
use crate::btree_bulk::initial_state;
use crate::bulk_laws::are_subtrees;
use crate::bulk_laws::child_pages;
use crate::bulk_laws::is_subtree;
use crate::bulk_laws::law_clean_build_can_finish;
use crate::bulk_laws::law_finish_keeps_records;
use crate::bulk_laws::lemma_branch_is_subtree;
use crate::bulk_laws::lemma_close_leaf_records;
use crate::bulk_laws::lemma_pending_within;
use crate::bulk_laws::lemma_push_child_pending;
use crate::bulk_model::branch_page;
use crate::bulk_model::is_full;
use crate::bulk_model::key_bytes;
use crate::bulk_model::lemma_push_child_levels;
use crate::bulk_model::waiting;
use crate::bulk_model::BulkModel;
use crate::bulk_model::ChildModel;
use crate::bulk_model::LevelModel;
use crate::layout::branch_bytes;
use crate::layout::MAX_PAGE_ENTRIES;
use crate::packing::lemma_push_all;
use crate::packing::lemma_push_child_packed;
use crate::packing::lemma_separator_bytes;
use crate::packing::level_fits;
use crate::packing::push_all;
use crate::packing::separator_bytes;
use crate::page::PageModel;
use crate::page::PageNumber;
use crate::page::Pair;
use crate::page::StoreModel;
use crate::tree::child_numbers;
use crate::tree::lemma_records_below;
use crate::tree::lemma_tree_nonempty;
use crate::tree::lemma_tree_within;
use crate::tree::max_key;
use crate::types::Key;
use crate::types::Value;

verus! {

/// A branch page is as full as it gets where more children follow, of which the first has the
/// largest key `next_key`. With one more child it would keep within the target, unless it has two
/// children only. With two more, its separators would exceed the target or the count that a branch
/// page can have.
pub open spec fn takes_one_more_at_most(
    store: StoreModel,
    page: PageNumber,
    height: nat,
    next_key: Seq<u8>,
    key_width: Option<usize>,
    target: nat,
) -> bool {
    match store.page(page) {
        PageModel::Leaf { pairs } => false,
        PageModel::Branch { children, keys } => {
            let with_one = keys.push(max_key(store.contents(page, height)));
            let with_two = with_one.push(next_key);
            &&& children.len() == 2 || (branch_bytes(
                with_one.len(),
                separator_bytes(with_one),
                key_width,
            ) <= target && with_one.len() <= MAX_PAGE_ENTRIES)
            &&& branch_bytes(with_two.len(), separator_bytes(with_two), key_width) > target
                || with_two.len() > MAX_PAGE_ENTRIES
        },
    }
}

/// The branch page `next` comes right after the branch page `page`, which has left it the last
/// child for which there was room, and could not have taken the first two children of `next`.
pub open spec fn comes_after(
    store: StoreModel,
    page: PageNumber,
    next: PageNumber,
    height: nat,
    key_width: Option<usize>,
    target: nat,
) -> bool {
    store.page(next) matches PageModel::Branch { children, keys } && keys.len() > 0
        && takes_one_more_at_most(store, page, height, keys[0], key_width, target)
}

/// Of neighbouring branch pages of one height, the left one could have taken the first child of the
/// right one as well, but not the first two.
pub open spec fn row_is_filled(
    store: StoreModel,
    row: Seq<PageNumber>,
    height: nat,
    key_width: Option<usize>,
    target: nat,
) -> bool {
    forall|i: int, j: int|
        0 <= i && i + 1 == j && j < row.len() ==> comes_after(
            store,
            #[trigger] row[i],
            #[trigger] row[j],
            height,
            key_width,
            target,
        )
}

/// The branch pages of a tree are filled, at every height.
pub open spec fn branches_are_filled(
    store: StoreModel,
    root: PageNumber,
    height: nat,
    key_width: Option<usize>,
    target: nat,
) -> bool {
    forall|level: nat|
        1 <= level <= height ==> row_is_filled(
            store,
            #[trigger] store.pages_at(root, height, level),
            level,
            key_width,
            target,
        )
}

/// All pages of the row are trees of the given height.
spec fn are_trees(store: StoreModel, row: Seq<PageNumber>, height: nat) -> bool {
    forall|i: int| 0 <= i < row.len() ==> store.is_tree(#[trigger] row[i], height)
}

/// A tree has the same pages as pages are added to its store.
proof fn lemma_pages_within(
    a: StoreModel,
    b: StoreModel,
    root: PageNumber,
    height: nat,
    level: nat,
)
    requires
        a.within(b),
        a.is_tree(root, height),
    ensures
        b.pages_at(root, height, level) == a.pages_at(root, height, level),
        b.page_count(root, height) == a.page_count(root, height),
    decreases height, 0nat,
{
    assert(b.page(root) == a.page(root));
    if let PageModel::Branch { children, keys } = a.page(root) {
        let roots = child_numbers(children);
        let below = (height - 1) as nat;
        assert forall|i: int| 0 <= i < roots.len() implies a.is_tree(
            #[trigger] roots[i],
            below,
        ) by {
            assert(roots[i] == children[i].0);
        }
        lemma_row_pages_within(a, b, roots, below, level);
    }
}

/// A row of trees has the same pages as pages are added to its store.
proof fn lemma_row_pages_within(
    a: StoreModel,
    b: StoreModel,
    roots: Seq<PageNumber>,
    height: nat,
    level: nat,
)
    requires
        a.within(b),
        are_trees(a, roots, height),
    ensures
        b.pages_at_of(roots, height, level) == a.pages_at_of(roots, height, level),
        b.page_count_of(roots, height) == a.page_count_of(roots, height),
    decreases height, roots.len(),
{
    if roots.len() > 0 {
        assert(a.is_tree(roots[roots.len() - 1], height));
        assert forall|i: int| 0 <= i < roots.drop_last().len() implies a.is_tree(
            #[trigger] roots.drop_last()[i],
            height,
        ) by {
            assert(roots.drop_last()[i] == roots[i]);
        }
        lemma_row_pages_within(a, b, roots.drop_last(), height, level);
        lemma_pages_within(a, b, roots.last(), height, level);
    }
}

/// The pages of one height in a tree are trees of that height.
proof fn lemma_pages_are_trees(store: StoreModel, root: PageNumber, height: nat, level: nat)
    requires
        store.is_tree(root, height),
        level <= height,
    ensures
        are_trees(store, store.pages_at(root, height, level), level),
        store.pages_at(root, height, level).len() > 0,
    decreases height, 0nat,
{
    if height > level {
        if let PageModel::Branch { children, keys } = store.page(root) {
            let roots = child_numbers(children);
            let below = (height - 1) as nat;
            assert forall|i: int| 0 <= i < roots.len() implies store.is_tree(
                #[trigger] roots[i],
                below,
            ) by {
                assert(roots[i] == children[i].0);
            }
            lemma_row_pages_are_trees(store, roots, below, level);
        }
    }
}

/// The pages of one height in a row of trees are trees of that height.
proof fn lemma_row_pages_are_trees(
    store: StoreModel,
    roots: Seq<PageNumber>,
    height: nat,
    level: nat,
)
    requires
        are_trees(store, roots, height),
        level <= height,
    ensures
        are_trees(store, store.pages_at_of(roots, height, level), level),
        roots.len() > 0 ==> store.pages_at_of(roots, height, level).len() > 0,
    decreases height, roots.len(),
{
    if roots.len() > 0 {
        assert(store.is_tree(roots[roots.len() - 1], height));
        assert forall|i: int| 0 <= i < roots.drop_last().len() implies store.is_tree(
            #[trigger] roots.drop_last()[i],
            height,
        ) by {
            assert(roots.drop_last()[i] == roots[i]);
        }
        lemma_row_pages_are_trees(store, roots.drop_last(), height, level);
        lemma_pages_are_trees(store, roots.last(), height, level);
    }
}

/// Children that are trees have root pages that are.
proof fn lemma_child_pages_are_trees(store: StoreModel, children: Seq<ChildModel>, height: nat)
    requires
        are_subtrees(store, children, height),
    ensures
        are_trees(store, child_pages(children), height),
{
    assert forall|i: int| 0 <= i < child_pages(children).len() implies store.is_tree(
        #[trigger] child_pages(children)[i],
        height,
    ) by {
        assert(is_subtree(store, children[i], height));
    }
}

/// The pages of a row with one more child.
proof fn lemma_row_pages_push(
    store: StoreModel,
    children: Seq<ChildModel>,
    child: ChildModel,
    height: nat,
    level: nat,
)
    ensures
        store.pages_at_of(child_pages(children.push(child)), height, level) == store.pages_at_of(
            child_pages(children),
            height,
            level,
        ) + store.pages_at(child.page, height, level),
        store.page_count_of(child_pages(children.push(child)), height) == store.page_count_of(
            child_pages(children),
            height,
        ) + store.page_count(child.page, height),
{
    assert(child_pages(children.push(child)) =~= child_pages(children).push(child.page));
    assert(child_pages(children).push(child.page).drop_last() =~= child_pages(children));
}

/// The pages of a row of one.
proof fn lemma_row_pages_one(store: StoreModel, child: ChildModel, height: nat, level: nat)
    ensures
        store.pages_at_of(child_pages(seq![child]), height, level) == store.pages_at(
            child.page,
            height,
            level,
        ),
        store.page_count_of(child_pages(seq![child]), height) == store.page_count(
            child.page,
            height,
        ),
{
    let none = Seq::<ChildModel>::empty();
    assert(seq![child] =~= none.push(child));
    lemma_row_pages_push(store, none, child, height, level);
    assert(child_pages(none) =~= Seq::empty());
    assert(store.pages_at_of(child_pages(none), height, level) =~= Seq::empty());
    assert(store.pages_at_of(child_pages(seq![child]), height, level) =~= store.pages_at(
        child.page,
        height,
        level,
    ));
}

/// Whether a branch page is filled does not change as pages are added.
proof fn lemma_cannot_take_within(
    a: StoreModel,
    b: StoreModel,
    page: PageNumber,
    height: nat,
    next_key: Seq<u8>,
    key_width: Option<usize>,
    target: nat,
)
    requires
        a.within(b),
        a.is_tree(page, height),
        takes_one_more_at_most(a, page, height, next_key, key_width, target),
    ensures
        takes_one_more_at_most(b, page, height, next_key, key_width, target),
{
    lemma_tree_within(a, b, page, height);
    assert(b.page(page) == a.page(page));
}

/// Whether a row is filled does not change as pages are added.
proof fn lemma_row_filled_within(
    a: StoreModel,
    b: StoreModel,
    row: Seq<PageNumber>,
    height: nat,
    key_width: Option<usize>,
    target: nat,
)
    requires
        a.within(b),
        are_trees(a, row, height),
        row_is_filled(a, row, height, key_width, target),
    ensures
        row_is_filled(b, row, height, key_width, target),
{
    assert forall|i: int, j: int| 0 <= i && i + 1 == j && j < row.len() implies comes_after(
        b,
        #[trigger] row[i],
        #[trigger] row[j],
        height,
        key_width,
        target,
    ) by {
        assert(comes_after(a, row[i], row[j], height, key_width, target));
        assert(a.is_tree(row[i], height));
        assert(a.is_tree(row[j], height));
        assert(b.page(row[j]) == a.page(row[j]));
        if let PageModel::Branch { children, keys } = a.page(row[j]) {
            lemma_cannot_take_within(a, b, row[i], height, keys[0], key_width, target);
        }
    }
}

impl BulkModel {
    /// The pages of height `level` in the subtrees that wait from `from` up, from left to right.
    pub open spec fn pending_pages(self, from: nat, level: nat) -> Seq<PageNumber>
        decreases self.levels.len() - from,
    {
        if from < self.levels.len() {
            self.pending_pages(from + 1, level) + self.store.pages_at_of(
                child_pages(self.levels[from as int].children),
                from,
                level,
            )
        } else {
            Seq::empty()
        }
    }

    /// The number of pages in the subtrees that wait from `from` up.
    pub open spec fn pending_page_count(self, from: nat) -> nat
        decreases self.levels.len() - from,
    {
        if from < self.levels.len() {
            self.pending_page_count(from + 1) + self.store.page_count_of(
                child_pages(self.levels[from as int].children),
                from,
            )
        } else {
            0
        }
    }

    /// The branch pages of height `level` are filled.
    pub open spec fn has_filled_row(self, level: nat) -> bool {
        row_is_filled(
            self.store,
            self.pending_pages(level, level),
            level,
            self.key_width,
            self.target,
        )
    }

    /// The last branch page over children of height `level` could take the first one that waits
    /// there as well, but not the first two.
    pub open spec fn has_filled_parent(self, level: nat) -> bool {
        takes_one_more_at_most(
            self.store,
            self.pending_pages(level + 1, level + 1).last(),
            level + 1,
            self.levels[level as int].children[0].max_key,
            self.key_width,
            self.target,
        )
    }

    /// The branch pages from height `from` up are filled.
    pub open spec fn fills_from(self, from: nat) -> bool {
        &&& forall|level: nat|
            from <= level < self.levels.len() && 1 <= level ==> #[trigger] self.has_filled_row(
                level,
            )
        &&& forall|level: nat|
            from <= level && level + 1 < self.levels.len() ==> #[trigger] self.has_filled_parent(
                level,
            )
    }

    /// All branch pages are filled, and all pages from position `first` on belong to subtrees that
    /// wait.
    pub open spec fn wastes_nothing(self, first: nat) -> bool {
        &&& self.fills_from(0)
        &&& self.levels_fit()
        &&& first + self.pending_page_count(0) == self.store.pages.len()
    }
}

/// The waiting subtrees of two states have the same pages where their levels agree, and pages were
/// only added.
proof fn lemma_pending_pages_within(a: BulkModel, b: BulkModel, from: nat, level: nat)
    requires
        a.store.within(b.store),
        a.levels.len() == b.levels.len(),
        forall|i: nat| from <= i < a.levels.len() ==> a.levels[i as int] == b.levels[i as int],
        a.is_sound_from(from),
    ensures
        b.pending_pages(from, level) == a.pending_pages(from, level),
        b.pending_page_count(from) == a.pending_page_count(from),
    decreases a.levels.len() - from,
{
    if from < a.levels.len() {
        lemma_pending_pages_within(a, b, from + 1, level);
        let children = a.levels[from as int].children;
        assert(a.is_sound_level(from));
        lemma_child_pages_are_trees(a.store, children, from);
        lemma_row_pages_within(a.store, b.store, child_pages(children), from, level);
    }
}

/// The pages of one height in what waits are trees of that height.
proof fn lemma_pending_pages_are_trees(state: BulkModel, from: nat, level: nat)
    requires
        state.is_sound_from(from),
        level <= from,
    ensures
        are_trees(state.store, state.pending_pages(from, level), level),
        from < state.levels.len() ==> state.pending_pages(from, level).len() > 0,
    decreases state.levels.len() - from,
{
    if from < state.levels.len() {
        lemma_pending_pages_are_trees(state, from + 1, level);
        let children = state.levels[from as int].children;
        assert(state.is_sound_level(from));
        lemma_child_pages_are_trees(state.store, children, from);
        lemma_row_pages_are_trees(state.store, child_pages(children), from, level);
    }
}

/// Branch pages stay filled as pages are added.
proof fn lemma_fills_within(a: BulkModel, b: BulkModel, from: nat)
    requires
        a.store.within(b.store),
        a.levels.len() == b.levels.len(),
        forall|i: nat| from <= i < a.levels.len() ==> a.levels[i as int] == b.levels[i as int],
        a.is_sound_from(from),
        a.key_width == b.key_width,
        a.target == b.target,
        a.fills_from(from),
    ensures
        b.fills_from(from),
{
    assert forall|level: nat|
        from <= level < b.levels.len() && 1 <= level implies #[trigger] b.has_filled_row(level) by {
        assert(a.has_filled_row(level));
        assert(a.is_sound_from(level));
        lemma_pending_pages_within(a, b, level, level);
        lemma_pending_pages_are_trees(a, level, level);
        lemma_row_filled_within(
            a.store,
            b.store,
            a.pending_pages(level, level),
            level,
            a.key_width,
            a.target,
        );
    }
    assert forall|level: nat|
        from <= level && level + 1 < b.levels.len() implies #[trigger] b.has_filled_parent(
        level,
    ) by {
        assert(a.has_filled_parent(level));
        lemma_filled_parent_within(a, b, level);
    }
}

/// The last branch page over the children of one height stays filled as pages are added.
proof fn lemma_filled_parent_within(a: BulkModel, b: BulkModel, level: nat)
    requires
        a.store.within(b.store),
        a.levels.len() == b.levels.len(),
        forall|i: nat| level < i < a.levels.len() ==> a.levels[i as int] == b.levels[i as int],
        a.is_sound_from(level + 1),
        level + 1 < a.levels.len(),
        a.key_width == b.key_width,
        a.target == b.target,
        a.has_filled_parent(level),
    ensures
        b.pending_pages(level + 1, level + 1) == a.pending_pages(level + 1, level + 1),
        a.store.is_tree(a.pending_pages(level + 1, level + 1).last(), level + 1),
        takes_one_more_at_most(
            b.store,
            b.pending_pages(level + 1, level + 1).last(),
            level + 1,
            a.levels[level as int].children[0].max_key,
            b.key_width,
            b.target,
        ),
{
    let row = a.pending_pages(level + 1, level + 1);
    lemma_pending_pages_within(a, b, level + 1, level + 1);
    lemma_pending_pages_are_trees(a, level + 1, level + 1);
    assert(a.store.is_tree(row[row.len() - 1], level + 1));
    lemma_cannot_take_within(
        a.store,
        b.store,
        row.last(),
        level + 1,
        a.levels[level as int].children[0].max_key,
        a.key_width,
        a.target,
    );
}

/// A filled row with one more branch page.
proof fn lemma_row_filled_push(
    store: StoreModel,
    row: Seq<PageNumber>,
    next: PageNumber,
    height: nat,
    key_width: Option<usize>,
    target: nat,
)
    requires
        row_is_filled(store, row, height, key_width, target),
        row.len() > 0 ==> comes_after(store, row.last(), next, height, key_width, target),
    ensures
        row_is_filled(store, row.push(next), height, key_width, target),
{
    let longer = row.push(next);
    assert forall|i: int, j: int| 0 <= i && i + 1 == j && j < longer.len() implies comes_after(
        store,
        #[trigger] longer[i],
        #[trigger] longer[j],
        height,
        key_width,
        target,
    ) by {
        if j < row.len() {
            assert(comes_after(store, row[i], row[j], height, key_width, target));
        }
    }
}

/// The branch page over a group is filled if the group is full together with the child that it
/// leaves.
proof fn lemma_group_is_filled(
    store: StoreModel,
    parent: ChildModel,
    group: Seq<ChildModel>,
    carry: ChildModel,
    height: nat,
    key_width: Option<usize>,
    target: nat,
)
    requires
        group.len() >= 2,
        store.page(parent.page) == branch_page(group),
        max_key(store.contents(parent.page, height)) == group.last().max_key,
        is_full(group.push(carry), key_width, target),
        group.len() == 2 || !is_full(group, key_width, target),
    ensures
        takes_one_more_at_most(store, parent.page, height, carry.max_key, key_width, target),
{
    let all = group.push(carry);
    let keys = group.drop_last().map_values(|child: ChildModel| child.max_key);
    let separators = keys.push(group.last().max_key).push(carry.max_key);
    assert(separators =~= all.map_values(|child: ChildModel| child.max_key));
    lemma_separator_bytes(all);
    assert(key_bytes(all) == separator_bytes(separators));
    assert(keys.push(group.last().max_key) =~= group.map_values(
        |child: ChildModel| child.max_key,
    ));
    lemma_separator_bytes(group);
}

/// Adding a subtree keeps the branch pages filled, and wastes no page.
#[verifier::rlimit(60)]
#[verifier::spinoff_prover]
proof fn lemma_push_child_fills(state: BulkModel, level: nat, child: ChildModel)
    requires
        level <= state.levels.len(),
        state.is_sound_from(level),
        is_subtree(state.store, child, level),
        state.push_child(level, child).1 is Ok,
        state.fills_from(level),
        state.levels_fit(),
        1 <= level < state.levels.len() ==> comes_after(
            state.store,
            state.pending_pages(level, level).last(),
            child.page,
            level,
            state.key_width,
            state.target,
        ),
    ensures
        ({
            let after = state.push_child(level, child).0;
            &&& after.fills_from(level)
            &&& forall|l: nat|
                l <= level ==> #[trigger] after.pending_pages(level, l) == state.pending_pages(
                    level,
                    l,
                ) + state.store.pages_at(child.page, level, l)
            &&& after.pending_page_count(level) + state.store.pages.len()
                == state.pending_page_count(level) + state.store.page_count(child.page, level)
                + after.store.pages.len()
        }),
    decreases state.levels.len() - level, 1nat,
{
    let all = state.with_levels_to(level);
    let here = all.levels[level as int];
    let after = state.push_child(level, child).0;
    lemma_push_child_pending(state, level, child);
    if level < state.levels.len() {
        assert(state.is_sound_level(level));
    }
    if here.children.len() >= 3 && is_full(here.children, state.key_width, state.target) {
        lemma_push_child_emits(state, level, child);
    } else {
        let grown = LevelModel { children: here.children.push(child), ..here };
        assert(after == all.with_level(level as int, grown));
        assert(state.store.within(state.store));
        assert forall|l: nat| l <= level implies #[trigger] after.pending_pages(level, l)
            == state.pending_pages(level, l) + state.store.pages_at(child.page, level, l) by {
            lemma_row_pages_push(state.store, here.children, child, level, l);
            if level < state.levels.len() {
                lemma_pending_pages_within(state, after, level + 1, l);
            } else {
                assert(after.pending_pages(level + 1, l) =~= Seq::empty());
                assert(child_pages(here.children) =~= Seq::empty());
                assert(state.store.pages_at_of(child_pages(here.children), level, l)
                    =~= Seq::empty());
            }
            assert(after.pending_pages(level, l) =~= state.pending_pages(level, l)
                + state.store.pages_at(child.page, level, l));
        }
        lemma_row_pages_push(state.store, here.children, child, level, level);
        if level < state.levels.len() {
            lemma_pending_pages_within(state, after, level + 1, level);
        } else {
            assert(child_pages(here.children) =~= Seq::empty());
            assert(after.pending_page_count(level + 1) == 0);
        }
        assert(after.pending_page_count(level) == state.pending_page_count(level)
            + state.store.page_count(child.page, level));
        assert(after.pending_pages(level, level) == state.pending_pages(level, level)
            + state.store.pages_at(child.page, level, level));
        assert(after.pending_pages(level, level) =~= state.pending_pages(level, level).push(
            child.page,
        ));
        if level >= 1 {
            if level < state.levels.len() {
                assert(state.has_filled_row(level));
                lemma_pending_pages_are_trees(state, level, level);
            } else {
                assert(state.pending_pages(level, level) =~= Seq::empty());
            }
            lemma_row_filled_push(
                state.store,
                state.pending_pages(level, level),
                child.page,
                level,
                state.key_width,
                state.target,
            );
        }
        assert forall|l: nat|
            level <= l < after.levels.len() && 1 <= l implies #[trigger] after.has_filled_row(
            l,
        ) by {
            if l > level {
                assert(state.has_filled_row(l));
                assert(state.is_sound_from(l));
                lemma_pending_pages_within(state, after, l, l);
            }
        }
        assert forall|l: nat|
            level <= l && l + 1 < after.levels.len() implies #[trigger] after.has_filled_parent(
            l,
        ) by {
            assert(state.has_filled_parent(l));
            assert(state.is_sound_from(l + 1));
            lemma_filled_parent_within(state, after, l);
        }
    }
}

/// The same, where the children of the level get a parent.
#[verifier::rlimit(60)]
#[verifier::spinoff_prover]
proof fn lemma_push_child_emits(state: BulkModel, level: nat, child: ChildModel)
    requires
        level < state.levels.len(),
        state.is_sound_from(level),
        is_subtree(state.store, child, level),
        state.push_child(level, child).1 is Ok,
        state.fills_from(level),
        state.levels_fit(),
        1 <= level ==> comes_after(
            state.store,
            state.pending_pages(level, level).last(),
            child.page,
            level,
            state.key_width,
            state.target,
        ),
        state.levels[level as int].children.len() >= 3,
        is_full(state.levels[level as int].children, state.key_width, state.target),
    ensures
        ({
            let after = state.push_child(level, child).0;
            &&& after.fills_from(level)
            &&& forall|l: nat|
                l <= level ==> #[trigger] after.pending_pages(level, l) == state.pending_pages(
                    level,
                    l,
                ) + state.store.pages_at(child.page, level, l)
            &&& after.pending_page_count(level) + state.store.pages.len()
                == state.pending_page_count(level) + state.store.page_count(child.page, level)
                + after.store.pages.len()
        }),
    decreases state.levels.len() - level, 0nat,
{
    let here = state.levels[level as int];
    let after = state.push_child(level, child).0;
    let group = here.children.drop_last();
    let carry = here.children.last();
    let kept = LevelModel { children: seq![carry, child], emitted: true };
    let marked = state.with_level(level as int, kept);
    let (built, parent) = marked.build_branch(group);
    let parent = parent->Ok_0;
    assert(here.children =~= group.push(carry));
    assert(state.is_sound_level(level));
    assert(are_subtrees(state.store, group, level)) by {
        assert forall|i: int| 0 <= i < group.len() implies is_subtree(
            state.store,
            #[trigger] group[i],
            level,
        ) by {
            assert(group[i] == here.children[i]);
        }
    }
    lemma_branch_is_subtree(state.store, group, level);
    lemma_pending_within(state, built, level + 1);
    assert(state.is_sound_from(level + 1));
    lemma_fills_within(state, built, level + 1);
    assert(built.store.page(parent.page) == branch_page(group));
    // The new parent comes after the last one.
    let first_keys = group.drop_last().map_values(|child: ChildModel| child.max_key);
    assert(first_keys[0] == here.children[0].max_key);
    if level + 1 < state.levels.len() {
        assert(state.has_filled_parent(level));
        lemma_filled_parent_within(state, built, level);
    }
    assert(level_fits(here, state.key_width, state.target));
    assert(built.levels_fit());
    lemma_push_child_fills(built, level + 1, parent);
    lemma_push_child_pending(built, level + 1, parent);
    lemma_push_child_pending(state, level, child);
    lemma_push_child_levels(built, level + 1, parent, level + 1);
    assert(after.levels[level as int] == after.levels.take((level + 1) as int)[level as int]);
    assert(after.levels[level as int] == kept);
    // What follows is about the pages of each height.
    assert(is_subtree(state.store, here.children[here.children.len() - 1], level));
    assert(are_subtrees(state.store, kept.children, level));
    lemma_child_pages_are_trees(state.store, kept.children, level);
    lemma_child_pages_are_trees(state.store, group, level);
    assert(child_numbers(branch_page(group)->children) =~= child_pages(group));
    assert(kept.children =~= seq![carry].push(child));
    assert forall|l: nat| l <= level implies #[trigger] after.pending_pages(level, l)
        == state.pending_pages(level, l) + state.store.pages_at(child.page, level, l)
        && after.pending_page_count(level) + state.store.pages.len() == state.pending_page_count(
        level,
    ) + state.store.page_count(child.page, level) + after.store.pages.len() by {
        lemma_pending_pages_within(state, built, level + 1, l);
        lemma_row_pages_within(state.store, built.store, child_pages(group), level, l);
        lemma_row_pages_within(state.store, after.store, child_pages(kept.children), level, l);
        lemma_row_pages_push(state.store, group, carry, level, l);
        lemma_row_pages_push(state.store, seq![carry], child, level, l);
        lemma_row_pages_one(state.store, carry, level, l);
        assert(after.pending_pages(level + 1, l) == built.pending_pages(level + 1, l)
            + built.store.pages_at(parent.page, level + 1, l));
        assert(after.pending_pages(level, l) =~= state.pending_pages(level, l)
            + state.store.pages_at(child.page, level, l));
    }
    assert(after.pending_pages(level, level) =~= state.pending_pages(level, level).push(
        child.page,
    ));
    if level >= 1 {
        let row = state.pending_pages(level, level);
        assert(state.has_filled_row(level));
        lemma_pending_pages_are_trees(state, level, level);
        lemma_row_filled_push(
            state.store,
            row,
            child.page,
            level,
            state.key_width,
            state.target,
        );
        assert forall|i: int| 0 <= i < row.push(child.page).len() implies state.store.is_tree(
            #[trigger] row.push(child.page)[i],
            level,
        ) by {
            if i < row.len() {
                assert(state.store.is_tree(row[i], level));
            }
        }
        lemma_row_filled_within(
            state.store,
            after.store,
            row.push(child.page),
            level,
            state.key_width,
            state.target,
        );
    }
    assert forall|l: nat|
        level <= l < after.levels.len() && 1 <= l implies #[trigger] after.has_filled_row(l) by {
        if l > level {
            assert(level + 1 <= l);
        }
    }
    // The new parent is the last one, and could not take the two children that stay.
    assert(after.pending_pages(level + 1, level + 1) == built.pending_pages(level + 1, level + 1)
        + built.store.pages_at(parent.page, level + 1, level + 1));
    assert(after.pending_pages(level + 1, level + 1).last() == parent.page);
    lemma_group_is_filled(
        built.store,
        parent,
        group,
        carry,
        level + 1,
        state.key_width,
        state.target,
    );
    lemma_cannot_take_within(
        built.store,
        after.store,
        parent.page,
        level + 1,
        carry.max_key,
        state.key_width,
        state.target,
    );
    assert(after.has_filled_parent(level));
    assert forall|l: nat|
        level <= l && l + 1 < after.levels.len() implies #[trigger] after.has_filled_parent(l) by {
        if l > level {
            assert(level + 1 <= l);
        }
    }
}

/// Writing the current leaf out keeps the branch pages filled, and wastes no page.
proof fn lemma_close_leaf_fills(state: BulkModel, first: nat)
    requires
        state.is_clean(),
        state.leaf.len() > 0,
        state.close_leaf().1 is Ok,
        state.wastes_nothing(first),
    ensures
        state.close_leaf().0.wastes_nothing(first),
{
    let written = BulkModel {
        store: state.store.with_page(PageModel::Leaf { pairs: state.leaf }),
        leaf: Seq::empty(),
        leaf_key_bytes: 0,
        leaf_value_bytes: 0,
        ..state
    };
    let child = ChildModel {
        page: PageNumber { index: state.store.next() as usize },
        max_key: state.leaf.last().0,
    };
    assert(written.store.page(child.page) == PageModel::Leaf { pairs: state.leaf });
    assert(is_subtree(written.store, child, 0));
    lemma_pending_within(state, written, 0);
    lemma_fills_within(state, written, 0);
    lemma_pending_pages_within(state, written, 0, 0);
    assert(written.levels_fit());
    lemma_push_child_fills(written, 0, child);
    lemma_push_child_packed(written, 0, child, written.store.pages.len());
}

/// A build starts without branch pages.
pub proof fn law_initial_state_wastes_nothing<K: Key, V: Value>(store: StoreModel, target: nat)
    ensures
        initial_state::<K, V>(store, target).wastes_nothing(store.pages.len()),
{
}

/// Adding a record leaves no branch page but the last of each height with room for the two children
/// that follow it, and no page that is not part of the tree.
pub proof fn law_push_wastes_nothing(state: BulkModel, key: Seq<u8>, value: Seq<u8>, first: nat)
    requires
        state.is_clean(),
        state.wastes_nothing(first),
        state.push(key, value).1 is Ok,
    ensures
        state.push(key, value).0.wastes_nothing(first),
{
    let closed = if state.must_close(key, value) {
        lemma_close_leaf_records(state);
        lemma_close_leaf_fills(state, first);
        state.close_leaf().0
    } else {
        state
    };
    let after = state.push(key, value).0;
    assert(closed.store.within(after.store));
    lemma_fills_within(closed, after, 0);
    lemma_pending_pages_within(closed, after, 0, 0);
}

/// Completing the levels keeps the branch pages filled, and wastes no page.
#[verifier::rlimit(60)]
#[verifier::spinoff_prover]
proof fn lemma_finish_levels_fills(state: BulkModel, level: nat)
    requires
        state.can_finish_from(level),
        state.is_sound_from(level),
        state.finish_levels(level).1 is Ok,
        state.fills_from(level),
        state.levels_fit(),
        forall|l: nat|
            1 <= l < level ==> row_is_filled(
                state.store,
                #[trigger] state.pending_pages(level, l),
                l,
                state.key_width,
                state.target,
            ),
    ensures
        ({
            let (after, root) = state.finish_levels(level);
            let root = root->Ok_0;
            let height = after.store.height_of(root.page);
            &&& after.store.is_tree(root.page, height)
            &&& branches_are_filled(
                after.store,
                root.page,
                height,
                state.key_width,
                state.target,
            )
            &&& after.store.page_count(root.page, height) + state.store.pages.len()
                == state.pending_page_count(level) + after.store.pages.len()
        }),
    decreases waiting(state.levels.skip(level as int)),
{
    let here = state.levels[level as int];
    let rest = state.with_level(level as int, LevelModel { children: Seq::empty(), ..here });
    let (after, root) = state.finish_levels(level);
    let root = root->Ok_0;
    assert(state.is_sound_level(level));
    if !here.emitted && here.children.len() == 1 {
        assert(here.children =~= seq![root]);
        assert(is_subtree(state.store, here.children[0], level));
        lemma_records_below(after.store, root.page, level);
        assert forall|l: nat| 1 <= l <= level implies row_is_filled(
            after.store,
            #[trigger] after.store.pages_at(root.page, level, l),
            l,
            state.key_width,
            state.target,
        ) by {
            lemma_row_pages_one(state.store, root, level, l);
            assert(state.pending_pages(level + 1, l) =~= Seq::empty());
            assert(state.pending_pages(level, l) =~= state.store.pages_at(root.page, level, l));
            if l == level {
                assert(state.has_filled_row(level));
            }
        }
        lemma_row_pages_one(state.store, root, level, level);
        assert(state.pending_page_count(level + 1) == 0);
    } else {
        let (built, parent) = rest.build_branch(here.children);
        let parent = parent->Ok_0;
        let emptied = LevelModel { children: Seq::empty(), emitted: true };
        let before = built.with_level(level as int, emptied);
        lemma_branch_is_subtree(state.store, here.children, level);
        lemma_pending_within(state, before, level + 1);
        assert(state.is_sound_from(level + 1));
        lemma_fills_within(state, before, level + 1);
        assert(before.store.page(parent.page) == branch_page(here.children));
        let first_keys = here.children.drop_last().map_values(
            |child: ChildModel| child.max_key,
        );
        assert(first_keys[0] == here.children[0].max_key);
        if level + 1 < state.levels.len() {
            assert(state.has_filled_parent(level));
            lemma_filled_parent_within(state, before, level);
        }
        assert(before.levels_fit());
        lemma_push_child_fills(before, level + 1, parent);
        lemma_push_child_packed(before, level + 1, parent, before.store.pages.len());
        lemma_push_child_pending(before, level + 1, parent);
        lemma_push_child_levels(before, level + 1, parent, level + 1);
        assert(state.levels.skip(level as int).drop_first() =~= before.levels.skip(
            (level + 1) as int,
        ));
        assert(here == state.levels.skip(level as int)[0]);
        assert forall|i: int|
            0 <= i < before.levels.skip((level + 1) as int).len() implies
            #[trigger] before.levels.skip((level + 1) as int)[i]
            == state.levels.skip(level as int)[i + 1] by {}
        let pushed = before.push_child(level + 1, parent).0;
        lemma_child_pages_are_trees(state.store, here.children, level);
        assert(child_numbers(branch_page(here.children)->children) =~= child_pages(here.children));
        assert forall|l: nat| 1 <= l < level + 1 implies row_is_filled(
            pushed.store,
            #[trigger] pushed.pending_pages(level + 1, l),
            l,
            state.key_width,
            state.target,
        ) by {
            lemma_pending_pages_within(state, before, level + 1, l);
            lemma_row_pages_within(
                state.store,
                before.store,
                child_pages(here.children),
                level,
                l,
            );
            assert(pushed.pending_pages(level + 1, l) == state.pending_pages(level, l));
            if l == level {
                assert(state.has_filled_row(level));
            }
            lemma_pending_pages_are_trees(state, level, l);
            lemma_row_filled_within(
                state.store,
                pushed.store,
                state.pending_pages(level, l),
                l,
                state.key_width,
                state.target,
            );
        }
        lemma_pending_pages_within(state, before, level + 1, level);
        lemma_row_pages_within(state.store, before.store, child_pages(here.children), level, level);
        lemma_finish_levels_fills(pushed, level + 1);
    }
}

/// Subtrees that wait hold records.
proof fn lemma_waiting_has_records(state: BulkModel)
    requires
        state.is_clean(),
        state.levels.len() > 0,
    ensures
        state.records().len() > 0,
{
    let children = state.levels[0].children;
    let pages = child_pages(children);
    assert(state.is_sound_level(0));
    assert(is_subtree(state.store, children[children.len() - 1], 0));
    lemma_tree_nonempty(state.store, pages.last(), 0);
}

/// A completed tree has filled branch pages: of neighbours at one height, the left one could have
/// taken the first child of the right one as well, but not the first two. Every page that was
/// written is part of the tree.
pub proof fn law_finish_wastes_nothing(state: BulkModel, first: nat)
    requires
        state.is_clean(),
        state.wastes_nothing(first),
        state.finish().1 is Ok,
    ensures
        ({
            let (after, root) = state.finish();
            match root->Ok_0 {
                Some(header) => {
                    let height = after.store.height_of(header.root);
                    &&& after.store.is_tree(header.root, height)
                    &&& branches_are_filled(
                        after.store,
                        header.root,
                        height,
                        state.key_width,
                        state.target,
                    )
                    &&& after.store.pages.len() == first + after.store.page_count(
                        header.root,
                        height,
                    )
                },
                None => after.store.pages.len() == first,
            }
        }),
{
    law_clean_build_can_finish(state);
    law_finish_keeps_records(state);
    let closed = if state.leaf.len() > 0 {
        lemma_close_leaf_records(state);
        lemma_close_leaf_fills(state, first);
        state.close_leaf().0
    } else {
        state
    };
    law_clean_build_can_finish(closed);
    if closed.length > 0 {
        assert(closed.records() =~= closed.pending(0));
        assert(closed.levels.skip(0) =~= closed.levels);
        lemma_finish_levels_fills(closed, 0);
    } else if closed.levels.len() > 0 {
        assert(closed.is_sound_level(0));
        lemma_waiting_has_records(closed);
    }
}

/// The branch pages of a tree stay filled, and its pages the same, as pages are added.
pub proof fn lemma_branches_filled_within(
    a: StoreModel,
    b: StoreModel,
    root: PageNumber,
    height: nat,
    key_width: Option<usize>,
    target: nat,
)
    requires
        a.within(b),
        a.is_tree(root, height),
        branches_are_filled(a, root, height, key_width, target),
    ensures
        branches_are_filled(b, root, height, key_width, target),
        b.page_count(root, height) == a.page_count(root, height),
{
    assert forall|level: nat| 1 <= level <= height implies row_is_filled(
        b,
        #[trigger] b.pages_at(root, height, level),
        level,
        key_width,
        target,
    ) by {
        lemma_pages_within(a, b, root, height, level);
        lemma_pages_are_trees(a, root, height, level);
        lemma_row_filled_within(
            a,
            b,
            a.pages_at(root, height, level),
            level,
            key_width,
            target,
        );
    }
    lemma_pages_within(a, b, root, height, 0);
}

/// The state of a build whose records were all accepted.
proof fn lemma_push_all_wastes_nothing<K: Key, V: Value>(
    store: StoreModel,
    target: nat,
    pairs: Seq<Pair>,
)
    requires
        push_all(initial_state::<K, V>(store, target), pairs).1 is Ok,
    ensures
        push_all(initial_state::<K, V>(store, target), pairs).0.wastes_nothing(store.pages.len()),
    decreases pairs.len(),
{
    if pairs.len() == 0 {
        law_initial_state_wastes_nothing::<K, V>(store, target);
    } else {
        let before = push_all(initial_state::<K, V>(store, target), pairs.drop_last()).0;
        lemma_push_all_wastes_nothing::<K, V>(store, target, pairs.drop_last());
        lemma_push_all::<K, V>(store, target, pairs.drop_last());
        law_push_wastes_nothing(before, pairs.last().0, pairs.last().1, store.pages.len());
    }
}

/// Records that were all accepted become a tree whose branch pages are filled: of neighbours at one
/// height, the left one together with the first two children of the right one would exceed the
/// target size, or have more separators than a page can count; and it has left the first of them to
/// the right one only to spare that a single child. The build writes the pages of the tree and no
/// others.
pub proof fn law_accepted_records_waste_nothing<K: Key, V: Value>(
    store: StoreModel,
    target: nat,
    pairs: Seq<Pair>,
)
    requires
        push_all(initial_state::<K, V>(store, target), pairs).1 is Ok,
        push_all(initial_state::<K, V>(store, target), pairs).0.finish().1 is Ok,
    ensures
        ({
            let (after, root) = push_all(initial_state::<K, V>(store, target), pairs).0.finish();
            match root->Ok_0 {
                Some(header) => {
                    let height = after.store.height_of(header.root);
                    &&& pairs.len() > 0
                    &&& after.store.is_tree(header.root, height)
                    &&& branches_are_filled(
                        after.store,
                        header.root,
                        height,
                        K::width(),
                        effective_target(target, store.page_size),
                    )
                    &&& after.store.pages.len() == store.pages.len() + after.store.page_count(
                        header.root,
                        height,
                    )
                },
                None => pairs.len() == 0 && after.store.pages.len() == store.pages.len(),
            }
        }),
{
    let state = push_all(initial_state::<K, V>(store, target), pairs).0;
    lemma_push_all::<K, V>(store, target, pairs);
    lemma_push_all_wastes_nothing::<K, V>(store, target, pairs);
    law_finish_keeps_records(state);
    law_finish_wastes_nothing(state, store.pages.len());
}

} // verus!
