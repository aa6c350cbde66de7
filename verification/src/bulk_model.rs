//! The bottom-up build as a state machine.
//!
//! Each step takes a state to the next state and to what the step returns. A step that fails also
//! leaves a state behind, in which the build can no longer be completed.

use vstd::prelude::*;

use crate::error::StorageFault;
use crate::layout::branch_bytes;
use crate::layout::leaf_bytes;
use crate::layout::max_encoded_page;
use crate::layout::reported_size;
use crate::layout::MAX_PAGE_ENTRIES;
use crate::page::BtreeHeader;
use crate::page::PageModel;
use crate::page::PageNumber;
use crate::page::Pair;
use crate::page::StoreModel;
use crate::page::DEFERRED;

verus! {

/// A finished subtree that waits for a parent: its root page and its largest key.
#[verifier::ext_equal]
pub struct ChildModel {
    pub page: PageNumber,
    pub max_key: Seq<u8>,
}

/// The subtrees of one height that wait for a parent, and whether others of that height already
/// have one.
#[verifier::ext_equal]
pub struct LevelModel {
    pub children: Seq<ChildModel>,
    pub emitted: bool,
}

/// The state of a build.
#[verifier::ext_equal]
pub struct BulkModel {
    pub key_width: Option<usize>,
    pub value_width: Option<usize>,
    pub store: StoreModel,
    pub root: Option<BtreeHeader>,
    pub leaf: Seq<Pair>,
    pub leaf_key_bytes: nat,
    pub leaf_value_bytes: nat,
    pub levels: Seq<LevelModel>,
    pub target: nat,
    pub length: nat,
}

/// Bytes of the largest keys of all children.
pub open spec fn key_bytes(children: Seq<ChildModel>) -> nat
    decreases children.len(),
{
    if children.len() == 0 {
        0
    } else {
        key_bytes(children.drop_last()) + children.last().max_key.len()
    }
}

/// The branch page over `children`: the largest key of each child but the last separates it from
/// its right neighbour.
pub open spec fn branch_page(children: Seq<ChildModel>) -> PageModel {
    PageModel::Branch {
        children: children.map_values(|child: ChildModel| (child.page, DEFERRED)),
        keys: children.drop_last().map_values(|child: ChildModel| child.max_key),
    }
}

/// Encoded size of the branch page over `children`.
pub open spec fn branch_size(children: Seq<ChildModel>, key_width: Option<usize>) -> nat {
    branch_bytes((children.len() - 1) as nat, key_bytes(children.drop_last()), key_width)
}

/// The children do not go on one page of the target size together with one more child.
pub open spec fn is_full(
    children: Seq<ChildModel>,
    key_width: Option<usize>,
    target: nat,
) -> bool {
    ||| branch_bytes(children.len(), key_bytes(children), key_width) > target
    ||| children.len() > MAX_PAGE_ENTRIES
}

/// A level without children.
pub open spec fn empty_level() -> LevelModel {
    LevelModel { children: Seq::empty(), emitted: false }
}

/// At least one child waits in every level, and at least two where others already have a parent.
pub open spec fn is_shaped(levels: Seq<LevelModel>) -> bool {
    forall|i: int|
        #![trigger levels[i]]
        0 <= i < levels.len() ==> levels[i].children.len() >= 1 && (levels[i].emitted
            ==> levels[i].children.len() >= 2)
}

/// The number of children that wait in all levels.
pub open spec fn waiting(levels: Seq<LevelModel>) -> nat
    decreases levels.len(),
{
    if levels.len() == 0 {
        0
    } else {
        waiting(levels.drop_first()) + levels[0].children.len()
    }
}

impl BulkModel {
    /// The state with the given level replaced.
    pub open spec fn with_level(self, level: int, replacement: LevelModel) -> BulkModel {
        BulkModel { levels: self.levels.update(level, replacement), ..self }
    }

    /// The state with levels added until `level` exists.
    pub open spec fn with_levels_to(self, level: nat) -> BulkModel {
        if level < self.levels.len() {
            self
        } else {
            BulkModel {
                levels: self.levels + Seq::new(
                    (level + 1 - self.levels.len()) as nat,
                    |i: int| empty_level(),
                ),
                ..self
            }
        }
    }

    /// Puts `children` under a new branch page.
    pub open spec fn build_branch(self, children: Seq<ChildModel>) -> (
        BulkModel,
        Result<ChildModel, StorageFault>,
    ) {
        let size = branch_size(children, self.key_width);
        if size > max_encoded_page() {
            (self, Err(StorageFault::ValueTooLarge(reported_size(size))))
        } else if !self.store.has_room() {
            (self, Err(StorageFault::OutOfPages))
        } else {
            (
                BulkModel { store: self.store.with_page(branch_page(children)), ..self },
                Ok(
                    ChildModel {
                        page: PageNumber { index: self.store.next() as usize },
                        max_key: children.last().max_key,
                    },
                ),
            )
        }
    }

    /// Adds a child to a level. If the level is full, all its children but the last get a parent
    /// first, which goes to the next level; the last one stays, so that the level never ends with
    /// a single child.
    pub open spec fn push_child(self, level: nat, child: ChildModel) -> (
        BulkModel,
        Result<(), StorageFault>,
    )
        decreases self.levels.len() - level,
    {
        let state = self.with_levels_to(level);
        let here = state.levels[level as int];
        if here.children.len() >= 3 && is_full(here.children, self.key_width, self.target) {
            let kept = LevelModel { children: seq![here.children.last(), child], emitted: true };
            let (state, parent) = state.with_level(level as int, kept).build_branch(
                here.children.drop_last(),
            );
            match parent {
                Ok(parent) => state.push_child(level + 1, parent),
                Err(fault) => (state, Err(fault)),
            }
        } else {
            let grown = LevelModel { children: here.children.push(child), ..here };
            (state.with_level(level as int, grown), Ok(()))
        }
    }

    /// Writes the current leaf out and adds it to the lowest level.
    pub open spec fn close_leaf(self) -> (BulkModel, Result<(), StorageFault>) {
        let taken = BulkModel { leaf: Seq::empty(), ..self };
        if !self.store.has_room() {
            (taken, Err(StorageFault::OutOfPages))
        } else {
            let written = BulkModel {
                store: self.store.with_page(PageModel::Leaf { pairs: self.leaf }),
                leaf_key_bytes: 0,
                leaf_value_bytes: 0,
                ..taken
            };
            let child = ChildModel {
                page: PageNumber { index: self.store.next() as usize },
                max_key: self.leaf.last().0,
            };
            written.push_child(0, child)
        }
    }

    /// The current leaf has to be written out before the record can be added.
    pub open spec fn must_close(self, key: Seq<u8>, value: Seq<u8>) -> bool {
        let payload = self.leaf_key_bytes + key.len() + self.leaf_value_bytes + value.len();
        let size = leaf_bytes(self.leaf.len() + 1, payload, self.key_width, self.value_width);
        self.leaf.len() > 0 && (size > self.target || self.leaf.len() + 1 > MAX_PAGE_ENTRIES)
    }

    /// Adds a record to the current leaf, whatever its size.
    pub open spec fn append(self, key: Seq<u8>, value: Seq<u8>) -> (
        BulkModel,
        Result<(), StorageFault>,
    ) {
        if self.leaf_key_bytes + key.len() > usize::MAX {
            (self, Err(StorageFault::Corrupted("sorted leaf key length overflow"@)))
        } else if self.leaf_value_bytes + value.len() > usize::MAX {
            (
                BulkModel { leaf_key_bytes: self.leaf_key_bytes + key.len(), ..self },
                Err(StorageFault::Corrupted("sorted leaf value length overflow"@)),
            )
        } else {
            let added = BulkModel {
                leaf: self.leaf.push((key, value)),
                leaf_key_bytes: self.leaf_key_bytes + key.len(),
                leaf_value_bytes: self.leaf_value_bytes + value.len(),
                ..self
            };
            if self.length >= u64::MAX {
                (added, Err(StorageFault::Corrupted("sorted table length overflow"@)))
            } else {
                (BulkModel { length: self.length + 1, ..added }, Ok(()))
            }
        }
    }

    /// Adds a record. It goes to the current leaf if it fits there, else to a new leaf, which it
    /// may fill beyond the target on its own; only a record that no page can hold is refused.
    pub open spec fn push(self, key: Seq<u8>, value: Seq<u8>) -> (
        BulkModel,
        Result<(), StorageFault>,
    ) {
        let alone = leaf_bytes(1, key.len() + value.len(), self.key_width, self.value_width);
        if alone > max_encoded_page() {
            (self, Err(StorageFault::ValueTooLarge(reported_size(alone))))
        } else if self.must_close(key, value) {
            let (state, closed) = self.close_leaf();
            match closed {
                Ok(()) => state.append(key, value),
                Err(fault) => (state, Err(fault)),
            }
        } else {
            self.append(key, value)
        }
    }

    /// The levels from `level` up can be completed.
    pub open spec fn can_finish_from(self, level: nat) -> bool {
        &&& level < self.levels.len()
        &&& is_shaped(self.levels.skip(level as int))
    }

    /// Puts the children of each level under a parent, from `level` up, until a single one is left
    /// that has no sibling: the root.
    pub open spec fn finish_levels(self, level: nat) -> (
        BulkModel,
        Result<ChildModel, StorageFault>,
    )
        decreases waiting(self.levels.skip(level as int)),
        when self.can_finish_from(level)
        via BulkModel::finish_levels_decreases
    {
        let here = self.levels[level as int];
        let rest = self.with_level(level as int, LevelModel { children: Seq::empty(), ..here });
        if !here.emitted && here.children.len() == 1 {
            (rest, Ok(here.children[0]))
        } else {
            let (state, parent) = rest.build_branch(here.children);
            match parent {
                Ok(parent) => {
                    let emptied = LevelModel { children: Seq::empty(), emitted: true };
                    let (state, pushed) = state.with_level(level as int, emptied).push_child(
                        level + 1,
                        parent,
                    );
                    match pushed {
                        Ok(()) => state.finish_levels(level + 1),
                        Err(fault) => (state, Err(fault)),
                    }
                },
                Err(fault) => (state, Err(fault)),
            }
        }
    }

    #[via_fn]
    proof fn finish_levels_decreases(self, level: nat) {
        let here = self.levels[level as int];
        let rest = self.with_level(level as int, LevelModel { children: Seq::empty(), ..here });
        let (state, parent) = rest.build_branch(here.children);
        if let Ok(parent) = parent {
            let emptied = LevelModel { children: Seq::empty(), emitted: true };
            let before = state.with_level(level as int, emptied);
            lemma_push_child_levels(before, level + 1, parent, level + 1);
            let after = before.push_child(level + 1, parent).0;
            assert(self.levels.skip(level as int).drop_first() =~= before.levels.skip(
                (level + 1) as int,
            ));
        }
    }

    /// Completes the build: writes the last leaf out and gives everything one root. A build
    /// without records leaves the tree as it was.
    pub open spec fn finish(self) -> (BulkModel, Result<Option<BtreeHeader>, StorageFault>) {
        let (state, closed) = if self.leaf.len() > 0 {
            self.close_leaf()
        } else {
            (self, Ok(()))
        };
        match closed {
            Ok(()) => if state.length == 0 {
                (state, Ok(state.root))
            } else {
                let (state, root) = state.finish_levels(0);
                match root {
                    Ok(root) => (
                        state,
                        Ok(
                            Some(
                                BtreeHeader {
                                    root: root.page,
                                    checksum: DEFERRED,
                                    length: state.length as u64,
                                },
                            ),
                        ),
                    ),
                    Err(fault) => (state, Err(fault)),
                }
            },
            Err(fault) => (state, Err(fault)),
        }
    }

    /// The build can be completed: a record or a child waits if there are records at all, and no
    /// level has run empty.
    pub open spec fn can_finish(self) -> bool {
        &&& is_shaped(self.levels)
        &&& self.leaf.len() > 0 || self.levels.len() > 0 || self.length == 0
    }
}

/// Replacing a level changes the number of waiting children by the difference.
pub proof fn lemma_waiting_update(levels: Seq<LevelModel>, i: int, replacement: LevelModel)
    requires
        0 <= i < levels.len(),
    ensures
        waiting(levels.update(i, replacement)) == waiting(levels) - levels[i].children.len()
            + replacement.children.len(),
    decreases levels.len(),
{
    if i == 0 {
        assert(levels.update(i, replacement).drop_first() =~= levels.drop_first());
    } else {
        assert(levels.update(i, replacement).drop_first() =~= levels.drop_first().update(
            i - 1,
            replacement,
        ));
        lemma_waiting_update(levels.drop_first(), i - 1, replacement);
    }
}

/// No child waits in an added level.
pub proof fn lemma_waiting_push_empty(levels: Seq<LevelModel>)
    ensures
        waiting(levels.push(empty_level())) == waiting(levels),
    decreases levels.len(),
{
    let more = levels.push(empty_level());
    if levels.len() == 0 {
        assert(more.drop_first() =~= levels);
    } else {
        assert(more.drop_first() =~= levels.drop_first().push(empty_level()));
        lemma_waiting_push_empty(levels.drop_first());
    }
}

/// What replacing a level does to the levels from `from` up.
proof fn lemma_skip_update(levels: Seq<LevelModel>, i: int, replacement: LevelModel, from: int)
    requires
        0 <= from <= i < levels.len(),
    ensures
        waiting(levels.update(i, replacement).skip(from)) == waiting(levels.skip(from))
            - levels[i].children.len() + replacement.children.len(),
        (forall|j: int|
            #![trigger levels[j]]
            from <= j < levels.len() && j != i ==> levels[j].children.len() >= 1 && (
            levels[j].emitted ==> levels[j].children.len() >= 2)) && replacement.children.len() >= 1
            && (replacement.emitted ==> replacement.children.len() >= 2) ==> is_shaped(
            levels.update(i, replacement).skip(from),
        ),
{
    assert(levels.update(i, replacement).skip(from) =~= levels.skip(from).update(
        i - from,
        replacement,
    ));
    lemma_waiting_update(levels.skip(from), i - from, replacement);
}

/// Adding a child leaves the levels below alone, keeps at least one child in every level, and adds
/// at most one to the children that wait from a level on.
pub proof fn lemma_push_child_levels(
    state: BulkModel,
    level: nat,
    child: ChildModel,
    from: nat,
)
    requires
        from <= level <= state.levels.len(),
    ensures
        ({
            let after = state.push_child(level, child).0;
            &&& after.levels.len() >= state.levels.len()
            &&& after.levels.len() > level
            &&& after.levels.take(level as int) == state.levels.take(level as int)
            &&& waiting(after.levels.skip(from as int)) <= waiting(state.levels.skip(from as int))
                + 1
            &&& is_shaped(state.levels.skip(from as int)) ==> is_shaped(
                after.levels.skip(from as int),
            )
        }),
    decreases state.levels.len() - level,
{
    let all = state.with_levels_to(level);
    let here = all.levels[level as int];
    let after = state.push_child(level, child).0;
    if is_shaped(state.levels.skip(from as int)) {
        assert forall|j: int|
            #![trigger all.levels[j]]
            from <= j < all.levels.len() && j != level implies all.levels[j].children.len() >= 1
            && (all.levels[j].emitted ==> all.levels[j].children.len() >= 2) by {
            assert(all.levels[j] == state.levels.skip(from as int)[j - from]);
        }
    }
    if level == state.levels.len() {
        assert(all.levels =~= state.levels.push(empty_level()));
        assert(all.levels.skip(from as int) =~= state.levels.skip(from as int).push(
            empty_level(),
        ));
        lemma_waiting_push_empty(state.levels.skip(from as int));
    }
    if here.children.len() >= 3 && is_full(here.children, state.key_width, state.target) {
        let kept = LevelModel { children: seq![here.children.last(), child], emitted: true };
        lemma_skip_update(all.levels, level as int, kept, from as int);
        let (built, parent) = all.with_level(level as int, kept).build_branch(
            here.children.drop_last(),
        );
        assert(built.levels.take(level as int) =~= state.levels.take(level as int));
        if let Ok(parent) = parent {
            lemma_push_child_levels(built, level + 1, parent, from);
            assert(after.levels.take(level as int) =~= after.levels.take((level + 1) as int).take(
                level as int,
            ));
            assert(built.levels.take(level as int) =~= built.levels.take((level + 1) as int).take(
                level as int,
            ));
        }
    } else {
        let grown = LevelModel { children: here.children.push(child), ..here };
        if is_shaped(state.levels.skip(from as int)) && level < state.levels.len() {
            assert(here == state.levels.skip(from as int)[level - from]);
        }
        lemma_skip_update(all.levels, level as int, grown, from as int);
        assert(after.levels.take(level as int) =~= state.levels.take(level as int));
    }
}

/// Writing the current leaf out keeps the shape of the levels.
pub proof fn lemma_close_leaf_levels(state: BulkModel)
    ensures
        is_shaped(state.levels) ==> is_shaped(state.close_leaf().0.levels),
        state.close_leaf().1 is Ok ==> state.close_leaf().0.levels.len() > 0,
{
    if state.store.has_room() {
        let written = BulkModel {
            store: state.store.with_page(PageModel::Leaf { pairs: state.leaf }),
            leaf: Seq::empty(),
            leaf_key_bytes: 0,
            leaf_value_bytes: 0,
            ..state
        };
        let child = ChildModel {
            page: PageNumber { index: state.store.next() as usize },
            max_key: state.leaf.last().0,
        };
        lemma_push_child_levels(written, 0, child, 0);
        assert(state.levels.skip(0) =~= state.levels);
        let after = state.close_leaf().0;
        assert(after.levels.skip(0) =~= after.levels);
    }
}

} // verus!
