//! One-shot bottom-up builder for an empty table.

use vstd::prelude::*;

use crate::btree::BtreeMut;
use crate::bulk_laws::law_finish_keeps_records;
use crate::bulk_laws::law_initial_state_is_clean;
use crate::bulk_laws::law_push_appends_record;
use crate::bulk_model::branch_page;
use crate::bulk_model::empty_level;
use crate::bulk_model::is_full;
use crate::bulk_model::key_bytes;
use crate::bulk_model::lemma_close_leaf_levels;
use crate::bulk_model::lemma_push_child_levels;
use crate::bulk_model::waiting;
use crate::bulk_model::BulkModel;
use crate::bulk_model::ChildModel;
use crate::bulk_model::LevelModel;
use crate::error::StorageError;
use crate::error::StorageFault;
use crate::layout::branch_required_bytes;
use crate::layout::leaf_required_bytes;
use crate::layout::max_encoded_page;
use crate::layout::max_encoded_page_bytes;
use crate::layout::representable;
use crate::layout::single_record_bytes;
use crate::layout::MAX_PAGE_ENTRIES;
use crate::layout::MAX_PAIR_LENGTH;
use crate::page::pairs_view;
use crate::page::BtreeHeader;
use crate::page::Checksum;
use crate::page::Page;
use crate::page::PageNumber;
use crate::page::StoreModel;
use crate::page::DEFERRED;
use crate::types::Key;
use crate::types::Value;

verus! {

/// A finished subtree that waits for a parent.
pub struct Child {
    page: PageNumber,
    max_key: Vec<u8>,
}

impl View for Child {
    type V = ChildModel;

    closed spec fn view(&self) -> ChildModel {
        ChildModel { page: self.page, max_key: self.max_key@ }
    }
}

/// The finished subtrees of one height that wait for a parent.
pub struct BranchLevel {
    children: Vec<Child>,
    emitted: bool,
}

/// The children of a level.
spec fn children_view(children: Seq<Child>) -> Seq<ChildModel> {
    children.map_values(|child: Child| child@)
}

impl View for BranchLevel {
    type V = LevelModel;

    closed spec fn view(&self) -> LevelModel {
        LevelModel { children: children_view(self.children@), emitted: self.emitted }
    }
}

/// The levels of a builder.
spec fn levels_view(levels: Seq<BranchLevel>) -> Seq<LevelModel> {
    levels.map_values(|level: BranchLevel| level@)
}

/// What a step of a build left behind and returned is what the state machine says.
pub open spec fn steps_to<T: View>(
    state: BulkModel,
    result: Result<T, StorageError>,
    expected: (BulkModel, Result<T::V, StorageFault>),
) -> bool {
    &&& state == expected.0
    &&& match result {
        Ok(value) => expected.1 == Ok::<T::V, StorageFault>(value@),
        Err(error) => expected.1 == Err::<T::V, StorageFault>(error@),
    }
}

/// Adds up the key lengths of the first `count` children, as far as `usize` can hold the sum.
fn total_key_bytes(children: &Vec<Child>, count: usize) -> (total: Option<usize>)
    requires
        count <= children@.len(),
    ensures
        total == representable(key_bytes(children_view(children@).take(count as int))),
{
    let ghost all = children_view(children@);
    let mut total: usize = 0;
    let mut i: usize = 0;
    assert(all.take(0) =~= Seq::empty());
    while i < count
        invariant
            i <= count <= children@.len(),
            all == children_view(children@),
            total == key_bytes(all.take(i as int)),
        decreases count - i,
    {
        assert(all.take(i + 1).drop_last() =~= all.take(i as int));
        match total.checked_add(children[i].max_key.len()) {
            Some(sum) => {
                total = sum;
            },
            None => {
                proof {
                    lemma_key_bytes_monotone(all, i + 1, count as int);
                }
                return None;
            },
        }
        i = i + 1;
    }
    Some(total)
}

/// More children have keys of at least as many bytes.
proof fn lemma_key_bytes_monotone(children: Seq<ChildModel>, i: int, j: int)
    requires
        0 <= i <= j <= children.len(),
    ensures
        key_bytes(children.take(i)) <= key_bytes(children.take(j)),
    decreases j - i,
{
    if i < j {
        assert(children.take(j).drop_last() =~= children.take(j - 1));
        lemma_key_bytes_monotone(children, i, j - 1);
    }
}

/// A copy of a byte string.
fn copy_bytes(bytes: &Vec<u8>) -> (copy: Vec<u8>)
    ensures
        copy@ == bytes@,
{
    let copy = bytes.clone();
    assert(copy@ =~= bytes@);
    copy
}

/// One-shot bottom-up builder for an empty table.
///
/// Only the current leaf and one partial branch group per level are retained.
pub struct BtreeBulkBuilder<K: Key, V: Value> {
    tree: BtreeMut<K, V>,
    leaf: Vec<(Vec<u8>, Vec<u8>)>,
    leaf_key_bytes: usize,
    leaf_value_bytes: usize,
    levels: Vec<BranchLevel>,
    target_page_size: usize,
    length: u64,
}

impl<K: Key, V: Value> View for BtreeBulkBuilder<K, V> {
    type V = BulkModel;

    closed spec fn view(&self) -> BulkModel {
        BulkModel {
            key_width: K::width(),
            value_width: V::width(),
            store: self.tree.mem@,
            root: self.tree.root,
            leaf: pairs_view(self.leaf@),
            leaf_key_bytes: self.leaf_key_bytes as nat,
            leaf_value_bytes: self.leaf_value_bytes as nat,
            levels: levels_view(self.levels@),
            target: self.target_page_size as nat,
            length: self.length as nat,
        }
    }
}

/// The target that a build works with: at least a page, at most what a page can be.
pub open spec fn effective_target(target_page_size: nat, page_size: nat) -> nat {
    let wanted = if target_page_size > page_size { target_page_size } else { page_size };
    let capped = if wanted > MAX_PAIR_LENGTH { MAX_PAIR_LENGTH as nat } else { wanted };
    if capped > max_encoded_page() { max_encoded_page() } else { capped }
}

/// The state in which a build over the given store starts.
pub open spec fn initial_state<K: Key, V: Value>(
    store: StoreModel,
    target_page_size: nat,
) -> BulkModel {
    BulkModel {
        key_width: K::width(),
        value_width: V::width(),
        store,
        root: None,
        leaf: Seq::empty(),
        leaf_key_bytes: 0,
        leaf_value_bytes: 0,
        levels: Seq::empty(),
        target: effective_target(target_page_size, store.page_size),
        length: 0,
    }
}

impl<K: Key, V: Value> BtreeBulkBuilder<K, V> {
    /// Starts a build of the given empty tree.
    pub fn new(tree: BtreeMut<K, V>, target_page_size: usize) -> (builder: Self)
        requires
            tree.root is None,
        ensures
            builder@ == initial_state::<K, V>(tree.mem@, target_page_size as nat),
            builder@.is_clean(),
            builder@.records().len() == 0,
    {
        proof {
            law_initial_state_is_clean::<K, V>(tree.mem@, target_page_size as nat);
        }
        let target_page_size: usize = target_page_size.max(tree.mem.get_page_size()).min(
            MAX_PAIR_LENGTH,
        ).min(max_encoded_page_bytes());
        let builder = BtreeBulkBuilder {
            tree,
            leaf: Vec::new(),
            leaf_key_bytes: 0,
            leaf_value_bytes: 0,
            levels: Vec::new(),
            target_page_size,
            length: 0,
        };
        assert(builder@.leaf =~= Seq::empty());
        assert(builder@.levels =~= Seq::empty());
        builder
    }

    /// Writes a branch page over `children`.
    fn build_branch(&mut self, children: Vec<Child>) -> (parent: Result<Child, StorageError>)
        requires
            children@.len() > 0,
        ensures
            steps_to(final(self)@, parent, old(self)@.build_branch(children_view(children@))),
    {
        let ghost all = children_view(children@);
        let last: usize = children.len() - 1;
        assert(all.take(last as int) =~= all.drop_last());
        let max_key: Vec<u8> = copy_bytes(&children[last].max_key);
        let required_bytes: usize = match total_key_bytes(&children, last) {
            Some(separator_bytes) => match branch_required_bytes(
                last,
                separator_bytes,
                K::fixed_width(),
            ) {
                Some(required_bytes) => required_bytes,
                None => {
                    return Err(StorageError::ValueTooLarge(usize::MAX));
                },
            },
            None => {
                return Err(StorageError::ValueTooLarge(usize::MAX));
            },
        };
        // Variable-width offsets and the largest allocation are both bounded to a 32-bit byte
        // domain. Keys that are valid one by one can still exceed it together.
        if required_bytes > max_encoded_page_bytes() {
            return Err(StorageError::ValueTooLarge(required_bytes));
        }
        let mut page_children: Vec<(PageNumber, Checksum)> = Vec::new();
        let mut page_keys: Vec<Vec<u8>> = Vec::new();
        let mut i: usize = 0;
        while i < children.len()
            invariant
                i <= children@.len(),
                last == children@.len() - 1,
                all == children_view(children@),
                page_children@.len() == i,
                forall|j: int| 0 <= j < i ==> page_children@[j] == (all[j].page, DEFERRED),
                page_keys@.len() == if i <= last { i as int } else { last as int },
                forall|j: int| 0 <= j < page_keys@.len() ==> page_keys@[j]@ == all[j].max_key,
            decreases children@.len() - i,
        {
            page_children.push((children[i].page, DEFERRED));
            if i < last {
                page_keys.push(copy_bytes(&children[i].max_key));
            }
            i = i + 1;
        }
        let page = Page::Branch { children: page_children, keys: page_keys };
        assert(page@ =~~= branch_page(all));
        match self.tree.mem.allocate(page) {
            Ok(page) => Ok(Child { page, max_key }),
            Err(error) => Err(error),
        }
    }

    /// Adds a finished subtree of height `level`.
    fn push_child(&mut self, level: usize, child: Child) -> (result: Result<(), StorageError>)
        ensures
            steps_to(final(self)@, result, old(self)@.push_child(level as nat, child@)),
        decreases old(self)@.levels.len() - level,
    {
        while self.levels.len() <= level
            invariant
                self@.levels.len() <= level + 1 || self@ == old(self)@,
                self@.levels.len() >= old(self)@.levels.len(),
                self@ == (BulkModel {
                    levels: old(self)@.levels + Seq::new(
                        (self@.levels.len() - old(self)@.levels.len()) as nat,
                        |i: int| empty_level(),
                    ),
                    ..old(self)@
                }),
            decreases level + 1 - self@.levels.len(),
        {
            let ghost before = self@.levels;
            let fresh = BranchLevel { children: Vec::new(), emitted: false };
            assert(fresh@ =~~= empty_level());
            self.levels.push(fresh);
            assert(self@.levels =~= before.push(empty_level()));
            assert(self@.levels =~= old(self)@.levels + Seq::new(
                (self@.levels.len() - old(self)@.levels.len()) as nat,
                |i: int| empty_level(),
            ));
        }
        assert(self@ =~= old(self)@.with_levels_to(level as nat));
        let ghost state = self@;
        let ghost here = state.levels[level as int];

        let current: &Vec<Child> = &self.levels[level].children;
        // With the incoming child, every current child's maximum key becomes a separator; the
        // incoming final child contributes no separator.
        let projected: Option<usize> = match total_key_bytes(current, current.len()) {
            Some(key_bytes) => branch_required_bytes(current.len(), key_bytes, K::fixed_width()),
            None => None,
        };
        let too_large: bool = match projected {
            Some(bytes) => bytes > self.target_page_size,
            None => true,
        };
        let must_emit: bool = too_large || current.len() > MAX_PAGE_ENTRIES;
        assert(here.children == children_view(current@));
        assert(here.children.take(current@.len() as int) =~= here.children);
        assert(must_emit == is_full(here.children, state.key_width, state.target));
        if current.len() >= 3 && must_emit {
            // Retain the final child and pair it with the incoming child. This prevents a trailing
            // one-child branch below the root at the end of the build.
            let mut full: Vec<Child> = Vec::new();
            std::mem::swap(&mut self.levels[level].children, &mut full);
            if let Some(carry) = full.pop() {
                self.levels[level].children.push(carry);
            }
            self.levels[level].children.push(child);
            self.levels[level].emitted = true;
            proof {
                let pair = seq![here.children.last(), child@];
                let kept = LevelModel { children: pair, emitted: true };
                assert(children_view(full@) =~= here.children.drop_last());
                assert(self.levels[level as int]@ =~~= kept);
                assert(self@.levels =~= state.levels.update(level as int, kept));
            }
            match self.build_branch(full) {
                Ok(parent) => self.push_child(level + 1, parent),
                Err(error) => Err(error),
            }
        } else {
            self.levels[level].children.push(child);
            proof {
                let grown = LevelModel { children: here.children.push(child@), ..here };
                assert(self.levels[level as int]@ =~~= grown);
                assert(self@.levels =~= state.levels.update(level as int, grown));
            }
            Ok(())
        }
    }

    /// Writes the current leaf out.
    fn close_leaf(&mut self) -> (result: Result<(), StorageError>)
        requires
            old(self)@.leaf.len() > 0,
        ensures
            steps_to(final(self)@, result, old(self)@.close_leaf()),
    {
        let mut records: Vec<(Vec<u8>, Vec<u8>)> = Vec::new();
        std::mem::swap(&mut self.leaf, &mut records);
        assert(self@ =~= (BulkModel { leaf: Seq::empty(), ..old(self)@ }));
        let max_key: Vec<u8> = copy_bytes(&records[records.len() - 1].0);
        match self.tree.mem.allocate(Page::Leaf { pairs: records }) {
            Ok(page) => {
                self.leaf_key_bytes = 0;
                self.leaf_value_bytes = 0;
                self.push_child(0, Child { page, max_key })
            },
            Err(error) => Err(error),
        }
    }

    /// Adds a record to the current leaf.
    fn append(&mut self, key: Vec<u8>, value: Vec<u8>) -> (result: Result<(), StorageError>)
        ensures
            steps_to(final(self)@, result, old(self)@.append(key@, value@)),
    {
        self.leaf_key_bytes = match self.leaf_key_bytes.checked_add(key.len()) {
            Some(bytes) => bytes,
            None => {
                return Err(StorageError::Corrupted("sorted leaf key length overflow".to_owned()));
            },
        };
        self.leaf_value_bytes = match self.leaf_value_bytes.checked_add(value.len()) {
            Some(bytes) => bytes,
            None => {
                return Err(StorageError::Corrupted("sorted leaf value length overflow".to_owned()));
            },
        };
        self.leaf.push((key, value));
        assert(self@.leaf =~= old(self)@.leaf.push((key@, value@)));
        self.length = match self.length.checked_add(1) {
            Some(length) => length,
            None => {
                return Err(StorageError::Corrupted("sorted table length overflow".to_owned()));
            },
        };
        Ok(())
    }

    /// Adds a record. The caller hands records over by ascending key.
    pub fn push(&mut self, key: Vec<u8>, value: Vec<u8>) -> (result: Result<(), StorageError>)
        ensures
            steps_to(final(self)@, result, old(self)@.push(key@, value@)),
            old(self)@.is_clean() && result is Ok ==> {
                &&& final(self)@.is_clean()
                &&& final(self)@.records() == old(self)@.records().push((key@, value@))
            },
    {
        proof {
            if self@.is_clean() && self@.push(key@, value@).1 is Ok {
                law_push_appends_record(self@, key@, value@);
            }
        }
        match single_record_bytes(key.len(), value.len(), K::fixed_width(), V::fixed_width()) {
            Ok(_) => {},
            Err(error) => {
                return Err(error);
            },
        }
        if self.must_close(key.len(), value.len()) {
            match self.close_leaf() {
                Ok(()) => {},
                Err(error) => {
                    return Err(error);
                },
            }
        }
        self.append(key, value)
    }

    /// Tells whether the current leaf has to be written out before a record with a key and a value
    /// of the given lengths can be added.
    fn must_close(&self, key_len: usize, value_len: usize) -> (close: bool)
        ensures
            forall|key: Seq<u8>, value: Seq<u8>|
                key.len() == key_len && value.len() == value_len ==> close
                    == #[trigger] self@.must_close(key, value),
    {
        if self.leaf.is_empty() {
            return false;
        }
        if self.leaf.len() >= MAX_PAGE_ENTRIES {
            return true;
        }
        let projected_pairs: usize = self.leaf.len() + 1;
        let keys: usize = match self.leaf_key_bytes.checked_add(key_len) {
            Some(bytes) => bytes,
            None => {
                return true;
            },
        };
        let keys_and_values: usize = match keys.checked_add(self.leaf_value_bytes) {
            Some(bytes) => bytes,
            None => {
                return true;
            },
        };
        let payload: usize = match keys_and_values.checked_add(value_len) {
            Some(bytes) => bytes,
            None => {
                return true;
            },
        };
        match leaf_required_bytes(projected_pairs, payload, K::fixed_width(), V::fixed_width()) {
            Some(bytes) => bytes > self.target_page_size,
            None => true,
        }
    }

    /// Gives everything that waits one root.
    fn finish_levels(&mut self) -> (root: Result<Child, StorageError>)
        requires
            old(self)@.can_finish_from(0),
        ensures
            steps_to(final(self)@, root, old(self)@.finish_levels(0)),
    {
        let mut level: usize = 0;
        loop
            invariant
                self@.can_finish_from(level as nat),
                self@.finish_levels(level as nat) == old(self)@.finish_levels(0),
            decreases waiting(self@.levels.skip(level as int)),
        {
            let ghost state = self@;
            let ghost here = state.levels[level as int];
            assert(here == state.levels.skip(level as int)[0]);
            let mut partial: Vec<Child> = Vec::new();
            std::mem::swap(&mut self.levels[level].children, &mut partial);
            assert(children_view(partial@) == here.children);
            proof {
                let emptied = LevelModel { children: Seq::empty(), ..here };
                assert(self.levels[level as int]@ =~~= emptied);
                assert(self@ =~= state.with_level(level as int, emptied));
            }
            if !self.levels[level].emitted && partial.len() == 1 {
                if let Some(root) = partial.pop() {
                    return Ok(root);
                }
            }
            let ghost rest = self@;
            match self.build_branch(partial) {
                Ok(parent) => {
                    let ghost built = self@;
                    assert(built.levels == rest.levels);
                    assert(self.levels[level as int]@ == built.levels[level as int]);
                    self.levels[level].emitted = true;
                    proof {
                        let emptied = LevelModel { children: Seq::empty(), emitted: true };
                        assert(self.levels[level as int]@ =~~= emptied);
                        assert(self@ =~= built.with_level(level as int, emptied));
                        lemma_push_child_levels(
                            self@,
                            (level + 1) as nat,
                            parent@,
                            (level + 1) as nat,
                        );
                        assert(state.levels.skip(level as int).drop_first() =~= self@.levels.skip(
                            level + 1,
                        ));
                        assert forall|i: int|
                            0 <= i < self@.levels.skip(level + 1).len() implies
                            #[trigger] self@.levels.skip(level + 1)[i]
                            == state.levels.skip(level as int)[i + 1] by {}
                    }
                    assert(level < self.levels.len());
                    match self.push_child(level + 1, parent) {
                        Ok(()) => {},
                        Err(error) => {
                            return Err(error);
                        },
                    }
                },
                Err(error) => {
                    return Err(error);
                },
            }
            level = level + 1;
        }
    }

    /// Completes the tree and returns it with the number of its records.
    pub fn finish(self) -> (result: Result<(BtreeMut<K, V>, u64), StorageError>)
        requires
            self@.can_finish(),
        ensures
            ({
                let (state, root) = self@.finish();
                match result {
                    Ok((tree, length)) => {
                        &&& root == Ok::<Option<BtreeHeader>, StorageFault>(tree.root)
                        &&& tree.mem@ == state.store
                        &&& length == state.length
                    },
                    Err(error) => root == Err::<Option<BtreeHeader>, StorageFault>(error@),
                }
            }),
            self@.is_clean() ==> match result {
                Ok((tree, length)) => {
                    &&& length == self@.records().len()
                    &&& match tree.root {
                        Some(header) => {
                            &&& tree.mem@.has_tree(header.root)
                            &&& tree.mem@.records_below(header.root) == self@.records()
                            &&& header == (BtreeHeader {
                                root: header.root,
                                checksum: DEFERRED,
                                length,
                            })
                        },
                        None => self@.records().len() == 0,
                    }
                },
                Err(_) => true,
            },
    {
        let mut builder = self;
        proof {
            lemma_close_leaf_levels(self@);
            if self@.is_clean() && self@.finish().1 is Ok {
                law_finish_keeps_records(self@);
            }
        }
        if !builder.leaf.is_empty() {
            match builder.close_leaf() {
                Ok(()) => {},
                Err(error) => {
                    return Err(error);
                },
            }
        }
        if builder.length == 0 {
            return Ok((builder.tree, 0));
        }
        assert(builder@.levels.skip(0) =~= builder@.levels);
        let root: Child = match builder.finish_levels() {
            Ok(root) => root,
            Err(error) => {
                return Err(error);
            },
        };
        let length: u64 = builder.length;
        builder.tree.set_root(Some(BtreeHeader::new(root.page, DEFERRED, length)));
        Ok((builder.tree, length))
    }
}

/// A step that succeeds returns what it should, a step that fails says why, and both leave behind
/// the state that they should.
pub proof fn law_steps_return_what_they_should<T: View>(
    state: BulkModel,
    result: Result<T, StorageError>,
    expected: (BulkModel, Result<T::V, StorageFault>),
)
    requires
        steps_to(state, result, expected),
    ensures
        state == expected.0,
        result is Ok <==> expected.1 is Ok,
        result matches Ok(value) ==> expected.1->Ok_0 == value@,
        result matches Err(error) ==> expected.1->Err_0 == error@,
{
}

} // verus!
