//! Reading the tree of a table: search by key, listing, and checking.

use vstd::prelude::*;

use crate::page::keys_view;
use crate::page::pairs_view;
use crate::page::Checksum;
use crate::page::Page;
use crate::page::PageModel;
use crate::page::PageNumber;
use crate::page::PageStore;
use crate::page::Pair;
use crate::page::StoreModel;
use crate::tree::child_numbers;
use crate::tree::lemma_contents_of_concat;
use crate::tree::lemma_contents_of_one;
use crate::tree::lemma_records_below;
use crate::tree::lemma_tree_nonempty;
use crate::tree::max_key;
use crate::types::has_keys_of;
use crate::types::is_same;
use crate::types::is_smaller;
use crate::types::is_sorted;
use crate::types::same_key;
use crate::types::Key;

verus! {

/// `value` is what the records hold for `key`.
pub open spec fn is_value_of<K: Key>(
    pairs: Seq<Pair>,
    key: Seq<u8>,
    value: Option<Seq<u8>>,
) -> bool {
    match value {
        Some(value) => exists|i: int|
            0 <= i < pairs.len() && same_key::<K>(#[trigger] pairs[i].0, key) && pairs[i].1
                == value,
        None => forall|i: int|
            0 <= i < pairs.len() ==> !same_key::<K>(#[trigger] pairs[i].0, key),
    }
}

/// The bytes behind an optional reference.
pub open spec fn bytes_of(value: Option<&Vec<u8>>) -> Option<Seq<u8>> {
    match value {
        Some(value) => Some(value@),
        None => None,
    }
}

/// A row of trees, split at one of them.
proof fn lemma_row_split(store: StoreModel, roots: Seq<PageNumber>, i: int, height: nat)
    requires
        0 <= i < roots.len(),
    ensures
        store.contents_of(roots, height) == store.contents_of(roots.take(i), height)
            + store.contents(roots[i], height) + store.contents_of(roots.skip(i + 1), height),
{
    let left = roots.take(i);
    let right = roots.skip(i + 1);
    assert(roots =~= (left + seq![roots[i]]) + right);
    lemma_contents_of_concat(store, left + seq![roots[i]], right, height);
    lemma_contents_of_concat(store, left, seq![roots[i]], height);
    lemma_contents_of_one(store, roots[i], height);
}

/// What holds a key is the subtree that its neighbours' separators leave.
proof fn lemma_search_middle<K: Key>(
    left: Seq<Pair>,
    middle: Seq<Pair>,
    right: Seq<Pair>,
    key: Seq<u8>,
    value: Option<Seq<u8>>,
)
    requires
        is_sorted::<K>(left + middle + right),
        middle.len() > 0,
        left.len() > 0 ==> K::precedes(left.last().0, key),
        right.len() > 0 ==> !K::precedes(middle.last().0, key),
        is_value_of::<K>(middle, key, value),
    ensures
        is_value_of::<K>(left + middle + right, key, value),
{
    let whole = left + middle + right;
    match value {
        Some(bytes) => {
            let i = choose|i: int|
                0 <= i < middle.len() && same_key::<K>(#[trigger] middle[i].0, key) && middle[i].1
                    == bytes;
            assert(whole[left.len() + i] == middle[i]);
        },
        None => {
            assert forall|i: int| 0 <= i < whole.len() implies !same_key::<K>(
                #[trigger] whole[i].0,
                key,
            ) by {
                let last_left = left.len() - 1;
                let last_middle = left.len() + middle.len() - 1;
                if i < left.len() {
                    if i < last_left {
                        assert(K::precedes(whole[i].0, whole[last_left].0));
                        assert(whole[last_left] == left.last());
                        K::precedes_transitive(whole[i].0, left.last().0, key);
                    }
                } else if i < left.len() + middle.len() {
                    assert(whole[i] == middle[i - left.len()]);
                } else {
                    assert(K::precedes(whole[last_middle].0, whole[i].0));
                    assert(whole[last_middle] == middle.last());
                    K::precedes_between(middle.last().0, key, whole[i].0);
                }
            }
        },
    }
}

/// A part of sorted records is sorted.
proof fn lemma_part_sorted<K: Key>(left: Seq<Pair>, middle: Seq<Pair>, right: Seq<Pair>)
    requires
        is_sorted::<K>(left + middle + right),
        has_keys_of::<K>(left + middle + right),
    ensures
        is_sorted::<K>(middle),
        has_keys_of::<K>(middle),
{
    let whole = left + middle + right;
    assert forall|i: int, j: int| 0 <= i < j < middle.len() implies K::precedes(
        #[trigger] middle[i].0,
        #[trigger] middle[j].0,
    ) by {
        assert(whole[left.len() + i] == middle[i]);
        assert(whole[left.len() + j] == middle[j]);
    }
    assert forall|i: int| 0 <= i < middle.len() implies K::is_encoding(
        #[trigger] middle[i].0,
    ) by {
        assert(whole[left.len() + i] == middle[i]);
    }
}

/// The last record before a subtree is the last one of its left neighbour.
proof fn lemma_row_last(store: StoreModel, roots: Seq<PageNumber>, height: nat)
    requires
        roots.len() > 0,
        store.is_tree(roots.last(), height),
    ensures
        store.contents_of(roots, height).len() > 0,
        store.contents_of(roots, height).last() == store.contents(roots.last(), height).last(),
{
    lemma_tree_nonempty(store, roots.last(), height);
}

/// Searches a leaf page.
fn find_in_leaf<'a, K: Key>(pairs: &'a Vec<(Vec<u8>, Vec<u8>)>, key: &Vec<u8>) -> (value: Option<
    &'a Vec<u8>,
>)
    requires
        K::is_encoding(key@),
        has_keys_of::<K>(pairs_view(pairs@)),
    ensures
        is_value_of::<K>(pairs_view(pairs@), key@, bytes_of(value)),
{
    let ghost all = pairs_view(pairs@);
    let mut i: usize = 0;
    while i < pairs.len()
        invariant
            i <= pairs@.len(),
            all == pairs_view(pairs@),
            K::is_encoding(key@),
            has_keys_of::<K>(all),
            forall|j: int| 0 <= j < i ==> !same_key::<K>(#[trigger] all[j].0, key@),
        decreases pairs@.len() - i,
    {
        assert(all[i as int] == (pairs@[i as int].0@, pairs@[i as int].1@));
        assert(K::is_encoding(all[i as int].0));
        if is_same::<K>(&pairs[i].0, key) {
            assert(same_key::<K>(all[i as int].0, key@));
            return Some(&pairs[i].1);
        }
        i = i + 1;
    }
    None
}

/// The first separator that is not smaller than the key, or else the end of the separators.
fn find_child<K: Key>(keys: &Vec<Vec<u8>>, key: &Vec<u8>) -> (position: usize)
    requires
        K::is_encoding(key@),
        forall|i: int| 0 <= i < keys@.len() ==> K::is_encoding((#[trigger] keys@[i])@),
    ensures
        position <= keys@.len(),
        forall|i: int| 0 <= i < position ==> K::precedes((#[trigger] keys@[i])@, key@),
        position < keys@.len() ==> !K::precedes(keys@[position as int]@, key@),
{
    let mut i: usize = 0;
    while i < keys.len()
        invariant
            i <= keys@.len(),
            K::is_encoding(key@),
            forall|j: int| 0 <= j < keys@.len() ==> K::is_encoding((#[trigger] keys@[j])@),
            forall|j: int| 0 <= j < i ==> K::precedes((#[trigger] keys@[j])@, key@),
        decreases keys@.len() - i,
    {
        assert(K::is_encoding(keys@[i as int]@));
        if !is_smaller::<K>(&keys[i], key) {
            return i;
        }
        i = i + 1;
    }
    i
}

/// Searches the tree below `root`.
pub(crate) fn find_below<'a, K: Key>(
    mem: &'a PageStore,
    root: PageNumber,
    key: &Vec<u8>,
    Ghost(height): Ghost<nat>,
) -> (value: Option<&'a Vec<u8>>)
    requires
        K::is_encoding(key@),
        mem@.is_tree(root, height),
        is_sorted::<K>(mem@.contents(root, height)),
        has_keys_of::<K>(mem@.contents(root, height)),
    ensures
        is_value_of::<K>(mem@.contents(root, height), key@, bytes_of(value)),
    decreases height,
{
    let ghost store = mem@;
    match mem.get(root) {
        Some(Page::Leaf { pairs }) => find_in_leaf::<K>(pairs, key),
        Some(Page::Branch { children, keys }) => {
            let ghost below = (height - 1) as nat;
            let ghost roots = child_numbers(children@);
            let ghost model_keys = keys_view(keys@);
            proof {
                assert(store.page(root) == PageModel::Branch {
                    children: children@,
                    keys: model_keys,
                });
                assert forall|i: int| 0 <= i < keys@.len() implies K::is_encoding(
                    (#[trigger] keys@[i])@,
                ) by {
                    lemma_separator::<K>(store, root, height, i);
                    assert(model_keys[i] == keys@[i]@);
                }
            }
            let position: usize = find_child::<K>(keys, key);
            let child: PageNumber = children[position].0;
            let ghost left = store.contents_of(roots.take(position as int), below);
            let ghost middle = store.contents(child, below);
            let ghost right = store.contents_of(roots.skip(position + 1), below);
            proof {
                assert(children@[position as int].0 == child);
                lemma_row_split(store, roots, position as int, below);
                lemma_part_sorted::<K>(left, middle, right);
                lemma_tree_nonempty(store, child, below);
                if position > 0 {
                    let previous = roots.take(position as int);
                    assert(previous.last() == children@[position - 1].0);
                    lemma_row_last(store, previous, below);
                    assert(model_keys[position - 1] == keys@[position - 1]@);
                    assert(left.last().0 == keys@[position - 1]@);
                } else {
                    assert(left.len() == 0);
                }
                if position < keys@.len() {
                    assert(model_keys[position as int] == keys@[position as int]@);
                    assert(middle.last().0 == keys@[position as int]@);
                } else {
                    assert(right.len() == 0);
                }
            }
            let value: Option<&'a Vec<u8>> = find_below::<K>(mem, child, key, Ghost(below));
            proof {
                lemma_search_middle::<K>(left, middle, right, key@, bytes_of(value));
            }
            value
        },
        None => None,
    }
}

/// A separator is the key of a record.
proof fn lemma_separator<K: Key>(store: StoreModel, root: PageNumber, height: nat, i: int)
    requires
        store.is_tree(root, height),
        has_keys_of::<K>(store.contents(root, height)),
        store.page(root) matches PageModel::Branch { children, keys } && 0 <= i < keys.len(),
    ensures
        store.page(root) matches PageModel::Branch { children, keys } && K::is_encoding(keys[i]),
{
    if let PageModel::Branch { children, keys } = store.page(root) {
        let below = (height - 1) as nat;
        let roots = child_numbers(children);
        let left = store.contents_of(roots.take(i), below);
        let middle = store.contents(roots[i], below);
        assert(roots[i] == children[i].0);
        assert(store.is_tree(children[i].0, below));
        lemma_tree_nonempty(store, roots[i], below);
        lemma_row_split(store, roots, i, below);
        let whole = store.contents(root, height);
        let position = left.len() + middle.len() - 1;
        assert(whole[position] == middle.last());
        assert(K::is_encoding(whole[position].0));
        assert(keys[i] == max_key(middle));
    }
}

/// The records of a row up to and including one tree.
proof fn lemma_row_take(store: StoreModel, roots: Seq<PageNumber>, i: int, height: nat)
    requires
        0 <= i < roots.len(),
    ensures
        store.contents_of(roots.take(i + 1), height) == store.contents_of(roots.take(i), height)
            + store.contents(roots[i], height),
{
    assert(roots.take(i + 1).drop_last() =~= roots.take(i));
}

/// Lists the records of the tree below `root`.
pub(crate) fn collect_below(
    mem: &PageStore,
    root: PageNumber,
    out: &mut Vec<(Vec<u8>, Vec<u8>)>,
    Ghost(height): Ghost<nat>,
)
    requires
        mem@.is_tree(root, height),
    ensures
        pairs_view(final(out)@) == pairs_view(old(out)@) + mem@.contents(root, height),
    decreases height,
{
    let ghost store = mem@;
    match mem.get(root) {
        Some(Page::Leaf { pairs }) => {
            let ghost before = pairs_view(out@);
            let ghost all = pairs_view(pairs@);
            let mut i: usize = 0;
            assert(pairs_view(out@) =~= before + all.take(0));
            while i < pairs.len()
                invariant
                    i <= pairs@.len(),
                    all == pairs_view(pairs@),
                    pairs_view(out@) == before + all.take(i as int),
                decreases pairs@.len() - i,
            {
                let ghost listed = pairs_view(out@);
                let key: Vec<u8> = pairs[i].0.clone();
                let value: Vec<u8> = pairs[i].1.clone();
                assert(key@ =~= pairs@[i as int].0@);
                assert(value@ =~= pairs@[i as int].1@);
                out.push((key, value));
                assert(pairs_view(out@) =~= listed.push(all[i as int]));
                i = i + 1;
                assert(pairs_view(out@) =~= before + all.take(i as int));
            }
            assert(all.take(i as int) =~= all);
        },
        Some(Page::Branch { children, keys }) => {
            let ghost below = (height - 1) as nat;
            let ghost roots = child_numbers(children@);
            let ghost before = pairs_view(out@);
            let mut i: usize = 0;
            assert(roots.take(0) =~= Seq::empty());
            assert(pairs_view(out@) =~= before + store.contents_of(roots.take(0), below));
            while i < children.len()
                invariant
                    height > 0,
                    below == height - 1,
                    i <= children@.len(),
                    store == mem@,
                    roots == child_numbers(children@),
                    forall|j: int|
                        0 <= j < children@.len() ==> store.is_tree(
                            (#[trigger] children@[j]).0,
                            below,
                        ),
                    pairs_view(out@) == before + store.contents_of(roots.take(i as int), below),
                decreases children@.len() - i,
            {
                assert(store.is_tree(children@[i as int].0, below));
                collect_below(mem, children[i].0, out, Ghost(below));
                proof {
                    lemma_row_take(store, roots, i as int, below);
                }
                i = i + 1;
                assert(pairs_view(out@) =~= before + store.contents_of(
                    roots.take(i as int),
                    below,
                ));
            }
            assert(roots.take(i as int) =~= roots);
        },
        None => {},
    }
}

/// What a check finds out about a tree.
pub(crate) struct TreeSummary {
    pub height: usize,
    pub length: u64,
    pub max_key: Vec<u8>,
}

impl TreeSummary {
    /// The summary describes the tree below `root`.
    pub(crate) open spec fn describes(self, store: StoreModel, root: PageNumber) -> bool {
        &&& self.height <= root.index
        &&& store.is_tree(root, self.height as nat)
        &&& store.contents(root, self.height as nat).len() == self.length
        &&& max_key(store.contents(root, self.height as nat)) == self.max_key@
    }
}

/// Tells whether two byte strings are equal.
fn equal_bytes(a: &Vec<u8>, b: &Vec<u8>) -> (equal: bool)
    ensures
        equal == (a@ == b@),
{
    if a.len() != b.len() {
        return false;
    }
    let mut i: usize = 0;
    while i < a.len()
        invariant
            i <= a@.len(),
            a@.len() == b@.len(),
            forall|j: int| 0 <= j < i ==> a@[j] == b@[j],
        decreases a@.len() - i,
    {
        if a[i] != b[i] {
            assert(a@[i as int] != b@[i as int]);
            return false;
        }
        i = i + 1;
    }
    assert(a@ =~= b@);
    true
}

/// A tree that can be counted: it has at most as many records as a length can express.
pub open spec fn is_countable_tree(store: StoreModel, root: PageNumber) -> bool {
    store.has_tree(root) && store.records_below(root).len() <= u64::MAX
}

/// The children of a countable tree.
proof fn lemma_countable_child(
    store: StoreModel,
    root: PageNumber,
    children: Seq<(PageNumber, Checksum)>,
    keys: Seq<Seq<u8>>,
    i: int,
)
    requires
        is_countable_tree(store, root),
        store.page(root) == (PageModel::Branch { children, keys }),
        0 <= i < children.len(),
    ensures
        ({
            let below = (store.height_of(root) - 1) as nat;
            &&& children.len() >= 2
            &&& keys.len() + 1 == children.len()
            &&& children[i].0.index < root.index
            &&& is_countable_tree(store, children[i].0)
            &&& store.height_of(root) > 0
            &&& store.is_tree(children[i].0, below)
            &&& store.height_of(children[i].0) == below
            &&& store.contents_of(child_numbers(children).take(i + 1), below).len() <= u64::MAX
            &&& i < keys.len() ==> keys[i] == max_key(store.contents(children[i].0, below))
        }),
{
    let below = (store.height_of(root) - 1) as nat;
    let roots = child_numbers(children);
    assert(store.is_tree(children[i].0, below));
    lemma_records_below(store, children[i].0, below);
    assert(roots[i] == children[i].0);
    lemma_row_split(store, roots, i, below);
    lemma_row_take(store, roots, i, below);
}

/// Checks the pages below `root` and describes their tree, if they form one.
pub(crate) fn check_below(mem: &PageStore, root: PageNumber) -> (summary: Option<TreeSummary>)
    ensures
        match summary {
            Some(summary) => summary.describes(mem@, root),
            None => !is_countable_tree(mem@, root),
        },
    decreases root.index, 1int,
{
    let ghost store = mem@;
    match mem.get(root) {
        Some(Page::Leaf { pairs }) => {
            if pairs.len() == 0 {
                return None;
            }
            let last_key: Vec<u8> = pairs[pairs.len() - 1].0.clone();
            assert(last_key@ =~= pairs@.last().0@);
            Some(TreeSummary { height: 0, length: pairs.len() as u64, max_key: last_key })
        },
        Some(Page::Branch { children, keys }) => check_branch(mem, root, children, keys),
        None => None,
    }
}

/// Checks the branch page `root` and what is below.
fn check_branch(
    mem: &PageStore,
    root: PageNumber,
    children: &Vec<(PageNumber, Checksum)>,
    keys: &Vec<Vec<u8>>,
) -> (summary: Option<TreeSummary>)
    requires
        mem@.holds(root),
        mem@.page(root) == (PageModel::Branch { children: children@, keys: keys_view(keys@) }),
    ensures
        match summary {
            Some(summary) => summary.describes(mem@, root),
            None => !is_countable_tree(mem@, root),
        },
    decreases root.index, 0int,
{
    let ghost store = mem@;
    let ghost roots = child_numbers(children@);
    let ghost separators = keys_view(keys@);
    if children.len() < 2 || keys.len() != children.len() - 1 {
        return None;
    }
    let mut height: usize = 0;
    let mut length: u64 = 0;
    let mut last_key: Vec<u8> = Vec::new();
    let mut i: usize = 0;
    assert(roots.take(0) =~= Seq::empty());
    while i < children.len()
        invariant
            i <= children@.len(),
            children@.len() >= 2,
            keys@.len() + 1 == children@.len(),
            store == mem@,
            roots == child_numbers(children@),
            separators == keys_view(keys@),
            store.holds(root),
            store.page(root) == (PageModel::Branch { children: children@, keys: separators }),
            length == store.contents_of(roots.take(i as int), height as nat).len(),
            i > 0 ==> height < root.index,
            i > 0 ==> last_key@ == max_key(store.contents(children@[i - 1].0, height as nat)),
            forall|j: int|
                0 <= j < i ==> (#[trigger] children@[j]).0.index < root.index && store.is_tree(
                    children@[j].0,
                    height as nat,
                ),
            forall|j: int|
                0 <= j < i && j < separators.len() ==> #[trigger] separators[j] == max_key(
                    store.contents(children@[j].0, height as nat),
                ),
        decreases children@.len() - i,
    {
        let child: PageNumber = children[i].0;
        proof {
            if is_countable_tree(store, root) {
                lemma_countable_child(store, root, children@, separators, i as int);
                if i > 0 {
                    assert(store.is_tree(children@[0].0, height as nat));
                    lemma_countable_child(store, root, children@, separators, 0);
                    lemma_records_below(store, children@[0].0, height as nat);
                }
            }
        }
        if child.index >= root.index {
            return None;
        }
        let summary: TreeSummary = match check_below(mem, child) {
            Some(summary) => summary,
            None => {
                return None;
            },
        };
        proof {
            lemma_records_below(store, child, summary.height as nat);
        }
        if i > 0 && summary.height != height {
            return None;
        }
        height = summary.height;
        proof {
            if i == 0 {
                assert(store.contents_of(roots.take(0), height as nat).len() == 0);
            }
            assert(roots[i as int] == child);
            lemma_row_take(store, roots, i as int, height as nat);
        }
        length = match length.checked_add(summary.length) {
            Some(length) => length,
            None => {
                return None;
            },
        };
        last_key = summary.max_key;
        if i < keys.len() {
            assert(separators[i as int] == keys@[i as int]@);
            if !equal_bytes(&keys[i], &last_key) {
                return None;
            }
        }
        i = i + 1;
    }
    proof {
        assert(roots.take(i as int) =~= roots);
        assert(store.is_tree(root, (height + 1) as nat));
        assert(roots.last() == children@[children@.len() - 1].0);
        lemma_row_last(store, roots, height as nat);
    }
    Some(TreeSummary { height: height + 1, length, max_key: last_key })
}

/// A read finds a value exactly if a record has the key, and then the value of such a record.
pub proof fn law_read_finds_the_key<K: Key>(
    pairs: Seq<Pair>,
    key: Seq<u8>,
    value: Option<Seq<u8>>,
)
    requires
        is_value_of::<K>(pairs, key, value),
    ensures
        value is Some <==> exists|i: int|
            0 <= i < pairs.len() && !K::precedes(#[trigger] pairs[i].0, key) && !K::precedes(
                key,
                pairs[i].0,
            ),
        value matches Some(bytes) ==> exists|i: int|
            0 <= i < pairs.len() && !K::precedes(#[trigger] pairs[i].0, key) && !K::precedes(
                key,
                pairs[i].0,
            ) && pairs[i].1 == bytes,
{
    match value {
        Some(bytes) => {
            let i = choose|i: int|
                0 <= i < pairs.len() && same_key::<K>(#[trigger] pairs[i].0, key) && pairs[i].1
                    == bytes;
            assert(!K::precedes(pairs[i].0, key));
        },
        None => {
            assert forall|i: int| 0 <= i < pairs.len() implies !(!K::precedes(
                #[trigger] pairs[i].0,
                key,
            ) && !K::precedes(key, pairs[i].0)) by {
                assert(!same_key::<K>(pairs[i].0, key));
            }
        },
    }
}

} // verus!
