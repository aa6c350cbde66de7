//! Trees of pages: what they contain and when they are well formed.

use vstd::arithmetic::power2::lemma2_to64;
use vstd::arithmetic::power2::lemma_pow2_unfold;
use vstd::arithmetic::power2::pow2;
use vstd::prelude::*;

use crate::page::renumbered_page;
use crate::page::Checksum;
use crate::page::PageModel;
use crate::page::PageNumber;
use crate::page::Pair;
use crate::page::StoreModel;

verus! {

/// The page numbers of a branch page's children.
pub open spec fn child_numbers(children: Seq<(PageNumber, Checksum)>) -> Seq<PageNumber> {
    children.map_values(|child: (PageNumber, Checksum)| child.0)
}

/// The largest key of a nonempty run of records.
pub open spec fn max_key(pairs: Seq<Pair>) -> Seq<u8> {
    pairs.last().0
}

impl StoreModel {
    /// The records of the tree of the given height below `root`, from left to right. A leaf page
    /// has height zero.
    pub open spec fn contents(self, root: PageNumber, height: nat) -> Seq<Pair>
        decreases height, 0nat,
    {
        match self.page(root) {
            PageModel::Leaf { pairs } => pairs,
            PageModel::Branch { children, keys } => if height == 0 {
                Seq::empty()
            } else {
                self.contents_of(child_numbers(children), (height - 1) as nat)
            },
        }
    }

    /// The records of a row of trees of the given height, from left to right.
    pub open spec fn contents_of(self, roots: Seq<PageNumber>, height: nat) -> Seq<Pair>
        decreases height, roots.len(),
    {
        if roots.len() == 0 {
            Seq::empty()
        } else {
            self.contents_of(roots.drop_last(), height) + self.contents(roots.last(), height)
        }
    }

    /// The leaves of the tree of the given height below `root`, from left to right.
    pub open spec fn leaves(self, root: PageNumber, height: nat) -> Seq<Seq<Pair>>
        decreases height, 0nat,
    {
        match self.page(root) {
            PageModel::Leaf { pairs } => seq![pairs],
            PageModel::Branch { children, keys } => if height == 0 {
                Seq::empty()
            } else {
                self.leaves_of(child_numbers(children), (height - 1) as nat)
            },
        }
    }

    /// The leaves of a row of trees of the given height, from left to right.
    pub open spec fn leaves_of(self, roots: Seq<PageNumber>, height: nat) -> Seq<Seq<Pair>>
        decreases height, roots.len(),
    {
        if roots.len() == 0 {
            Seq::empty()
        } else {
            self.leaves_of(roots.drop_last(), height) + self.leaves(roots.last(), height)
        }
    }

    /// The pages of height `level` in the tree of the given height below `root`, from left to
    /// right.
    pub open spec fn pages_at(self, root: PageNumber, height: nat, level: nat) -> Seq<PageNumber>
        decreases height, 0nat,
    {
        if height <= level {
            seq![root]
        } else {
            match self.page(root) {
                PageModel::Leaf { pairs } => Seq::empty(),
                PageModel::Branch { children, keys } => self.pages_at_of(
                    child_numbers(children),
                    (height - 1) as nat,
                    level,
                ),
            }
        }
    }

    /// The pages of height `level` in a row of trees of the given height, from left to right.
    pub open spec fn pages_at_of(
        self,
        roots: Seq<PageNumber>,
        height: nat,
        level: nat,
    ) -> Seq<PageNumber>
        decreases height, roots.len(),
    {
        if roots.len() == 0 {
            Seq::empty()
        } else {
            self.pages_at_of(roots.drop_last(), height, level) + self.pages_at(
                roots.last(),
                height,
                level,
            )
        }
    }

    /// The number of pages in the tree of the given height below `root`.
    pub open spec fn page_count(self, root: PageNumber, height: nat) -> nat
        decreases height, 0nat,
    {
        match self.page(root) {
            PageModel::Leaf { pairs } => 1,
            PageModel::Branch { children, keys } => if height == 0 {
                1
            } else {
                1 + self.page_count_of(child_numbers(children), (height - 1) as nat)
            },
        }
    }

    /// The number of pages in a row of trees of the given height.
    pub open spec fn page_count_of(self, roots: Seq<PageNumber>, height: nat) -> nat
        decreases height, roots.len(),
    {
        if roots.len() == 0 {
            0
        } else {
            self.page_count_of(roots.drop_last(), height) + self.page_count(roots.last(), height)
        }
    }

    /// The pages below `root` form a tree of the given height:
    /// - every leaf page is at the same depth and holds a record;
    /// - every branch page has at least two children, each with a smaller page number;
    /// - the separators of a branch page are the largest keys of its children but the last.
    pub open spec fn is_tree(self, root: PageNumber, height: nat) -> bool
        decreases height,
    {
        &&& self.holds(root)
        &&& match self.page(root) {
            PageModel::Leaf { pairs } => height == 0 && pairs.len() > 0,
            PageModel::Branch { children, keys } => {
                &&& height > 0
                &&& children.len() >= 2
                &&& keys.len() + 1 == children.len()
                &&& forall|i: int|
                    0 <= i < children.len() ==> (#[trigger] children[i]).0.index < root.index
                        && self.is_tree(children[i].0, (height - 1) as nat)
                &&& forall|i: int|
                    0 <= i < keys.len() ==> #[trigger] keys[i] == max_key(
                        self.contents(children[i].0, (height - 1) as nat),
                    )
            },
        }
    }
}

impl StoreModel {
    /// The pages below `root` form a tree of some height.
    pub open spec fn has_tree(self, root: PageNumber) -> bool {
        exists|height: nat| self.is_tree(root, height)
    }

    /// The height of the tree below `root`.
    pub open spec fn height_of(self, root: PageNumber) -> nat {
        choose|height: nat| self.is_tree(root, height)
    }

    /// The records of the tree below `root`.
    pub open spec fn records_below(self, root: PageNumber) -> Seq<Pair> {
        self.contents(root, self.height_of(root))
    }

    /// The leaves of the tree below `root`.
    pub open spec fn leaves_below(self, root: PageNumber) -> Seq<Seq<Pair>> {
        self.leaves(root, self.height_of(root))
    }
}

/// A tree has one height only.
proof fn lemma_height_unique(store: StoreModel, root: PageNumber, a: nat, b: nat)
    requires
        store.is_tree(root, a),
        store.is_tree(root, b),
    ensures
        a == b,
    decreases a,
{
    if let PageModel::Branch { children, keys } = store.page(root) {
        lemma_height_unique(store, children[0].0, (a - 1) as nat, (b - 1) as nat);
    }
}

/// The records of a tree of known height.
pub proof fn lemma_records_below(store: StoreModel, root: PageNumber, height: nat)
    requires
        store.is_tree(root, height),
    ensures
        store.has_tree(root),
        store.height_of(root) == height,
        store.records_below(root) == store.contents(root, height),
        store.leaves_below(root) == store.leaves(root, height),
{
    lemma_height_unique(store, root, store.height_of(root), height);
}

/// A tree does not change as pages are added.
pub proof fn lemma_tree_within(a: StoreModel, b: StoreModel, root: PageNumber, height: nat)
    requires
        a.within(b),
        a.is_tree(root, height),
    ensures
        b.is_tree(root, height),
        b.contents(root, height) == a.contents(root, height),
        b.leaves(root, height) == a.leaves(root, height),
    decreases height,
{
    assert(b.page(root) == a.page(root));
    if let PageModel::Branch { children, keys } = a.page(root) {
        let below = (height - 1) as nat;
        assert forall|i: int| 0 <= i < children.len() implies b.is_tree(
            (#[trigger] children[i]).0,
            below,
        ) && b.contents(children[i].0, below) == a.contents(children[i].0, below) && b.leaves(
            children[i].0,
            below,
        ) == a.leaves(children[i].0, below) by {
            lemma_tree_within(a, b, children[i].0, below);
        }
        let roots = child_numbers(children);
        lemma_row_same(a, roots, b, roots, below);
    }
}

/// Two rows of trees that hold the same, one by one.
proof fn lemma_row_same(
    a: StoreModel,
    a_roots: Seq<PageNumber>,
    b: StoreModel,
    b_roots: Seq<PageNumber>,
    height: nat,
)
    requires
        a_roots.len() == b_roots.len(),
        forall|i: int|
            #![trigger a_roots[i]]
            #![trigger b_roots[i]]
            0 <= i < a_roots.len() ==> b.contents(b_roots[i], height) == a.contents(
                a_roots[i],
                height,
            ) && b.leaves(b_roots[i], height) == a.leaves(a_roots[i], height),
    ensures
        b.contents_of(b_roots, height) == a.contents_of(a_roots, height),
        b.leaves_of(b_roots, height) == a.leaves_of(a_roots, height),
    decreases a_roots.len(),
{
    if a_roots.len() > 0 {
        let last = a_roots.len() - 1;
        assert(b.contents(b_roots[last], height) == a.contents(a_roots[last], height));
        assert forall|i: int|
            #![trigger a_roots.drop_last()[i]]
            #![trigger b_roots.drop_last()[i]]
            0 <= i < last implies b.contents(b_roots.drop_last()[i], height) == a.contents(
            a_roots.drop_last()[i],
            height,
        ) && b.leaves(b_roots.drop_last()[i], height) == a.leaves(
            a_roots.drop_last()[i],
            height,
        ) by {
            assert(a_roots.drop_last()[i] == a_roots[i]);
        }
        lemma_row_same(a, a_roots.drop_last(), b, b_roots.drop_last(), height);
    }
}

/// A row of trees does not change as pages are added.
pub proof fn lemma_row_within(a: StoreModel, b: StoreModel, roots: Seq<PageNumber>, height: nat)
    requires
        a.within(b),
        forall|i: int| 0 <= i < roots.len() ==> a.is_tree(#[trigger] roots[i], height),
    ensures
        forall|i: int| 0 <= i < roots.len() ==> b.is_tree(#[trigger] roots[i], height),
        b.contents_of(roots, height) == a.contents_of(roots, height),
        b.leaves_of(roots, height) == a.leaves_of(roots, height),
{
    assert forall|i: int| 0 <= i < roots.len() implies b.is_tree(#[trigger] roots[i], height)
        && b.contents(roots[i], height) == a.contents(roots[i], height) && b.leaves(
        roots[i],
        height,
    ) == a.leaves(roots[i], height) by {
        lemma_tree_within(a, b, roots[i], height);
    }
    lemma_row_same(a, roots, b, roots, height);
}

/// The records of two rows side by side.
pub proof fn lemma_contents_of_concat(
    store: StoreModel,
    left: Seq<PageNumber>,
    right: Seq<PageNumber>,
    height: nat,
)
    ensures
        store.contents_of(left + right, height) == store.contents_of(left, height)
            + store.contents_of(right, height),
    decreases right.len(),
{
    if right.len() == 0 {
        assert(left + right =~= left);
        assert(store.contents_of(left, height) + Seq::<Pair>::empty() =~= store.contents_of(
            left,
            height,
        ));
    } else {
        assert((left + right).drop_last() =~= left + right.drop_last());
        lemma_contents_of_concat(store, left, right.drop_last(), height);
        assert(store.contents_of(left + right, height) =~= store.contents_of(left, height)
            + store.contents_of(right, height));
    }
}

/// A row of one tree has the records and the leaves of that tree.
pub proof fn lemma_contents_of_one(store: StoreModel, root: PageNumber, height: nat)
    ensures
        store.contents_of(seq![root], height) == store.contents(root, height),
        store.leaves_of(seq![root], height) == store.leaves(root, height),
{
    assert(seq![root].drop_last() =~= Seq::empty());
    assert(store.contents_of(Seq::empty(), height) == Seq::<Pair>::empty());
    assert(store.contents_of(seq![root], height) =~= store.contents(root, height));
    assert(store.leaves_of(Seq::empty(), height) == Seq::<Seq<Pair>>::empty());
    assert(store.leaves_of(seq![root], height) =~= store.leaves(root, height));
}

/// A tree holds a record.
pub proof fn lemma_tree_nonempty(store: StoreModel, root: PageNumber, height: nat)
    requires
        store.is_tree(root, height),
    ensures
        store.contents(root, height).len() > 0,
    decreases height,
{
    if let PageModel::Branch { children, keys } = store.page(root) {
        lemma_tree_nonempty(store, children[children.len() - 1].0, (height - 1) as nat);
    }
}

/// The records and the leaves of a tree do not change as pages are added.
pub proof fn lemma_records_below_within(a: StoreModel, b: StoreModel, root: PageNumber)
    requires
        a.within(b),
        a.has_tree(root),
    ensures
        b.has_tree(root),
        b.records_below(root) == a.records_below(root),
        b.leaves_below(root) == a.leaves_below(root),
{
    let height = choose|height: nat| a.is_tree(root, height);
    lemma_tree_within(a, b, root, height);
    lemma_records_below(b, root, height);
}

/// A tree keeps its shape, its records and its leaves as its pages are renumbered.
proof fn lemma_moved_tree(store: StoreModel, base: nat, root: PageNumber, height: nat)
    requires
        store.is_tree(root, height),
        base + store.pages.len() <= usize::MAX,
    ensures
        ({
            let moved = store.moved_to(base);
            let moved_root = store.renumbered(root, base);
            &&& moved.is_tree(moved_root, height)
            &&& moved.contents(moved_root, height) == store.contents(root, height)
            &&& moved.leaves(moved_root, height) == store.leaves(root, height)
        }),
    decreases height,
{
    let moved = store.moved_to(base);
    let moved_root = store.renumbered(root, base);
    let page = store.page(root);
    assert(moved.page(moved_root) == renumbered_page(page, store.base, store.pages.len(), base));
    if let PageModel::Branch { children, keys } = page {
        let below = (height - 1) as nat;
        let moved_children = moved.page(moved_root)->children;
        let roots = child_numbers(children);
        let moved_roots = child_numbers(moved_children);
        assert forall|i: int|
            #![trigger roots[i]]
            #![trigger moved_roots[i]]
            #![trigger children[i]]
            #![trigger moved_children[i]]
            0 <= i < children.len() implies moved_children[i].0.index < moved_root.index
            && moved.is_tree(moved_children[i].0, below) && moved_roots[i] == moved_children[i].0
            && moved.contents(moved_roots[i], below) == store.contents(roots[i], below)
            && moved.leaves(moved_roots[i], below) == store.leaves(roots[i], below) by {
            assert(store.is_tree(children[i].0, below));
            assert(moved_children[i].0 == store.renumbered(children[i].0, base));
            lemma_moved_tree(store, base, children[i].0, below);
        }
        lemma_row_same(store, roots, moved, moved_roots, below);
        assert forall|i: int| 0 <= i < keys.len() implies #[trigger] keys[i] == max_key(
            moved.contents(moved_children[i].0, below),
        ) by {
            assert(moved_roots[i] == moved_children[i].0);
        }
    }
}

/// What is below a page stays the same as all pages are renumbered.
pub proof fn lemma_moved_records(store: StoreModel, base: nat, root: PageNumber)
    requires
        store.has_tree(root),
        base + store.pages.len() <= usize::MAX,
    ensures
        ({
            let moved = store.moved_to(base);
            let moved_root = store.renumbered(root, base);
            &&& moved.has_tree(moved_root)
            &&& moved.records_below(moved_root) == store.records_below(root)
            &&& moved.leaves_below(moved_root) == store.leaves_below(root)
        }),
{
    let height = store.height_of(root);
    lemma_moved_tree(store, base, root, height);
    lemma_records_below(store.moved_to(base), store.renumbered(root, base), height);
}

/// The leaves of a row of trees hold its records, one after the other.
proof fn lemma_leaves_of_hold_records(store: StoreModel, roots: Seq<PageNumber>, height: nat)
    requires
        forall|i: int| 0 <= i < roots.len() ==> store.is_tree(#[trigger] roots[i], height),
    ensures
        store.leaves_of(roots, height).flatten() == store.contents_of(roots, height),
    decreases height, roots.len(),
{
    if roots.len() > 0 {
        let rest = roots.drop_last();
        assert(store.is_tree(roots[roots.len() - 1], height));
        lemma_leaves_of_hold_records(store, rest, height);
        lemma_leaves_hold_records(store, roots.last(), height);
        lemma_flatten_concat(store.leaves_of(rest, height), store.leaves(roots.last(), height));
    }
}

/// The leaves of a tree hold its records, one after the other.
proof fn lemma_leaves_hold_records(store: StoreModel, root: PageNumber, height: nat)
    requires
        store.is_tree(root, height),
    ensures
        store.leaves(root, height).flatten() == store.contents(root, height),
    decreases height, 0nat,
{
    match store.page(root) {
        PageModel::Leaf { pairs } => {
            seq![pairs].lemma_flatten_one_element();
        },
        PageModel::Branch { children, keys } => {
            let roots = child_numbers(children);
            let below = (height - 1) as nat;
            assert forall|i: int| 0 <= i < roots.len() implies store.is_tree(
                #[trigger] roots[i],
                below,
            ) by {
                assert(roots[i] == children[i].0);
            }
            lemma_leaves_of_hold_records(store, roots, below);
        },
    }
}

/// The parts of two runs, one after the other.
proof fn lemma_flatten_concat(a: Seq<Seq<Pair>>, b: Seq<Seq<Pair>>)
    ensures
        (a + b).flatten() == a.flatten() + b.flatten(),
    decreases a.len(),
{
    if a.len() == 0 {
        assert(a + b =~= b);
        assert(a.flatten() + b.flatten() =~= b.flatten());
    } else {
        assert((a + b).drop_first() =~= a.drop_first() + b);
        lemma_flatten_concat(a.drop_first(), b);
        assert((a + b).flatten() =~= a.flatten() + b.flatten());
    }
}

/// The leaves of a tree hold its records, one after the other.
pub proof fn law_leaves_hold_records(store: StoreModel, root: PageNumber)
    requires
        store.has_tree(root),
    ensures
        store.leaves_below(root).flatten() == store.records_below(root),
{
    lemma_leaves_hold_records(store, root, store.height_of(root));
}

/// A tree is shallow: one of height `height` has at least two to the power of `height` records.
pub proof fn law_height_is_logarithmic(store: StoreModel, root: PageNumber, height: nat)
    requires
        store.is_tree(root, height),
    ensures
        store.contents(root, height).len() >= pow2(height),
    decreases height,
{
    if let PageModel::Branch { children, keys } = store.page(root) {
        let below = (height - 1) as nat;
        let roots = child_numbers(children);
        let last = children.len() - 1;
        assert(store.is_tree(children[last].0, below));
        assert(store.is_tree(children[last - 1].0, below));
        law_height_is_logarithmic(store, children[last].0, below);
        law_height_is_logarithmic(store, children[last - 1].0, below);
        assert(roots.last() == children[last].0);
        assert(roots.drop_last().last() == children[last - 1].0);
        let shorter = roots.drop_last();
        assert(store.contents_of(roots, below) == store.contents_of(shorter, below)
            + store.contents(roots.last(), below));
        assert(store.contents_of(shorter, below) == store.contents_of(shorter.drop_last(), below)
            + store.contents(shorter.last(), below));
        lemma_pow2_unfold(height);
    } else {
        lemma2_to64();
    }
}

/// A leaf page is a tree of height zero if it holds a record, and holds its records.
pub proof fn law_leaf_is_a_tree(store: StoreModel, root: PageNumber, height: nat, pairs: Seq<Pair>)
    requires
        store.page(root) == (PageModel::Leaf { pairs }),
    ensures
        store.is_tree(root, height) <==> store.holds(root) && height == 0 && pairs.len() > 0,
        store.contents(root, height) == pairs,
        store.leaves(root, height) == seq![pairs],
        store.pages_at(root, 0, 0) == seq![root],
        store.page_count(root, height) == 1,
{
}

/// A branch page is a tree if it has at least two children, which are trees of the height below and
/// have smaller page numbers, and if its separators are the keys of the last records of its
/// children but the last. It holds what its children hold.
pub proof fn law_branch_is_a_tree(
    store: StoreModel,
    root: PageNumber,
    below: nat,
    children: Seq<(PageNumber, Checksum)>,
    keys: Seq<Seq<u8>>,
)
    requires
        store.page(root) == (PageModel::Branch { children, keys }),
    ensures
        !store.is_tree(root, 0),
        store.is_tree(root, below + 1) <==> {
            &&& store.holds(root)
            &&& children.len() >= 2
            &&& keys.len() == children.len() - 1
            &&& forall|i: int|
                0 <= i < children.len() ==> (#[trigger] children[i]).0.index < root.index
                    && store.is_tree(children[i].0, below)
            &&& forall|i: int|
                0 <= i < keys.len() ==> #[trigger] keys[i] == store.contents(
                    children[i].0,
                    below,
                ).last().0
        },
        store.contents(root, below + 1) == store.contents_of(child_numbers(children), below),
        store.leaves(root, below + 1) == store.leaves_of(child_numbers(children), below),
        store.page_count(root, below + 1) == 1 + store.page_count_of(
            child_numbers(children),
            below,
        ),
        forall|i: int|
            0 <= i < children.len() ==> #[trigger] child_numbers(children)[i] == children[i].0,
        child_numbers(children).len() == children.len(),
{
}

/// A row of trees holds what its trees hold, from left to right.
pub proof fn law_row_holds_what_its_trees_hold(
    store: StoreModel,
    roots: Seq<PageNumber>,
    root: PageNumber,
    height: nat,
    level: nat,
)
    ensures
        store.contents_of(Seq::empty(), height) == Seq::<Pair>::empty(),
        store.contents_of(roots.push(root), height) == store.contents_of(roots, height)
            + store.contents(root, height),
        store.leaves_of(Seq::empty(), height) == Seq::<Seq<Pair>>::empty(),
        store.leaves_of(roots.push(root), height) == store.leaves_of(roots, height)
            + store.leaves(root, height),
        store.pages_at_of(Seq::empty(), height, level) == Seq::<PageNumber>::empty(),
        store.pages_at_of(roots.push(root), height, level) == store.pages_at_of(
            roots,
            height,
            level,
        ) + store.pages_at(root, height, level),
        store.page_count_of(Seq::empty(), height) == 0,
        store.page_count_of(roots.push(root), height) == store.page_count_of(roots, height)
            + store.page_count(root, height),
{
    assert(roots.push(root).drop_last() =~= roots);
}

/// What is below a page is what its tree holds, whatever its height is.
pub proof fn law_tree_is_found_by_its_root(store: StoreModel, root: PageNumber, height: nat)
    requires
        store.is_tree(root, height),
    ensures
        store.has_tree(root),
        store.records_below(root) == store.contents(root, height),
        store.leaves_below(root) == store.leaves(root, height),
{
    lemma_records_below(store, root, height);
}

} // verus!
