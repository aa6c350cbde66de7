//! Pages and the store that numbers them.

use vstd::prelude::*;

use crate::error::StorageError;
use crate::layout::PAGE_NUMBER_BYTES;

verus! {

/// The checksum of a page.
pub type Checksum = u128;

/// Stands for a checksum that is computed when the page is written out.
pub const DEFERRED: Checksum = 999;

/// An encoded key and an encoded value.
pub type Pair = (Seq<u8>, Seq<u8>);

/// Names a page of a database.
#[derive(Clone, Copy, PartialEq, Eq, Structural, Debug)]
pub struct PageNumber {
    pub index: usize,
}

impl PageNumber {
    /// Bytes of an encoded page number.
    pub fn serialized_size() -> (bytes: usize)
        ensures
            bytes == PAGE_NUMBER_BYTES,
    {
        PAGE_NUMBER_BYTES
    }
}

/// The root of a tree, with the checksum of the root page and the number of records.
#[derive(Clone, Copy, PartialEq, Eq, Structural, Debug)]
pub struct BtreeHeader {
    pub root: PageNumber,
    pub checksum: Checksum,
    pub length: u64,
}

impl BtreeHeader {
    pub fn new(root: PageNumber, checksum: Checksum, length: u64) -> (header: BtreeHeader)
        ensures
            header == (BtreeHeader { root, checksum, length }),
    {
        BtreeHeader { root, checksum, length }
    }
}

/// A page of a tree.
#[derive(Debug)]
pub enum Page {
    /// Records, by ascending key.
    Leaf { pairs: Vec<(Vec<u8>, Vec<u8>)> },
    /// Subtrees, by ascending key, and the largest key of each but the last.
    Branch { children: Vec<(PageNumber, Checksum)>, keys: Vec<Vec<u8>> },
}

/// What a [`Page`] holds.
#[verifier::ext_equal]
pub enum PageModel {
    Leaf { pairs: Seq<Pair> },
    Branch { children: Seq<(PageNumber, Checksum)>, keys: Seq<Seq<u8>> },
}

/// The bytes of a vector of records.
pub open spec fn pairs_view(pairs: Seq<(Vec<u8>, Vec<u8>)>) -> Seq<Pair> {
    pairs.map_values(|pair: (Vec<u8>, Vec<u8>)| (pair.0@, pair.1@))
}

/// The bytes of a vector of keys.
pub open spec fn keys_view(keys: Seq<Vec<u8>>) -> Seq<Seq<u8>> {
    keys.map_values(|key: Vec<u8>| key@)
}

impl View for Page {
    type V = PageModel;

    open spec fn view(&self) -> PageModel {
        match self {
            Page::Leaf { pairs } => PageModel::Leaf { pairs: pairs_view(pairs@) },
            Page::Branch { children, keys } => PageModel::Branch {
                children: children@,
                keys: keys_view(keys@),
            },
        }
    }
}

/// The new number of a page when the `count` pages from `first` on are renumbered from `base` on.
/// Any other number stays as it is.
pub open spec fn renumbered(number: PageNumber, first: nat, count: nat, base: nat) -> PageNumber {
    if first <= number.index < first + count {
        PageNumber { index: (number.index - first + base) as usize }
    } else {
        number
    }
}

/// A page with its children renumbered.
pub open spec fn renumbered_page(
    page: PageModel,
    first: nat,
    count: nat,
    base: nat,
) -> PageModel {
    match page {
        PageModel::Leaf { pairs } => PageModel::Leaf { pairs },
        PageModel::Branch { children, keys } => PageModel::Branch {
            children: children.map_values(
                |child: (PageNumber, Checksum)|
                    (renumbered(child.0, first, count, base), child.1),
            ),
            keys,
        },
    }
}

/// Consecutively numbered pages: `pages[i]` has the number `base + i`.
#[verifier::ext_equal]
pub struct StoreModel {
    pub page_size: nat,
    pub base: nat,
    pub limit: usize,
    pub pages: Seq<PageModel>,
}

impl StoreModel {
    /// The number that the next page gets.
    pub open spec fn next(self) -> nat {
        self.base + self.pages.len()
    }

    /// A page can be added.
    pub open spec fn has_room(self) -> bool {
        self.next() < self.limit
    }

    /// `number` names a page of this store.
    pub open spec fn holds(self, number: PageNumber) -> bool {
        self.base <= number.index < self.next()
    }

    /// The page of the given number.
    pub open spec fn page(self, number: PageNumber) -> PageModel {
        self.pages[number.index - self.base]
    }

    /// This store with one more page.
    pub open spec fn with_page(self, page: PageModel) -> StoreModel {
        StoreModel { pages: self.pages.push(page), ..self }
    }

    /// The new number of a page when this store is renumbered from `base` on.
    pub open spec fn renumbered(self, number: PageNumber, base: nat) -> PageNumber {
        renumbered(number, self.base, self.pages.len(), base)
    }

    /// The same pages, numbered from `base` on.
    pub open spec fn moved_to(self, base: nat) -> StoreModel {
        StoreModel {
            base,
            pages: self.pages.map_values(
                |page: PageModel| renumbered_page(page, self.base, self.pages.len(), base),
            ),
            ..self
        }
    }

    /// The pages of `other`, if it has any, can be added: they follow on the pages of this store
    /// already, or there is room to renumber them.
    pub open spec fn can_join(self, other: StoreModel) -> bool {
        ||| other.pages.len() == 0
        ||| other.base == self.next()
        ||| self.next() + other.pages.len() <= self.limit
    }

    /// This store with the pages of `other` after its own, renumbered to follow on them.
    pub open spec fn joined(self, other: StoreModel) -> StoreModel {
        StoreModel { pages: self.pages + other.moved_to(self.next()).pages, ..self }
    }

    /// Every page of this store is in `other`, under the same number.
    pub open spec fn within(self, other: StoreModel) -> bool {
        &&& other.base <= self.base
        &&& self.next() <= other.next()
        &&& forall|n: PageNumber| self.holds(n) ==> #[trigger] other.page(n) == self.page(n)
    }
}

/// Pages that have the right numbers already stay as they are.
pub proof fn lemma_moved_to_same_base(store: StoreModel)
    ensures
        store.moved_to(store.base) == store,
        forall|number: PageNumber| #[trigger] store.renumbered(number, store.base) == number,
{
    let count = store.pages.len();
    assert forall|page: PageModel| #[trigger]
        renumbered_page(page, store.base, count, store.base) == page by {
        if let PageModel::Branch { children, keys } = page {
            assert(children.map_values(
                |child: (PageNumber, Checksum)|
                    (renumbered(child.0, store.base, count, store.base), child.1),
            ) =~= children);
        }
    }
    assert(store.moved_to(store.base).pages =~= store.pages);
}

/// Renumbers a page: where the `count` pages from `first` on are numbered from `base` on instead,
/// any other page keeps its number.
pub fn renumber(number: PageNumber, first: usize, count: usize, base: usize) -> (moved:
    PageNumber)
    requires
        base + count <= usize::MAX,
    ensures
        moved == renumbered(number, first as nat, count as nat, base as nat),
{
    if number.index >= first && number.index - first < count {
        PageNumber { index: number.index - first + base }
    } else {
        number
    }
}

/// Renumbers the children of a page.
fn renumber_page(page: Page, first: usize, count: usize, base: usize) -> (moved: Page)
    requires
        base + count <= usize::MAX,
    ensures
        moved@ == renumbered_page(page@, first as nat, count as nat, base as nat),
{
    match page {
        Page::Leaf { pairs } => Page::Leaf { pairs },
        Page::Branch { children, keys } => {
            let mut moved: Vec<(PageNumber, Checksum)> = Vec::new();
            let mut i: usize = 0;
            while i < children.len()
                invariant
                    i <= children@.len(),
                    base + count <= usize::MAX,
                    moved@.len() == i,
                    forall|j: int|
                        0 <= j < i ==> #[trigger] moved@[j] == (
                            renumbered(children@[j].0, first as nat, count as nat, base as nat),
                            children@[j].1,
                        ),
                decreases children@.len() - i,
            {
                moved.push((renumber(children[i].0, first, count, base), children[i].1));
                i = i + 1;
            }
            assert(moved@ =~= children@.map_values(
                |child: (PageNumber, Checksum)|
                    (renumbered(child.0, first as nat, count as nat, base as nat), child.1),
            ));
            Page::Branch { children: moved, keys }
        },
    }
}

/// Hands out page numbers, from `base` on and below `limit`, and holds the pages.
pub struct PageStore {
    page_size: usize,
    base: usize,
    limit: usize,
    pages: Vec<Page>,
}

impl View for PageStore {
    type V = StoreModel;

    closed spec fn view(&self) -> StoreModel {
        StoreModel {
            page_size: self.page_size as nat,
            base: self.base as nat,
            limit: self.limit,
            pages: self.pages@.map_values(|page: Page| page@),
        }
    }
}

impl PageStore {
    /// Every page has a number.
    #[verifier::type_invariant]
    spec fn type_inv(self) -> bool {
        self.base + self.pages@.len() <= usize::MAX
    }

    /// An empty store.
    pub fn new(page_size: usize, base: usize, limit: usize) -> (store: PageStore)
        ensures
            store@ == (StoreModel {
                page_size: page_size as nat,
                base: base as nat,
                limit,
                pages: Seq::empty(),
            }),
    {
        let store = PageStore { page_size, base, limit, pages: Vec::new() };
        assert(store@.pages =~= Seq::empty());
        store
    }

    /// The preferred size of an encoded page.
    pub fn get_page_size(&self) -> (bytes: usize)
        ensures
            bytes == self@.page_size,
    {
        self.page_size
    }

    /// Adds a page under the next free number. Fails where that number reaches the limit, and then
    /// changes nothing.
    pub fn allocate(&mut self, page: Page) -> (number: Result<PageNumber, StorageError>)
        ensures
            match number {
                Ok(number) => {
                    &&& old(self)@.has_room()
                    &&& number.index == old(self)@.next()
                    &&& final(self)@ == old(self)@.with_page(page@)
                },
                Err(error) => {
                    &&& !old(self)@.has_room()
                    &&& error is OutOfPages
                    &&& final(self)@ == old(self)@
                },
            },
    {
        if self.base < self.limit && self.pages.len() < self.limit - self.base {
            let number = PageNumber { index: self.base + self.pages.len() };
            let mut pages: Vec<Page> = Vec::new();
            std::mem::swap(&mut self.pages, &mut pages);
            pages.push(page);
            std::mem::swap(&mut self.pages, &mut pages);
            assert(self@.pages =~= old(self)@.pages.push(page@));
            Ok(number)
        } else {
            Err(StorageError::OutOfPages)
        }
    }

    /// A store that holds the given pages already.
    pub fn with_pages(page_size: usize, base: usize, limit: usize, pages: Vec<Page>) -> (store:
        PageStore)
        requires
            base + pages@.len() <= usize::MAX,
        ensures
            store@ == (StoreModel {
                page_size: page_size as nat,
                base: base as nat,
                limit,
                pages: pages@.map_values(|page: Page| page@),
            }),
    {
        PageStore { page_size, base, limit, pages }
    }

    /// The pages of the store.
    pub fn into_pages(self) -> (pages: Vec<Page>)
        ensures
            pages@.map_values(|page: Page| page@) == self@.pages,
    {
        self.pages
    }

    /// The number of pages in the store.
    pub fn page_count(&self) -> (count: usize)
        ensures
            count == self@.pages.len(),
    {
        self.pages.len()
    }

    /// The first page number of this store.
    pub fn base_index(&self) -> (index: usize)
        ensures
            index == self@.base,
    {
        self.base
    }

    /// The number that the next page would get.
    pub fn next_index(&self) -> (index: usize)
        ensures
            index == self@.next(),
    {
        proof {
            use_type_invariant(self);
        }
        self.base + self.pages.len()
    }

    /// The page number at which this store ends.
    pub fn limit_index(&self) -> (index: usize)
        ensures
            index == self@.limit,
    {
        self.limit
    }

    /// The page of the given number.
    pub fn get(&self, number: PageNumber) -> (page: Option<&Page>)
        ensures
            match page {
                Some(page) => self@.holds(number) && page@ == self@.page(number),
                None => !self@.holds(number),
            },
    {
        if number.index >= self.base && number.index - self.base < self.pages.len() {
            Some(&self.pages[number.index - self.base])
        } else {
            None
        }
    }

    /// Adds the pages of another store, whose numbers follow on those of this one.
    pub fn absorb(&mut self, other: PageStore)
        requires
            other@.base == old(self)@.next(),
        ensures
            final(self)@ == (StoreModel {
                pages: old(self)@.pages + other@.pages,
                ..old(self)@
            }),
            old(self)@.within(final(self)@),
            other@.within(final(self)@),
    {
        proof {
            use_type_invariant(&other);
        }
        let mut added: Vec<Page> = other.pages;
        let mut pages: Vec<Page> = Vec::new();
        std::mem::swap(&mut self.pages, &mut pages);
        pages.append(&mut added);
        std::mem::swap(&mut self.pages, &mut pages);
        assert(self@.pages =~= old(self)@.pages + other@.pages);
    }

    /// The same pages, numbered from `base` on.
    pub fn move_to(self, base: usize) -> (store: PageStore)
        requires
            base + self@.pages.len() <= usize::MAX,
        ensures
            store@ == self@.moved_to(base as nat),
    {
        let first: usize = self.base;
        let count: usize = self.pages.len();
        let mut pages: Vec<Page> = self.pages;
        let ghost all = pages@;
        let mut i: usize = 0;
        while i < count
            invariant
                i <= count,
                count == pages@.len(),
                pages@.len() == all.len(),
                base + count <= usize::MAX,
                forall|j: int|
                    0 <= j < i ==> (#[trigger] pages@[j])@ == renumbered_page(
                        all[j]@,
                        first as nat,
                        count as nat,
                        base as nat,
                    ),
                forall|j: int| i <= j < count ==> #[trigger] pages@[j] == all[j],
            decreases count - i,
        {
            let mut page: Page = Page::Leaf { pairs: Vec::new() };
            std::mem::swap(&mut pages[i], &mut page);
            let mut moved: Page = renumber_page(page, first, count, base);
            std::mem::swap(&mut pages[i], &mut moved);
            i = i + 1;
        }
        let store = PageStore { page_size: self.page_size, base, limit: self.limit, pages };
        assert(store@.pages =~= self@.moved_to(base as nat).pages);
        store
    }

    /// Adds the pages of another store, and renumbers them if their numbers do not follow on those
    /// of this one. Fails where there is no room for the new numbers, and then changes nothing.
    pub fn join(&mut self, other: PageStore) -> (result: Result<(), StorageError>)
        ensures
            match result {
                Ok(()) => {
                    &&& old(self)@.can_join(other@)
                    &&& final(self)@ == old(self)@.joined(other@)
                    &&& old(self)@.within(final(self)@)
                    &&& other@.moved_to(old(self)@.next()).within(final(self)@)
                    &&& old(self)@.next() + other@.pages.len() <= usize::MAX
                },
                Err(error) => {
                    &&& !old(self)@.can_join(other@)
                    &&& error is OutOfPages
                    &&& final(self)@ == old(self)@
                },
            },
    {
        let next: usize = self.next_index();
        proof {
            use_type_invariant(&other);
            lemma_moved_to_same_base(other@);
        }
        let moved: PageStore = if other.base_index() == next {
            other
        } else if other.page_count() == 0 || (next <= self.limit && other.page_count()
            <= self.limit - next) {
            other.move_to(next)
        } else {
            return Err(StorageError::OutOfPages);
        };
        self.absorb(moved);
        Ok(())
    }
}

/// There is room for a page as long as its number stays below the limit.
pub proof fn law_room_ends_at_the_limit(store: StoreModel)
    ensures
        store.has_room() <==> store.base + store.pages.len() < store.limit,
        store.next() == store.base + store.pages.len(),
{
}

/// A page that was added is found under its number, and all other pages as before.
pub proof fn law_added_page_is_found(store: StoreModel, page: PageModel, number: PageNumber)
    ensures
        ({
            let after = store.with_page(page);
            &&& number.index == store.base + store.pages.len() ==> after.page(number) == page
            &&& after.holds(number) <==> store.base <= number.index <= store.base
                + store.pages.len()
            &&& store.holds(number) ==> after.page(number) == store.page(number)
            &&& after.page_size == store.page_size
            &&& after.limit == store.limit
            &&& after.base == store.base
        }),
{
}

/// A store that is within another is found there page by page.
pub proof fn law_pages_are_found_again(a: StoreModel, b: StoreModel, number: PageNumber)
    requires
        a.within(b),
        a.base <= number.index < a.base + a.pages.len(),
    ensures
        b.base <= number.index < b.base + b.pages.len(),
        b.pages[number.index - b.base] == a.pages[number.index - a.base],
{
    assert(b.page(number) == a.page(number));
}

/// Pages of another store are refused only if there are any, they are not numbered to follow on
/// those of this store, and there is no room to renumber them.
pub proof fn law_pages_are_refused_for_want_of_room(store: StoreModel, other: StoreModel)
    ensures
        !store.can_join(other) <==> other.pages.len() > 0 && other.base != store.base
            + store.pages.len() && store.base + store.pages.len() + other.pages.len()
            > store.limit,
{
}

/// Pages that are added from another store come after the pages that were there, one by one. A leaf
/// keeps its records, and a branch its separators and its children, under their new numbers.
pub proof fn law_joined_pages_are_kept(store: StoreModel, other: StoreModel, i: int)
    requires
        0 <= i < other.pages.len(),
        store.base + store.pages.len() + other.pages.len() <= usize::MAX,
    ensures
        ({
            let after = store.joined(other);
            let start = store.pages.len() as int;
            &&& after.pages.len() == start + other.pages.len()
            &&& after.base == store.base
            &&& after.limit == store.limit
            &&& after.page_size == store.page_size
            &&& forall|j: int| 0 <= j < start ==> #[trigger] after.pages[j] == store.pages[j]
            &&& match other.pages[i] {
                PageModel::Leaf { pairs } => after.pages[start + i] == PageModel::Leaf { pairs },
                PageModel::Branch { children, keys } => {
                    &&& after.pages[start + i] matches PageModel::Branch {
                        children: moved,
                        keys: same,
                    }
                    &&& same == keys
                    &&& moved.len() == children.len()
                    &&& forall|j: int|
                        #![trigger moved[j]]
                        0 <= j < children.len() ==> moved[j].1 == children[j].1 && (
                        other.base <= children[j].0.index < other.base + other.pages.len()
                            ==> moved[j].0.index - (store.base + start) == children[j].0.index
                            - other.base)
                },
            }
        }),
{
    let after = store.joined(other);
    let start = store.pages.len() as int;
    assert(after.pages[start + i] == renumbered_page(
        other.pages[i],
        other.base,
        other.pages.len(),
        store.next(),
    ));
}

/// A page is seen as it is: records, children and separators, each at its place.
pub proof fn law_pages_are_seen_as_they_are(page: Page)
    ensures
        match page {
            Page::Leaf { pairs } => {
                &&& page@ matches PageModel::Leaf { pairs: seen }
                &&& seen.len() == pairs@.len()
                &&& forall|i: int|
                    0 <= i < seen.len() ==> #[trigger] seen[i] == (pairs@[i].0@, pairs@[i].1@)
            },
            Page::Branch { children, keys } => {
                &&& page@ matches PageModel::Branch { children: seen, keys: seen_keys }
                &&& seen == children@
                &&& seen_keys.len() == keys@.len()
                &&& forall|i: int| 0 <= i < seen_keys.len() ==> #[trigger] seen_keys[i] == keys@[i]@
            },
        },
{
}

/// Renumbering moves the pages of a run and leaves all other numbers alone.
pub proof fn law_run_of_pages_is_renumbered(number: PageNumber, first: nat, count: nat, base: nat)
    requires
        base + count <= usize::MAX,
    ensures
        first <= number.index < first + count ==> renumbered(
            number,
            first,
            count,
            base,
        ).index - base == number.index - first,
        number.index < first || number.index >= first + count ==> renumbered(
            number,
            first,
            count,
            base,
        ) == number,
        DEFERRED == 999,
{
}

/// A store that is renumbered keeps its pages, its preferred page size and its limit.
pub proof fn law_moved_store_keeps_its_pages(store: StoreModel, base: nat, i: int)
    requires
        0 <= i < store.pages.len(),
    ensures
        ({
            let moved = store.moved_to(base);
            &&& moved.base == base
            &&& moved.page_size == store.page_size
            &&& moved.limit == store.limit
            &&& moved.pages.len() == store.pages.len()
            &&& store.pages[i] is Leaf ==> moved.pages[i] == store.pages[i]
            &&& store.pages[i] matches PageModel::Branch { children, keys } ==> {
                &&& moved.pages[i] matches PageModel::Branch { children: renamed, keys: same }
                &&& same == keys
                &&& renamed.len() == children.len()
                &&& forall|j: int|
                    #![trigger renamed[j]]
                    0 <= j < children.len() ==> renamed[j] == (
                        renumbered(children[j].0, store.base, store.pages.len(), base),
                        children[j].1,
                    )
            }
        }),
{
}

} // verus!
