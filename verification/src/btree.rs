//! A tree of pages with its root.

use std::marker::PhantomData;

use vstd::prelude::*;

use crate::page::BtreeHeader;
use crate::page::PageStore;
use crate::types::Key;
use crate::types::Value;

verus! {

/// The tree of one table while it is written, together with the store of its pages.
pub struct BtreeMut<K: Key, V: Value> {
    pub mem: PageStore,
    pub root: Option<BtreeHeader>,
    pub types: PhantomData<(K, V)>,
}

impl<K: Key, V: Value> BtreeMut<K, V> {
    pub fn new(root: Option<BtreeHeader>, mem: PageStore) -> (tree: Self)
        ensures
            tree.root == root,
            tree.mem == mem,
    {
        BtreeMut { mem, root, types: PhantomData }
    }

    /// The root of the tree; an empty tree has none.
    pub fn get_root(&self) -> (root: Option<BtreeHeader>)
        ensures
            root == self.root,
    {
        self.root
    }

    /// Replaces the root of the tree.
    pub fn set_root(&mut self, root: Option<BtreeHeader>)
        ensures
            final(self).root == root,
            final(self).mem == old(self).mem,
    {
        self.root = root;
    }
}

} // verus!
