//! Building the index of a table.
use std::marker::PhantomData;
use vstd::prelude::*;
use crate::catalog::schema::TableIndex;
use crate::table::index::btree::BTree;
use crate::table::index::key::Key;

verus! {

/// A B+ tree builder.
pub struct BTreeBuilder<K, V> {
    phantom: PhantomData<(K, V)>,
}

impl<K: Key, V> BTreeBuilder<K, V> {
    /// A builder for the index `index` of a table.
    pub fn new(index: &TableIndex) -> (r: Self) {
        BTreeBuilder { phantom: PhantomData }
    }

    /// The tree built: an empty tree.
    pub fn finish(self) -> (r: BTree<K, V>)
        ensures
            r.wf(),
            r@ == Map::<int, V>::empty(),
    {
        BTree::new()
    }
}

} // verus!
