//! The ordered index: a map from keys to values kept in a B+ tree.
use vstd::prelude::*;
use crate::table::index::key::Key;
use crate::table::index::node::node_ref::{NodeRef, Root};
use crate::table::index::node::lookup;
use crate::table::index::range::{in_range, lemma_scan_none, scan_of, Bound};

verus! {

/// A B+ tree.
pub struct BTree<K, V> {
    root: Option<Root<K, V>>,
    length: usize,
}

impl<K: Key, V> BTree<K, V> {
    /// The map that the tree holds, from the rank of a key to its value.
    pub closed spec fn view(&self) -> Map<int, V> {
        match self.root {
            Some(r) => r@,
            None => Map::empty(),
        }
    }

    /// The root of the tree, if it has one.
    pub closed spec fn spec_root(&self) -> Option<Root<K, V>> {
        self.root
    }

    /// The number of entries that the tree counts.
    pub closed spec fn spec_len(&self) -> nat {
        self.length as nat
    }

    /// The height of the tree: the depth of its leaves.
    pub open spec fn spec_height(&self) -> nat {
        match self.spec_root() {
            Some(r) => r.spec_height(),
            None => 0,
        }
    }

    /// The tree is balanced and ordered, and its length is the number of
    /// keys that it holds.
    pub open spec fn wf(&self) -> bool {
        &&& match self.spec_root() {
            Some(r) => r.wf() && self@ == r@,
            None => self@ == Map::<int, V>::empty(),
        }
        &&& self@.dom().finite()
        &&& self.spec_len() == self@.dom().len()
    }

    /// An empty tree.
    pub fn new() -> (r: Self)
        ensures
            r.wf(),
            r@ == Map::<int, V>::empty(),
            r.spec_root() is None,
            r.spec_len() == 0,
    {
        Self { root: None, length: 0 }
    }

    /// The number of entries.
    pub fn len(&self) -> (r: usize)
        requires
            self.wf(),
        ensures
            r == self@.dom().len(),
    {
        self.length
    }

    /// Whether the tree holds no entry.
    pub fn is_empty(&self) -> (r: bool)
        requires
            self.wf(),
        ensures
            r == (self@.dom().len() == 0),
    {
        self.length == 0
    }

    /// The height of the tree: 0 where the root is a leaf or absent.
    pub fn height(&self) -> (r: usize)
        ensures
            r == self.spec_height(),
    {
        match &self.root {
            Some(r) => r.height(),
            None => 0,
        }
    }

    /// The root of the tree, if it has one.
    pub fn root(&self) -> (r: Option<&Root<K, V>>)
        ensures
            match r {
                Some(root) => self.spec_root() == Some(*root),
                None => self.spec_root() is None,
            },
    {
        self.root.as_ref()
    }

    /// Returns the value associated with `key`.
    pub fn get(&self, key: &K) -> (r: Option<&V>)
        requires
            self.wf(),
        ensures
            match r {
                Some(v) => lookup(self@, key.rank()) == Some(*v),
                None => lookup(self@, key.rank()) is None,
            },
    {
        match &self.root {
            Some(node) => node.search_node(key),
            None => None,
        }
    }

    /// Returns btree whether contains this key.
    pub fn contains_key(&self, key: &K) -> (r: bool)
        requires
            self.wf(),
        ensures
            r == self@.contains_key(key.rank()),
    {
        self.get(key).is_some()
    }

    /// Inserts a (key, value) pair into the tree. If the key already
    /// exists, its value is replaced and the old value returned.
    pub fn insert(&mut self, key: K, value: V) -> (r: Option<V>)
        requires
            old(self).wf(),
            old(self).spec_len() < usize::MAX,
        ensures
            final(self).wf(),
            final(self)@ == old(self)@.insert(key.rank(), value),
            r == lookup(old(self)@, key.rank()),
            final(self).spec_len() == old(self).spec_len() + if r is None {
                1int
            } else {
                0int
            },
            final(self).spec_root() is Some,
            final(self).spec_height() == old(self).spec_height() || final(self).spec_height()
                == old(self).spec_height() + 1,
    {
        let mut root = match self.root.take() {
            Some(node) => node,
            None => NodeRef::new_leaf(),
        };
        let replaced = root.insert_node(key, value);
        self.root = Some(root);
        if replaced.is_none() {
            self.length += 1;
        }
        replaced
    }

    /// Deletes a (key, value) pair from the tree and returns the value, or
    /// `None` where the key is absent.
    pub fn remove(&mut self, key: &K) -> (r: Option<V>)
        requires
            old(self).wf(),
        ensures
            final(self).wf(),
            final(self)@ == old(self)@.remove(key.rank()),
            r == lookup(old(self)@, key.rank()),
            final(self).spec_len() == old(self).spec_len() - if r is Some {
                1int
            } else {
                0int
            },
            final(self).spec_height() <= old(self).spec_height(),
    {
        match self.root.take() {
            None => {
                assert(self@.remove(key.rank()) =~= self@);
                None
            },
            Some(mut root) => {
                let removed = root.remove_node(*key);
                self.root = Some(root);
                if removed.is_some() {
                    self.length -= 1;
                } else {
                    assert(old(self)@.remove(key.rank()) =~= old(self)@);
                }
                removed
            },
        }
    }

    /// The entries whose keys lie in the range from `start` to `end`, in
    /// ascending order of their keys: each key of the tree in the range
    /// comes once, with its value.
    pub fn scan<'a>(&'a self, start: Bound<K>, end: Bound<K>) -> (r: Vec<(K, &'a V)>)
        requires
            self.wf(),
        ensures
            scan_of(self@, start, end, r@),
    {
        match &self.root {
            Some(node) => node.scan_node(&start, &end),
            None => {
                proof {
                    lemma_scan_none(self@, start, end);
                }
                Vec::new()
            },
        }
    }
}

/// The map after the entries `ops` were inserted in order into `m`.
pub open spec fn after_inserts<V>(m: Map<int, V>, ops: Seq<(int, V)>) -> Map<int, V>
    decreases ops.len(),
{
    if ops.len() == 0 {
        m
    } else {
        after_inserts(m, ops.drop_last()).insert(ops.last().0, ops.last().1)
    }
}

/// The value of the last of the entries `ops` that has the key `r`, if any
/// has it.
pub open spec fn last_write<V>(ops: Seq<(int, V)>, r: int) -> Option<V>
    decreases ops.len(),
{
    if ops.len() == 0 {
        None
    } else if ops.last().0 == r {
        Some(ops.last().1)
    } else {
        last_write(ops.drop_last(), r)
    }
}

/// After any sequence of inserts into an empty tree, the tree holds exactly
/// the keys that were inserted, each with the value that was inserted for
/// it last.
pub proof fn law_last_write_wins<V>(ops: Seq<(int, V)>, r: int)
    ensures
        lookup(after_inserts(Map::<int, V>::empty(), ops), r) == last_write(ops, r),
    decreases ops.len(),
{
    if ops.len() > 0 {
        law_last_write_wins(ops.drop_last(), r);
    }
}

/// A scan of the full range yields every key of the tree exactly once, in
/// strictly ascending order, each with its value.
pub proof fn law_scan_full<K: Key, V>(m: Map<int, V>, items: Seq<(K, &V)>)
    requires
        scan_of(m, Bound::<K>::Unbounded, Bound::<K>::Unbounded, items),
    ensures
        forall|i: int, j: int|
            0 <= i < j < items.len() ==> (#[trigger] items[i]).0.rank() < (#[trigger] items[j]).0.rank(),
        forall|i: int|
            0 <= i < items.len() ==> m.contains_key((#[trigger] items[i]).0.rank())
                && m[items[i].0.rank()] == *items[i].1,
        forall|r: int|
            m.contains_key(r) ==> exists|i: int|
                0 <= i < items.len() && (#[trigger] items[i]).0.rank() == r,
{
    assert forall|r: int| m.contains_key(r) implies exists|i: int|
        0 <= i < items.len() && (#[trigger] items[i]).0.rank() == r by {
        assert(in_range(Bound::<K>::Unbounded, Bound::<K>::Unbounded, r));
    }
}

/// A key that was inserted is found with its value; a second insert of
/// the key returns the first value, and the key is then found with the
/// second.
pub proof fn law_insert_then_get<V>(m: Map<int, V>, k: int, v1: V, v2: V)
    ensures
        lookup(m.insert(k, v1), k) == Some(v1),
        lookup(m.insert(k, v1).insert(k, v2), k) == Some(v2),
        m.insert(k, v1).insert(k, v2) == m.insert(k, v2),
{
    assert(m.insert(k, v1).insert(k, v2) =~= m.insert(k, v2));
}

/// Removing a key that is absent returns nothing and leaves the tree as it
/// was, with the number of its keys.
pub proof fn law_remove_absent<V>(m: Map<int, V>, k: int)
    requires
        !m.contains_key(k),
    ensures
        lookup(m, k) is None,
        m.remove(k) == m,
        m.remove(k).dom().len() == m.dom().len(),
{
    assert(m.remove(k) =~= m);
}

} // verus!
