//! Leaf nodes: the keys of the index with their values.
use vstd::prelude::*;
use crate::table::index::key::Key;
use crate::table::index::node::Node;
use crate::table::index::order::{
    all_below,
    all_from,
    joined,
    leaf_map,
    lemma_leaf_at,
    lemma_leaf_insert,
    lemma_leaf_remove,
    lemma_leaf_split,
    lemma_leaf_update,
    lemma_sorted_concat,
    sorted,
};
use crate::table::index::{CAPACITY, MAX_LEN, MIN_LEN_AFTER_SPLIT};

verus! {

/// [`LeafNode`] represents a leaf node in the tree, used for stored
/// key-value pairs. `keys` are strictly ascending and `vals` runs parallel to
/// them. The leaves of a tree form one chain in key order through `prev`
/// and `next`.
pub struct LeafNode<K, V> {
    pub keys: Vec<K>,
    pub vals: Vec<V>,
    /// The leaf before this one in key order, by its handle.
    pub prev: Option<usize>,
    /// The leaf after this one in key order, by its handle.
    pub next: Option<usize>,
}

impl<K: Key, V> LeafNode<K, V> {
    /// The map that the leaf holds, by rank.
    pub open spec fn view(&self) -> Map<int, V> {
        leaf_map(self.keys@, self.vals@)
    }

    /// The keys are strictly ascending, each has its value, and there are
    /// between `lo` and `hi` of them.
    pub open spec fn wf(&self, lo: nat, hi: nat) -> bool {
        &&& self.keys@.len() == self.vals@.len()
        &&& sorted(self.keys@)
        &&& lo <= self.keys@.len() <= hi
    }

    /// A new leaf without entries.
    pub fn new_boxed() -> (r: Box<LeafNode<K, V>>)
        ensures
            r.keys@.len() == 0,
            r.vals@.len() == 0,
            r.prev is None,
            r.next is None,
            r.wf(0, 0),
    {
        Box::new(LeafNode { keys: Vec::new(), vals: Vec::new(), prev: None, next: None })
    }

    /// The leaf with the handle `handle` as a node of the tree.
    pub fn downcast(handle: usize) -> (r: Box<Node<K>>)
        ensures
            *r == Node::<K>::Leaf(handle),
    {
        Box::new(Node::Leaf(handle))
    }

    /// The number of entries.
    pub fn len(&self) -> (r: usize)
        ensures
            r == self.keys@.len(),
    {
        self.keys.len()
    }

    /// The first position whose key is not below `key`.
    pub fn position(&self, key: &K) -> (idx: usize)
        requires
            sorted(self.keys@),
        ensures
            idx <= self.keys@.len(),
            idx > 0 ==> self.keys@[idx - 1].rank() < key.rank(),
            idx < self.keys@.len() ==> key.rank() <= self.keys@[idx as int].rank(),
    {
        let n: usize = self.keys.len();
        let mut idx: usize = 0;
        while idx < n && self.keys[idx].less(key)
            invariant
                n == self.keys@.len(),
                idx <= n,
                idx > 0 ==> self.keys@[idx - 1].rank() < key.rank(),
            decreases n - idx,
        {
            idx += 1;
        }
        idx
    }

    /// Search key from keys of leaf node.
    pub fn search_leaf(&self, key: &K) -> (r: Option<&V>)
        requires
            self.wf(0, CAPACITY as nat),
        ensures
            match r {
                Some(v) => self@.contains_key(key.rank()) && *v == self@[key.rank()],
                None => !self@.contains_key(key.rank()),
            },
    {
        let idx: usize = self.position(key);
        if idx < self.keys.len() && !key.less(&self.keys[idx]) {
            proof {
                lemma_leaf_at(self.keys@, self.vals@, idx as int);
            }
            Some(&self.vals[idx])
        } else {
            proof {
                if self@.contains_key(key.rank()) {
                    let i = choose|i: int|
                        0 <= i < self.keys@.len() && (#[trigger] self.keys@[i]).rank()
                            == key.rank();
                    if i < idx {
                        if i < idx - 1 {
                            assert(self.keys@[i].rank() < self.keys@[idx - 1].rank());
                        }
                    } else if idx < i {
                        assert(self.keys@[idx as int].rank() < self.keys@[i].rank());
                    }
                    assert(false);
                }
            }
            None
        }
    }

    /// Puts the entry in its place, or replaces the value where the key is
    /// there already. Returns the value replaced.
    fn insert_leaf_fit(&mut self, key: K, val: V) -> (r: Option<V>)
        requires
            old(self).wf(0, MAX_LEN as nat),
        ensures
            final(self).wf(0, CAPACITY as nat),
            final(self)@ == old(self)@.insert(key.rank(), val),
            final(self).prev == old(self).prev,
            final(self).next == old(self).next,
            match r {
                Some(v) => old(self)@.contains_key(key.rank()) && v == old(self)@[key.rank()]
                    && final(self).keys@ == old(self).keys@,
                None => !old(self)@.contains_key(key.rank()) && final(self).keys@.len() == old(
                    self,
                ).keys@.len() + 1,
            },
    {
        let idx: usize = self.position(&key);
        if idx < self.keys.len() && !key.less(&self.keys[idx]) {
            proof {
                lemma_leaf_at(self.keys@, self.vals@, idx as int);
                lemma_leaf_update(self.keys@, self.vals@, idx as int, val);
            }
            self.vals.push(val);
            let old_val = self.vals.swap_remove(idx);
            assert(self.vals@ =~= old(self).vals@.update(idx as int, val));
            return Some(old_val);
        }
        proof {
            lemma_leaf_insert(self.keys@, self.vals@, idx as int, key, val);
        }
        self.keys.insert(idx, key);
        self.vals.insert(idx, val);
        None
    }

    /// Moves the upper half of the entries to a new leaf.
    fn split_leaf(&mut self) -> (r: Box<LeafNode<K, V>>)
        requires
            old(self).wf(CAPACITY as nat, CAPACITY as nat),
        ensures
            final(self).wf(MIN_LEN_AFTER_SPLIT as nat, MAX_LEN as nat),
            r.wf(MIN_LEN_AFTER_SPLIT as nat, MAX_LEN as nat),
            final(self).keys@ + r.keys@ == old(self).keys@,
            final(self).vals@ + r.vals@ == old(self).vals@,
            final(self).keys@.len() == CAPACITY / 2,
            final(self).prev == old(self).prev,
            final(self).next == old(self).next,
            r.prev is None,
            r.next is None,
            all_below(final(self)@, r.keys@[0].rank()),
            all_from(r@, r.keys@[0].rank()),
            joined(final(self)@, r.keys@[0].rank(), r@) == old(self)@,
    {
        let splitpoint: usize = CAPACITY / 2;
        let keys = self.keys.split_off(splitpoint);
        let vals = self.vals.split_off(splitpoint);
        let new_leaf = Box::new(LeafNode { keys, vals, prev: None, next: None });
        proof {
            assert(self.keys@ + new_leaf.keys@ =~= old(self).keys@);
            assert(self.vals@ + new_leaf.vals@ =~= old(self).vals@);
            assert(self.keys@.last() == old(self).keys@[splitpoint - 1]);
            assert(new_leaf.keys@[0] == old(self).keys@[splitpoint as int]);
            lemma_leaf_split(
                self.keys@,
                self.vals@,
                new_leaf.keys@,
                new_leaf.vals@,
                new_leaf.keys@[0].rank(),
            );
        }
        new_leaf
    }

    /// Inserts the entry, or replaces the value where the key is there
    /// already, and splits the leaf where it has no room left. Returns the
    /// value replaced and, after a split, the first key of the new right
    /// sibling with that sibling.
    pub fn insert_leaf(&mut self, key: K, val: V) -> (r: (
        Option<V>,
        Option<K>,
        Option<Box<LeafNode<K, V>>>,
    ))
        requires
            old(self).wf(0, MAX_LEN as nat),
        ensures
            r.0 == if old(self)@.contains_key(key.rank()) {
                Some(old(self)@[key.rank()])
            } else {
                None::<V>
            },
            r.1 is Some == r.2 is Some,
            r.2 is Some == (old(self).keys@.len() == MAX_LEN && !old(self)@.contains_key(
                key.rank(),
            )),
            final(self).wf(0, MAX_LEN as nat),
            final(self).prev == old(self).prev,
            final(self).next == old(self).next,
            r.2 is None ==> final(self)@ == old(self)@.insert(key.rank(), val)
                && final(self).keys@.len() >= old(self).keys@.len(),
            r.2 is Some ==> {
                let right = *r.2->0;
                let s = r.1->0;
                &&& final(self).wf(MIN_LEN_AFTER_SPLIT as nat, MAX_LEN as nat)
                &&& right.wf(MIN_LEN_AFTER_SPLIT as nat, MAX_LEN as nat)
                &&& s == right.keys@[0]
                &&& final(self).keys@.len() == CAPACITY / 2
                &&& right.keys@.len() == CAPACITY - CAPACITY / 2
                &&& right.prev is None
                &&& right.next is None
                &&& all_below(final(self)@, s.rank())
                &&& all_from(right@, s.rank())
                &&& joined(final(self)@, s.rank(), right@) == old(self)@.insert(key.rank(), val)
            },
    {
        let old_val = self.insert_leaf_fit(key, val);
        if self.keys.len() < CAPACITY {
            return (old_val, None, None);
        }
        let split_node = self.split_leaf();
        let splitkey: K = split_node.keys[0];
        (old_val, Some(splitkey), Some(split_node))
    }

    /// Takes the entry of `key` out of the leaf. Returns its value, or
    /// `None` where the key is absent.
    pub fn remove_leaf(&mut self, key: &K) -> (r: Option<V>)
        requires
            old(self).wf(0, MAX_LEN as nat),
        ensures
            final(self).wf(0, MAX_LEN as nat),
            final(self)@ == old(self)@.remove(key.rank()),
            final(self).prev == old(self).prev,
            final(self).next == old(self).next,
            match r {
                Some(v) => old(self)@.contains_key(key.rank()) && v == old(self)@[key.rank()]
                    && final(self).keys@.len() + 1 == old(self).keys@.len(),
                None => !old(self)@.contains_key(key.rank()) && *final(self) == *old(self),
            },
    {
        let idx: usize = self.position(key);
        if idx < self.keys.len() && !key.less(&self.keys[idx]) {
            proof {
                lemma_leaf_at(self.keys@, self.vals@, idx as int);
                lemma_leaf_remove(self.keys@, self.vals@, idx as int);
            }
            self.keys.remove(idx);
            let v = self.vals.remove(idx);
            Some(v)
        } else {
            proof {
                if self@.contains_key(key.rank()) {
                    let i = choose|i: int|
                        0 <= i < self.keys@.len() && (#[trigger] self.keys@[i]).rank()
                            == key.rank();
                    if i < idx {
                        if i < idx - 1 {
                            assert(self.keys@[i].rank() < self.keys@[idx - 1].rank());
                        }
                    } else if idx < i {
                        assert(self.keys@[idx as int].rank() < self.keys@[i].rank());
                    }
                    assert(false);
                }
                assert(self@.remove(key.rank()) =~= self@);
            }
            None
        }
    }

    /// Moves the last entry of the left sibling to the front of this leaf.
    /// Returns the key moved, which is the new separator between the two.
    pub fn steal_left(&mut self, left_leaf: &mut LeafNode<K, V>) -> (r: Option<K>)
        requires
            old(self).wf(0, MAX_LEN as nat),
            old(self).keys@.len() < MAX_LEN,
            old(left_leaf).wf(1, MAX_LEN as nat),
            old(self).keys@.len() > 0 ==> old(left_leaf).keys@.last().rank() < old(
                self,
            ).keys@[0].rank(),
        ensures
            r == Some(old(left_leaf).keys@.last()),
            final(left_leaf).keys@ == old(left_leaf).keys@.drop_last(),
            final(left_leaf).vals@ == old(left_leaf).vals@.drop_last(),
            final(self).keys@ == old(self).keys@.insert(0, old(left_leaf).keys@.last()),
            final(self).vals@ == old(self).vals@.insert(0, old(left_leaf).vals@.last()),
            final(self).wf(1, MAX_LEN as nat),
            final(left_leaf).wf(0, MAX_LEN as nat),
            final(left_leaf).keys@ + final(self).keys@ == old(left_leaf).keys@ + old(self).keys@,
            final(left_leaf).vals@ + final(self).vals@ == old(left_leaf).vals@ + old(self).vals@,
            final(self).prev == old(self).prev,
            final(self).next == old(self).next,
            final(left_leaf).prev == old(left_leaf).prev,
            final(left_leaf).next == old(left_leaf).next,
    {
        let n: usize = left_leaf.keys.len();
        let key: K = left_leaf.keys.remove(n - 1);
        let val: V = left_leaf.vals.remove(n - 1);
        proof {
            assert(left_leaf.keys@ =~= old(left_leaf).keys@.drop_last());
            assert(left_leaf.vals@ =~= old(left_leaf).vals@.drop_last());
            lemma_sorted_concat(old(left_leaf).keys@, old(self).keys@);
            let whole = old(left_leaf).keys@ + old(self).keys@;
            let a = left_leaf.keys@;
            let b = old(self).keys@.insert(0, key);
            assert(a + b =~= whole);
            assert(left_leaf.vals@ + old(self).vals@.insert(0, val) =~= old(left_leaf).vals@ + old(
                self,
            ).vals@);
            if a.len() > 0 {
                assert(whole[a.len() - 1] == a.last());
                assert(whole[a.len() as int] == key);
            }
            lemma_leaf_split(
                a,
                left_leaf.vals@,
                b,
                old(self).vals@.insert(0, val),
                key.rank(),
            );
        }
        self.keys.insert(0, key);
        self.vals.insert(0, val);
        Some(key)
    }

    /// Moves the first entry of the right sibling to the back of this leaf.
    /// Returns the first key that the right sibling keeps, which is the new
    /// separator between the two.
    pub fn steal_right(&mut self, right_leaf: &mut LeafNode<K, V>) -> (r: Option<K>)
        requires
            old(self).wf(0, MAX_LEN as nat),
            old(self).keys@.len() < MAX_LEN,
            old(right_leaf).wf(2, MAX_LEN as nat),
            old(self).keys@.len() > 0 ==> old(self).keys@.last().rank() < old(
                right_leaf,
            ).keys@[0].rank(),
        ensures
            r == Some(old(right_leaf).keys@[1]),
            final(right_leaf).keys@ == old(right_leaf).keys@.remove(0),
            final(right_leaf).vals@ == old(right_leaf).vals@.remove(0),
            final(self).keys@ == old(self).keys@.push(old(right_leaf).keys@[0]),
            final(self).vals@ == old(self).vals@.push(old(right_leaf).vals@[0]),
            final(self).wf(1, MAX_LEN as nat),
            final(right_leaf).wf(1, MAX_LEN as nat),
            final(self).keys@ + final(right_leaf).keys@ == old(self).keys@ + old(right_leaf).keys@,
            final(self).vals@ + final(right_leaf).vals@ == old(self).vals@ + old(right_leaf).vals@,
            final(self).prev == old(self).prev,
            final(self).next == old(self).next,
            final(right_leaf).prev == old(right_leaf).prev,
            final(right_leaf).next == old(right_leaf).next,
    {
        let key: K = right_leaf.keys.remove(0);
        let val: V = right_leaf.vals.remove(0);
        proof {
            lemma_sorted_concat(old(self).keys@, old(right_leaf).keys@);
            let whole = old(self).keys@ + old(right_leaf).keys@;
            let a = old(self).keys@.push(key);
            let b = right_leaf.keys@;
            assert(a + b =~= whole);
            assert(old(self).vals@.push(val) + right_leaf.vals@ =~= old(self).vals@ + old(
                right_leaf,
            ).vals@);
            assert(whole[a.len() - 1] == a.last());
            assert(whole[a.len() as int] == b[0]);
            lemma_leaf_split(a, old(self).vals@.push(val), b, right_leaf.vals@, b[0].rank());
        }
        self.keys.push(key);
        self.vals.push(val);
        let first: K = right_leaf.keys[0];
        Some(first)
    }

    /// Moves every entry of the right sibling to the back of this leaf,
    /// which takes over the leaf that followed the sibling as the leaf that
    /// follows it.
    pub fn merge(&mut self, right_leaf: &mut LeafNode<K, V>)
        requires
            old(self).wf(0, MAX_LEN as nat),
            old(right_leaf).wf(0, MAX_LEN as nat),
            old(self).keys@.len() + old(right_leaf).keys@.len() <= MAX_LEN,
            old(self).keys@.len() > 0 && old(right_leaf).keys@.len() > 0 ==> old(
                self,
            ).keys@.last().rank() < old(right_leaf).keys@[0].rank(),
        ensures
            final(self).keys@ == old(self).keys@ + old(right_leaf).keys@,
            final(self).vals@ == old(self).vals@ + old(right_leaf).vals@,
            final(right_leaf).keys@.len() == 0,
            final(right_leaf).vals@.len() == 0,
            final(self).wf(0, MAX_LEN as nat),
            final(self).prev == old(self).prev,
            final(self).next == old(right_leaf).next,
    {
        proof {
            lemma_sorted_concat(self.keys@, right_leaf.keys@);
        }
        self.keys.append(&mut right_leaf.keys);
        self.vals.append(&mut right_leaf.vals);
        self.next = right_leaf.next;
    }

    /// Puts `new_leaf`, which has the handle `new_id`, behind this leaf,
    /// which has the handle `self_id`, in the chain of leaves. The leaf that
    /// followed this one is still to be told of its new neighbour.
    pub fn link_self(&mut self, self_id: usize, new_leaf: &mut LeafNode<K, V>, new_id: usize)
        ensures
            final(new_leaf).prev == Some(self_id),
            final(new_leaf).next == old(self).next,
            final(self).next == Some(new_id),
            final(self).prev == old(self).prev,
            final(self).keys == old(self).keys,
            final(self).vals == old(self).vals,
            final(new_leaf).keys == old(new_leaf).keys,
            final(new_leaf).vals == old(new_leaf).vals,
    {
        new_leaf.prev = Some(self_id);
        new_leaf.next = self.next;
        self.next = Some(new_id);
    }
}

} // verus!
