//! Internal nodes: separators and the children between them.
use vstd::prelude::*;
use crate::table::index::key::Key;
use crate::table::index::node::Node;
use crate::table::index::order::{lemma_route, route, routes_to, sorted};
use crate::table::index::{CAPACITY, MAX_LEN};

verus! {

/// An internal node: `keys` are the separators, and `edges` holds one child
/// more than there are separators. Every key under child `i` is below
/// separator `i`, and every key under child `i + 1` is at or above it.
pub struct InternalNode<K> {
    pub keys: Vec<K>,
    pub edges: Vec<Node<K>>,
}

impl<K: Key> InternalNode<K> {
    /// There is one child more than there are separators, and between `lo`
    /// and `hi` separators.
    pub open spec fn shaped(&self, lo: nat, hi: nat) -> bool {
        &&& self.edges@.len() == self.keys@.len() + 1
        &&& lo <= self.keys@.len() <= hi
    }

    /// A new internal node without separators or children.
    pub fn new_boxed() -> (r: Box<Self>)
        ensures
            r.keys@.len() == 0,
            r.edges@.len() == 0,
    {
        Box::new(InternalNode { keys: Vec::new(), edges: Vec::new() })
    }

    /// A new internal node above one child.
    pub fn new_internal(first_child: Node<K>) -> (r: Box<Self>)
        ensures
            r.keys@.len() == 0,
            r.edges@ == seq![first_child],
    {
        let mut edges: Vec<Node<K>> = Vec::new();
        edges.push(first_child);
        Box::new(InternalNode { keys: Vec::new(), edges })
    }

    /// The node as a node of the tree.
    pub fn downcast(self) -> (r: Box<Node<K>>)
        ensures
            *r == Node::Internal(self),
    {
        Box::new(Node::Internal(self))
    }

    /// The number of separators.
    pub fn len(&self) -> (r: usize)
        ensures
            r == self.keys@.len(),
    {
        self.keys.len()
    }

    /// The index of the child under which `key` belongs: the first child
    /// whose separator is above the key, or the last child.
    pub fn route_index(&self, key: &K) -> (idx: usize)
        requires
            sorted(self.keys@),
        ensures
            idx == route(self.keys@, key.rank()),
            routes_to(self.keys@, key.rank(), idx as int),
    {
        let n: usize = self.keys.len();
        let mut idx: usize = 0;
        while idx < n && !key.less(&self.keys[idx])
            invariant
                n == self.keys@.len(),
                idx <= n,
                idx > 0 ==> self.keys@[idx - 1].rank() <= key.rank(),
            decreases n - idx,
        {
            idx += 1;
        }
        proof {
            lemma_route(self.keys@, key.rank());
        }
        idx
    }

    /// The child under which `key` belongs.
    pub fn search_internal(&self, key: &K) -> (r: &Node<K>)
        requires
            sorted(self.keys@),
            self.edges@.len() == self.keys@.len() + 1,
        ensures
            *r == self.edges@[route(self.keys@, key.rank())],
    {
        let idx: usize = self.route_index(key);
        &self.edges[idx]
    }

    /// Puts the separator `key` in its place and `edge` behind it as the
    /// child to its right.
    fn insert_internal_fit(&mut self, key: K, edge: Node<K>)
        requires
            sorted(old(self).keys@),
            old(self).shaped(0, MAX_LEN as nat),
        ensures
            final(self).keys@ == old(self).keys@.insert(route(old(self).keys@, key.rank()), key),
            final(self).edges@ == old(self).edges@.insert(
                route(old(self).keys@, key.rank()) + 1,
                edge,
            ),
    {
        let idx: usize = self.route_index(&key);
        self.keys.insert(idx, key);
        self.edges.insert(idx + 1, edge);
    }

    /// Moves the upper half of the separators and children to a new node.
    /// Returns the separator in the middle, which stays in neither half.
    fn split_internal(&mut self) -> (r: (K, Box<InternalNode<K>>))
        requires
            old(self).shaped(CAPACITY as nat, CAPACITY as nat),
        ensures
            r.0 == old(self).keys@[(CAPACITY / 2) as int],
            final(self).keys@ == old(self).keys@.subrange(0, (CAPACITY / 2) as int),
            final(self).edges@ == old(self).edges@.subrange(0, (CAPACITY / 2) as int + 1),
            r.1.keys@ == old(self).keys@.subrange((CAPACITY / 2) as int + 1, CAPACITY as int),
            r.1.edges@ == old(self).edges@.subrange((CAPACITY / 2) as int + 1, CAPACITY as int + 1),
            final(self).keys@.push(r.0) + r.1.keys@ == old(self).keys@,
            final(self).edges@ + r.1.edges@ == old(self).edges@,
    {
        let splitpoint: usize = CAPACITY / 2;
        let keys = self.keys.split_off(splitpoint + 1);
        let edges = self.edges.split_off(splitpoint + 1);
        let middle: K = self.keys.remove(splitpoint);
        let new_internal = Box::new(InternalNode { keys, edges });
        proof {
            assert(self.keys@ =~= old(self).keys@.subrange(0, splitpoint as int));
            assert(self.keys@.push(middle) + new_internal.keys@ =~= old(self).keys@);
            assert(self.edges@ + new_internal.edges@ =~= old(self).edges@);
        }
        (middle, new_internal)
    }

    /// Puts the separator `key` in its place with `edge` as the child to its
    /// right, and splits the node where it has no room left. After a split
    /// it returns the separator that moves up and the new right sibling.
    pub fn insert_internal(&mut self, key: K, edge: Node<K>) -> (r: (
        Option<K>,
        Option<Box<InternalNode<K>>>,
    ))
        requires
            sorted(old(self).keys@),
            old(self).shaped(0, MAX_LEN as nat),
        ensures
            r.0 is Some == r.1 is Some,
            r.1 is Some == (old(self).keys@.len() == MAX_LEN),
            ({
                let idx = route(old(self).keys@, key.rank());
                let keys = old(self).keys@.insert(idx, key);
                let edges = old(self).edges@.insert(idx + 1, edge);
                if r.1 is Some {
                    let right = *r.1->0;
                    &&& r.0->0 == keys[(CAPACITY / 2) as int]
                    &&& final(self).keys@ == keys.subrange(0, (CAPACITY / 2) as int)
                    &&& final(self).edges@ == edges.subrange(0, (CAPACITY / 2) as int + 1)
                    &&& right.keys@ == keys.subrange((CAPACITY / 2) as int + 1, CAPACITY as int)
                    &&& right.edges@ == edges.subrange(
                        (CAPACITY / 2) as int + 1,
                        CAPACITY as int + 1,
                    )
                    &&& final(self).keys@.push(r.0->0) + right.keys@ == keys
                    &&& final(self).edges@ + right.edges@ == edges
                } else {
                    &&& final(self).keys@ == keys
                    &&& final(self).edges@ == edges
                }
            }),
    {
        proof {
            lemma_route(self.keys@, key.rank());
        }
        self.insert_internal_fit(key, edge);
        if self.keys.len() < CAPACITY {
            return (None, None);
        }
        let (splitkey, split_node) = self.split_internal();
        (Some(splitkey), Some(split_node))
    }

    /// Takes out separator `idx` and the child to its right, and returns
    /// both.
    pub fn remove_internal(&mut self, idx: usize) -> (r: (K, Node<K>))
        requires
            old(self).edges@.len() == old(self).keys@.len() + 1,
            idx < old(self).keys@.len(),
        ensures
            r.0 == old(self).keys@[idx as int],
            r.1 == old(self).edges@[idx + 1],
            final(self).keys@ == old(self).keys@.remove(idx as int),
            final(self).edges@ == old(self).edges@.remove(idx + 1),
    {
        let n: usize = self.keys.len();
        assert(idx < n);
        let edge = self.edges.remove(idx + 1);
        let key: K = self.keys.remove(idx);
        (key, edge)
    }

    /// Moves the last child of the left sibling to the front of this node:
    /// the separator between the two comes down in front of this node's
    /// separators, and the last separator of the left sibling is returned
    /// to take its place.
    pub fn steal_left(&mut self, left_internal: &mut InternalNode<K>, discriminator_key: K) -> (r:
        Option<K>)
        requires
            old(self).edges@.len() == old(self).keys@.len() + 1,
            old(left_internal).edges@.len() == old(left_internal).keys@.len() + 1,
            old(left_internal).keys@.len() >= 1,
        ensures
            r == Some(old(left_internal).keys@.last()),
            final(left_internal).keys@ == old(left_internal).keys@.drop_last(),
            final(left_internal).edges@ == old(left_internal).edges@.drop_last(),
            final(self).keys@ == old(self).keys@.insert(0, discriminator_key),
            final(self).edges@ == old(self).edges@.insert(0, old(left_internal).edges@.last()),
            final(left_internal).keys@.push(r->0) + final(self).keys@ == old(
                left_internal,
            ).keys@.push(discriminator_key) + old(self).keys@,
            final(left_internal).edges@ + final(self).edges@ == old(left_internal).edges@ + old(
                self,
            ).edges@,
    {
        let n: usize = left_internal.keys.len();
        let replacement_key: K = left_internal.keys.remove(n - 1);
        let edge = left_internal.edges.remove(n);
        self.keys.insert(0, discriminator_key);
        self.edges.insert(0, edge);
        proof {
            assert(left_internal.keys@ =~= old(left_internal).keys@.drop_last());
            assert(left_internal.edges@ =~= old(left_internal).edges@.drop_last());
            assert(left_internal.keys@.push(replacement_key) + self.keys@ =~= old(
                left_internal,
            ).keys@.push(discriminator_key) + old(self).keys@);
            assert(left_internal.edges@ + self.edges@ =~= old(left_internal).edges@ + old(
                self,
            ).edges@);
        }
        Some(replacement_key)
    }

    /// Moves the first child of the right sibling to the back of this node:
    /// the separator between the two comes down behind this node's
    /// separators, and the first separator of the right sibling is returned
    /// to take its place.
    pub fn steal_right(
        &mut self,
        right_internal: &mut InternalNode<K>,
        discriminator_key: K,
    ) -> (r: Option<K>)
        requires
            old(self).edges@.len() == old(self).keys@.len() + 1,
            old(right_internal).edges@.len() == old(right_internal).keys@.len() + 1,
            old(right_internal).keys@.len() >= 1,
        ensures
            r == Some(old(right_internal).keys@[0]),
            final(right_internal).keys@ == old(right_internal).keys@.remove(0),
            final(right_internal).edges@ == old(right_internal).edges@.remove(0),
            final(self).keys@ == old(self).keys@.push(discriminator_key),
            final(self).edges@ == old(self).edges@.push(old(right_internal).edges@[0]),
            final(self).keys@.push(r->0) + final(right_internal).keys@ == old(self).keys@.push(
                discriminator_key,
            ) + old(right_internal).keys@,
            final(self).edges@ + final(right_internal).edges@ == old(self).edges@ + old(
                right_internal,
            ).edges@,
    {
        let replacement_key: K = right_internal.keys.remove(0);
        let edge = right_internal.edges.remove(0);
        self.keys.push(discriminator_key);
        self.edges.push(edge);
        proof {
            assert(self.keys@.push(replacement_key) + right_internal.keys@ =~= old(
                self,
            ).keys@.push(discriminator_key) + old(right_internal).keys@);
            assert(self.edges@ + right_internal.edges@ =~= old(self).edges@ + old(
                right_internal,
            ).edges@);
        }
        Some(replacement_key)
    }

    /// Moves every separator and child of the right sibling to the back of
    /// this node, with the separator between the two in the middle.
    pub fn merge(&mut self, right_internal: &mut InternalNode<K>, discriminator_key: K)
        ensures
            final(self).keys@ == old(self).keys@.push(discriminator_key) + old(
                right_internal,
            ).keys@,
            final(self).edges@ == old(self).edges@ + old(right_internal).edges@,
            final(right_internal).keys@.len() == 0,
            final(right_internal).edges@.len() == 0,
    {
        self.keys.push(discriminator_key);
        self.keys.append(&mut right_internal.keys);
        self.edges.append(&mut right_internal.edges);
    }
}

} // verus!
