//! The handle of a whole tree: its root node with its height and the
//! store of its leaves.
use vstd::prelude::*;
use crate::table::index::key::Key;
use crate::table::index::node::internal::InternalNode;
use crate::table::index::node::{
    lemma_leaves_across,
    lemma_wf_bound,
    lookup,
    node_len,
    node_wf,
    Node,
};
use crate::table::index::range::{above, scan_of, Bound};
use crate::table::index::span::{child_span, full_span, Span};
use crate::table::index::store::NodeStore;
use crate::table::index::{MAX_LEN, MIN_LEN_AFTER_SPLIT};

verus! {

/// The root of an owned tree: the root node, the height of the tree, which
/// is the depth of every leaf, and the store that holds the leaves.
pub struct NodeRef<K, V> {
    height: usize,
    node: Node<K>,
    store: NodeStore<K, V>,
}

/// The root node of an owned tree.
pub type Root<K, V> = NodeRef<K, V>;

impl<K: Key, V> NodeRef<K, V> {
    /// The map that the tree holds, by rank.
    pub closed spec fn view(&self) -> Map<int, V> {
        self.store@
    }

    /// The root node.
    pub closed spec fn spec_node(&self) -> Node<K> {
        self.node
    }

    /// The store of the leaves.
    pub closed spec fn spec_store(&self) -> NodeStore<K, V> {
        self.store
    }

    /// The height of the tree.
    pub closed spec fn spec_height(&self) -> nat {
        self.height as nat
    }

    /// The number of keys in the root node.
    pub open spec fn root_len(&self) -> nat {
        node_len(self.spec_node(), self.spec_store())
    }

    /// The store is in order and holds the map of the tree, the tree over
    /// it is balanced and ordered, no node but the root is underfull, and a
    /// root that is an internal node has a separator.
    pub open spec fn wf(&self) -> bool {
        &&& self.spec_store().wf()
        &&& self@ == self.spec_store()@
        &&& node_wf(self.spec_node(), self.spec_height(), 0, full_span(), self.spec_store())
        &&& self.spec_node() is Internal ==> self.root_len() >= 1
    }

    /// A tree of one empty leaf.
    pub fn new_leaf() -> (r: Self)
        ensures
            r.wf(),
            r@ == Map::<int, V>::empty(),
            r.spec_height() == 0,
            r.spec_node() is Leaf,
    {
        NodeRef { height: 0, node: Node::Leaf(0), store: NodeStore::new() }
    }

    /// The tree whose root is `node`, all of whose leaves are at depth
    /// `height` and live in `store`.
    pub fn from_node(node: Box<Node<K>>, height: usize, store: NodeStore<K, V>) -> (r: Self)
        requires
            store.wf(),
            node_wf(*node, height as nat, 0, full_span(), store),
            *node is Internal ==> node_len(*node, store) >= 1,
        ensures
            r.wf(),
            r.spec_node() == *node,
            r.spec_height() == height,
            r.spec_store() == store,
    {
        NodeRef { height, node: *node, store }
    }

    /// The height of the tree: 0 where the root is a leaf.
    pub fn height(&self) -> (r: usize)
        ensures
            r == self.spec_height(),
    {
        self.height
    }

    /// The handle itself, borrowed.
    pub fn reborrow(&self) -> (r: &Self)
        ensures
            *r == *self,
    {
        self
    }

    /// The root node.
    pub fn node(&self) -> (r: &Node<K>)
        ensures
            *r == self.spec_node(),
    {
        &self.node
    }

    /// The store of the leaves.
    pub fn store(&self) -> (r: &NodeStore<K, V>)
        ensures
            *r == self.spec_store(),
    {
        &self.store
    }

    /// Looks `key` up in the tree.
    pub fn search_node(&self, key: &K) -> (r: Option<&V>)
        requires
            self.wf(),
        ensures
            match r {
                Some(v) => lookup(self@, key.rank()) == Some(*v),
                None => lookup(self@, key.rank()) is None,
            },
    {
        self.node.search_node(
            &self.store,
            key,
            Ghost(self.height as nat),
            Ghost(0),
            Ghost(full_span()),
        )
    }

    /// Inserts the entry, or replaces the value where the key is there
    /// already, and returns the value replaced. Where the root splits, a
    /// new root is put above the two halves and the tree grows by one
    /// level.
    pub fn insert_node(&mut self, key: K, val: V) -> (r: Option<V>)
        requires
            old(self).wf(),
        ensures
            final(self).wf(),
            final(self)@ == old(self)@.insert(key.rank(), val),
            r == lookup(old(self)@, key.rank()),
            final(self).spec_height() == old(self).spec_height() || final(self).spec_height()
                == old(self).spec_height() + 1,
            final(self).spec_height() == old(self).spec_height() + 1 ==> old(self).root_len()
                == MAX_LEN && final(self).spec_node() is Internal && final(self).root_len() == 1,
            old(self).root_len() < MAX_LEN ==> final(self).spec_height() == old(
                self,
            ).spec_height(),
    {
        let ghost h = self.height as nat;
        let ghost lo = node_len(self.node, self.store);
        proof {
            lemma_wf_bound(self.node, h, 0, lo, full_span(), self.store);
            // The tree is lower than it has leaves, and the leaves fit in
            // the slots of the store.
            let pq = lemma_leaves_across(self.node, h, 0, full_span(), self.store);
            self.store.lemma_chain_fits();
            assert(self.store.slots.len() == self.store.slots@.len());
            assert(h < usize::MAX);
        }
        let (old_val, split) = self.node.insert_node(
            &mut self.store,
            key,
            val,
            Ghost(h),
            Ghost(lo),
            Ghost(full_span()),
        );
        match split {
            None => {},
            Some((s, right)) => {
                let mut left = Node::Leaf(0);
                core::mem::swap(&mut self.node, &mut left);
                let ghost left1 = left;
                let ghost right1 = right;
                let mut keys: Vec<K> = Vec::new();
                keys.push(s);
                let mut edges: Vec<Node<K>> = Vec::new();
                edges.push(left);
                edges.push(right);
                proof {
                    assert(keys@ =~= seq![s]);
                    assert(edges@ =~= seq![left1, right1]);
                    assert(child_span(full_span(), keys@, 0) == Span {
                        lo: None,
                        hi: Some(s.rank()),
                    });
                    assert(child_span(full_span(), keys@, 1) == Span {
                        lo: Some(s.rank()),
                        hi: None,
                    });
                }
                self.node = Node::Internal(InternalNode { keys, edges });
                self.height = self.height + 1;
            },
        }
        old_val
    }

    /// Inserts the entry, or replaces the value where the key is there
    /// already.
    pub fn insert(&mut self, key: K, value: V)
        requires
            old(self).wf(),
        ensures
            final(self).wf(),
            final(self)@ == old(self)@.insert(key.rank(), value),
    {
        let _ = self.insert_node(key, value);
    }

    /// Takes the entry of `key` out of the tree and returns its value, or
    /// `None` where the key is absent. Where the root is left with a single
    /// child, that child becomes the root and the tree loses one level.
    pub fn remove_node(&mut self, key: K) -> (r: Option<V>)
        requires
            old(self).wf(),
        ensures
            final(self).wf(),
            final(self)@ == old(self)@.remove(key.rank()),
            r == lookup(old(self)@, key.rank()),
            final(self).spec_height() == old(self).spec_height() || final(self).spec_height() + 1
                == old(self).spec_height(),
    {
        let ghost h = self.height as nat;
        let r = self.node.remove_node(
            &mut self.store,
            &key,
            Ghost(h),
            Ghost(0),
            Ghost(full_span()),
        );
        let collapse: bool = match &self.node {
            Node::Internal(n) => n.keys.len() == 0,
            Node::Leaf(_) => false,
        };
        if collapse {
            let ghost hh = (h - 1) as nat;
            let mut top = Node::Leaf(0);
            core::mem::swap(&mut self.node, &mut top);
            match top {
                Node::Internal(mut n) => {
                    let ghost edges0 = n.edges@;
                    let ghost keys0 = n.keys@;
                    let child = n.edges.remove(0);
                    proof {
                        assert(node_wf(
                            edges0[0],
                            hh,
                            MIN_LEN_AFTER_SPLIT as nat,
                            child_span(full_span(), keys0, 0),
                            self.store,
                        ));
                        assert(child_span(full_span(), keys0, 0) == full_span());
                        lemma_wf_bound(
                            child,
                            hh,
                            MIN_LEN_AFTER_SPLIT as nat,
                            0,
                            full_span(),
                            self.store,
                        );
                    }
                    self.node = child;
                    self.height = self.height - 1;
                },
                Node::Leaf(_) => {},
            }
        }
        r
    }

    /// The entries whose keys lie in the range from `lo` to `hi`, in
    /// ascending order of their keys. The leaf for the lower end is found
    /// from the root, and the walk then goes along the chain of leaves.
    pub fn scan_node<'a>(&'a self, lo: &Bound<K>, hi: &Bound<K>) -> (r: Vec<(K, &'a V)>)
        requires
            self.wf(),
        ensures
            scan_of(self@, *lo, *hi, r@),
    {
        let start: usize = match lo {
            Bound::Unbounded => self.node.first_leaf(
                &self.store,
                Ghost(self.height as nat),
                Ghost(0),
                Ghost(full_span()),
            ),
            Bound::Included(k) => self.node.find_leaf(
                &self.store,
                k,
                Ghost(self.height as nat),
                Ghost(0),
                Ghost(full_span()),
            ),
            Bound::Excluded(k) => self.node.find_leaf(
                &self.store,
                k,
                Ghost(self.height as nat),
                Ghost(0),
                Ghost(full_span()),
            ),
        };
        self.store.scan_from(start, lo, hi)
    }
}

} // verus!
