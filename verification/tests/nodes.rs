use rookiedb::catalog::schema::TableIndex;
use rookiedb::table::index::btree_builder::BTreeBuilder;
use rookiedb::table::index::key::Key;
use rookiedb::table::index::node::internal::InternalNode;
use rookiedb::table::index::node::leaf::LeafNode;
use rookiedb::table::index::node::node_ref::NodeRef;
use rookiedb::table::index::node::Node;
use rookiedb::table::index::range::Bound;
use rookiedb::table::index::store::NodeStore;
use rookiedb::table::index::{B, CAPACITY, MAX_LEN, MIN_LEN_AFTER_SPLIT};

fn leaf_of(keys: &[u32]) -> LeafNode<u32, u32> {
    LeafNode {
        keys: keys.to_vec(),
        vals: keys.iter().map(|k| k * 10).collect(),
        prev: None,
        next: None,
    }
}

#[test]
fn fanout_constants() {
    assert_eq!(B, 6);
    assert_eq!(CAPACITY, 11);
    assert_eq!(MIN_LEN_AFTER_SPLIT, 5);
    assert_eq!(MAX_LEN, 10);
}

#[test]
fn keys_compare_by_value() {
    assert!(3u32.less(&4));
    assert!(!4u64.less(&4));
    assert!((-1i32).less(&0));
    assert!(!(5i64).less(&-5));
    assert!(0usize.less(&1));
}

#[test]
fn leaf_insert_search_remove() {
    let mut leaf: Box<LeafNode<u32, u32>> = LeafNode::new_boxed();
    assert_eq!(leaf.len(), 0);
    for k in [5u32, 1, 9, 3] {
        let (old, sep, right) = leaf.insert_leaf(k, k * 10);
        assert!(old.is_none() && sep.is_none() && right.is_none());
    }
    assert_eq!(leaf.keys, vec![1, 3, 5, 9]);
    assert_eq!(leaf.vals, vec![10, 30, 50, 90]);
    assert_eq!(leaf.position(&4), 2);
    assert_eq!(leaf.position(&9), 3);
    assert_eq!(leaf.position(&10), 4);
    assert_eq!(leaf.search_leaf(&5), Some(&50));
    assert_eq!(leaf.search_leaf(&4), None);
    let (old, _, _) = leaf.insert_leaf(5, 51);
    assert_eq!(old, Some(50));
    assert_eq!(leaf.remove_leaf(&3), Some(30));
    assert_eq!(leaf.remove_leaf(&3), None);
    assert_eq!(leaf.keys, vec![1, 5, 9]);
}

#[test]
fn leaf_splits_at_the_eleventh_key() {
    let mut leaf = leaf_of(&[0, 1, 2, 3, 4, 5, 6, 7, 8, 9]);
    let (old, sep, right) = leaf.insert_leaf(10, 100);
    assert_eq!(old, None);
    assert_eq!(sep, Some(5));
    let right = right.unwrap();
    assert_eq!(leaf.keys, vec![0, 1, 2, 3, 4]);
    assert_eq!(right.keys, vec![5, 6, 7, 8, 9, 10]);
    assert_eq!(right.vals, vec![50, 60, 70, 80, 90, 100]);
}

#[test]
fn leaf_steal_and_merge() {
    let mut left = leaf_of(&[1, 2, 3]);
    let mut right = leaf_of(&[7, 8]);
    assert_eq!(right.steal_left(&mut left), Some(3));
    assert_eq!(left.keys, vec![1, 2]);
    assert_eq!(right.keys, vec![3, 7, 8]);
    assert_eq!(right.vals, vec![30, 70, 80]);
    assert_eq!(left.steal_right(&mut right), Some(7));
    assert_eq!(left.keys, vec![1, 2, 3]);
    assert_eq!(right.keys, vec![7, 8]);
    right.next = Some(9);
    left.merge(&mut right);
    assert_eq!(left.keys, vec![1, 2, 3, 7, 8]);
    assert_eq!(left.vals, vec![10, 20, 30, 70, 80]);
    assert_eq!(left.next, Some(9));
    assert!(right.keys.is_empty() && right.vals.is_empty());
    let mut new_leaf = leaf_of(&[20]);
    left.link_self(4, &mut new_leaf, 6);
    assert_eq!(left.next, Some(6));
    assert_eq!((new_leaf.prev, new_leaf.next), (Some(4), Some(9)));
}

fn internal_of(keys: &[u32], children: &[usize]) -> InternalNode<u32> {
    InternalNode { keys: keys.to_vec(), edges: children.iter().map(|c| Node::Leaf(*c)).collect() }
}

fn handles(n: &InternalNode<u32>) -> Vec<usize> {
    n.edges
        .iter()
        .map(|e| match e {
            Node::Leaf(id) => *id,
            Node::Internal(_) => panic!("a leaf was expected"),
        })
        .collect()
}

#[test]
fn internal_routes_to_the_first_child_with_a_larger_separator() {
    let n = internal_of(&[10, 20], &[0, 1, 2]);
    assert_eq!(n.len(), 2);
    assert_eq!(n.route_index(&5), 0);
    assert_eq!(n.route_index(&10), 1);
    assert_eq!(n.route_index(&19), 1);
    assert_eq!(n.route_index(&20), 2);
    assert_eq!(n.route_index(&99), 2);
    assert!(matches!(n.search_internal(&15), Node::Leaf(1)));
}

#[test]
fn internal_insert_steal_merge() {
    let mut n = internal_of(&[10, 30], &[0, 1, 3]);
    let (up, sib) = n.insert_internal(20, Node::Leaf(2));
    assert!(up.is_none() && sib.is_none());
    assert_eq!(n.keys, vec![10, 20, 30]);
    assert_eq!(handles(&n), vec![0, 1, 2, 3]);
    let (k, e) = n.remove_internal(1);
    assert_eq!(k, 20);
    assert!(matches!(e, Node::Leaf(2)));
    assert_eq!(n.keys, vec![10, 30]);
    assert_eq!(handles(&n), vec![0, 1, 3]);

    let mut left = internal_of(&[10, 20], &[0, 1, 2]);
    let mut right = internal_of(&[50], &[4, 5]);
    assert_eq!(right.steal_left(&mut left, 40), Some(20));
    assert_eq!(left.keys, vec![10]);
    assert_eq!(right.keys, vec![40, 50]);
    assert_eq!(handles(&right), vec![2, 4, 5]);
    assert_eq!(left.steal_right(&mut right, 20), Some(40));
    assert_eq!(left.keys, vec![10, 20]);
    assert_eq!(handles(&left), vec![0, 1, 2]);
    assert_eq!(right.keys, vec![50]);
    left.merge(&mut right, 40);
    assert_eq!(left.keys, vec![10, 20, 40, 50]);
    assert_eq!(handles(&left), vec![0, 1, 2, 4, 5]);
    assert!(right.keys.is_empty() && right.edges.is_empty());
}

#[test]
fn internal_splits_around_its_middle_separator() {
    let keys: Vec<u32> = (1..=10).map(|k| k * 10).collect();
    let children: Vec<usize> = (0..=10).collect();
    let mut n = internal_of(&keys, &children);
    let (up, sib) = n.insert_internal(105, Node::Leaf(11));
    assert_eq!(up, Some(60));
    let sib = sib.unwrap();
    assert_eq!(n.keys, vec![10, 20, 30, 40, 50]);
    assert_eq!(handles(&n), vec![0, 1, 2, 3, 4, 5]);
    assert_eq!(sib.keys, vec![70, 80, 90, 100, 105]);
    assert_eq!(handles(&sib), vec![6, 7, 8, 9, 10, 11]);
}

fn store_with(keys: std::ops::Range<u32>) -> NodeStore<u32, u32> {
    let mut store = NodeStore::new();
    for k in keys {
        let (old, split) = store.insert(0, k, k * 10);
        assert!(old.is_none() && split.is_none());
    }
    store
}

#[test]
fn node_predicates_and_casts() {
    let store = store_with(0..4);
    let leaf: Node<u32> = Node::Leaf(0);
    assert!(leaf.is_leaf());
    assert!(leaf.is_underfull(&store));
    assert!(leaf.has_spcae_for_insert(&store));
    assert!(!leaf.has_space_for_removal(&store));
    assert_eq!(leaf.len(&store), 4);
    assert_eq!(leaf.get_leaf(&store).unwrap().keys, vec![0, 1, 2, 3]);
    assert!(leaf.get_internal().is_none());
    let five = store_with(0..5);
    assert!(!leaf.is_underfull(&five) && !leaf.has_space_for_removal(&five));
    let six = store_with(0..6);
    assert!(leaf.has_space_for_removal(&six));
    let full = store_with(0..10);
    assert!(!leaf.has_spcae_for_insert(&full));
    let inner = *internal_of(&[10], &[0, 1]).downcast();
    assert!(!inner.is_leaf());
    assert!(inner.is_underfull(&store));
    assert!(inner.get_internal().is_some());
    assert!(inner.get_leaf(&store).is_none());
    assert_eq!(inner.len(&store), 1);
    let boxed = LeafNode::<u32, u32>::downcast(7);
    assert!(matches!(*boxed, Node::Leaf(7)));
    assert_eq!(Node::<u32>::new_leaf_boxed::<u32>().len(), 0);
    assert_eq!(Node::<u32>::new_internal_boxed().len(), 0);
    let above = InternalNode::new_internal(Node::<u32>::Leaf(0));
    assert_eq!(above.keys.len(), 0);
    assert_eq!(above.edges.len(), 1);
    assert_eq!(InternalNode::<u32>::new_boxed().edges.len(), 0);
}

#[test]
fn store_splits_links_and_reuses_slots() {
    let mut store = store_with(0..10);
    assert_eq!(store.leaf_len(0), 10);
    assert_eq!(store.search(0, &3), Some(&30));
    assert_eq!(store.search(0, &11), None);
    // The eleventh key splits the leaf: the new leaf follows it.
    let (old, split) = store.insert(0, 10, 100);
    assert_eq!(old, None);
    let (sep, right) = split.unwrap();
    assert_eq!((sep, right), (5, 1));
    assert_eq!(store.get(0).keys, vec![0, 1, 2, 3, 4]);
    assert_eq!(store.get(1).keys, vec![5, 6, 7, 8, 9, 10]);
    assert_eq!((store.get(0).prev, store.get(0).next), (None, Some(1)));
    assert_eq!((store.get(1).prev, store.get(1).next), (Some(0), None));
    // A value is replaced in place.
    assert_eq!(store.insert(1, 7, 71), (Some(70), None));
    // The right leaf gives its first entry to the left one.
    assert_eq!(store.steal_right(0, 1), 6);
    assert_eq!(store.get(0).keys, vec![0, 1, 2, 3, 4, 5]);
    assert_eq!(store.get(1).keys, vec![6, 7, 8, 9, 10]);
    // And takes the last entry of the left one back.
    assert_eq!(store.steal_left(0, 1), 5);
    assert_eq!(store.get(1).keys, vec![5, 6, 7, 8, 9, 10]);
    assert_eq!(store.remove(1, &10), Some(100));
    assert_eq!(store.remove(1, &10), None);
    // Split the right leaf, so that the chain has three leaves.
    for k in 11..16 {
        store.insert(1, k, k * 10);
    }
    let (_, split) = store.insert(1, 16, 160);
    assert_eq!(split, Some((11, 2)));
    assert_eq!(store.get(1).next, Some(2));
    assert_eq!(store.get(2).prev, Some(1));
    // Merge the middle leaf into the first one: the last leaf is told.
    store.remove(1, &9);
    store.merge(0, 1);
    assert_eq!(store.get(0).keys, vec![0, 1, 2, 3, 4, 5, 6, 7, 8]);
    assert_eq!(store.get(0).next, Some(2));
    assert_eq!(store.get(2).prev, Some(0));
    assert!(store.slots[1].is_none());
    assert_eq!(store.free, vec![1]);
    // The freed slot is taken by the next new leaf.
    store.insert(0, 9, 90);
    let (_, split) = store.insert(0, 10, 100);
    assert_eq!(split, Some((5, 1)));
    assert!(store.free.is_empty());
    assert_eq!(store.get(0).next, Some(1));
    assert_eq!(store.get(1).next, Some(2));
    assert_eq!(store.get(2).prev, Some(1));
    let from = Bound::Included(3);
    let to = Bound::Excluded(6);
    assert_eq!(store.scan_from(0, &from, &to), vec![(3, &30), (4, &40), (5, &50)]);
}

#[test]
fn node_ref_grows_and_shrinks() {
    let mut root: NodeRef<u32, u32> = NodeRef::new_leaf();
    assert_eq!(root.height(), 0);
    for k in 0..100 {
        assert_eq!(root.insert_node(k, k + 1), None);
    }
    assert!(root.height() >= 1);
    assert_eq!(root.search_node(&42), Some(&43));
    assert_eq!(root.search_node(&100), None);
    root.insert(42, 0);
    assert_eq!(root.reborrow().search_node(&42), Some(&0));
    assert_eq!(root.scan_node(&Bound::Included(98), &Bound::Unbounded), vec![(98, &99), (99, &100)]);
    for k in 0..100 {
        assert!(root.remove_node(k).is_some());
    }
    assert_eq!(root.height(), 0);
    assert!(root.node().is_leaf());
    let from = NodeRef::from_node(LeafNode::<u32, u32>::downcast(0), 0, store_with(1..3));
    assert_eq!(from.search_node(&2), Some(&20));
}

#[test]
fn builder_builds_an_empty_tree() {
    let index = TableIndex { name: "by_id".to_string(), cols: vec![0] };
    let tree = BTreeBuilder::<u64, u64>::new(&index).finish();
    assert!(tree.is_empty());
    assert_eq!(tree.height(), 0);
    assert!(tree.root().is_none());
}

#[test]
fn bounds_admit() {
    assert!(Bound::Included(5u32).admits_from(&5));
    assert!(!Bound::Excluded(5u32).admits_from(&5));
    assert!(Bound::Excluded(5u32).admits_from(&6));
    assert!(Bound::Included(5u32).admits_to(&5));
    assert!(!Bound::Excluded(5u32).admits_to(&5));
    assert!(Bound::<u32>::Unbounded.admits_to(&5) && Bound::<u32>::Unbounded.admits_from(&5));
}
