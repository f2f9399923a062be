use rookiedb::table::index::btree::BTree;
use rookiedb::table::index::node::Node;
use rookiedb::table::index::range::Bound;
use rookiedb::table::index::store::NodeStore;
use std::collections::BTreeMap;

#[test]
fn test_sample_get() {
    let mut btree = BTree::new();
    btree.insert(1, 1);
    btree.insert(2, 2);
    btree.insert(3, 3);
    btree.insert(4, 4);

    assert_eq!(btree.get(&1), Some(&1));
    assert_eq!(btree.get(&2), Some(&2));
    assert_eq!(btree.get(&3), Some(&3));
    assert_eq!(btree.get(&4), Some(&4));

    assert_eq!(btree.get(&5), None);
}

#[test]
fn test_sample_remove() {
    let mut btree = BTree::new();
    btree.insert(1, 1);
    assert_eq!(btree.get(&1), Some(&1));

    let removed = btree.remove(&1);
    assert_eq!(removed, Some(1));

    assert_eq!(btree.get(&1), None);
}

#[test]
fn twelve_inserts_split_the_root_once() {
    let mut btree: BTree<i32, i32> = BTree::new();
    for k in 1..=12 {
        assert_eq!(btree.insert(k, k * 10), None);
    }
    assert_eq!(btree.height(), 1);
    let root = btree.root().unwrap();
    match root.node() {
        Node::Internal(n) => {
            assert_eq!(n.keys.len(), 1);
            assert_eq!(n.edges.len(), 2);
        }
        Node::Leaf(_) => panic!("the root is still a leaf"),
    }
    assert_eq!(btree.get(&7), Some(&70));
    assert_eq!(btree.len(), 12);
}

#[test]
fn insert_then_get_and_overwrite() {
    let mut btree: BTree<u64, &str> = BTree::new();
    assert_eq!(btree.insert(5, "a"), None);
    assert_eq!(btree.get(&5), Some(&"a"));
    assert_eq!(btree.insert(5, "b"), Some("a"));
    assert_eq!(btree.get(&5), Some(&"b"));
    assert_eq!(btree.len(), 1);
}

#[test]
fn remove_of_absent_key_changes_nothing() {
    let mut btree: BTree<i64, i64> = BTree::new();
    for k in 0..40 {
        btree.insert(k * 2, k);
    }
    let height = btree.height();
    assert_eq!(btree.remove(&7), None);
    assert_eq!(btree.len(), 40);
    assert_eq!(btree.height(), height);
    for k in 0..40 {
        assert_eq!(btree.get(&(k * 2)), Some(&k));
    }
}

#[test]
fn many_inserts_and_removes_keep_the_map() {
    let mut btree: BTree<u32, u32> = BTree::new();
    let n: u32 = 2000;
    let mut k: u32 = 1;
    for _ in 0..n {
        k = (k * 7919 + 13) % 100_003;
        btree.insert(k, k + 1);
    }
    let mut keys = Vec::new();
    let mut j: u32 = 1;
    for _ in 0..n {
        j = (j * 7919 + 13) % 100_003;
        keys.push(j);
    }
    for key in keys.iter() {
        assert_eq!(btree.get(key), Some(&(key + 1)));
    }
    let mut removed = 0;
    for (i, key) in keys.iter().enumerate() {
        if i % 3 != 0 {
            if btree.remove(key).is_some() {
                removed += 1;
            }
            assert_eq!(btree.get(key), None);
        }
    }
    assert!(removed > 0);
    for (i, key) in keys.iter().enumerate() {
        if i % 3 == 0 && !keys.iter().enumerate().any(|(j, k2)| j % 3 != 0 && k2 == key) {
            assert_eq!(btree.get(key), Some(&(key + 1)));
        }
    }
    for key in keys.iter() {
        btree.remove(key);
    }
    assert_eq!(btree.len(), 0);
    assert_eq!(btree.height(), 0);
}

#[test]
fn test_sample_scan() {
    let mut btree: BTree<i32, i32> = BTree::new();
    for k in (1..=50).rev() {
        btree.insert(k, k * 2);
    }
    let all = btree.scan(Bound::Unbounded, Bound::Unbounded);
    assert_eq!(all.len(), 50);
    for (i, (k, v)) in all.iter().enumerate() {
        assert_eq!(*k, i as i32 + 1);
        assert_eq!(**v, (i as i32 + 1) * 2);
    }
    let some = btree.scan(Bound::Included(10), Bound::Excluded(13));
    assert_eq!(some, vec![(10, &20), (11, &22), (12, &24)]);
    let tail = btree.scan(Bound::Excluded(48), Bound::Unbounded);
    assert_eq!(tail, vec![(49, &98), (50, &100)]);
    let head = btree.scan(Bound::Unbounded, Bound::Included(2));
    assert_eq!(head, vec![(1, &2), (2, &4)]);
    let none = btree.scan(Bound::Included(20), Bound::Excluded(20));
    assert!(none.is_empty());
    let empty: BTree<i32, i32> = BTree::new();
    assert!(empty.scan(Bound::Unbounded, Bound::Unbounded).is_empty());
}

fn check_node(
    store: &NodeStore<u32, u32>,
    node: &Node<u32>,
    depth: usize,
    height: usize,
    root: bool,
    low: Option<u32>,
    high: Option<u32>,
    leaves: &mut Vec<usize>,
) -> usize {
    match node {
        Node::Leaf(id) => {
            let leaf = store.get(*id);
            assert_eq!(depth, height, "a leaf off the bottom level");
            assert_eq!(leaf.keys.len(), leaf.vals.len());
            assert!(leaf.keys.len() <= 10);
            if !root {
                assert!(leaf.keys.len() >= 5);
            }
            for w in leaf.keys.windows(2) {
                assert!(w[0] < w[1]);
            }
            for k in leaf.keys.iter() {
                assert!(low.map_or(true, |l| l <= *k));
                assert!(high.map_or(true, |h| *k < h));
            }
            leaves.push(*id);
            leaf.keys.len()
        }
        Node::Internal(n) => {
            assert!(depth < height, "an internal node on the bottom level");
            assert_eq!(n.edges.len(), n.keys.len() + 1);
            assert!(n.keys.len() <= 10);
            assert!(n.keys.len() >= if root { 1 } else { 5 });
            for w in n.keys.windows(2) {
                assert!(w[0] < w[1]);
            }
            let mut total = 0;
            for (i, child) in n.edges.iter().enumerate() {
                let lo = if i == 0 { low } else { Some(n.keys[i - 1]) };
                let hi = if i == n.keys.len() { high } else { Some(n.keys[i]) };
                total += check_node(store, child, depth + 1, height, false, lo, hi, leaves);
            }
            total
        }
    }
}

fn check_tree(btree: &BTree<u32, u32>) {
    if let Some(root) = btree.root() {
        let store = root.store();
        let mut leaves = Vec::new();
        let count = check_node(store, root.node(), 0, root.height(), true, None, None, &mut leaves);
        assert_eq!(count, btree.len());
        // The chain of leaves runs through the leaves of the tree in order.
        let mut chain = Vec::new();
        let mut cur = Some(leaves[0]);
        let mut prev = None;
        while let Some(id) = cur {
            let leaf = store.get(id);
            assert_eq!(leaf.prev, prev);
            chain.push(id);
            prev = Some(id);
            cur = leaf.next;
        }
        assert_eq!(chain, leaves);
        // Every slot holds a leaf of the tree or is listed as free.
        let live = store.slots.iter().filter(|s| s.is_some()).count();
        assert_eq!(live, leaves.len());
        assert_eq!(store.free.len(), store.slots.len() - live);
    } else {
        assert_eq!(btree.len(), 0);
    }
}

#[test]
fn tree_agrees_with_a_sorted_map_and_stays_balanced() {
    let mut btree: BTree<u32, u32> = BTree::new();
    let mut model: BTreeMap<u32, u32> = BTreeMap::new();
    let mut seed: u64 = 0x2545F4914F6CDD1D;
    let mut next = move || {
        seed ^= seed << 13;
        seed ^= seed >> 7;
        seed ^= seed << 17;
        seed
    };
    for round in 0..6000 {
        let r = next();
        let key = (r % 700) as u32;
        let grow = round < 3000;
        let insert = if grow { r % 4 != 0 } else { r % 4 == 0 };
        if insert {
            let val = (r >> 20) as u32;
            assert_eq!(btree.insert(key, val), model.insert(key, val));
        } else {
            assert_eq!(btree.remove(&key), model.remove(&key));
        }
        assert_eq!(btree.len(), model.len());
        if round % 97 == 0 {
            check_tree(&btree);
            let a = (next() % 700) as u32;
            let b = (next() % 700) as u32;
            let (lo, hi) = if a <= b { (a, b) } else { (b, a) };
            let got = btree.scan(Bound::Included(lo), Bound::Included(hi));
            let want: Vec<(u32, &u32)> = model.range(lo..=hi).map(|(k, v)| (*k, v)).collect();
            assert_eq!(got, want);
            let got = btree.scan(Bound::Excluded(lo), Bound::Excluded(hi));
            let want: Vec<(u32, &u32)> = model
                .iter()
                .filter(|(k, _)| lo < **k && **k < hi)
                .map(|(k, v)| (*k, v))
                .collect();
            assert_eq!(got, want);
        }
    }
    check_tree(&btree);
    for k in 0..700u32 {
        assert_eq!(btree.get(&k), model.get(&k));
        assert_eq!(btree.contains_key(&k), model.contains_key(&k));
    }
    let keys: Vec<u32> = model.keys().copied().collect();
    for k in keys {
        assert_eq!(btree.remove(&k), model.remove(&k));
        check_tree(&btree);
    }
    assert!(btree.is_empty());
    assert_eq!(btree.height(), 0);
}

#[test]
fn removal_steals_and_merges() {
    let mut btree: BTree<u32, u32> = BTree::new();
    for k in 0..12 {
        btree.insert(k, k);
    }
    // Two leaves: five keys on the left, seven on the right.
    assert_eq!(btree.height(), 1);
    // The left leaf drops to four and takes the first key of the right one.
    assert_eq!(btree.remove(&0), Some(0));
    check_tree(&btree);
    match btree.root().unwrap().node() {
        Node::Internal(n) => {
            assert_eq!(n.keys, vec![6]);
            let store = btree.root().unwrap().store();
            match (&n.edges[0], &n.edges[1]) {
                (Node::Leaf(l), Node::Leaf(r)) => {
                    assert_eq!(store.get(*l).keys, vec![1, 2, 3, 4, 5]);
                    assert_eq!(store.get(*r).keys, vec![6, 7, 8, 9, 10, 11]);
                    assert_eq!(store.get(*l).next, Some(*r));
                    assert_eq!(store.get(*r).prev, Some(*l));
                }
                _ => panic!("the children are leaves"),
            }
        }
        Node::Leaf(_) => panic!("the root is internal"),
    }
    // The right leaf gives one more; then neither can spare and they merge.
    assert_eq!(btree.remove(&1), Some(1));
    assert_eq!(btree.remove(&2), Some(2));
    check_tree(&btree);
    assert_eq!(btree.height(), 0);
    assert_eq!(btree.len(), 9);
    let root = btree.root().unwrap();
    match root.node() {
        Node::Leaf(l) => {
            let leaf = root.store().get(*l);
            assert_eq!(leaf.keys, vec![3, 4, 5, 6, 7, 8, 9, 10, 11]);
            assert_eq!((leaf.prev, leaf.next), (None, None));
        }
        Node::Internal(_) => panic!("the root is a leaf again"),
    }
    // The slot of the leaf that was merged away is free, and the next
    // split takes it again.
    assert_eq!(root.store().free.len(), 1);
    let slots = root.store().slots.len();
    btree.insert(0, 0);
    btree.insert(1, 1);
    assert_eq!(btree.height(), 1);
    assert_eq!(btree.root().unwrap().store().slots.len(), slots);
    assert!(btree.root().unwrap().store().free.is_empty());
    check_tree(&btree);
}

#[test]
fn left_neighbour_gives_first() {
    let mut btree: BTree<u32, u32> = BTree::new();
    for k in (0..24).rev() {
        btree.insert(k * 2, k);
    }
    for k in 0..6 {
        btree.insert(k * 2 + 1, k);
    }
    check_tree(&btree);
    let before = btree.len();
    // Empty out the last leaf until it has to take from its left neighbour.
    let mut removed = 0;
    for k in (30..48).rev() {
        if btree.remove(&k).is_some() {
            removed += 1;
        }
        check_tree(&btree);
    }
    assert_eq!(btree.len(), before - removed);
}
