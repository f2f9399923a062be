//! The mathematics of sorted key sequences: where a key is routed among
//! separators, what map a leaf holds, and how two leaves share their
//! entries.
use vstd::prelude::*;
use crate::table::index::key::Key;

verus! {

/// Whether the ranks of `keys` are strictly ascending.
pub open spec fn sorted<K: Key>(keys: Seq<K>) -> bool {
    forall|i: int, j: int|
        0 <= i < j < keys.len() ==> (#[trigger] keys[i]).rank() < (#[trigger] keys[j]).rank()
}

/// Whether a key of rank `r` belongs under child `i` of a node with the
/// separators `keys`: at or after separator `i - 1` and before separator `i`.
pub open spec fn routes_to<K: Key>(keys: Seq<K>, r: int, i: int) -> bool {
    &&& 0 <= i <= keys.len()
    &&& i > 0 ==> keys[i - 1].rank() <= r
    &&& i < keys.len() ==> r < keys[i].rank()
}

/// The child under which a key of rank `r` belongs.
pub open spec fn route<K: Key>(keys: Seq<K>, r: int) -> int {
    choose|i: int| routes_to(keys, r, i)
}

proof fn route_witness<K: Key>(keys: Seq<K>, r: int) -> (i: int)
    requires
        sorted(keys),
    ensures
        routes_to(keys, r, i),
    decreases keys.len(),
{
    if keys.len() == 0 {
        0
    } else if keys.last().rank() <= r {
        keys.len() as int
    } else {
        let front = keys.drop_last();
        assert(forall|j: int| 0 <= j < front.len() ==> front[j] == keys[j]);
        let i = route_witness(front, r);
        i
    }
}

/// Among sorted separators every rank has exactly one child.
pub proof fn lemma_route<K: Key>(keys: Seq<K>, r: int)
    requires
        sorted(keys),
    ensures
        routes_to(keys, r, route(keys, r)),
        forall|i: int| routes_to(keys, r, i) ==> i == route(keys, r),
{
    let w = route_witness(keys, r);
    let c = route(keys, r);
    assert forall|i: int| routes_to(keys, r, i) implies i == c by {
        if i < c {
            assert(keys[i].rank() <= keys[c - 1].rank());
        } else if c < i {
            assert(keys[c].rank() <= keys[i - 1].rank());
        }
    }
}

/// Whether some key of `keys` has rank `r`.
pub open spec fn has_key<K: Key>(keys: Seq<K>, r: int) -> bool {
    exists|i: int| 0 <= i < keys.len() && (#[trigger] keys[i]).rank() == r
}

/// The position of the key of rank `r` in `keys`.
pub open spec fn index_of<K: Key>(keys: Seq<K>, r: int) -> int {
    choose|i: int| 0 <= i < keys.len() && (#[trigger] keys[i]).rank() == r
}

/// The map that a leaf with these keys and values holds, by rank.
pub open spec fn leaf_map<K: Key, V>(keys: Seq<K>, vals: Seq<V>) -> Map<int, V> {
    Map::new(|r: int| has_key(keys, r), |r: int| vals[index_of(keys, r)])
}

/// The map of a leaf holds each of its keys with the value beside it.
pub proof fn lemma_leaf_at<K: Key, V>(keys: Seq<K>, vals: Seq<V>, i: int)
    requires
        sorted(keys),
        0 <= i < keys.len(),
    ensures
        leaf_map(keys, vals).contains_key(keys[i].rank()),
        leaf_map(keys, vals)[keys[i].rank()] == vals[i],
{
    let r = keys[i].rank();
    assert(has_key(keys, r));
    let j = index_of(keys, r);
    if j < i {
        assert(keys[j].rank() < keys[i].rank());
    } else if i < j {
        assert(keys[i].rank() < keys[j].rank());
    }
}

/// A map that holds every entry of a leaf and nothing else is the leaf's map.
pub proof fn lemma_leaf_map_is<K: Key, V>(keys: Seq<K>, vals: Seq<V>, m: Map<int, V>)
    requires
        sorted(keys),
        forall|i: int|
            0 <= i < keys.len() ==> m.contains_key((#[trigger] keys[i]).rank()) && m[keys[i].rank()]
                == vals[i],
        forall|r: int| m.contains_key(r) ==> has_key(keys, r),
    ensures
        leaf_map(keys, vals) =~= m,
{
    let lm = leaf_map(keys, vals);
    assert forall|r: int| lm.contains_key(r) implies m.contains_key(r) && lm[r] == m[r] by {
        let i = choose|i: int| 0 <= i < keys.len() && (#[trigger] keys[i]).rank() == r;
        lemma_leaf_at(keys, vals, i);
    }
}

/// Putting a new key between its neighbours adds one entry to the map.
pub proof fn lemma_leaf_insert<K: Key, V>(keys: Seq<K>, vals: Seq<V>, idx: int, k: K, v: V)
    requires
        sorted(keys),
        keys.len() == vals.len(),
        0 <= idx <= keys.len(),
        idx > 0 ==> keys[idx - 1].rank() < k.rank(),
        idx < keys.len() ==> k.rank() < keys[idx].rank(),
    ensures
        sorted(keys.insert(idx, k)),
        !leaf_map(keys, vals).contains_key(k.rank()),
        leaf_map(keys.insert(idx, k), vals.insert(idx, v)) =~= leaf_map(keys, vals).insert(
            k.rank(),
            v,
        ),
{
    let keys2 = keys.insert(idx, k);
    let vals2 = vals.insert(idx, v);
    let m = leaf_map(keys, vals).insert(k.rank(), v);
    assert forall|i: int, j: int| 0 <= i < j < keys2.len() implies (#[trigger] keys2[i]).rank() < (
    #[trigger] keys2[j]).rank() by {
        let oi = if i < idx { i } else { i - 1 };
        let oj = if j < idx { j } else { j - 1 };
        if i != idx && j != idx {
            assert(keys[oi].rank() < keys[oj].rank());
        } else if i == idx {
            if idx < keys.len() && oj > idx {
                assert(keys[idx].rank() < keys[oj].rank());
            }
        } else {
            if idx > 0 && oi < idx - 1 {
                assert(keys[oi].rank() < keys[idx - 1].rank());
            }
        }
    }
    if leaf_map(keys, vals).contains_key(k.rank()) {
        let i = choose|i: int| 0 <= i < keys.len() && (#[trigger] keys[i]).rank() == k.rank();
        if i < idx {
            if i < idx - 1 {
                assert(keys[i].rank() < keys[idx - 1].rank());
            }
        } else {
            if idx < i {
                assert(keys[idx].rank() < keys[i].rank());
            }
        }
        assert(false);
    }
    assert forall|i: int| 0 <= i < keys2.len() implies m.contains_key((#[trigger] keys2[i]).rank())
        && m[keys2[i].rank()] == vals2[i] by {
        if i != idx {
            let oi = if i < idx { i } else { i - 1 };
            lemma_leaf_at(keys, vals, oi);
            assert(keys2[i] == keys[oi]);
        }
    }
    assert forall|r: int| m.contains_key(r) implies has_key(keys2, r) by {
        if r == k.rank() {
            assert(keys2[idx].rank() == r);
        } else {
            let i = choose|i: int| 0 <= i < keys.len() && (#[trigger] keys[i]).rank() == r;
            let ni = if i < idx { i } else { i + 1 };
            assert(keys2[ni].rank() == r);
        }
    }
    lemma_leaf_map_is(keys2, vals2, m);
}

/// Replacing the value beside a key replaces the entry in the map.
pub proof fn lemma_leaf_update<K: Key, V>(keys: Seq<K>, vals: Seq<V>, idx: int, v: V)
    requires
        sorted(keys),
        keys.len() == vals.len(),
        0 <= idx < keys.len(),
    ensures
        leaf_map(keys, vals.update(idx, v)) =~= leaf_map(keys, vals).insert(keys[idx].rank(), v),
{
    let m = leaf_map(keys, vals).insert(keys[idx].rank(), v);
    let vals2 = vals.update(idx, v);
    assert forall|i: int| 0 <= i < keys.len() implies m.contains_key((#[trigger] keys[i]).rank())
        && m[keys[i].rank()] == vals2[i] by {
        lemma_leaf_at(keys, vals, i);
        if i < idx {
            assert(keys[i].rank() < keys[idx].rank());
        } else if idx < i {
            assert(keys[idx].rank() < keys[i].rank());
        }
    }
    assert forall|r: int| m.contains_key(r) implies has_key(keys, r) by {
        if r == keys[idx].rank() {
            assert(keys[idx].rank() == r);
        }
    }
    lemma_leaf_map_is(keys, vals2, m);
}

/// Taking a key and its value out takes the entry out of the map.
pub proof fn lemma_leaf_remove<K: Key, V>(keys: Seq<K>, vals: Seq<V>, idx: int)
    requires
        sorted(keys),
        keys.len() == vals.len(),
        0 <= idx < keys.len(),
    ensures
        sorted(keys.remove(idx)),
        leaf_map(keys.remove(idx), vals.remove(idx)) =~= leaf_map(keys, vals).remove(
            keys[idx].rank(),
        ),
{
    let keys2 = keys.remove(idx);
    let vals2 = vals.remove(idx);
    let m = leaf_map(keys, vals).remove(keys[idx].rank());
    assert forall|i: int, j: int| 0 <= i < j < keys2.len() implies (#[trigger] keys2[i]).rank() < (
    #[trigger] keys2[j]).rank() by {
        let oi = if i < idx { i } else { i + 1 };
        let oj = if j < idx { j } else { j + 1 };
        assert(keys[oi].rank() < keys[oj].rank());
    }
    assert forall|i: int| 0 <= i < keys2.len() implies m.contains_key((#[trigger] keys2[i]).rank())
        && m[keys2[i].rank()] == vals2[i] by {
        let oi = if i < idx { i } else { i + 1 };
        lemma_leaf_at(keys, vals, oi);
        assert(keys2[i] == keys[oi]);
        if oi < idx {
            assert(keys[oi].rank() < keys[idx].rank());
        } else {
            assert(keys[idx].rank() < keys[oi].rank());
        }
    }
    assert forall|r: int| m.contains_key(r) implies has_key(keys2, r) by {
        let i = choose|i: int| 0 <= i < keys.len() && (#[trigger] keys[i]).rank() == r;
        let ni = if i < idx { i } else { i - 1 };
        assert(keys2[ni].rank() == r);
    }
    lemma_leaf_map_is(keys2, vals2, m);
}

/// The map that holds the entries of `left` below `s` and those of `right`
/// from `s` on.
pub open spec fn joined<V>(left: Map<int, V>, s: int, right: Map<int, V>) -> Map<int, V> {
    Map::new(
        |r: int|
            if r < s {
                left.contains_key(r)
            } else {
                right.contains_key(r)
            },
        |r: int|
            if r < s {
                left[r]
            } else {
                right[r]
            },
    )
}

/// Whether every rank of `m` is below `s`.
pub open spec fn all_below<V>(m: Map<int, V>, s: int) -> bool {
    forall|r: int| m.contains_key(r) ==> r < s
}

/// Whether every rank of `m` is at or above `s`.
pub open spec fn all_from<V>(m: Map<int, V>, s: int) -> bool {
    forall|r: int| m.contains_key(r) ==> s <= r
}

/// A sorted leaf cut in two at a rank between the halves: each half is
/// sorted and lies on its side of the cut, and together they hold what the
/// whole holds.
pub proof fn lemma_leaf_split<K: Key, V>(
    a: Seq<K>,
    va: Seq<V>,
    b: Seq<K>,
    vb: Seq<V>,
    s: int,
)
    requires
        sorted(a + b),
        a.len() == va.len(),
        b.len() == vb.len(),
        a.len() > 0 ==> a.last().rank() < s,
        b.len() > 0 ==> s <= b[0].rank(),
    ensures
        sorted(a),
        sorted(b),
        all_below(leaf_map(a, va), s),
        all_from(leaf_map(b, vb), s),
        leaf_map(a + b, va + vb) =~= joined(leaf_map(a, va), s, leaf_map(b, vb)),
{
    let w = a + b;
    let vw = va + vb;
    let n = a.len() as int;
    assert forall|i: int, j: int| 0 <= i < j < a.len() implies (#[trigger] a[i]).rank() < (
    #[trigger] a[j]).rank() by {
        assert(w[i] == a[i] && w[j] == a[j]);
    }
    assert forall|i: int, j: int| 0 <= i < j < b.len() implies (#[trigger] b[i]).rank() < (
    #[trigger] b[j]).rank() by {
        assert(w[n + i] == b[i] && w[n + j] == b[j]);
    }
    assert forall|r: int| leaf_map(a, va).contains_key(r) implies r < s by {
        let i = choose|i: int| 0 <= i < a.len() && (#[trigger] a[i]).rank() == r;
        if i < n - 1 {
            assert(a[i].rank() < a[n - 1].rank());
        }
    }
    assert forall|r: int| leaf_map(b, vb).contains_key(r) implies s <= r by {
        let i = choose|i: int| 0 <= i < b.len() && (#[trigger] b[i]).rank() == r;
        if 0 < i {
            assert(b[0].rank() < b[i].rank());
        }
    }
    let m = joined(leaf_map(a, va), s, leaf_map(b, vb));
    assert forall|i: int| 0 <= i < w.len() implies m.contains_key((#[trigger] w[i]).rank()) && m[w[i].rank()]
        == vw[i] by {
        if i < n {
            lemma_leaf_at(a, va, i);
            assert(w[i] == a[i]);
        } else {
            lemma_leaf_at(b, vb, i - n);
            assert(w[i] == b[i - n]);
        }
    }
    assert forall|r: int| m.contains_key(r) implies has_key(w, r) by {
        if r < s {
            let i = choose|i: int| 0 <= i < a.len() && (#[trigger] a[i]).rank() == r;
            assert(w[i].rank() == r);
        } else {
            let i = choose|i: int| 0 <= i < b.len() && (#[trigger] b[i]).rank() == r;
            assert(w[n + i].rank() == r);
        }
    }
    lemma_leaf_map_is(w, vw, m);
}

/// Two sorted runs of keys, the first wholly before the second, make one
/// sorted run.
pub proof fn lemma_sorted_concat<K: Key>(a: Seq<K>, b: Seq<K>)
    requires
        sorted(a),
        sorted(b),
        a.len() > 0 && b.len() > 0 ==> a.last().rank() < b[0].rank(),
    ensures
        sorted(a + b),
{
    let w = a + b;
    let n = a.len() as int;
    assert forall|i: int, j: int| 0 <= i < j < w.len() implies (#[trigger] w[i]).rank() < (
    #[trigger] w[j]).rank() by {
        if j < n {
            assert(a[i].rank() < a[j].rank());
        } else if i >= n {
            assert(b[i - n].rank() < b[j - n].rank());
        } else {
            if i < n - 1 {
                assert(a[i].rank() < a[n - 1].rank());
            }
            if j > n {
                assert(b[0].rank() < b[j - n].rank());
            }
        }
    }
}

/// Two neighbouring leaves whose entries are dealt out anew between them:
/// where the entries in order stay the same and `s` is the rank of the
/// first key on the right, each leaf is sorted and lies on its side of `s`,
/// and together the two hold what they held.
pub proof fn lemma_leaf_rebalance<K: Key, V>(
    a0: Seq<K>,
    va0: Seq<V>,
    d: int,
    b0: Seq<K>,
    vb0: Seq<V>,
    a1: Seq<K>,
    va1: Seq<V>,
    s: int,
    b1: Seq<K>,
    vb1: Seq<V>,
)
    requires
        sorted(a0),
        sorted(b0),
        a0.len() == va0.len(),
        b0.len() == vb0.len(),
        a1.len() == va1.len(),
        b1.len() == vb1.len(),
        all_below(leaf_map(a0, va0), d),
        all_from(leaf_map(b0, vb0), d),
        a1 + b1 == a0 + b0,
        va1 + vb1 == va0 + vb0,
        b1.len() > 0,
        s == b1[0].rank(),
    ensures
        sorted(a1),
        sorted(b1),
        all_below(leaf_map(a1, va1), s),
        all_from(leaf_map(b1, vb1), s),
        joined(leaf_map(a1, va1), s, leaf_map(b1, vb1)) == joined(
            leaf_map(a0, va0),
            d,
            leaf_map(b0, vb0),
        ),
{
    if a0.len() > 0 {
        lemma_leaf_at(a0, va0, a0.len() - 1);
    }
    if b0.len() > 0 {
        lemma_leaf_at(b0, vb0, 0);
    }
    lemma_sorted_concat(a0, b0);
    lemma_leaf_split(a0, va0, b0, vb0, d);
    let whole = a1 + b1;
    let n = a1.len() as int;
    assert(whole[n] == b1[0]);
    if n > 0 {
        assert(whole[n - 1] == a1.last());
        assert(whole[n - 1].rank() < whole[n].rank());
    }
    lemma_leaf_split(a1, va1, b1, vb1, s);
}

} // verus!
