//! The nodes of the tree: what makes a subtree well formed, and the
//! operations that keep it so.
use vstd::prelude::*;
use crate::table::index::key::Key;
use crate::table::index::node::internal::InternalNode;
use crate::table::index::node::leaf::LeafNode;
use crate::table::index::order::{lemma_route, lemma_sorted_concat, routes_to, sorted};
use crate::table::index::span::{
    child_span,
    keys_inside,
    span_has,
    span_ok,
    span_within,
    Span,
};
use crate::table::index::store::NodeStore;
use crate::table::index::{CAPACITY, MAX_LEN, MIN_LEN_AFTER_SPLIT};

pub mod internal;
pub mod leaf;
pub mod node_ref;

verus! {

/// A node of the tree: a leaf, by its handle in the node store, or an
/// internal node with separators and children.
pub enum Node<K> {
    Leaf(usize),
    Internal(InternalNode<K>),
}

/// What a lookup of rank `r` in `m` gives.
pub open spec fn lookup<V>(m: Map<int, V>, r: int) -> Option<V> {
    if m.contains_key(r) {
        Some(m[r])
    } else {
        None
    }
}

/// The number of keys in the node itself.
pub open spec fn node_len<K: Key, V>(node: Node<K>, st: NodeStore<K, V>) -> nat {
    match node {
        Node::Leaf(id) => st.leaf(id as int).keys@.len(),
        Node::Internal(n) => n.keys@.len(),
    }
}

/// Whether `node` is the root of a well-formed subtree of height `h` for
/// the span `sp` that holds at least `lo` keys itself: its leaves are all
/// at depth `h` and are leaves of the store `st` with the spans that the
/// separators above them leave, the keys of each node are strictly
/// ascending, strictly inside its span and at most `MAX_LEN`, and every
/// node below it holds at least `MIN_LEN_AFTER_SPLIT` keys.
pub open spec fn node_wf<K: Key, V>(node: Node<K>, h: nat, lo: nat, sp: Span, st: NodeStore<K, V>) -> bool
    decreases h, 0nat,
{
    match node {
        Node::Leaf(id) => {
            &&& h == 0
            &&& st.live(id as int)
            &&& st.span(id as int) == sp
            &&& lo <= st.leaf(id as int).keys@.len() <= MAX_LEN
        },
        Node::Internal(n) => {
            &&& h > 0
            &&& n.edges@.len() == n.keys@.len() + 1
            &&& sorted(n.keys@)
            &&& lo <= n.keys@.len() <= MAX_LEN
            &&& keys_inside(n.keys@, sp)
            &&& children_wf(n.keys@, n.edges@, (h - 1) as nat, sp, st)
        },
    }
}

/// Whether each of `edges` is a well-formed subtree of height `h` that is
/// not underfull, for the span that the separators `keys` leave it in `sp`.
pub open spec fn children_wf<K: Key, V>(
    keys: Seq<K>,
    edges: Seq<Node<K>>,
    h: nat,
    sp: Span,
    st: NodeStore<K, V>,
) -> bool
    decreases h, 1nat,
{
    forall|i: int|
        0 <= i < edges.len() ==> node_wf(
            #[trigger] edges[i],
            h,
            MIN_LEN_AFTER_SPLIT as nat,
            child_span(sp, keys, i),
            st,
        )
}

/// A subtree that is well formed with one lower bound is well formed with
/// any other that its root meets.
pub proof fn lemma_wf_bound<K: Key, V>(
    node: Node<K>,
    h: nat,
    lo: nat,
    lo2: nat,
    sp: Span,
    st: NodeStore<K, V>,
)
    requires
        node_wf(node, h, lo, sp, st),
        lo2 <= node_len(node, st),
    ensures
        node_wf(node, h, lo2, sp, st),
{
}

/// Whether every leaf of `st` whose span lies within `sp` is a leaf of
/// `st2` with the same span and as many keys.
pub open spec fn same_within<K: Key, V>(st: NodeStore<K, V>, st2: NodeStore<K, V>, sp: Span) -> bool {
    forall|id: int| #[trigger]
        st.live(id) && span_within(st.span(id), sp) ==> st2.live(id) && st2.span(id) == st.span(
            id,
        ) && st2.leaf(id).keys@.len() == st.leaf(id).keys@.len()
}

/// Whether every leaf of `st` whose span does not lie within `sp` is a
/// leaf of `st2` with the same span and as many keys.
pub open spec fn same_outside<K: Key, V>(st: NodeStore<K, V>, st2: NodeStore<K, V>, sp: Span) -> bool {
    forall|id: int| #[trigger]
        st.live(id) && !span_within(st.span(id), sp) ==> st2.live(id) && st2.span(id) == st.span(
            id,
        ) && st2.leaf(id).keys@.len() == st.leaf(id).keys@.len()
}

/// The span of a child lies within the span of its node and is not empty.
pub proof fn lemma_child_span<K: Key>(keys: Seq<K>, sp: Span, i: int)
    requires
        sorted(keys),
        keys_inside(keys, sp),
        span_ok(sp),
        0 <= i <= keys.len(),
    ensures
        span_within(child_span(sp, keys, i), sp),
        span_ok(child_span(sp, keys, i)),
{
    if i > 0 {
        assert(keys[i - 1].rank() == keys[i - 1].rank());
    }
    if i < keys.len() {
        assert(keys[i].rank() == keys[i].rank());
    }
    if 0 < i < keys.len() {
        assert(keys[i - 1].rank() < keys[i].rank());
    }
}

/// A span that is not empty does not lie within the spans of two children.
pub proof fn lemma_child_disjoint<K: Key>(keys: Seq<K>, sp: Span, i: int, j: int, a: Span)
    requires
        sorted(keys),
        0 <= i <= keys.len(),
        0 <= j <= keys.len(),
        i != j,
        span_ok(a),
        span_within(a, child_span(sp, keys, i)),
    ensures
        !span_within(a, child_span(sp, keys, j)),
{
    if i < j {
        if i < j - 1 {
            assert(keys[i].rank() < keys[j - 1].rank());
        }
    } else {
        if j < i - 1 {
            assert(keys[j].rank() < keys[i - 1].rank());
        }
    }
}

/// A subtree stays well formed where the leaves within its span stay what
/// they are.
pub proof fn lemma_frame<K: Key, V>(
    node: Node<K>,
    h: nat,
    lo: nat,
    sp: Span,
    st: NodeStore<K, V>,
    st2: NodeStore<K, V>,
)
    requires
        node_wf(node, h, lo, sp, st),
        same_within(st, st2, sp),
        span_ok(sp),
    ensures
        node_wf(node, h, lo, sp, st2),
    decreases h,
{
    match node {
        Node::Leaf(id) => {
            assert(st.live(id as int));
        },
        Node::Internal(n) => {
            let hh = (h - 1) as nat;
            assert forall|i: int| 0 <= i < n.edges@.len() implies node_wf(
                #[trigger] n.edges@[i],
                hh,
                MIN_LEN_AFTER_SPLIT as nat,
                child_span(sp, n.keys@, i),
                st2,
            ) by {
                lemma_child_span(n.keys@, sp, i);
                let cs = child_span(sp, n.keys@, i);
                assert(same_within(st, st2, cs)) by {
                    assert forall|id: int| #[trigger]
                        st.live(id) && span_within(st.span(id), cs) implies st2.live(id)
                        && st2.span(id) == st.span(id) && st2.leaf(id).keys@.len() == st.leaf(
                        id,
                    ).keys@.len() by {
                        assert(span_within(st.span(id), sp));
                    }
                }
                lemma_frame(n.edges@[i], hh, MIN_LEN_AFTER_SPLIT as nat, cs, st, st2);
            }
        },
    }
}

/// The children other than child `idx` stay well formed where the leaves
/// outside the span of child `idx` stay what they are.
pub proof fn lemma_siblings_frame<K: Key, V>(
    keys: Seq<K>,
    edges: Seq<Node<K>>,
    hh: nat,
    sp: Span,
    idx: int,
    st: NodeStore<K, V>,
    st2: NodeStore<K, V>,
    i: int,
)
    requires
        sorted(keys),
        keys_inside(keys, sp),
        span_ok(sp),
        edges.len() == keys.len() + 1,
        0 <= idx < edges.len(),
        0 <= i < edges.len(),
        i != idx,
        st.order_ok(),
        st.spans_ok(),
        node_wf(edges[i], hh, MIN_LEN_AFTER_SPLIT as nat, child_span(sp, keys, i), st),
        same_outside(st, st2, child_span(sp, keys, idx)),
    ensures
        node_wf(edges[i], hh, MIN_LEN_AFTER_SPLIT as nat, child_span(sp, keys, i), st2),
{
    let cs = child_span(sp, keys, i);
    lemma_child_span(keys, sp, i);
    assert(same_within(st, st2, cs)) by {
        assert forall|id: int| #[trigger] st.live(id) && span_within(st.span(id), cs) implies st2.live(
            id,
        ) && st2.span(id) == st.span(id) && st2.leaf(id).keys@.len() == st.leaf(id).keys@.len() by {
            st.lemma_live_span(id);
            lemma_child_disjoint(keys, sp, i, idx, st.span(id));
        }
    }
    lemma_frame(edges[i], hh, MIN_LEN_AFTER_SPLIT as nat, cs, st, st2);
}

/// A node in which child `idx` became the two children `left` and `right`
/// with the separator `s` between them stays in order.
pub proof fn lemma_children_split<K: Key, V>(
    keys: Seq<K>,
    edges: Seq<Node<K>>,
    hh: nat,
    sp: Span,
    idx: int,
    left: Node<K>,
    s: K,
    right: Node<K>,
    st: NodeStore<K, V>,
)
    requires
        sorted(keys),
        keys_inside(keys, sp),
        edges.len() == keys.len() + 1,
        0 <= idx < edges.len(),
        child_span(sp, keys, idx).lo is Some ==> child_span(sp, keys, idx).lo->0 < s.rank(),
        child_span(sp, keys, idx).hi is Some ==> s.rank() < child_span(sp, keys, idx).hi->0,
        forall|i: int|
            0 <= i < edges.len() && i != idx ==> node_wf(
                #[trigger] edges[i],
                hh,
                MIN_LEN_AFTER_SPLIT as nat,
                child_span(sp, keys, i),
                st,
            ),
        node_wf(
            left,
            hh,
            MIN_LEN_AFTER_SPLIT as nat,
            Span { lo: child_span(sp, keys, idx).lo, hi: Some(s.rank()) },
            st,
        ),
        node_wf(
            right,
            hh,
            MIN_LEN_AFTER_SPLIT as nat,
            Span { lo: Some(s.rank()), hi: child_span(sp, keys, idx).hi },
            st,
        ),
    ensures
        sorted(keys.insert(idx, s)),
        keys_inside(keys.insert(idx, s), sp),
        routes_to(keys, s.rank(), idx),
        children_wf(keys.insert(idx, s), edges.update(idx, left).insert(idx + 1, right), hh, sp, st),
{
    let keys1 = keys.insert(idx, s);
    let edges1 = edges.update(idx, left).insert(idx + 1, right);
    assert forall|x: int, y: int| 0 <= x < y < keys1.len() implies (#[trigger] keys1[x]).rank() < (
    #[trigger] keys1[y]).rank() by {
        let ox = if x < idx { x } else { x - 1 };
        let oy = if y < idx { y } else { y - 1 };
        if x != idx && y != idx {
            assert(keys[ox].rank() < keys[oy].rank());
        } else if x == idx {
            if oy > idx {
                assert(keys[idx].rank() < keys[oy].rank());
            }
        } else {
            if ox < idx - 1 {
                assert(keys[ox].rank() < keys[idx - 1].rank());
            }
        }
    }
    assert forall|i: int| 0 <= i < keys1.len() implies (sp.lo is Some ==> sp.lo->0 < (
    #[trigger] keys1[i]).rank()) && (sp.hi is Some ==> keys1[i].rank() < sp.hi->0) by {
        if i < idx {
            assert(keys1[i] == keys[i]);
        } else if i > idx {
            assert(keys1[i] == keys[i - 1]);
        } else {
            if idx > 0 {
                assert(keys[idx - 1].rank() == keys[idx - 1].rank());
            }
            if idx < keys.len() {
                assert(keys[idx].rank() == keys[idx].rank());
            }
        }
    }
    assert forall|i: int| 0 <= i < edges1.len() implies node_wf(
        #[trigger] edges1[i],
        hh,
        MIN_LEN_AFTER_SPLIT as nat,
        child_span(sp, keys1, i),
        st,
    ) by {
        if i < idx {
            assert(edges1[i] == edges[i]);
            assert(child_span(sp, keys1, i) == child_span(sp, keys, i));
        } else if i == idx {
        } else if i == idx + 1 {
        } else {
            assert(edges1[i] == edges[i - 1]);
            assert(child_span(sp, keys1, i) == child_span(sp, keys, i - 1));
        }
    }
}

/// A node cut in two at the separator `up`: each part is in order for its
/// half of the span.
pub proof fn lemma_inner_cut<K: Key, V>(
    ka: Seq<K>,
    up: K,
    kb: Seq<K>,
    ea: Seq<Node<K>>,
    eb: Seq<Node<K>>,
    hh: nat,
    sp: Span,
    st: NodeStore<K, V>,
)
    requires
        sorted(ka.push(up) + kb),
        keys_inside(ka.push(up) + kb, sp),
        ea.len() == ka.len() + 1,
        eb.len() == kb.len() + 1,
        children_wf(ka.push(up) + kb, ea + eb, hh, sp, st),
    ensures
        sorted(ka),
        sorted(kb),
        sp.lo is Some ==> sp.lo->0 < up.rank(),
        sp.hi is Some ==> up.rank() < sp.hi->0,
        keys_inside(ka, Span { lo: sp.lo, hi: Some(up.rank()) }),
        keys_inside(kb, Span { lo: Some(up.rank()), hi: sp.hi }),
        children_wf(ka, ea, hh, Span { lo: sp.lo, hi: Some(up.rank()) }, st),
        children_wf(kb, eb, hh, Span { lo: Some(up.rank()), hi: sp.hi }, st),
{
    let w = ka.push(up) + kb;
    let e = ea + eb;
    let n = ka.len() as int;
    let spa = Span { lo: sp.lo, hi: Some(up.rank()) };
    let spb = Span { lo: Some(up.rank()), hi: sp.hi };
    assert(w[n] == up);
    assert forall|i: int, j: int| 0 <= i < j < ka.len() implies (#[trigger] ka[i]).rank() < (
    #[trigger] ka[j]).rank() by {
        assert(w[i] == ka[i] && w[j] == ka[j]);
    }
    assert forall|i: int, j: int| 0 <= i < j < kb.len() implies (#[trigger] kb[i]).rank() < (
    #[trigger] kb[j]).rank() by {
        assert(w[n + 1 + i] == kb[i] && w[n + 1 + j] == kb[j]);
    }
    assert forall|i: int| 0 <= i < ka.len() implies (spa.lo is Some ==> spa.lo->0 < (
    #[trigger] ka[i]).rank()) && (spa.hi is Some ==> ka[i].rank() < spa.hi->0) by {
        assert(w[i] == ka[i]);
        assert(w[i].rank() < w[n].rank());
    }
    assert forall|i: int| 0 <= i < kb.len() implies (spb.lo is Some ==> spb.lo->0 < (
    #[trigger] kb[i]).rank()) && (spb.hi is Some ==> kb[i].rank() < spb.hi->0) by {
        assert(w[n + 1 + i] == kb[i]);
        assert(w[n].rank() < w[n + 1 + i].rank());
    }
    assert forall|i: int| 0 <= i < ea.len() implies node_wf(
        #[trigger] ea[i],
        hh,
        MIN_LEN_AFTER_SPLIT as nat,
        child_span(spa, ka, i),
        st,
    ) by {
        assert(e[i] == ea[i]);
        if i > 0 {
            assert(w[i - 1] == ka[i - 1]);
        }
        if i < n {
            assert(w[i] == ka[i]);
        }
        assert(child_span(sp, w, i) == child_span(spa, ka, i));
    }
    assert forall|i: int| 0 <= i < eb.len() implies node_wf(
        #[trigger] eb[i],
        hh,
        MIN_LEN_AFTER_SPLIT as nat,
        child_span(spb, kb, i),
        st,
    ) by {
        assert(e[n + 1 + i] == eb[i]);
        if i > 0 {
            assert(w[n + i] == kb[i - 1]);
        }
        if i < kb.len() {
            assert(w[n + 1 + i] == kb[i]);
        }
        assert(child_span(sp, w, n + 1 + i) == child_span(spb, kb, i));
    }
}

/// Two nodes put together around the separator `up`: the whole is in
/// order for the two spans together.
pub proof fn lemma_inner_glue<K: Key, V>(
    ka: Seq<K>,
    up: K,
    kb: Seq<K>,
    ea: Seq<Node<K>>,
    eb: Seq<Node<K>>,
    hh: nat,
    sp: Span,
    st: NodeStore<K, V>,
)
    requires
        sorted(ka),
        sorted(kb),
        sp.lo is Some ==> sp.lo->0 < up.rank(),
        sp.hi is Some ==> up.rank() < sp.hi->0,
        ea.len() == ka.len() + 1,
        eb.len() == kb.len() + 1,
        keys_inside(ka, Span { lo: sp.lo, hi: Some(up.rank()) }),
        keys_inside(kb, Span { lo: Some(up.rank()), hi: sp.hi }),
        children_wf(ka, ea, hh, Span { lo: sp.lo, hi: Some(up.rank()) }, st),
        children_wf(kb, eb, hh, Span { lo: Some(up.rank()), hi: sp.hi }, st),
    ensures
        sorted(ka.push(up) + kb),
        keys_inside(ka.push(up) + kb, sp),
        children_wf(ka.push(up) + kb, ea + eb, hh, sp, st),
{
    let w = ka.push(up) + kb;
    let e = ea + eb;
    let n = ka.len() as int;
    let spa = Span { lo: sp.lo, hi: Some(up.rank()) };
    let spb = Span { lo: Some(up.rank()), hi: sp.hi };
    if n > 0 {
        assert(ka[n - 1].rank() < up.rank());
    }
    if kb.len() > 0 {
        assert(up.rank() < kb[0].rank());
    }
    lemma_sorted_concat(ka, seq![up]);
    assert(ka.push(up) =~= ka + seq![up]);
    lemma_sorted_concat(ka.push(up), kb);
    assert forall|i: int| 0 <= i < w.len() implies (sp.lo is Some ==> sp.lo->0 < (
    #[trigger] w[i]).rank()) && (sp.hi is Some ==> w[i].rank() < sp.hi->0) by {
        if i < n {
            assert(w[i] == ka[i]);
        } else if i > n {
            assert(w[i] == kb[i - n - 1]);
        }
    }
    assert forall|i: int| 0 <= i < e.len() implies node_wf(
        #[trigger] e[i],
        hh,
        MIN_LEN_AFTER_SPLIT as nat,
        child_span(sp, w, i),
        st,
    ) by {
        if i <= n {
            assert(e[i] == ea[i]);
            if i > 0 {
                assert(w[i - 1] == ka[i - 1]);
            }
            if i < n {
                assert(w[i] == ka[i]);
            } else {
                assert(w[n] == up);
            }
            assert(child_span(sp, w, i) == child_span(spa, ka, i));
        } else {
            let j = i - n - 1;
            assert(e[i] == eb[j]);
            if j > 0 {
                assert(w[i - 1] == kb[j - 1]);
            } else {
                assert(w[i - 1] == up);
            }
            if j < kb.len() {
                assert(w[i] == kb[j]);
            }
            assert(child_span(sp, w, i) == child_span(spb, kb, j));
        }
    }
}

/// A node in which the neighbouring children `j` and `j + 1` were
/// replaced by two children for the same two spans with the separator `s`
/// between them stays in order.
pub proof fn lemma_pair_replaced<K: Key, V>(
    keys: Seq<K>,
    edges: Seq<Node<K>>,
    hh: nat,
    sp: Span,
    j: int,
    left: Node<K>,
    s: K,
    right: Node<K>,
    st: NodeStore<K, V>,
)
    requires
        sorted(keys),
        keys_inside(keys, sp),
        edges.len() == keys.len() + 1,
        0 <= j < keys.len(),
        child_span(sp, keys, j).lo is Some ==> child_span(sp, keys, j).lo->0 < s.rank(),
        child_span(sp, keys, j + 1).hi is Some ==> s.rank() < child_span(sp, keys, j + 1).hi->0,
        forall|i: int|
            0 <= i < edges.len() && i != j && i != j + 1 ==> node_wf(
                #[trigger] edges[i],
                hh,
                MIN_LEN_AFTER_SPLIT as nat,
                child_span(sp, keys, i),
                st,
            ),
        node_wf(
            left,
            hh,
            MIN_LEN_AFTER_SPLIT as nat,
            Span { lo: child_span(sp, keys, j).lo, hi: Some(s.rank()) },
            st,
        ),
        node_wf(
            right,
            hh,
            MIN_LEN_AFTER_SPLIT as nat,
            Span { lo: Some(s.rank()), hi: child_span(sp, keys, j + 1).hi },
            st,
        ),
    ensures
        sorted(keys.update(j, s)),
        keys_inside(keys.update(j, s), sp),
        children_wf(keys.update(j, s), edges.update(j, left).update(j + 1, right), hh, sp, st),
{
    let keys1 = keys.update(j, s);
    let edges1 = edges.update(j, left).update(j + 1, right);
    if j > 0 {
        assert(keys[j - 1].rank() == keys[j - 1].rank());
    }
    if j + 1 < keys.len() {
        assert(keys[j + 1].rank() == keys[j + 1].rank());
    }
    assert forall|x: int, y: int| 0 <= x < y < keys1.len() implies (#[trigger] keys1[x]).rank() < (
    #[trigger] keys1[y]).rank() by {
        if x != j && y != j {
            assert(keys[x].rank() < keys[y].rank());
        } else if x == j {
            if y > j + 1 {
                assert(keys[j + 1].rank() < keys[y].rank());
            }
        } else {
            if x < j - 1 {
                assert(keys[x].rank() < keys[j - 1].rank());
            }
        }
    }
    assert forall|i: int| 0 <= i < keys1.len() implies (sp.lo is Some ==> sp.lo->0 < (
    #[trigger] keys1[i]).rank()) && (sp.hi is Some ==> keys1[i].rank() < sp.hi->0) by {
        if i != j {
            assert(keys1[i] == keys[i]);
        }
    }
    assert forall|i: int| 0 <= i < edges1.len() implies node_wf(
        #[trigger] edges1[i],
        hh,
        MIN_LEN_AFTER_SPLIT as nat,
        child_span(sp, keys1, i),
        st,
    ) by {
        if i != j && i != j + 1 {
            assert(edges1[i] == edges[i]);
            assert(child_span(sp, keys1, i) == child_span(sp, keys, i));
        }
    }
}

/// A node in which the neighbouring children `j` and `j + 1` became one
/// child for the two spans together, their separator taken out, stays in
/// order.
pub proof fn lemma_pair_merged<K: Key, V>(
    keys: Seq<K>,
    edges: Seq<Node<K>>,
    hh: nat,
    sp: Span,
    j: int,
    merged: Node<K>,
    st: NodeStore<K, V>,
)
    requires
        sorted(keys),
        keys_inside(keys, sp),
        edges.len() == keys.len() + 1,
        0 <= j < keys.len(),
        forall|i: int|
            0 <= i < edges.len() && i != j && i != j + 1 ==> node_wf(
                #[trigger] edges[i],
                hh,
                MIN_LEN_AFTER_SPLIT as nat,
                child_span(sp, keys, i),
                st,
            ),
        node_wf(
            merged,
            hh,
            MIN_LEN_AFTER_SPLIT as nat,
            Span { lo: child_span(sp, keys, j).lo, hi: child_span(sp, keys, j + 1).hi },
            st,
        ),
    ensures
        sorted(keys.remove(j)),
        keys_inside(keys.remove(j), sp),
        children_wf(keys.remove(j), edges.remove(j + 1).update(j, merged), hh, sp, st),
{
    let keys1 = keys.remove(j);
    let edges1 = edges.remove(j + 1).update(j, merged);
    assert forall|x: int, y: int| 0 <= x < y < keys1.len() implies (#[trigger] keys1[x]).rank() < (
    #[trigger] keys1[y]).rank() by {
        let ox = if x < j { x } else { x + 1 };
        let oy = if y < j { y } else { y + 1 };
        assert(keys[ox].rank() < keys[oy].rank());
    }
    assert forall|i: int| 0 <= i < keys1.len() implies (sp.lo is Some ==> sp.lo->0 < (
    #[trigger] keys1[i]).rank()) && (sp.hi is Some ==> keys1[i].rank() < sp.hi->0) by {
        let oi = if i < j { i } else { i + 1 };
        assert(keys1[i] == keys[oi]);
    }
    assert forall|i: int| 0 <= i < edges1.len() implies node_wf(
        #[trigger] edges1[i],
        hh,
        MIN_LEN_AFTER_SPLIT as nat,
        child_span(sp, keys1, i),
        st,
    ) by {
        if i < j {
            assert(edges1[i] == edges[i]);
            assert(child_span(sp, keys1, i) == child_span(sp, keys, i));
        } else if i > j {
            assert(edges1[i] == edges[i + 1]);
            assert(child_span(sp, keys1, i) == child_span(sp, keys, i + 1));
        } else {
            assert(child_span(sp, keys1, j) == Span {
                lo: child_span(sp, keys, j).lo,
                hi: child_span(sp, keys, j + 1).hi,
            });
        }
    }
}

/// A span that is not empty and lies within the span of a child other than
/// the children `j` and `j + 1` does not lie within the span of those two
/// together.
pub proof fn lemma_pair_disjoint<K: Key>(keys: Seq<K>, sp: Span, i: int, j: int, a: Span)
    requires
        sorted(keys),
        0 <= i <= keys.len(),
        0 <= j < keys.len(),
        i != j,
        i != j + 1,
        span_ok(a),
        span_within(a, child_span(sp, keys, i)),
    ensures
        !span_within(
            a,
            Span { lo: child_span(sp, keys, j).lo, hi: child_span(sp, keys, j + 1).hi },
        ),
{
    if i < j {
        if i < j - 1 {
            assert(keys[i].rank() < keys[j - 1].rank());
        }
    } else {
        if j + 1 < i - 1 {
            assert(keys[j + 1].rank() < keys[i - 1].rank());
        }
    }
}

/// Two internal siblings whose separators and children were dealt out
/// anew around the separator `s` are well formed for the two halves of
/// their span.
pub proof fn lemma_dealt_inner<K: Key, V>(
    l0: Node<K>,
    d: K,
    r0: Node<K>,
    l1: Node<K>,
    s: K,
    r1: Node<K>,
    h: nat,
    lo: Option<int>,
    hi: Option<int>,
    st: NodeStore<K, V>,
)
    requires
        h > 0,
        lo is Some ==> lo->0 < d.rank(),
        hi is Some ==> d.rank() < hi->0,
        node_wf(l0, h, 0, Span { lo: lo, hi: Some(d.rank()) }, st),
        node_wf(r0, h, 0, Span { lo: Some(d.rank()), hi: hi }, st),
        l0 is Internal,
        r0 is Internal,
        l1 is Internal,
        r1 is Internal,
        l1->Internal_0.keys@.push(s) + r1->Internal_0.keys@ == l0->Internal_0.keys@.push(d)
            + r0->Internal_0.keys@,
        l1->Internal_0.edges@ + r1->Internal_0.edges@ == l0->Internal_0.edges@
            + r0->Internal_0.edges@,
        l1->Internal_0.edges@.len() == l1->Internal_0.keys@.len() + 1,
        r1->Internal_0.edges@.len() == r1->Internal_0.keys@.len() + 1,
        l1->Internal_0.keys@.len() <= MAX_LEN,
        r1->Internal_0.keys@.len() <= MAX_LEN,
    ensures
        lo is Some ==> lo->0 < s.rank(),
        hi is Some ==> s.rank() < hi->0,
        node_wf(l1, h, 0, Span { lo: lo, hi: Some(s.rank()) }, st),
        node_wf(r1, h, 0, Span { lo: Some(s.rank()), hi: hi }, st),
{
    let hh = (h - 1) as nat;
    let a0 = l0->Internal_0;
    let b0 = r0->Internal_0;
    let a1 = l1->Internal_0;
    let b1 = r1->Internal_0;
    let sp = Span { lo: lo, hi: hi };
    lemma_inner_glue(a0.keys@, d, b0.keys@, a0.edges@, b0.edges@, hh, sp, st);
    lemma_inner_cut(a1.keys@, s, b1.keys@, a1.edges@, b1.edges@, hh, sp, st);
}

/// An internal node merged from two siblings and their separator is well
/// formed for their spans together.
pub proof fn lemma_merged_inner<K: Key, V>(
    l0: Node<K>,
    d: K,
    r0: Node<K>,
    m1: Node<K>,
    h: nat,
    lo: Option<int>,
    hi: Option<int>,
    st: NodeStore<K, V>,
)
    requires
        h > 0,
        lo is Some ==> lo->0 < d.rank(),
        hi is Some ==> d.rank() < hi->0,
        node_wf(l0, h, 0, Span { lo: lo, hi: Some(d.rank()) }, st),
        node_wf(r0, h, 0, Span { lo: Some(d.rank()), hi: hi }, st),
        l0 is Internal,
        r0 is Internal,
        m1 is Internal,
        m1->Internal_0.keys@ == l0->Internal_0.keys@.push(d) + r0->Internal_0.keys@,
        m1->Internal_0.edges@ == l0->Internal_0.edges@ + r0->Internal_0.edges@,
        m1->Internal_0.keys@.len() <= MAX_LEN,
    ensures
        node_wf(m1, h, 0, Span { lo: lo, hi: hi }, st),
{
    let hh = (h - 1) as nat;
    let a0 = l0->Internal_0;
    let b0 = r0->Internal_0;
    lemma_inner_glue(a0.keys@, d, b0.keys@, a0.edges@, b0.edges@, hh, Span { lo: lo, hi: hi }, st);
}

impl<K: Key> Node<K> {
    /// A new leaf without entries, still outside any store.
    pub fn new_leaf_boxed<V>() -> (r: Box<LeafNode<K, V>>)
        ensures
            r.keys@.len() == 0,
            r.vals@.len() == 0,
            r.prev is None,
            r.next is None,
    {
        LeafNode::new_boxed()
    }

    /// A new internal node without separators or children.
    pub fn new_internal_boxed() -> (r: Box<InternalNode<K>>)
        ensures
            r.keys@.len() == 0,
            r.edges@.len() == 0,
    {
        InternalNode::new_boxed()
    }

    /// Returns node whether leaf node.
    pub fn is_leaf(&self) -> (r: bool)
        ensures
            r == (*self is Leaf),
    {
        match self {
            Node::Leaf(_) => true,
            Node::Internal(_) => false,
        }
    }

    /// The node as a leaf of the store, or `None` where it is an internal
    /// node.
    pub fn get_leaf<'a, V>(&self, store: &'a NodeStore<K, V>) -> (r: Option<&'a LeafNode<K, V>>)
        requires
            *self is Leaf ==> store.live(self->Leaf_0 as int),
        ensures
            match r {
                Some(l) => *self is Leaf && *l == store.leaf(self->Leaf_0 as int),
                None => *self is Internal,
            },
    {
        match self {
            Node::Leaf(id) => Some(store.get(*id)),
            _ => None,
        }
    }

    /// The node as an internal node, or `None` where it is a leaf.
    pub fn get_internal(&self) -> (r: Option<&InternalNode<K>>)
        ensures
            match r {
                Some(n) => *self == Node::Internal(*n),
                None => *self is Leaf,
            },
    {
        match self {
            Node::Internal(value) => Some(value),
            _ => None,
        }
    }

    /// The number of keys in the node itself.
    pub fn len<V>(&self, store: &NodeStore<K, V>) -> (r: usize)
        requires
            *self is Leaf ==> store.live(self->Leaf_0 as int),
        ensures
            r == node_len(*self, *store),
    {
        match self {
            Node::Leaf(id) => store.leaf_len(*id),
            Node::Internal(internal) => internal.keys.len(),
        }
    }

    /// Whether the node holds fewer keys than a node other than the root
    /// may hold.
    pub fn is_underfull<V>(&self, store: &NodeStore<K, V>) -> (r: bool)
        requires
            *self is Leaf ==> store.live(self->Leaf_0 as int),
        ensures
            r == (node_len(*self, *store) < MIN_LEN_AFTER_SPLIT),
    {
        match self {
            Node::Leaf(id) => store.leaf_len(*id) < (CAPACITY - 1) / 2,
            Node::Internal(internal) => internal.keys.len() < CAPACITY / 2,
        }
    }

    /// Whether a key can be added without the node becoming full.
    pub fn has_spcae_for_insert<V>(&self, store: &NodeStore<K, V>) -> (r: bool)
        requires
            *self is Leaf ==> store.live(self->Leaf_0 as int),
        ensures
            r == (node_len(*self, *store) < MAX_LEN),
    {
        match self {
            Node::Leaf(id) => store.leaf_len(*id) < CAPACITY - 1,
            Node::Internal(internal) => internal.keys.len() < CAPACITY - 1,
        }
    }

    /// Whether a key can be taken away without the node becoming underfull.
    pub fn has_space_for_removal<V>(&self, store: &NodeStore<K, V>) -> (r: bool)
        requires
            *self is Leaf ==> store.live(self->Leaf_0 as int),
        ensures
            r == (node_len(*self, *store) > MIN_LEN_AFTER_SPLIT),
    {
        match self {
            Node::Leaf(id) => store.leaf_len(*id) > (CAPACITY - 1) / 2,
            Node::Internal(internal) => internal.keys.len() > CAPACITY / 2,
        }
    }

    /// The leaf that is responsible for `key`: at each internal node the
    /// descent goes into the first child whose separator is above the key,
    /// or into the last child.
    pub fn find_leaf<V>(
        &self,
        store: &NodeStore<K, V>,
        key: &K,
        Ghost(h): Ghost<nat>,
        Ghost(lo): Ghost<nat>,
        Ghost(sp): Ghost<Span>,
    ) -> (id: usize)
        requires
            node_wf(*self, h, lo, sp, *store),
            span_has(sp, key.rank()),
        ensures
            store.live(id as int),
            span_has(store.span(id as int), key.rank()),
        decreases h,
    {
        match self {
            Node::Leaf(id) => *id,
            Node::Internal(internal) => {
                let idx: usize = internal.route_index(key);
                proof {
                    if idx > 0 {
                        assert(internal.keys@[idx - 1].rank() <= key.rank());
                    }
                }
                internal.edges[idx].find_leaf(
                    store,
                    key,
                    Ghost((h - 1) as nat),
                    Ghost(MIN_LEN_AFTER_SPLIT as nat),
                    Ghost(child_span(sp, internal.keys@, idx as int)),
                )
            },
        }
    }

    /// The first leaf of the subtree: the one for the lowest keys.
    pub fn first_leaf<V>(
        &self,
        store: &NodeStore<K, V>,
        Ghost(h): Ghost<nat>,
        Ghost(lo): Ghost<nat>,
        Ghost(sp): Ghost<Span>,
    ) -> (id: usize)
        requires
            node_wf(*self, h, lo, sp, *store),
        ensures
            store.live(id as int),
            store.span(id as int).lo == sp.lo,
        decreases h,
    {
        match self {
            Node::Leaf(id) => *id,
            Node::Internal(internal) => internal.edges[0].first_leaf(
                store,
                Ghost((h - 1) as nat),
                Ghost(MIN_LEN_AFTER_SPLIT as nat),
                Ghost(child_span(sp, internal.keys@, 0)),
            ),
        }
    }

    /// Looks `key` up in the subtree.
    pub fn search_node<'a, V>(
        &self,
        store: &'a NodeStore<K, V>,
        key: &K,
        Ghost(h): Ghost<nat>,
        Ghost(lo): Ghost<nat>,
        Ghost(sp): Ghost<Span>,
    ) -> (r: Option<&'a V>)
        requires
            store.wf(),
            node_wf(*self, h, lo, sp, *store),
            span_has(sp, key.rank()),
        ensures
            match r {
                Some(v) => lookup(store@, key.rank()) == Some(*v),
                None => lookup(store@, key.rank()) is None,
            },
    {
        let id: usize = self.find_leaf(store, key, Ghost(h), Ghost(lo), Ghost(sp));
        store.search(id, key)
    }

    /// Moves one entry, or one child, from the left sibling to this node.
    /// `discriminator_key` is the separator between the two in their
    /// parent; the separator to put in its place is returned.
    pub fn steal_left<V>(
        &mut self,
        left_node: &mut Node<K>,
        discriminator_key: K,
        store: &mut NodeStore<K, V>,
        Ghost(h): Ghost<nat>,
        Ghost(lo): Ghost<Option<int>>,
        Ghost(hi): Ghost<Option<int>>,
    ) -> (r: Option<K>)
        requires
            old(store).wf(),
            lo is Some ==> lo->0 < discriminator_key.rank(),
            hi is Some ==> discriminator_key.rank() < hi->0,
            node_wf(
                *old(left_node),
                h,
                2,
                Span { lo: lo, hi: Some(discriminator_key.rank()) },
                *old(store),
            ),
            node_wf(
                *old(self),
                h,
                0,
                Span { lo: Some(discriminator_key.rank()), hi: hi },
                *old(store),
            ),
            node_len(*old(self), *old(store)) < MAX_LEN,
        ensures
            r is Some,
            final(store).wf(),
            final(store)@ == old(store)@,
            lo is Some ==> lo->0 < r->0.rank(),
            hi is Some ==> r->0.rank() < hi->0,
            node_wf(*final(left_node), h, 1, Span { lo: lo, hi: Some(r->0.rank()) }, *final(store)),
            node_wf(*final(self), h, 1, Span { lo: Some(r->0.rank()), hi: hi }, *final(store)),
            node_len(*final(self), *final(store)) == node_len(*old(self), *old(store)) + 1,
            node_len(*final(left_node), *final(store)) + 1 == node_len(
                *old(left_node),
                *old(store),
            ),
            same_outside(*old(store), *final(store), Span { lo: lo, hi: hi }),
    {
        let r = match self {
            Node::Leaf(cur) => match left_node {
                Node::Leaf(left) => Some(store.steal_left(*left, *cur)),
                Node::Internal(_) => None,
            },
            Node::Internal(internal) => match left_node {
                Node::Internal(left) => internal.steal_left(left, discriminator_key),
                Node::Leaf(_) => None,
            },
        };
        proof {
            if h > 0 {
                lemma_dealt_inner(
                    *old(left_node),
                    discriminator_key,
                    *old(self),
                    *left_node,
                    r->0,
                    *self,
                    h,
                    lo,
                    hi,
                    *store,
                );
            } else {
                assert forall|id: int| #[trigger]
                    old(store).live(id) && !span_within(
                        old(store).span(id),
                        Span { lo: lo, hi: hi },
                    ) implies store.live(id) && store.span(id) == old(store).span(id)
                    && store.leaf(id).keys@.len() == old(store).leaf(id).keys@.len() by {
                    assert(store.live(id) == old(store).live(id));
                }
            }
        }
        r
    }

    /// Moves one entry, or one child, from the right sibling to this node.
    /// `discriminator_key` is the separator between the two in their
    /// parent; the separator to put in its place is returned.
    pub fn steal_right<V>(
        &mut self,
        right_node: &mut Node<K>,
        discriminator_key: K,
        store: &mut NodeStore<K, V>,
        Ghost(h): Ghost<nat>,
        Ghost(lo): Ghost<Option<int>>,
        Ghost(hi): Ghost<Option<int>>,
    ) -> (r: Option<K>)
        requires
            old(store).wf(),
            lo is Some ==> lo->0 < discriminator_key.rank(),
            hi is Some ==> discriminator_key.rank() < hi->0,
            node_wf(
                *old(self),
                h,
                0,
                Span { lo: lo, hi: Some(discriminator_key.rank()) },
                *old(store),
            ),
            node_wf(
                *old(right_node),
                h,
                2,
                Span { lo: Some(discriminator_key.rank()), hi: hi },
                *old(store),
            ),
            node_len(*old(self), *old(store)) < MAX_LEN,
        ensures
            r is Some,
            final(store).wf(),
            final(store)@ == old(store)@,
            lo is Some ==> lo->0 < r->0.rank(),
            hi is Some ==> r->0.rank() < hi->0,
            node_wf(*final(self), h, 1, Span { lo: lo, hi: Some(r->0.rank()) }, *final(store)),
            node_wf(*final(right_node), h, 1, Span { lo: Some(r->0.rank()), hi: hi }, *final(store)),
            node_len(*final(self), *final(store)) == node_len(*old(self), *old(store)) + 1,
            node_len(*final(right_node), *final(store)) + 1 == node_len(
                *old(right_node),
                *old(store),
            ),
            same_outside(*old(store), *final(store), Span { lo: lo, hi: hi }),
    {
        let r = match self {
            Node::Leaf(cur) => match right_node {
                Node::Leaf(right) => Some(store.steal_right(*cur, *right)),
                Node::Internal(_) => None,
            },
            Node::Internal(internal) => match right_node {
                Node::Internal(right) => internal.steal_right(right, discriminator_key),
                Node::Leaf(_) => None,
            },
        };
        proof {
            if h > 0 {
                lemma_dealt_inner(
                    *old(self),
                    discriminator_key,
                    *old(right_node),
                    *self,
                    r->0,
                    *right_node,
                    h,
                    lo,
                    hi,
                    *store,
                );
            } else {
                assert forall|id: int| #[trigger]
                    old(store).live(id) && !span_within(
                        old(store).span(id),
                        Span { lo: lo, hi: hi },
                    ) implies store.live(id) && store.span(id) == old(store).span(id)
                    && store.leaf(id).keys@.len() == old(store).leaf(id).keys@.len() by {
                    assert(store.live(id) == old(store).live(id));
                }
            }
        }
        r
    }

    /// Moves everything that the right sibling holds to this node, with
    /// `discriminator_key`, the separator between the two in their parent,
    /// in the middle where the nodes are internal. A right sibling that is
    /// a leaf leaves the store; one that is internal is left empty.
    pub fn merge<V>(
        &mut self,
        right_node: &mut Node<K>,
        discriminator_key: K,
        store: &mut NodeStore<K, V>,
        Ghost(h): Ghost<nat>,
        Ghost(lo): Ghost<Option<int>>,
        Ghost(hi): Ghost<Option<int>>,
    )
        requires
            old(store).wf(),
            lo is Some ==> lo->0 < discriminator_key.rank(),
            hi is Some ==> discriminator_key.rank() < hi->0,
            node_wf(
                *old(self),
                h,
                0,
                Span { lo: lo, hi: Some(discriminator_key.rank()) },
                *old(store),
            ),
            node_wf(
                *old(right_node),
                h,
                0,
                Span { lo: Some(discriminator_key.rank()), hi: hi },
                *old(store),
            ),
            node_len(*old(self), *old(store)) + node_len(*old(right_node), *old(store)) + (if h
                == 0 {
                0int
            } else {
                1int
            }) <= MAX_LEN,
        ensures
            final(store).wf(),
            final(store)@ == old(store)@,
            node_wf(*final(self), h, 0, Span { lo: lo, hi: hi }, *final(store)),
            node_len(*final(self), *final(store)) == node_len(*old(self), *old(store)) + node_len(
                *old(right_node),
                *old(store),
            ) + (if h == 0 {
                0int
            } else {
                1int
            }),
            same_outside(*old(store), *final(store), Span { lo: lo, hi: hi }),
    {
        match self {
            Node::Leaf(cur) => match right_node {
                Node::Leaf(right) => {
                    store.merge(*cur, *right);
                },
                Node::Internal(_) => {},
            },
            Node::Internal(internal) => match right_node {
                Node::Internal(right) => internal.merge(right, discriminator_key),
                Node::Leaf(_) => {},
            },
        }
        proof {
            if h > 0 {
                lemma_merged_inner(
                    *old(self),
                    discriminator_key,
                    *old(right_node),
                    *self,
                    h,
                    lo,
                    hi,
                    *store,
                );
            } else {
                let a = old(self)->Leaf_0 as int;
                let b = old(right_node)->Leaf_0 as int;
                let p = choose|p: int| old(store).merged_into(store, a, b, p);
                assert forall|id: int| #[trigger]
                    old(store).live(id) && !span_within(
                        old(store).span(id),
                        Span { lo: lo, hi: hi },
                    ) implies store.live(id) && store.span(id) == old(store).span(id)
                    && store.leaf(id).keys@.len() == old(store).leaf(id).keys@.len() by {
                    assert(store.live(id) == old(store).live(id));
                }
            }
        }
    }
}

/// Whether `n` is an internal node of height `h` for the span `sp` that is
/// well formed but for child `idx`, which may hold one key less than a
/// child should.
pub open spec fn loose_wf<K: Key, V>(
    n: InternalNode<K>,
    h: nat,
    sp: Span,
    idx: int,
    st: NodeStore<K, V>,
) -> bool {
    &&& h > 0
    &&& n.edges@.len() == n.keys@.len() + 1
    &&& sorted(n.keys@)
    &&& 1 <= n.keys@.len() <= MAX_LEN
    &&& keys_inside(n.keys@, sp)
    &&& forall|i: int|
        0 <= i < n.edges@.len() ==> node_wf(
            #[trigger] n.edges@[i],
            (h - 1) as nat,
            if i == idx {
                (MIN_LEN_AFTER_SPLIT - 1) as nat
            } else {
                MIN_LEN_AFTER_SPLIT as nat
            },
            child_span(sp, n.keys@, i),
            st,
        )
}

/// The span of the neighbouring children `j` and `j + 1` together.
pub open spec fn pair_span<K: Key>(sp: Span, keys: Seq<K>, j: int) -> Span {
    Span { lo: child_span(sp, keys, j).lo, hi: child_span(sp, keys, j + 1).hi }
}

/// The children other than `j` and `j + 1` stay well formed where the
/// leaves outside the span of those two stay what they are.
pub proof fn lemma_others_frame<K: Key, V>(
    keys: Seq<K>,
    edges: Seq<Node<K>>,
    hh: nat,
    sp: Span,
    j: int,
    st: NodeStore<K, V>,
    st2: NodeStore<K, V>,
    i: int,
)
    requires
        sorted(keys),
        keys_inside(keys, sp),
        span_ok(sp),
        edges.len() == keys.len() + 1,
        0 <= j < keys.len(),
        0 <= i < edges.len(),
        i != j,
        i != j + 1,
        st.order_ok(),
        st.spans_ok(),
        node_wf(edges[i], hh, MIN_LEN_AFTER_SPLIT as nat, child_span(sp, keys, i), st),
        same_outside(st, st2, pair_span(sp, keys, j)),
    ensures
        node_wf(edges[i], hh, MIN_LEN_AFTER_SPLIT as nat, child_span(sp, keys, i), st2),
{
    let cs = child_span(sp, keys, i);
    lemma_child_span(keys, sp, i);
    assert(same_within(st, st2, cs)) by {
        assert forall|id: int| #[trigger] st.live(id) && span_within(st.span(id), cs) implies st2.live(
            id,
        ) && st2.span(id) == st.span(id) && st2.leaf(id).keys@.len() == st.leaf(id).keys@.len() by {
            st.lemma_live_span(id);
            lemma_pair_disjoint(keys, sp, i, j, st.span(id));
        }
    }
    lemma_frame(edges[i], hh, MIN_LEN_AFTER_SPLIT as nat, cs, st, st2);
}

/// What stays the same outside a span stays the same outside a span
/// around it, and what stays the same through two steps stays the same.
pub proof fn lemma_outside<K: Key, V>(
    st: NodeStore<K, V>,
    st2: NodeStore<K, V>,
    inner: Span,
    outer: Span,
)
    requires
        same_outside(st, st2, inner),
        span_within(inner, outer),
    ensures
        same_outside(st, st2, outer),
{
    assert forall|id: int| #[trigger] st.live(id) && !span_within(st.span(id), outer) implies st2.live(
        id,
    ) && st2.span(id) == st.span(id) && st2.leaf(id).keys@.len() == st.leaf(id).keys@.len() by {
        if span_within(st.span(id), inner) {
            assert(span_within(st.span(id), outer));
        }
    }
}

/// What stays the same outside a span through two steps stays the same
/// through both.
pub proof fn lemma_outside_twice<K: Key, V>(
    st: NodeStore<K, V>,
    st2: NodeStore<K, V>,
    st3: NodeStore<K, V>,
    sp: Span,
)
    requires
        same_outside(st, st2, sp),
        same_outside(st2, st3, sp),
    ensures
        same_outside(st, st3, sp),
{
    assert forall|id: int| #[trigger] st.live(id) && !span_within(st.span(id), sp) implies st3.live(
        id,
    ) && st3.span(id) == st.span(id) && st3.leaf(id).keys@.len() == st.leaf(id).keys@.len() by {
        assert(st2.live(id));
    }
}

impl<K: Key> InternalNode<K> {
    /// Child `idx` takes one entry from its left neighbour.
    fn rebalance_from_left<V>(
        &mut self,
        store: &mut NodeStore<K, V>,
        idx: usize,
        Ghost(h): Ghost<nat>,
        Ghost(sp): Ghost<Span>,
    )
        requires
            old(store).wf(),
            span_ok(sp),
            loose_wf(*old(self), h, sp, idx as int, *old(store)),
            0 < idx < old(self).edges@.len(),
            node_len(old(self).edges@[idx as int], *old(store)) == MIN_LEN_AFTER_SPLIT - 1,
            node_len(old(self).edges@[idx - 1], *old(store)) > MIN_LEN_AFTER_SPLIT,
        ensures
            final(store).wf(),
            final(store)@ == old(store)@,
            node_wf(Node::Internal(*final(self)), h, 0, sp, *final(store)),
            final(self).keys@.len() == old(self).keys@.len(),
            same_outside(*old(store), *final(store), sp),
    {
        let ghost hh = (h - 1) as nat;
        let ghost keys0 = self.keys@;
        let ghost edges0 = self.edges@;
        let ghost min = MIN_LEN_AFTER_SPLIT as nat;
        let j: usize = idx - 1;
        let d: K = self.keys[j];
        let ghost ps = pair_span(sp, keys0, j as int);
        proof {
            lemma_child_span(keys0, sp, j as int);
            lemma_child_span(keys0, sp, idx as int);
            assert(node_wf(edges0[idx as int], hh, (min - 1) as nat, child_span(sp, keys0, idx as int), *store));
            lemma_wf_bound(edges0[idx as int], hh, (min - 1) as nat, 0, child_span(sp, keys0, idx as int), *store);
            assert(node_wf(edges0[j as int], hh, min, child_span(sp, keys0, j as int), *store));
            lemma_wf_bound(edges0[j as int], hh, min, 2, child_span(sp, keys0, j as int), *store);
        }
        let mut cur = self.edges.remove(idx);
        let mut left = self.edges.remove(j);
        let s = cur.steal_left(&mut left, d, store, Ghost(hh), Ghost(ps.lo), Ghost(ps.hi));
        match s {
            Some(ns) => {
                self.keys[j] = ns;
            },
            None => {},
        }
        let ghost left1 = left;
        let ghost cur1 = cur;
        self.edges.insert(j, left);
        self.edges.insert(idx, cur);
        proof {
            let ns = s->0;
            assert(self.keys@ =~= keys0.update(j as int, ns));
            assert(self.edges@ =~= edges0.update(j as int, left1).update(idx as int, cur1));
            lemma_wf_bound(left1, hh, 1, min, Span { lo: ps.lo, hi: Some(ns.rank()) }, *store);
            lemma_wf_bound(cur1, hh, 1, min, Span { lo: Some(ns.rank()), hi: ps.hi }, *store);
            assert forall|i: int| 0 <= i < edges0.len() && i != j && i != j + 1 implies node_wf(
                #[trigger] edges0[i],
                hh,
                min,
                child_span(sp, keys0, i),
                *store,
            ) by {
                lemma_others_frame(keys0, edges0, hh, sp, j as int, *old(store), *store, i);
            }
            lemma_pair_replaced(keys0, edges0, hh, sp, j as int, left1, ns, cur1, *store);
            lemma_outside(*old(store), *store, ps, sp);
        }
    }

    /// Child `idx` takes one entry from its right neighbour.
    fn rebalance_from_right<V>(
        &mut self,
        store: &mut NodeStore<K, V>,
        idx: usize,
        Ghost(h): Ghost<nat>,
        Ghost(sp): Ghost<Span>,
    )
        requires
            old(store).wf(),
            span_ok(sp),
            loose_wf(*old(self), h, sp, idx as int, *old(store)),
            idx + 1 < old(self).edges@.len(),
            node_len(old(self).edges@[idx as int], *old(store)) == MIN_LEN_AFTER_SPLIT - 1,
            node_len(old(self).edges@[idx + 1], *old(store)) > MIN_LEN_AFTER_SPLIT,
        ensures
            final(store).wf(),
            final(store)@ == old(store)@,
            node_wf(Node::Internal(*final(self)), h, 0, sp, *final(store)),
            final(self).keys@.len() == old(self).keys@.len(),
            same_outside(*old(store), *final(store), sp),
    {
        let ghost hh = (h - 1) as nat;
        let ghost keys0 = self.keys@;
        let ghost edges0 = self.edges@;
        let ghost min = MIN_LEN_AFTER_SPLIT as nat;
        let d: K = self.keys[idx];
        let ghost ps = pair_span(sp, keys0, idx as int);
        proof {
            lemma_child_span(keys0, sp, idx as int);
            lemma_child_span(keys0, sp, idx + 1);
            assert(node_wf(edges0[idx as int], hh, (min - 1) as nat, child_span(sp, keys0, idx as int), *store));
            lemma_wf_bound(edges0[idx as int], hh, (min - 1) as nat, 0, child_span(sp, keys0, idx as int), *store);
            assert(node_wf(edges0[idx + 1], hh, min, child_span(sp, keys0, idx + 1), *store));
            lemma_wf_bound(edges0[idx + 1], hh, min, 2, child_span(sp, keys0, idx + 1), *store);
        }
        let mut right = self.edges.remove(idx + 1);
        let mut cur = self.edges.remove(idx);
        let s = cur.steal_right(&mut right, d, store, Ghost(hh), Ghost(ps.lo), Ghost(ps.hi));
        match s {
            Some(ns) => {
                self.keys[idx] = ns;
            },
            None => {},
        }
        let ghost right1 = right;
        let ghost cur1 = cur;
        self.edges.insert(idx, cur);
        self.edges.insert(idx + 1, right);
        proof {
            let ns = s->0;
            assert(self.keys@ =~= keys0.update(idx as int, ns));
            assert(self.edges@ =~= edges0.update(idx as int, cur1).update(idx + 1, right1));
            lemma_wf_bound(cur1, hh, 1, min, Span { lo: ps.lo, hi: Some(ns.rank()) }, *store);
            lemma_wf_bound(right1, hh, 1, min, Span { lo: Some(ns.rank()), hi: ps.hi }, *store);
            assert forall|i: int| 0 <= i < edges0.len() && i != idx && i != idx + 1 implies node_wf(
                #[trigger] edges0[i],
                hh,
                min,
                child_span(sp, keys0, i),
                *store,
            ) by {
                lemma_others_frame(keys0, edges0, hh, sp, idx as int, *old(store), *store, i);
            }
            lemma_pair_replaced(keys0, edges0, hh, sp, idx as int, cur1, ns, right1, *store);
            lemma_outside(*old(store), *store, ps, sp);
        }
    }

    /// Children `j` and `j + 1`, one of them underfull and the other at its
    /// least size, become one child, and their separator leaves this node.
    fn rebalance_merge<V>(
        &mut self,
        store: &mut NodeStore<K, V>,
        j: usize,
        Ghost(h): Ghost<nat>,
        Ghost(sp): Ghost<Span>,
        Ghost(idx): Ghost<int>,
    )
        requires
            old(store).wf(),
            span_ok(sp),
            loose_wf(*old(self), h, sp, idx, *old(store)),
            j < old(self).keys@.len(),
            idx == j || idx == j + 1,
            node_len(old(self).edges@[j as int], *old(store)) + node_len(
                old(self).edges@[j + 1],
                *old(store),
            ) == 2 * MIN_LEN_AFTER_SPLIT - 1,
        ensures
            final(store).wf(),
            final(store)@ == old(store)@,
            node_wf(Node::Internal(*final(self)), h, 0, sp, *final(store)),
            final(self).keys@.len() + 1 == old(self).keys@.len(),
            same_outside(*old(store), *final(store), sp),
    {
        let ghost hh = (h - 1) as nat;
        let ghost keys0 = self.keys@;
        let ghost edges0 = self.edges@;
        let ghost min = MIN_LEN_AFTER_SPLIT as nat;
        let ghost ps = pair_span(sp, keys0, j as int);
        proof {
            lemma_child_span(keys0, sp, j as int);
            lemma_child_span(keys0, sp, j + 1);
            assert(node_wf(edges0[j as int], hh, if j == idx {
                (min - 1) as nat
            } else {
                min
            }, child_span(sp, keys0, j as int), *store));
            assert(node_wf(edges0[j + 1], hh, if j + 1 == idx {
                (min - 1) as nat
            } else {
                min
            }, child_span(sp, keys0, j + 1), *store));
            lemma_wf_bound(edges0[j as int], hh, (min - 1) as nat, 0, child_span(sp, keys0, j as int), *store);
            lemma_wf_bound(edges0[j + 1], hh, (min - 1) as nat, 0, child_span(sp, keys0, j + 1), *store);
        }
        let (d, mut right) = self.remove_internal(j);
        self.edges[j].merge(&mut right, d, store, Ghost(hh), Ghost(ps.lo), Ghost(ps.hi));
        proof {
            let merged = self.edges@[j as int];
            assert(self.keys@ =~= keys0.remove(j as int));
            assert(self.edges@ =~= edges0.remove(j + 1).update(j as int, merged));
            lemma_wf_bound(merged, hh, 0, min, ps, *store);
            assert forall|i: int| 0 <= i < edges0.len() && i != j && i != j + 1 implies node_wf(
                #[trigger] edges0[i],
                hh,
                min,
                child_span(sp, keys0, i),
                *store,
            ) by {
                lemma_others_frame(keys0, edges0, hh, sp, j as int, *old(store), *store, i);
            }
            lemma_pair_merged(keys0, edges0, hh, sp, j as int, merged, *store);
            lemma_outside(*old(store), *store, ps, sp);
        }
    }

    /// Brings the underfull child `idx` back to its least size: it takes
    /// one entry from a neighbour that can spare one, the left one first,
    /// or else it is merged with a neighbour, the left one where there is
    /// one, and their separator leaves this node.
    pub fn rebalance_child<V>(
        &mut self,
        store: &mut NodeStore<K, V>,
        idx: usize,
        Ghost(h): Ghost<nat>,
        Ghost(sp): Ghost<Span>,
    )
        requires
            old(store).wf(),
            span_ok(sp),
            loose_wf(*old(self), h, sp, idx as int, *old(store)),
            idx < old(self).edges@.len(),
            node_len(old(self).edges@[idx as int], *old(store)) == MIN_LEN_AFTER_SPLIT - 1,
        ensures
            final(store).wf(),
            final(store)@ == old(store)@,
            node_wf(Node::Internal(*final(self)), h, 0, sp, *final(store)),
            final(self).keys@.len() == if (idx > 0 && node_len(
                old(self).edges@[idx - 1],
                *old(store),
            ) > MIN_LEN_AFTER_SPLIT) || (idx < old(self).keys@.len() && node_len(
                old(self).edges@[idx + 1],
                *old(store),
            ) > MIN_LEN_AFTER_SPLIT) {
                old(self).keys@.len() as int
            } else {
                old(self).keys@.len() - 1
            },
            same_outside(*old(store), *final(store), sp),
    {
        let n: usize = self.keys.len();
        let ghost hh = (h - 1) as nat;
        let ghost min = MIN_LEN_AFTER_SPLIT as nat;
        proof {
            if idx > 0 {
                assert(node_wf(self.edges@[idx - 1], hh, min, child_span(sp, self.keys@, idx - 1), *store));
            }
            if idx < n {
                assert(node_wf(self.edges@[idx + 1], hh, min, child_span(sp, self.keys@, idx + 1), *store));
            }
        }
        if idx > 0 && self.edges[idx - 1].has_space_for_removal(store) {
            self.rebalance_from_left(store, idx, Ghost(h), Ghost(sp));
        } else if idx < n && self.edges[idx + 1].has_space_for_removal(store) {
            self.rebalance_from_right(store, idx, Ghost(h), Ghost(sp));
        } else if idx > 0 {
            self.rebalance_merge(store, idx - 1, Ghost(h), Ghost(sp), Ghost(idx as int));
        } else {
            self.rebalance_merge(store, idx, Ghost(h), Ghost(sp), Ghost(idx as int));
        }
    }
}

impl<K: Key> Node<K> {
    /// Inserts the entry into the subtree, or replaces the value where the
    /// key is there already. Returns the value replaced and, where this
    /// node was split, the separator with the new right sibling.
    pub fn insert_node<V>(
        &mut self,
        store: &mut NodeStore<K, V>,
        key: K,
        val: V,
        Ghost(h): Ghost<nat>,
        Ghost(lo): Ghost<nat>,
        Ghost(sp): Ghost<Span>,
    ) -> (r: (Option<V>, Option<(K, Node<K>)>))
        requires
            old(store).wf(),
            span_ok(sp),
            node_wf(*old(self), h, lo, sp, *old(store)),
            span_has(sp, key.rank()),
        ensures
            final(store).wf(),
            final(store)@ == old(store)@.insert(key.rank(), val),
            r.0 == lookup(old(store)@, key.rank()),
            same_outside(*old(store), *final(store), sp),
            r.1 is Some ==> node_len(*old(self), *old(store)) == MAX_LEN,
            match r.1 {
                None => node_wf(*final(self), h, lo, sp, *final(store)),
                Some((s, right)) => {
                    &&& sp.lo is Some ==> sp.lo->0 < s.rank()
                    &&& sp.hi is Some ==> s.rank() < sp.hi->0
                    &&& node_wf(
                        *final(self),
                        h,
                        MIN_LEN_AFTER_SPLIT as nat,
                        Span { lo: sp.lo, hi: Some(s.rank()) },
                        *final(store),
                    )
                    &&& node_wf(
                        right,
                        h,
                        MIN_LEN_AFTER_SPLIT as nat,
                        Span { lo: Some(s.rank()), hi: sp.hi },
                        *final(store),
                    )
                },
            },
        decreases h,
    {
        let ghost hh = (h - 1) as nat;
        let ghost min = MIN_LEN_AFTER_SPLIT as nat;
        match self {
            Node::Leaf(id) => {
                let (old_val, split) = store.insert(*id, key, val);
                proof {
                    assert forall|j: int| #[trigger]
                        old(store).live(j) && !span_within(old(store).span(j), sp) implies store.live(
                        j,
                    ) && store.span(j) == old(store).span(j) && store.leaf(j).keys@.len() == old(
                        store,
                    ).leaf(j).keys@.len() by {
                        assert(j != *id);
                    }
                }
                match split {
                    Some((s, y)) => (old_val, Some((s, Node::Leaf(y)))),
                    None => (old_val, None),
                }
            },
            Node::Internal(internal) => {
                let ghost keys0 = internal.keys@;
                let ghost edges0 = internal.edges@;
                let idx: usize = internal.route_index(&key);
                let ghost cs = child_span(sp, keys0, idx as int);
                proof {
                    lemma_child_span(keys0, sp, idx as int);
                    assert(node_wf(edges0[idx as int], hh, min, cs, *old(store)));
                }
                let (old_val, split) = internal.edges[idx].insert_node(
                    store,
                    key,
                    val,
                    Ghost(hh),
                    Ghost(min),
                    Ghost(cs),
                );
                let ghost edges1 = internal.edges@;
                let ghost left1 = edges1[idx as int];
                proof {
                    assert(edges1 =~= edges0.update(idx as int, left1));
                    assert forall|i: int| 0 <= i < edges0.len() && i != idx implies node_wf(
                        #[trigger] edges0[i],
                        hh,
                        min,
                        child_span(sp, keys0, i),
                        *store,
                    ) by {
                        lemma_siblings_frame(
                            keys0,
                            edges0,
                            hh,
                            sp,
                            idx as int,
                            *old(store),
                            *store,
                            i,
                        );
                    }
                    lemma_outside(*old(store), *store, cs, sp);
                }
                match split {
                    None => {
                        proof {
                            assert forall|i: int| 0 <= i < edges1.len() implies node_wf(
                                #[trigger] edges1[i],
                                hh,
                                min,
                                child_span(sp, keys0, i),
                                *store,
                            ) by {
                                if i != idx {
                                    assert(edges1[i] == edges0[i]);
                                }
                            }
                        }
                        (old_val, None)
                    },
                    Some((s, right)) => {
                        let ghost right1 = right;
                        let ghost edges_x = edges1.insert(idx + 1, right1);
                        proof {
                            lemma_children_split(
                                keys0,
                                edges0,
                                hh,
                                sp,
                                idx as int,
                                left1,
                                s,
                                right1,
                                *store,
                            );
                            lemma_route(keys0, s.rank());
                            assert(edges_x =~= edges0.update(idx as int, left1).insert(
                                idx + 1,
                                right1,
                            ));
                        }
                        let (up, sibling) = internal.insert_internal(s, right);
                        match sibling {
                            Some(b) => match up {
                                Some(u) => {
                                    proof {
                                        lemma_inner_cut(
                                            internal.keys@,
                                            u,
                                            b.keys@,
                                            internal.edges@,
                                            b.edges@,
                                            hh,
                                            sp,
                                            *store,
                                        );
                                    }
                                    (old_val, Some((u, Node::Internal(*b))))
                                },
                                None => (old_val, None),
                            },
                            None => (old_val, None),
                        }
                    },
                }
            },
        }
    }

    /// Takes the entry of `key` out of the subtree and brings a child that
    /// became underfull back to its least size. Returns the value taken
    /// out, or `None` where the key is absent.
    pub fn remove_node<V>(
        &mut self,
        store: &mut NodeStore<K, V>,
        key: &K,
        Ghost(h): Ghost<nat>,
        Ghost(lo): Ghost<nat>,
        Ghost(sp): Ghost<Span>,
    ) -> (r: Option<V>)
        requires
            old(store).wf(),
            span_ok(sp),
            node_wf(*old(self), h, lo, sp, *old(store)),
            span_has(sp, key.rank()),
            *old(self) is Internal ==> node_len(*old(self), *old(store)) >= 1,
        ensures
            final(store).wf(),
            final(store)@ == old(store)@.remove(key.rank()),
            r == lookup(old(store)@, key.rank()),
            node_wf(*final(self), h, 0, sp, *final(store)),
            node_len(*final(self), *final(store)) <= node_len(*old(self), *old(store))
                <= node_len(*final(self), *final(store)) + 1,
            same_outside(*old(store), *final(store), sp),
        decreases h,
    {
        let ghost hh = (h - 1) as nat;
        let ghost min = MIN_LEN_AFTER_SPLIT as nat;
        match self {
            Node::Leaf(id) => {
                let r = store.remove(*id, key);
                proof {
                    assert forall|j: int| #[trigger]
                        old(store).live(j) && !span_within(old(store).span(j), sp) implies store.live(
                        j,
                    ) && store.span(j) == old(store).span(j) && store.leaf(j).keys@.len() == old(
                        store,
                    ).leaf(j).keys@.len() by {
                        assert(j != *id);
                        assert(store.live(j) == old(store).live(j));
                    }
                }
                r
            },
            Node::Internal(internal) => {
                let ghost keys0 = internal.keys@;
                let ghost edges0 = internal.edges@;
                let idx: usize = internal.route_index(key);
                let ghost cs = child_span(sp, keys0, idx as int);
                proof {
                    lemma_child_span(keys0, sp, idx as int);
                    assert(node_wf(edges0[idx as int], hh, min, cs, *old(store)));
                }
                let r = internal.edges[idx].remove_node(
                    store,
                    key,
                    Ghost(hh),
                    Ghost(min),
                    Ghost(cs),
                );
                let ghost mid = *store;
                let ghost edges1 = internal.edges@;
                let ghost child1 = edges1[idx as int];
                proof {
                    assert(edges1 =~= edges0.update(idx as int, child1));
                    assert forall|i: int| 0 <= i < edges0.len() && i != idx implies node_wf(
                        #[trigger] edges0[i],
                        hh,
                        min,
                        child_span(sp, keys0, i),
                        *store,
                    ) by {
                        lemma_siblings_frame(
                            keys0,
                            edges0,
                            hh,
                            sp,
                            idx as int,
                            *old(store),
                            *store,
                            i,
                        );
                    }
                    lemma_outside(*old(store), *store, cs, sp);
                    lemma_wf_bound(child1, hh, 0, node_len(child1, *store), cs, *store);
                    assert forall|i: int| 0 <= i < edges1.len() implies node_wf(
                        #[trigger] edges1[i],
                        hh,
                        if i == idx {
                            (min - 1) as nat
                        } else {
                            min
                        },
                        child_span(sp, keys0, i),
                        *store,
                    ) by {
                        if i != idx {
                            assert(edges1[i] == edges0[i]);
                        } else {
                            lemma_wf_bound(child1, hh, 0, (min - 1) as nat, cs, *store);
                        }
                    }
                }
                if internal.edges[idx].is_underfull(store) {
                    internal.rebalance_child(store, idx, Ghost(h), Ghost(sp));
                    proof {
                        lemma_outside_twice(*old(store), mid, *store, sp);
                    }
                } else {
                    proof {
                        lemma_wf_bound(child1, hh, 0, min, cs, *store);
                        assert forall|i: int| 0 <= i < edges1.len() implies node_wf(
                            #[trigger] edges1[i],
                            hh,
                            min,
                            child_span(sp, keys0, i),
                            *store,
                        ) by {
                            if i != idx {
                                assert(edges1[i] == edges0[i]);
                            }
                        }
                    }
                }
                r
            },
        }
    }
}

/// The node reached from `node` by going down the children named by
/// `path`, one index for each level.
pub open spec fn descend<K: Key>(node: Node<K>, path: Seq<int>) -> Option<Node<K>>
    decreases path.len(),
{
    if path.len() == 0 {
        Some(node)
    } else {
        match node {
            Node::Leaf(_) => None,
            Node::Internal(n) => if 0 <= path[0] < n.edges@.len() {
                descend(n.edges@[path[0]], path.drop_first())
            } else {
                None
            },
        }
    }
}

/// In a well-formed tree of height `h` every leaf is at depth `h` and
/// nothing lies deeper, and every node but the root holds at least
/// `MIN_LEN_AFTER_SPLIT` keys and at most `MAX_LEN`.
pub proof fn law_balanced<K: Key, V>(
    root: Node<K>,
    h: nat,
    lo: nat,
    sp: Span,
    st: NodeStore<K, V>,
    path: Seq<int>,
)
    requires
        node_wf(root, h, lo, sp, st),
        descend(root, path) is Some,
    ensures
        path.len() <= h,
        descend(root, path)->0 is Leaf <==> path.len() == h,
        path.len() > 0 ==> MIN_LEN_AFTER_SPLIT <= node_len(descend(root, path)->0, st) <= MAX_LEN,
    decreases path.len(),
{
    if path.len() > 0 {
        match root {
            Node::Leaf(_) => {},
            Node::Internal(n) => {
                let child = n.edges@[path[0]];
                let rest = path.drop_first();
                let cs = child_span(sp, n.keys@, path[0]);
                assert(node_wf(child, (h - 1) as nat, MIN_LEN_AFTER_SPLIT as nat, cs, st));
                law_balanced(child, (h - 1) as nat, MIN_LEN_AFTER_SPLIT as nat, cs, st, rest);
                if rest.len() == 0 {
                    assert(descend(root, path) == Some(child));
                }
            },
        }
    }
}

/// The leaves of a well-formed subtree of height `h` take up more than `h`
/// places of the chain: the first of them starts the span of the subtree
/// and the last one ends it.
pub proof fn lemma_leaves_across<K: Key, V>(
    node: Node<K>,
    h: nat,
    lo: nat,
    sp: Span,
    st: NodeStore<K, V>,
) -> (pq: (int, int))
    requires
        st.order_ok(),
        st.spans_ok(),
        node_wf(node, h, lo, sp, st),
        node is Internal ==> node_len(node, st) >= 1,
    ensures
        0 <= pq.0,
        pq.0 + h <= pq.1,
        pq.1 < st.order@.len(),
        st.span(st.at(pq.0)).lo == sp.lo,
        st.span(st.at(pq.1)).hi == sp.hi,
    decreases h,
{
    match node {
        Node::Leaf(id) => {
            let p = st.lemma_place(id as int);
            (p, p)
        },
        Node::Internal(n) => {
            let hh = (h - 1) as nat;
            let last = n.keys@.len() as int;
            let min = MIN_LEN_AFTER_SPLIT as nat;
            assert(node_wf(n.edges@[0], hh, min, child_span(sp, n.keys@, 0), st));
            assert(node_wf(n.edges@[last], hh, min, child_span(sp, n.keys@, last), st));
            let a = lemma_leaves_across(n.edges@[0], hh, min, child_span(sp, n.keys@, 0), st);
            let b = lemma_leaves_across(
                n.edges@[last],
                hh,
                min,
                child_span(sp, n.keys@, last),
                st,
            );
            if last > 1 {
                assert(n.keys@[0].rank() < n.keys@[last - 1].rank());
            }
            st.lemma_earlier(a.1, b.0);
            (a.0, b.1)
        },
    }
}

} // verus!
