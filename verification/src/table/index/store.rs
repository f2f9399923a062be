//! The node store: the leaves of a tree in slots with stable handles, and
//! the chain that links them in key order.
use vstd::prelude::*;
use crate::table::index::key::Key;
use crate::table::index::node::leaf::LeafNode;
use crate::table::index::node::lookup;
use crate::table::index::order::{
    all_below,
    all_from,
    joined,
    leaf_map,
    lemma_leaf_at,
    lemma_leaf_rebalance,
    lemma_leaf_split,
    lemma_sorted_concat,
    sorted,
};
use crate::table::index::span::{
    full_span,
    lemma_span_halves,
    lemma_span_joined,
    restricted,
    span_has,
    span_ok,
    Span,
};
use crate::table::index::{CAPACITY, MAX_LEN};

verus! {

/// Whether the leaf `l` is in order and holds exactly the part of `m` in
/// the span `s`.
pub open spec fn leaf_ok<K: Key, V>(l: LeafNode<K, V>, s: Span, m: Map<int, V>) -> bool {
    &&& l.keys@.len() == l.vals@.len()
    &&& sorted(l.keys@)
    &&& l.keys@.len() <= MAX_LEN
    &&& leaf_map(l.keys@, l.vals@) == restricted(m, s)
}

/// The leaves of one tree. A leaf lives in a slot and is known by the index
/// of the slot, its handle, for as long as it lives. A slot that is free
/// is listed in `free` and is taken again before a new one is made.
pub struct NodeStore<K, V> {
    pub slots: Vec<Option<LeafNode<K, V>>>,
    pub free: Vec<usize>,
    /// The span of ranks that each leaf is responsible for.
    pub spans: Ghost<Seq<Span>>,
    /// The handles of the leaves in key order.
    pub order: Ghost<Seq<usize>>,
}

impl<K: Key, V> NodeStore<K, V> {
    /// Whether `id` is the handle of a leaf.
    pub open spec fn live(&self, id: int) -> bool {
        0 <= id < self.slots@.len() && self.slots@[id] is Some
    }

    /// The leaf with the handle `id`.
    pub open spec fn leaf(&self, id: int) -> LeafNode<K, V> {
        self.slots@[id]->0
    }

    /// The span of the leaf with the handle `id`.
    pub open spec fn span(&self, id: int) -> Span {
        self.spans@[id]
    }

    /// The handle at place `k` of the chain.
    pub open spec fn at(&self, k: int) -> int {
        self.order@[k] as int
    }

    /// The chain lists the handles of the leaves, each once.
    #[verifier::opaque]
    pub open spec fn order_ok(&self) -> bool {
        &&& self.order@.len() >= 1
        &&& forall|k: int| 0 <= k < self.order@.len() ==> self.live(#[trigger] self.at(k))
        &&& forall|k: int, l: int|
            0 <= k < l < self.order@.len() ==> #[trigger] self.at(k) != #[trigger] self.at(l)
        &&& forall|id: int| #[trigger]
            self.live(id) ==> exists|k: int|
                0 <= k < self.order@.len() && #[trigger] self.at(k) == id
    }

    /// Along the chain the spans follow one another without a gap, from the
    /// lowest rank to the highest, and none is empty.
    #[verifier::opaque]
    pub open spec fn spans_ok(&self) -> bool {
        &&& self.spans@.len() == self.slots@.len()
        &&& self.span(self.at(0)).lo is None
        &&& self.span(self.at(self.order@.len() - 1)).hi is None
        &&& forall|k: int|
            0 <= k < self.order@.len() - 1 ==> self.span(#[trigger] self.at(k)).hi is Some
                && self.span(self.at(k)).hi == self.span(self.at(k + 1)).lo
        &&& forall|k: int| 0 <= k < self.order@.len() ==> span_ok(self.span(#[trigger] self.at(k)))
    }

    /// Each leaf names the leaf before it and the leaf after it in the
    /// chain.
    #[verifier::opaque]
    pub open spec fn links_ok(&self) -> bool {
        forall|k: int|
            0 <= k < self.order@.len() ==> (#[trigger] self.leaf(self.at(k))).prev == (if k > 0 {
                Some(self.order@[k - 1])
            } else {
                None
            }) && self.leaf(self.at(k)).next == (if k + 1 < self.order@.len() {
                Some(self.order@[k + 1])
            } else {
                None
            })
    }

    /// Each leaf is in order and holds exactly the part of `m` in its span.
    #[verifier::opaque]
    pub open spec fn leaves_ok(&self, m: Map<int, V>) -> bool {
        forall|id: int| #[trigger] self.live(id) ==> leaf_ok(self.leaf(id), self.span(id), m)
    }

    /// The free slots are listed once each.
    #[verifier::opaque]
    pub open spec fn free_ok(&self) -> bool {
        &&& forall|i: int|
            0 <= i < self.free@.len() ==> (#[trigger] self.free@[i]) < self.slots@.len()
                && !self.live(self.free@[i] as int)
        &&& forall|i: int, j: int|
            0 <= i < j < self.free@.len() ==> #[trigger] self.free@[i] != #[trigger] self.free@[j]
    }

    /// The store holds the map `m`: the chain, the spans, the links and the
    /// leaves agree with each other and with `m`.
    pub open spec fn inv(&self, m: Map<int, V>) -> bool {
        &&& self.order_ok()
        &&& self.spans_ok()
        &&& self.links_ok()
        &&& self.leaves_ok(m)
        &&& self.free_ok()
    }

    /// Some leaf holds rank `r`.
    pub open spec fn holds(&self, r: int) -> bool {
        exists|id: int|
            self.live(id) && #[trigger] leaf_map(self.leaf(id).keys@, self.leaf(id).vals@).contains_key(
                r,
            )
    }

    /// A leaf that holds rank `r`.
    pub open spec fn holder(&self, r: int) -> int {
        choose|id: int|
            self.live(id) && #[trigger] leaf_map(self.leaf(id).keys@, self.leaf(id).vals@).contains_key(
                r,
            )
    }

    /// The map that the leaves hold together, by rank.
    pub open spec fn view(&self) -> Map<int, V> {
        Map::new(
            |r: int| self.holds(r),
            |r: int| leaf_map(self.leaf(self.holder(r)).keys@, self.leaf(self.holder(r)).vals@)[r],
        )
    }

    /// The store is in order.
    pub open spec fn wf(&self) -> bool {
        self.inv(self@)
    }

    /// The place of the leaf `id` in the chain.
    pub proof fn lemma_place(&self, id: int) -> (k: int)
        requires
            self.order_ok(),
            self.live(id),
        ensures
            0 <= k < self.order@.len(),
            self.at(k) == id,
    {
        reveal(NodeStore::order_ok);
        choose|k: int| 0 <= k < self.order@.len() && #[trigger] self.at(k) == id
    }

    /// The chain is not empty.
    pub proof fn lemma_nonempty(&self)
        requires
            self.order_ok(),
        ensures
            self.order@.len() >= 1,
    {
        reveal(NodeStore::order_ok);
    }

    /// Each place of the chain holds a leaf, and no leaf has two places.
    pub proof fn lemma_listed(&self, k: int)
        requires
            self.order_ok(),
            0 <= k < self.order@.len(),
        ensures
            self.live(self.at(k)),
            forall|l: int| 0 <= l < self.order@.len() && l != k ==> self.at(l) != self.at(k),
    {
        reveal(NodeStore::order_ok);
        assert forall|l: int| 0 <= l < self.order@.len() && l != k implies self.at(l) != self.at(
            k,
        ) by {
            if l < k {
                assert(self.at(l) != self.at(k));
            } else {
                assert(self.at(k) != self.at(l));
            }
        }
    }

    /// What is known of the span at place `k`.
    pub proof fn lemma_span_at(&self, k: int)
        requires
            self.spans_ok(),
            0 <= k < self.order@.len(),
        ensures
            self.spans@.len() == self.slots@.len(),
            span_ok(self.span(self.at(k))),
            k == 0 ==> self.span(self.at(k)).lo is None,
            k == self.order@.len() - 1 ==> self.span(self.at(k)).hi is None,
            k < self.order@.len() - 1 ==> self.span(self.at(k)).hi is Some && self.span(
                self.at(k),
            ).hi == self.span(self.at(k + 1)).lo,
            k > 0 ==> self.span(self.at(k)).lo is Some && self.span(self.at(k)).lo == self.span(
                self.at(k - 1),
            ).hi,
    {
        reveal(NodeStore::spans_ok);
        if k > 0 {
            assert(self.span(self.at(k - 1)).hi == self.span(self.at(k - 1 + 1)).lo);
        }
    }

    /// There are at most as many leaves in the chain as there are slots.
    pub proof fn lemma_chain_fits(&self)
        requires
            self.order_ok(),
        ensures
            self.order@.len() <= self.slots@.len(),
    {
        reveal(NodeStore::order_ok);
        let ids = Seq::new(self.order@.len(), |k: int| self.at(k));
        assert(ids.no_duplicates()) by {
            assert forall|i: int, j: int| 0 <= i < ids.len() && 0 <= j < ids.len() && i
                != j implies ids[i] != ids[j] by {
                if i < j {
                    assert(self.at(i) != self.at(j));
                } else {
                    assert(self.at(j) != self.at(i));
                }
            }
        }
        ids.unique_seq_to_set();
        let all = vstd::set_lib::set_int_range(0, self.slots@.len() as int);
        vstd::set_lib::lemma_int_range(0, self.slots@.len() as int);
        assert(ids.to_set().subset_of(all)) by {
            assert forall|x: int| ids.to_set().contains(x) implies all.contains(x) by {
                let k = choose|k: int| 0 <= k < ids.len() && ids[k] == x;
                assert(self.live(self.at(k)));
            }
        }
        vstd::set_lib::lemma_len_subset(ids.to_set(), all);
    }

    /// A leaf whose span ends at or before the start of the span of
    /// another comes before it in the chain.
    pub proof fn lemma_earlier(&self, k: int, l: int)
        requires
            self.spans_ok(),
            0 <= k < self.order@.len(),
            0 <= l < self.order@.len(),
            self.span(self.at(k)).hi is Some,
            self.span(self.at(l)).lo is Some,
            self.span(self.at(k)).hi->0 <= self.span(self.at(l)).lo->0,
        ensures
            k < l,
    {
        self.lemma_span_at(k);
        self.lemma_span_at(l);
        if l < k {
            self.lemma_before(l, k);
        }
    }

    /// The span of a leaf is not empty.
    pub proof fn lemma_live_span(&self, id: int)
        requires
            self.order_ok(),
            self.spans_ok(),
            self.live(id),
        ensures
            span_ok(self.span(id)),
    {
        let k = self.lemma_place(id);
        self.lemma_span_at(k);
    }

    /// What is known of the links of the leaf at place `k`.
    pub proof fn lemma_links_at(&self, k: int)
        requires
            self.links_ok(),
            0 <= k < self.order@.len(),
        ensures
            self.leaf(self.at(k)).prev == (if k > 0 {
                Some(self.order@[k - 1])
            } else {
                None
            }),
            self.leaf(self.at(k)).next == (if k + 1 < self.order@.len() {
                Some(self.order@[k + 1])
            } else {
                None
            }),
    {
        reveal(NodeStore::links_ok);
        let l = self.leaf(self.at(k));
    }

    /// What is known of the leaf `id`.
    pub proof fn lemma_leaf(&self, id: int, m: Map<int, V>)
        requires
            self.leaves_ok(m),
            self.live(id),
        ensures
            leaf_ok(self.leaf(id), self.span(id), m),
    {
        reveal(NodeStore::leaves_ok);
    }

    /// A leaf earlier in the chain ends at or before the start of a later
    /// one.
    pub proof fn lemma_before(&self, k: int, l: int)
        requires
            self.spans_ok(),
            0 <= k < l < self.order@.len(),
        ensures
            self.span(self.at(k)).hi is Some,
            self.span(self.at(l)).lo is Some,
            self.span(self.at(k)).hi->0 <= self.span(self.at(l)).lo->0,
        decreases l - k,
    {
        self.lemma_span_at(k);
        if k + 1 < l {
            self.lemma_before(k + 1, l);
            self.lemma_span_at(k + 1);
        }
    }

    /// The spans of two leaves have no rank in common.
    pub proof fn lemma_disjoint(&self, a: int, b: int, r: int)
        requires
            self.order_ok(),
            self.spans_ok(),
            self.live(a),
            self.live(b),
            a != b,
            span_has(self.span(a), r),
        ensures
            !span_has(self.span(b), r),
    {
        let k = self.lemma_place(a);
        let l = self.lemma_place(b);
        if k < l {
            self.lemma_before(k, l);
        } else {
            self.lemma_before(l, k);
        }
    }

    /// Where the span of `a` ends at the start of the span of `b`, the leaf
    /// `b` follows the leaf `a` in the chain.
    pub proof fn lemma_adjacent(&self, a: int, b: int) -> (k: int)
        requires
            self.order_ok(),
            self.spans_ok(),
            self.live(a),
            self.live(b),
            self.span(a).hi is Some,
            self.span(a).hi == self.span(b).lo,
        ensures
            0 <= k < self.order@.len() - 1,
            self.at(k) == a,
            self.at(k + 1) == b,
    {
        let k = self.lemma_place(a);
        let l = self.lemma_place(b);
        self.lemma_span_at(k);
        self.lemma_span_at(l);
        if l < k {
            self.lemma_before(l, k);
        } else if l > k + 1 {
            self.lemma_before(k + 1, l);
            self.lemma_span_at(k + 1);
        }
        k
    }

    /// Every rank lies in the span of a leaf at or after place `k`, where
    /// it does not lie below the span at place `k`.
    pub proof fn lemma_cover(&self, r: int, k: int) -> (j: int)
        requires
            self.spans_ok(),
            0 <= k < self.order@.len(),
            self.span(self.at(k)).lo is Some ==> self.span(self.at(k)).lo->0 <= r,
        ensures
            k <= j < self.order@.len(),
            span_has(self.span(self.at(j)), r),
        decreases self.order@.len() - k,
    {
        self.lemma_span_at(k);
        if span_has(self.span(self.at(k)), r) {
            k
        } else {
            self.lemma_cover(r, k + 1)
        }
    }

    /// A store that holds the map `m` has `m` as its view.
    pub proof fn lemma_view(&self, m: Map<int, V>)
        requires
            self.inv(m),
        ensures
            self@ == m,
    {
        let v = self@;
        assert forall|r: int| #[trigger] v.contains_key(r) implies m.contains_key(r) && v[r]
            == m[r] by {
            let id = self.holder(r);
            self.lemma_leaf(id, m);
            assert(restricted(m, self.span(id)).contains_key(r));
        }
        assert forall|r: int| #[trigger] m.contains_key(r) implies v.contains_key(r) by {
            self.lemma_nonempty();
            self.lemma_listed(0);
            self.lemma_span_at(0);
            let j = self.lemma_cover(r, 0);
            let id = self.at(j);
            self.lemma_listed(j);
            self.lemma_leaf(id, m);
            assert(restricted(m, self.span(id)).contains_key(r));
            assert(leaf_map(self.leaf(id).keys@, self.leaf(id).vals@).contains_key(r));
        }
        assert(v =~= m);
    }

    /// A store with one empty leaf, which has the handle 0.
    pub fn new() -> (r: Self)
        ensures
            r.wf(),
            r@ == Map::<int, V>::empty(),
            r.live(0),
            r.span(0) == full_span(),
            r.leaf(0).keys@.len() == 0,
    {
        let mut slots: Vec<Option<LeafNode<K, V>>> = Vec::new();
        slots.push(Some(LeafNode { keys: Vec::new(), vals: Vec::new(), prev: None, next: None }));
        let ghost spans = Seq::<Span>::empty().push(full_span());
        let ghost order = Seq::<usize>::empty().push(0usize);
        let r = NodeStore { slots, free: Vec::new(), spans: Ghost(spans), order: Ghost(order) };
        proof {
            let m = Map::<int, V>::empty();
            assert(r.at(0) == 0);
            assert(r.order_ok()) by {
                reveal(NodeStore::order_ok);
                assert forall|id: int| #[trigger] r.live(id) implies exists|k: int|
                    0 <= k < r.order@.len() && #[trigger] r.at(k) == id by {
                    assert(r.at(0) == id);
                }
            }
            assert(r.spans_ok()) by {
                reveal(NodeStore::spans_ok);
            }
            assert(r.links_ok()) by {
                reveal(NodeStore::links_ok);
            }
            assert(r.free_ok()) by {
                reveal(NodeStore::free_ok);
            }
            assert(r.leaves_ok(m)) by {
                reveal(NodeStore::leaves_ok);
                assert(leaf_map(r.leaf(0).keys@, r.leaf(0).vals@) =~= restricted(m, r.span(0)));
            }
            r.lemma_view(m);
        }
        r
    }

    /// The leaf with the handle `id`.
    pub fn get(&self, id: usize) -> (r: &LeafNode<K, V>)
        requires
            self.live(id as int),
        ensures
            *r == self.leaf(id as int),
    {
        match &self.slots[id] {
            Some(leaf) => leaf,
            None => vstd::pervasive::unreached(),
        }
    }

    /// The number of keys in the leaf `id`.
    pub fn leaf_len(&self, id: usize) -> (r: usize)
        requires
            self.live(id as int),
        ensures
            r == self.leaf(id as int).keys@.len(),
    {
        self.get(id).keys.len()
    }

    /// Looks `key` up in the leaf `id`, which is the leaf responsible for
    /// it.
    pub fn search(&self, id: usize, key: &K) -> (r: Option<&V>)
        requires
            self.wf(),
            self.live(id as int),
            span_has(self.span(id as int), key.rank()),
        ensures
            match r {
                Some(v) => lookup(self@, key.rank()) == Some(*v),
                None => lookup(self@, key.rank()) is None,
            },
    {
        proof {
            self.lemma_leaf(id as int, self@);
        }
        self.get(id).search_leaf(key)
    }
}

/// Whether the maps `m` and `m2` hold the same entries but perhaps for the
/// rank `r`.
pub open spec fn same_but_at<V>(m: Map<int, V>, m2: Map<int, V>, r: int) -> bool {
    forall|q: int|
        q != r ==> (#[trigger] m2.contains_key(q) == m.contains_key(q)) && (m.contains_key(q)
            ==> m2[q] == m[q])
}

impl<K: Key, V> NodeStore<K, V> {
    /// Whether the leaves other than `a` and `b` are in `other` what they
    /// are here, with their spans.
    pub open spec fn same_others(&self, other: &Self, a: int, b: int) -> bool {
        forall|j: int|
            j != a && j != b ==> (#[trigger] other.live(j) == self.live(j)) && (self.live(j)
                ==> other.span(j) == self.span(j) && other.leaf(j) == self.leaf(j))
    }

    /// Whether every leaf here is a leaf in `other`, and every leaf there
    /// one here.
    pub open spec fn same_live(&self, other: &Self) -> bool {
        forall|j: int| #[trigger] other.live(j) == self.live(j)
    }

    /// The chain is in order in a store with the same chain and the same
    /// leaves alive.
    proof fn lemma_order_kept(&self, new: &Self)
        requires
            self.order_ok(),
            new.order@ == self.order@,
            self.same_live(new),
        ensures
            new.order_ok(),
    {
        reveal(NodeStore::order_ok);
        assert forall|k: int| 0 <= k < new.order@.len() implies new.live(#[trigger] new.at(k)) by {
            assert(self.live(self.at(k)));
        }
        assert forall|k: int, l: int| 0 <= k < l < new.order@.len() implies #[trigger] new.at(k)
            != #[trigger] new.at(l) by {
            assert(self.at(k) != self.at(l));
        }
        assert forall|j: int| #[trigger] new.live(j) implies exists|k: int|
            0 <= k < new.order@.len() && #[trigger] new.at(k) == j by {
            assert(self.live(j));
            let k = choose|k: int| 0 <= k < self.order@.len() && #[trigger] self.at(k) == j;
            assert(new.at(k) == j);
        }
    }

    /// The spans are in order in a store with the same chain and the same
    /// spans.
    proof fn lemma_spans_kept(&self, new: &Self)
        requires
            self.spans_ok(),
            new.order@ == self.order@,
            new.spans@ == self.spans@,
            new.slots@.len() == self.slots@.len(),
        ensures
            new.spans_ok(),
    {
        reveal(NodeStore::spans_ok);
        assert forall|k: int| 0 <= k < new.order@.len() - 1 implies new.span(
            #[trigger] new.at(k),
        ).hi is Some && new.span(new.at(k)).hi == new.span(new.at(k + 1)).lo by {
            assert(self.span(self.at(k)).hi == self.span(self.at(k + 1)).lo);
        }
        assert forall|k: int| 0 <= k < new.order@.len() implies span_ok(
            new.span(#[trigger] new.at(k)),
        ) by {
            assert(span_ok(self.span(self.at(k))));
        }
    }

    /// The links are in order in a store with the same chain whose leaves
    /// have the links that they had.
    proof fn lemma_links_kept(&self, new: &Self)
        requires
            self.links_ok(),
            self.order_ok(),
            new.order@ == self.order@,
            forall|j: int| #[trigger]
                self.live(j) ==> new.leaf(j).prev == self.leaf(j).prev && new.leaf(j).next
                    == self.leaf(j).next,
        ensures
            new.links_ok(),
    {
        reveal(NodeStore::links_ok);
        assert forall|k: int| 0 <= k < new.order@.len() implies (#[trigger] new.leaf(
            new.at(k),
        )).prev == (if k > 0 {
            Some(new.order@[k - 1])
        } else {
            None
        }) && new.leaf(new.at(k)).next == (if k + 1 < new.order@.len() {
            Some(new.order@[k + 1])
        } else {
            None
        }) by {
            self.lemma_listed(k);
            self.lemma_links_at(k);
        }
    }

    /// The free slots are listed in order in a store with the same list
    /// and the same leaves alive.
    proof fn lemma_free_kept(&self, new: &Self)
        requires
            self.free_ok(),
            new.free@ == self.free@,
            new.slots@.len() >= self.slots@.len(),
            forall|i: int| 0 <= i < self.free@.len() ==> !new.live(#[trigger] self.free@[i] as int),
        ensures
            new.free_ok(),
    {
        reveal(NodeStore::free_ok);
    }

    /// The leaves other than `a` and `b` hold the parts of `m2` in their
    /// spans, where they held the parts of `m` and `m2` differs from `m`
    /// only at a rank in the span of the leaf `id`.
    proof fn lemma_others_ok(
        &self,
        new: &Self,
        a: int,
        b: int,
        id: int,
        m: Map<int, V>,
        r: int,
        m2: Map<int, V>,
        j: int,
    )
        requires
            self.order_ok(),
            self.spans_ok(),
            self.leaves_ok(m),
            self.live(id),
            span_has(self.span(id), r),
            same_but_at(m, m2, r),
            self.same_others(new, a, b),
            j != a,
            j != b,
            j != id,
            new.live(j),
        ensures
            leaf_ok(new.leaf(j), new.span(j), m2),
    {
        assert(self.live(j));
        self.lemma_leaf(j, m);
        assert forall|q: int| span_has(self.span(j), q) implies q != r by {
            if q == r {
                self.lemma_disjoint(id, j, r);
            }
        }
        assert(restricted(m2, self.span(j)) =~= restricted(m, self.span(j)));
    }

    /// A store in which one leaf was replaced by a leaf with the same
    /// links that holds the part of a new map in its span, where the new
    /// map differs from the old one only at a rank in that span, holds the
    /// new map.
    pub proof fn lemma_inv_update(
        &self,
        new: &Self,
        id: int,
        m: Map<int, V>,
        r: int,
        m2: Map<int, V>,
    )
        requires
            self.inv(m),
            self.live(id),
            span_has(self.span(id), r),
            same_but_at(m, m2, r),
            self.same_others(new, id, id),
            new.live(id),
            new.slots@.len() == self.slots@.len(),
            new.spans@ == self.spans@,
            new.order@ == self.order@,
            new.free@ == self.free@,
            new.leaf(id).prev == self.leaf(id).prev,
            new.leaf(id).next == self.leaf(id).next,
            leaf_ok(new.leaf(id), self.span(id), m2),
        ensures
            new.inv(m2),
    {
        assert(self.same_live(new)) by {
            assert forall|j: int| #[trigger] new.live(j) == self.live(j) by {
                if j != id {
                    assert(new.live(j) == self.live(j));
                }
            }
        }
        self.lemma_order_kept(new);
        self.lemma_spans_kept(new);
        assert forall|j: int| #[trigger] self.live(j) implies new.leaf(j).prev == self.leaf(j).prev
            && new.leaf(j).next == self.leaf(j).next by {
            if j != id {
                assert(new.live(j) == self.live(j));
            }
        }
        self.lemma_links_kept(new);
        assert(new.free_ok()) by {
            reveal(NodeStore::free_ok);
            assert forall|i: int| 0 <= i < self.free@.len() implies !new.live(
                #[trigger] self.free@[i] as int,
            ) by {
                assert(!self.live(self.free@[i] as int));
                assert(new.live(self.free@[i] as int) == self.live(self.free@[i] as int));
            }
            self.lemma_free_kept(new);
        }
        assert(new.leaves_ok(m2)) by {
            assert forall|j: int| #[trigger] new.live(j) implies leaf_ok(
                new.leaf(j),
                new.span(j),
                m2,
            ) by {
                if j != id {
                    self.lemma_others_ok(new, id, id, id, m, r, m2, j);
                }
            }
            reveal(NodeStore::leaves_ok);
        }
    }

    /// Takes the leaf `id` out of its slot, which is to be filled again.
    fn take(&mut self, id: usize) -> (leaf: LeafNode<K, V>)
        requires
            old(self).live(id as int),
        ensures
            leaf == old(self).leaf(id as int),
            final(self).slots@ == old(self).slots@.update(id as int, None),
            final(self).free == old(self).free,
            final(self).spans == old(self).spans,
            final(self).order == old(self).order,
    {
        let taken = self.slots[id].take();
        match taken {
            Some(leaf) => leaf,
            None => vstd::pervasive::unreached(),
        }
    }

    /// Puts `leaf` into the slot `id`.
    fn put(&mut self, id: usize, leaf: LeafNode<K, V>)
        requires
            id < old(self).slots@.len(),
        ensures
            final(self).slots@ == old(self).slots@.update(id as int, Some(leaf)),
            final(self).free == old(self).free,
            final(self).spans == old(self).spans,
            final(self).order == old(self).order,
    {
        self.slots[id] = Some(leaf);
    }

    /// Takes the entry of `key` out of the leaf `id`, which is the leaf
    /// responsible for the key. Returns its value, or `None` where the key
    /// is absent.
    pub fn remove(&mut self, id: usize, key: &K) -> (r: Option<V>)
        requires
            old(self).wf(),
            old(self).live(id as int),
            span_has(old(self).span(id as int), key.rank()),
        ensures
            final(self).wf(),
            final(self)@ == old(self)@.remove(key.rank()),
            r == lookup(old(self)@, key.rank()),
            old(self).same_others(final(self), id as int, id as int),
            final(self).live(id as int),
            final(self).spans@ == old(self).spans@,
            final(self).order@ == old(self).order@,
            final(self).leaf(id as int).keys@.len() <= old(self).leaf(id as int).keys@.len()
                <= final(self).leaf(id as int).keys@.len() + 1,
    {
        let ghost m = self@;
        let ghost m2 = m.remove(key.rank());
        let ghost sp = self.span(id as int);
        proof {
            self.lemma_leaf(id as int, m);
        }
        let mut leaf = self.take(id);
        let r = leaf.remove_leaf(key);
        proof {
            assert(leaf_map(leaf.keys@, leaf.vals@) =~= restricted(m2, sp));
        }
        self.put(id, leaf);
        proof {
            old(self).lemma_inv_update(self, id as int, m, key.rank(), m2);
            self.lemma_view(m2);
        }
        r
    }
}

impl<K: Key, V> NodeStore<K, V> {
    /// Whether `new` is this store after the leaf `id`, at place `p` of the
    /// chain, was split at the rank `s`: the new leaf `y` follows it in the
    /// chain and takes the upper part of its span, and `z`, the leaf that
    /// followed `id`, names `y` as the leaf before it.
    pub open spec fn split_into(&self, new: &Self, id: int, y: int, p: int, s: int) -> bool {
        &&& 0 <= p < self.order@.len()
        &&& self.at(p) == id
        &&& self.live(id)
        &&& !self.live(y)
        &&& 0 <= y
        &&& new.slots@.len() >= self.slots@.len()
        &&& new.spans@.len() == new.slots@.len()
        &&& new.order@ == self.order@.insert(p + 1, y as usize)
        &&& y as usize as int == y
        &&& forall|j: int|
            j != id && j != y ==> (#[trigger] new.live(j) == self.live(j)) && (self.live(j) ==> {
                &&& new.span(j) == self.span(j)
                &&& new.leaf(j).keys == self.leaf(j).keys
                &&& new.leaf(j).vals == self.leaf(j).vals
                &&& new.leaf(j).next == self.leaf(j).next
                &&& new.leaf(j).prev == if self.leaf(id).next is Some && self.leaf(id).next->0
                    == j {
                    Some(y as usize)
                } else {
                    self.leaf(j).prev
                }
            })
        &&& new.live(id)
        &&& new.live(y)
        &&& new.leaf(id).prev == self.leaf(id).prev
        &&& new.leaf(id).next == Some(y as usize)
        &&& new.leaf(y).prev == Some(id as usize)
        &&& new.leaf(y).next == self.leaf(id).next
        &&& new.span(id) == (Span { lo: self.span(id).lo, hi: Some(s) })
        &&& new.span(y) == (Span { lo: Some(s), hi: self.span(id).hi })
        &&& span_ok(new.span(id))
        &&& span_ok(new.span(y))
    }

    /// What a split leaves of a leaf other than the two halves.
    proof fn lemma_split_other(&self, new: &Self, id: int, y: int, p: int, s: int, j: int)
        requires
            self.split_into(new, id, y, p, s),
            self.live(j),
            j != id,
        ensures
            j != y,
            new.live(j),
            new.span(j) == self.span(j),
            new.leaf(j).keys == self.leaf(j).keys,
            new.leaf(j).vals == self.leaf(j).vals,
            new.leaf(j).next == self.leaf(j).next,
            new.leaf(j).prev == if self.leaf(id).next is Some && self.leaf(id).next->0 == j {
                Some(y as usize)
            } else {
                self.leaf(j).prev
            },
    {
        assert(new.live(j) == self.live(j));
    }

    /// The handle at a place of the chain after a split.
    proof fn lemma_split_at(&self, new: &Self, id: int, y: int, p: int, s: int, k: int)
        requires
            self.split_into(new, id, y, p, s),
            self.order_ok(),
            0 <= k < new.order@.len(),
        ensures
            new.order@.len() == self.order@.len() + 1,
            k <= p ==> new.at(k) == self.at(k),
            k == p + 1 ==> new.at(k) == y,
            k > p + 1 ==> new.at(k) == self.at(k - 1),
            k != p && k != p + 1 ==> new.at(k) != id && new.at(k) != y && self.live(new.at(k)),
    {
        if k <= p {
            self.lemma_listed(k);
            self.lemma_listed(p);
        } else if k > p + 1 {
            self.lemma_listed(k - 1);
            self.lemma_listed(p);
        }
    }

    proof fn lemma_split_order(&self, new: &Self, id: int, y: int, p: int, s: int)
        requires
            self.split_into(new, id, y, p, s),
            self.order_ok(),
        ensures
            new.order_ok(),
    {
        assert forall|k: int| 0 <= k < new.order@.len() implies new.live(#[trigger] new.at(k)) by {
            self.lemma_split_at(new, id, y, p, s, k);
        }
        assert forall|k: int, l: int| 0 <= k < l < new.order@.len() implies #[trigger] new.at(k)
            != #[trigger] new.at(l) by {
            self.lemma_split_at(new, id, y, p, s, k);
            self.lemma_split_at(new, id, y, p, s, l);
            let ok = if k <= p { k } else { k - 1 };
            let ol = if l <= p { l } else { l - 1 };
            if k != p + 1 && l != p + 1 {
                self.lemma_listed(ok);
                assert(self.at(ok) != self.at(ol));
            }
        }
        assert forall|j: int| #[trigger] new.live(j) implies exists|k: int|
            0 <= k < new.order@.len() && #[trigger] new.at(k) == j by {
            if j == y {
                self.lemma_split_at(new, id, y, p, s, p + 1);
                assert(new.at(p + 1) == j);
            } else {
                assert(self.live(j));
                let k = self.lemma_place(j);
                let nk = if k <= p { k } else { k + 1 };
                self.lemma_split_at(new, id, y, p, s, nk);
                assert(new.at(nk) == j);
            }
        }
        reveal(NodeStore::order_ok);
    }

    proof fn lemma_split_spans(&self, new: &Self, id: int, y: int, p: int, s: int)
        requires
            self.split_into(new, id, y, p, s),
            self.order_ok(),
            self.spans_ok(),
        ensures
            new.spans_ok(),
    {
        let n = new.order@.len() as int;
        assert forall|k: int| 0 <= k < n implies span_ok(new.span(#[trigger] new.at(k))) && (k == 0
            ==> new.span(new.at(k)).lo is None) && (k == n - 1 ==> new.span(new.at(k)).hi is None)
            && (k < n - 1 ==> new.span(new.at(k)).hi is Some && new.span(new.at(k)).hi == new.span(
            new.at(k + 1),
        ).lo) by {
            self.lemma_split_at(new, id, y, p, s, k);
            if k < n - 1 {
                self.lemma_split_at(new, id, y, p, s, k + 1);
            }
            let ok = if k <= p { k } else { k - 1 };
            self.lemma_span_at(ok);
            self.lemma_span_at(p);
            self.lemma_listed(ok);
            self.lemma_listed(p);
            if ok != p {
                self.lemma_split_other(new, id, y, p, s, self.at(ok));
            }
            if ok + 1 < self.order@.len() {
                self.lemma_listed(ok + 1);
                self.lemma_span_at(ok + 1);
                if ok + 1 != p {
                    self.lemma_split_other(new, id, y, p, s, self.at(ok + 1));
                }
            }
        }
        assert(new.span(new.at(0)).lo is None);
        assert(new.span(new.at(n - 1)).hi is None);
        reveal(NodeStore::spans_ok);
    }

    proof fn lemma_split_links(&self, new: &Self, id: int, y: int, p: int, s: int)
        requires
            self.split_into(new, id, y, p, s),
            self.order_ok(),
            self.links_ok(),
        ensures
            new.links_ok(),
    {
        let n = new.order@.len() as int;
        assert forall|k: int| 0 <= k < n implies (#[trigger] new.leaf(new.at(k))).prev == (if k
            > 0 {
            Some(new.order@[k - 1])
        } else {
            None
        }) && new.leaf(new.at(k)).next == (if k + 1 < n {
            Some(new.order@[k + 1])
        } else {
            None
        }) by {
            self.lemma_split_at(new, id, y, p, s, k);
            if k > 0 {
                self.lemma_split_at(new, id, y, p, s, k - 1);
            }
            if k + 1 < n {
                self.lemma_split_at(new, id, y, p, s, k + 1);
            }
            let ok = if k <= p { k } else { k - 1 };
            self.lemma_links_at(ok);
            self.lemma_links_at(p);
            self.lemma_listed(ok);
            self.lemma_listed(p);
            if p + 1 < self.order@.len() {
                self.lemma_listed(p + 1);
            }
            if ok != p {
                self.lemma_split_other(new, id, y, p, s, self.at(ok));
            }
        }
        reveal(NodeStore::links_ok);
    }

    proof fn lemma_split_leaves(
        &self,
        new: &Self,
        id: int,
        y: int,
        p: int,
        s: int,
        m: Map<int, V>,
        r: int,
        m2: Map<int, V>,
    )
        requires
            self.split_into(new, id, y, p, s),
            self.order_ok(),
            self.spans_ok(),
            self.leaves_ok(m),
            span_has(self.span(id), r),
            same_but_at(m, m2, r),
            leaf_ok(new.leaf(id), new.span(id), m2),
            leaf_ok(new.leaf(y), new.span(y), m2),
        ensures
            new.leaves_ok(m2),
    {
        assert forall|j: int| #[trigger] new.live(j) implies leaf_ok(
            new.leaf(j),
            new.span(j),
            m2,
        ) by {
            if j != id && j != y {
                assert(self.live(j));
                self.lemma_leaf(j, m);
                assert forall|q: int| span_has(self.span(j), q) implies q != r by {
                    if q == r {
                        self.lemma_disjoint(id, j, r);
                    }
                }
                assert(restricted(m2, self.span(j)) =~= restricted(m, self.span(j)));
            }
        }
        reveal(NodeStore::leaves_ok);
    }

    /// A slot for a new leaf: a free one where there is one, or else a new
    /// one at the end.
    fn reserve(&mut self) -> (id: usize)
        requires
            old(self).spans@.len() == old(self).slots@.len(),
        ensures
            final(self).order == old(self).order,
            final(self).spans@.len() == final(self).slots@.len(),
            old(self).free@.len() > 0 ==> id == old(self).free@.last() && final(self).free@ == old(
                self,
            ).free@.drop_last() && final(self).slots@ == old(self).slots@ && final(self).spans@
                == old(self).spans@,
            old(self).free@.len() == 0 ==> id == old(self).slots@.len() && final(self).free@ == old(
                self,
            ).free@ && final(self).slots@ == old(self).slots@.push(None) && final(self).spans@
                == old(self).spans@.push(full_span()),
    {
        match self.free.pop() {
            Some(f) => f,
            None => {
                self.slots.push(None);
                self.spans = Ghost(self.spans@.push(full_span()));
                self.slots.len() - 1
            },
        }
    }

    /// Inserts the entry into the leaf `id`, which is the leaf responsible
    /// for the key, or replaces the value where the key is there already.
    /// Where the leaf has no room left it is split: a new leaf takes the
    /// upper half of its entries and its place behind it in the chain.
    /// Returns the value replaced and, after a split, the first key of the
    /// new leaf with its handle.
    pub fn insert(&mut self, id: usize, key: K, val: V) -> (r: (Option<V>, Option<(K, usize)>))
        requires
            old(self).wf(),
            old(self).live(id as int),
            span_has(old(self).span(id as int), key.rank()),
        ensures
            final(self).wf(),
            final(self)@ == old(self)@.insert(key.rank(), val),
            r.0 == lookup(old(self)@, key.rank()),
            final(self).live(id as int),
            forall|j: int|
                j != id ==> (#[trigger] old(self).live(j) ==> final(self).live(j) && final(self).span(j) == old(self).span(j) && final(self).leaf(j).keys == old(self).leaf(
                    j,
                ).keys),
            match r.1 {
                None => {
                    &&& old(self).same_live(final(self))
                    &&& final(self).span(id as int) == old(self).span(id as int)
                    &&& old(self).leaf(id as int).keys@.len() <= final(self).leaf(
                        id as int,
                    ).keys@.len() <= MAX_LEN
                },
                Some((s, y)) => {
                    &&& old(self).leaf(id as int).keys@.len() == MAX_LEN
                    &&& !old(self).live(y as int)
                    &&& final(self).live(y as int)
                    &&& forall|j: int| j != y ==> #[trigger] final(self).live(j) == old(self).live(j)
                    &&& final(self).span(id as int) == (Span {
                        lo: old(self).span(id as int).lo,
                        hi: Some(s.rank()),
                    })
                    &&& final(self).span(y as int) == (Span {
                        lo: Some(s.rank()),
                        hi: old(self).span(id as int).hi,
                    })
                    &&& span_ok(final(self).span(id as int))
                    &&& span_ok(final(self).span(y as int))
                    &&& final(self).leaf(id as int).keys@.len() == CAPACITY / 2
                    &&& final(self).leaf(y as int).keys@.len() == CAPACITY - CAPACITY / 2
                    &&& final(self).leaf(y as int).keys@[0] == s
                },
            },
    {
        let ghost m = self@;
        let ghost kr = key.rank();
        let ghost m2 = m.insert(kr, val);
        let ghost sp = self.span(id as int);
        proof {
            self.lemma_leaf(id as int, m);
            self.lemma_nonempty();
            self.lemma_span_at(0);
        }
        let mut leaf = self.take(id);
        let ghost leaf0 = leaf;
        let (old_val, sep, right) = leaf.insert_leaf(key, val);
        match right {
            None => {
                proof {
                    assert(leaf_map(leaf.keys@, leaf.vals@) =~= restricted(m2, sp));
                }
                self.put(id, leaf);
                proof {
                    old(self).lemma_inv_update(self, id as int, m, kr, m2);
                    self.lemma_view(m2);
                    assert forall|j: int| #[trigger] self.live(j) == old(self).live(j) by {
                        if j != id {
                            assert(self.live(j) == old(self).live(j));
                        }
                    }
                }
                (old_val, None)
            },
            Some(boxed) => {
                let mut right_leaf = *boxed;
                let s: K = right_leaf.keys[0];
                let zopt = leaf.next;
                let ghost p = old(self).lemma_place(id as int);
                proof {
                    old(self).lemma_links_at(p);
                    if p + 1 < old(self).order@.len() {
                        old(self).lemma_listed(p + 1);
                    }
                    old(self).lemma_listed(p);
                    reveal(NodeStore::free_ok);
                }
                let y = self.reserve();
                let ghost lo_span = Span { lo: sp.lo, hi: Some(s.rank()) };
                let ghost hi_span = Span { lo: Some(s.rank()), hi: sp.hi };
                proof {
                    // The two halves hold the parts of the new map on the
                    // two sides of the separator.
                    let ml = leaf_map(leaf.keys@, leaf.vals@);
                    let mr = leaf_map(right_leaf.keys@, right_leaf.vals@);
                    assert(restricted(m2, sp) =~= restricted(m, sp).insert(kr, val));
                    lemma_leaf_at(leaf.keys@, leaf.vals@, 0);
                    lemma_leaf_at(right_leaf.keys@, right_leaf.vals@, 0);
                    lemma_span_halves(ml, s.rank(), mr, m2, sp);
                }
                leaf.link_self(id, &mut right_leaf, y);
                self.put(id, leaf);
                self.put(y, right_leaf);
                match zopt {
                    Some(z) => {
                        let mut after = self.take(z);
                        after.prev = Some(y);
                        self.put(z, after);
                    },
                    None => {},
                }
                proof {
                    self.spans = Ghost(self.spans@.update(id as int, lo_span).update(y as int, hi_span));
                    self.order = Ghost(self.order@.insert(p + 1, y));
                    assert(old(self).split_into(self, id as int, y as int, p, s.rank()));
                    old(self).lemma_split_order(self, id as int, y as int, p, s.rank());
                    old(self).lemma_split_spans(self, id as int, y as int, p, s.rank());
                    old(self).lemma_split_links(self, id as int, y as int, p, s.rank());
                    old(self).lemma_split_leaves(self, id as int, y as int, p, s.rank(), m, kr, m2);
                    assert(self.free_ok()) by {
                        reveal(NodeStore::free_ok);
                    }
                    self.lemma_view(m2);
                }
                (old_val, Some((s, y)))
            },
        }
    }
}

impl<K: Key, V> NodeStore<K, V> {
    /// Whether `new` is this store after the neighbouring leaves `a` and
    /// `b` dealt their entries out anew around the rank `s`.
    pub open spec fn dealt_into(&self, new: &Self, a: int, b: int, s: int) -> bool {
        &&& self.live(a)
        &&& self.live(b)
        &&& a != b
        &&& self.span(a).hi is Some
        &&& self.span(a).hi == self.span(b).lo
        &&& new.slots@.len() == self.slots@.len()
        &&& new.spans@.len() == self.spans@.len()
        &&& new.order@ == self.order@
        &&& new.free@ == self.free@
        &&& self.same_others(new, a, b)
        &&& new.live(a)
        &&& new.live(b)
        &&& new.leaf(a).prev == self.leaf(a).prev
        &&& new.leaf(a).next == self.leaf(a).next
        &&& new.leaf(b).prev == self.leaf(b).prev
        &&& new.leaf(b).next == self.leaf(b).next
        &&& new.span(a) == (Span { lo: self.span(a).lo, hi: Some(s) })
        &&& new.span(b) == (Span { lo: Some(s), hi: self.span(b).hi })
        &&& span_ok(new.span(a))
        &&& span_ok(new.span(b))
    }

    proof fn lemma_dealt_spans(&self, new: &Self, a: int, b: int, s: int)
        requires
            self.dealt_into(new, a, b, s),
            self.order_ok(),
            self.spans_ok(),
        ensures
            new.spans_ok(),
    {
        let n = new.order@.len() as int;
        let p = self.lemma_adjacent(a, b);
        self.lemma_nonempty();
        assert forall|k: int| 0 <= k < n implies span_ok(new.span(#[trigger] new.at(k))) && (k == 0
            ==> new.span(new.at(k)).lo is None) && (k == n - 1 ==> new.span(new.at(k)).hi is None)
            && (k < n - 1 ==> new.span(new.at(k)).hi is Some && new.span(new.at(k)).hi == new.span(
            new.at(k + 1),
        ).lo) by {
            self.lemma_span_at(k);
            self.lemma_listed(k);
            self.lemma_listed(p);
            self.lemma_listed(p + 1);
            if k != p && k != p + 1 {
                assert(new.live(self.at(k)) == self.live(self.at(k)));
            }
            if k + 1 < n {
                self.lemma_listed(k + 1);
                self.lemma_span_at(k + 1);
                if k + 1 != p && k + 1 != p + 1 {
                    assert(new.live(self.at(k + 1)) == self.live(self.at(k + 1)));
                }
            }
        }
        assert(new.span(new.at(0)).lo is None);
        assert(new.span(new.at(n - 1)).hi is None);
        reveal(NodeStore::spans_ok);
    }

    /// A store in which two neighbouring leaves dealt their entries out
    /// anew, each holding the part of `m` in its new span, holds `m`.
    proof fn lemma_inv_dealt(&self, new: &Self, a: int, b: int, s: int, m: Map<int, V>)
        requires
            self.inv(m),
            self.dealt_into(new, a, b, s),
            leaf_ok(new.leaf(a), new.span(a), m),
            leaf_ok(new.leaf(b), new.span(b), m),
        ensures
            new.inv(m),
    {
        assert(self.same_live(new)) by {
            assert forall|j: int| #[trigger] new.live(j) == self.live(j) by {
                if j != a && j != b {
                    assert(new.live(j) == self.live(j));
                }
            }
        }
        self.lemma_order_kept(new);
        self.lemma_dealt_spans(new, a, b, s);
        assert forall|j: int| #[trigger] self.live(j) implies new.leaf(j).prev == self.leaf(j).prev
            && new.leaf(j).next == self.leaf(j).next by {
            if j != a && j != b {
                assert(new.live(j) == self.live(j));
            }
        }
        self.lemma_links_kept(new);
        assert(new.free_ok()) by {
            reveal(NodeStore::free_ok);
            assert forall|i: int| 0 <= i < self.free@.len() implies !new.live(
                #[trigger] self.free@[i] as int,
            ) by {
                assert(!self.live(self.free@[i] as int));
                assert(new.live(self.free@[i] as int) == self.live(self.free@[i] as int));
            }
            self.lemma_free_kept(new);
        }
        assert(new.leaves_ok(m)) by {
            assert forall|j: int| #[trigger] new.live(j) implies leaf_ok(
                new.leaf(j),
                new.span(j),
                m,
            ) by {
                if j != a && j != b {
                    assert(self.live(j));
                    self.lemma_leaf(j, m);
                }
            }
            reveal(NodeStore::leaves_ok);
        }
    }

    /// What two neighbouring leaves hold lies on the two sides of the rank
    /// between their spans, and the last key on the left is below the first
    /// on the right.
    proof fn lemma_neighbours(&self, a: int, b: int, m: Map<int, V>)
        requires
            self.inv(m),
            self.live(a),
            self.live(b),
            self.span(a).hi is Some,
            self.span(a).hi == self.span(b).lo,
        ensures
            a != b,
            self.spans@.len() == self.slots@.len(),
            leaf_ok(self.leaf(a), self.span(a), m),
            leaf_ok(self.leaf(b), self.span(b), m),
            span_ok(self.span(a)),
            span_ok(self.span(b)),
            all_below(leaf_map(self.leaf(a).keys@, self.leaf(a).vals@), self.span(a).hi->0),
            all_from(leaf_map(self.leaf(b).keys@, self.leaf(b).vals@), self.span(a).hi->0),
            self.leaf(a).keys@.len() > 0 ==> self.leaf(a).keys@.last().rank() < self.span(a).hi->0,
            self.leaf(b).keys@.len() > 0 ==> self.span(a).hi->0 <= self.leaf(b).keys@[0].rank(),
            joined(
                leaf_map(self.leaf(a).keys@, self.leaf(a).vals@),
                self.span(a).hi->0,
                leaf_map(self.leaf(b).keys@, self.leaf(b).vals@),
            ) == restricted(m, Span { lo: self.span(a).lo, hi: self.span(b).hi }),
    {
        let p = self.lemma_adjacent(a, b);
        self.lemma_listed(p);
        self.lemma_span_at(p);
        self.lemma_span_at(p + 1);
        self.lemma_leaf(a, m);
        self.lemma_leaf(b, m);
        let la = self.leaf(a);
        let lb = self.leaf(b);
        if la.keys@.len() > 0 {
            lemma_leaf_at(la.keys@, la.vals@, la.keys@.len() - 1);
            assert(restricted(m, self.span(a)).contains_key(la.keys@.last().rank()));
        }
        if lb.keys@.len() > 0 {
            lemma_leaf_at(lb.keys@, lb.vals@, 0);
            assert(restricted(m, self.span(b)).contains_key(lb.keys@[0].rank()));
        }
        lemma_span_joined(m, self.span(a).lo, self.span(a).hi->0, self.span(b).hi);
    }

    /// Moves the last entry of the leaf `left` to the front of the leaf
    /// `cur`, which follows it in the chain. Returns the key moved: the
    /// spans of the two leaves now meet at its rank.
    pub fn steal_left(&mut self, left: usize, cur: usize) -> (r: K)
        requires
            old(self).wf(),
            old(self).live(left as int),
            old(self).live(cur as int),
            old(self).span(left as int).hi is Some,
            old(self).span(left as int).hi == old(self).span(cur as int).lo,
            old(self).leaf(left as int).keys@.len() >= 2,
            old(self).leaf(cur as int).keys@.len() < MAX_LEN,
        ensures
            final(self).wf(),
            final(self)@ == old(self)@,
            old(self).dealt_into(final(self), left as int, cur as int, r.rank()),
            final(self).leaf(left as int).keys@.len() + 1 == old(self).leaf(left as int).keys@.len(),
            final(self).leaf(cur as int).keys@.len() == old(self).leaf(cur as int).keys@.len() + 1,
    {
        let ghost m = self@;
        let ghost sl = self.span(left as int);
        let ghost sc = self.span(cur as int);
        proof {
            self.lemma_neighbours(left as int, cur as int, m);
        }
        let mut l = self.take(left);
        let mut c = self.take(cur);
        let ghost l0 = l;
        let ghost c0 = c;
        let moved = c.steal_left(&mut l);
        let s: K = match moved {
            Some(k) => k,
            None => vstd::pervasive::unreached(),
        };
        let ghost new_l = Span { lo: sl.lo, hi: Some(s.rank()) };
        let ghost new_c = Span { lo: Some(s.rank()), hi: sc.hi };
        proof {
            lemma_leaf_rebalance(
                l0.keys@,
                l0.vals@,
                sl.hi->0,
                c0.keys@,
                c0.vals@,
                l.keys@,
                l.vals@,
                s.rank(),
                c.keys@,
                c.vals@,
            );
            lemma_leaf_at(l.keys@, l.vals@, 0);
            lemma_leaf_at(c.keys@, c.vals@, 0);
            lemma_span_halves(
                leaf_map(l.keys@, l.vals@),
                s.rank(),
                leaf_map(c.keys@, c.vals@),
                m,
                Span { lo: sl.lo, hi: sc.hi },
            );
        }
        self.put(left, l);
        self.put(cur, c);
        proof {
            self.spans = Ghost(self.spans@.update(left as int, new_l).update(cur as int, new_c));
            old(self).lemma_inv_dealt(self, left as int, cur as int, s.rank(), m);
            self.lemma_view(m);
        }
        s
    }

    /// Moves the first entry of the leaf `right` to the back of the leaf
    /// `cur`, which comes before it in the chain. Returns the first key
    /// that `right` keeps: the spans of the two leaves now meet at its
    /// rank.
    pub fn steal_right(&mut self, cur: usize, right: usize) -> (r: K)
        requires
            old(self).wf(),
            old(self).live(cur as int),
            old(self).live(right as int),
            old(self).span(cur as int).hi is Some,
            old(self).span(cur as int).hi == old(self).span(right as int).lo,
            old(self).leaf(right as int).keys@.len() >= 2,
            old(self).leaf(cur as int).keys@.len() < MAX_LEN,
        ensures
            final(self).wf(),
            final(self)@ == old(self)@,
            old(self).dealt_into(final(self), cur as int, right as int, r.rank()),
            final(self).leaf(right as int).keys@.len() + 1 == old(self).leaf(
                right as int,
            ).keys@.len(),
            final(self).leaf(cur as int).keys@.len() == old(self).leaf(cur as int).keys@.len() + 1,
    {
        let ghost m = self@;
        let ghost sc = self.span(cur as int);
        let ghost sr = self.span(right as int);
        proof {
            self.lemma_neighbours(cur as int, right as int, m);
        }
        let mut c = self.take(cur);
        let mut rt = self.take(right);
        let ghost c0 = c;
        let ghost r0 = rt;
        let first = c.steal_right(&mut rt);
        let s: K = match first {
            Some(k) => k,
            None => vstd::pervasive::unreached(),
        };
        let ghost new_c = Span { lo: sc.lo, hi: Some(s.rank()) };
        let ghost new_r = Span { lo: Some(s.rank()), hi: sr.hi };
        proof {
            lemma_leaf_rebalance(
                c0.keys@,
                c0.vals@,
                sc.hi->0,
                r0.keys@,
                r0.vals@,
                c.keys@,
                c.vals@,
                s.rank(),
                rt.keys@,
                rt.vals@,
            );
            lemma_leaf_at(c.keys@, c.vals@, 0);
            lemma_leaf_at(rt.keys@, rt.vals@, 0);
            lemma_span_halves(
                leaf_map(c.keys@, c.vals@),
                s.rank(),
                leaf_map(rt.keys@, rt.vals@),
                m,
                Span { lo: sc.lo, hi: sr.hi },
            );
        }
        self.put(cur, c);
        self.put(right, rt);
        proof {
            self.spans = Ghost(self.spans@.update(cur as int, new_c).update(right as int, new_r));
            old(self).lemma_inv_dealt(self, cur as int, right as int, s.rank(), m);
            self.lemma_view(m);
        }
        s
    }
}

impl<K: Key, V> NodeStore<K, V> {
    /// Whether `new` is this store after the leaf `b`, at place `p + 1` of
    /// the chain, was merged into the leaf `a` before it: `b` is no leaf
    /// any more, `a` has the spans of both, and the leaf that followed `b`
    /// names `a` as the leaf before it.
    pub open spec fn merged_into(&self, new: &Self, a: int, b: int, p: int) -> bool {
        &&& 0 <= p < self.order@.len() - 1
        &&& self.at(p) == a
        &&& self.at(p + 1) == b
        &&& self.live(a)
        &&& self.live(b)
        &&& a != b
        &&& new.slots@.len() == self.slots@.len()
        &&& new.spans@.len() == self.spans@.len()
        &&& new.order@ == self.order@.remove(p + 1)
        &&& forall|j: int|
            j != a && j != b ==> (#[trigger] new.live(j) == self.live(j)) && (self.live(j) ==> {
                &&& new.span(j) == self.span(j)
                &&& new.leaf(j).keys == self.leaf(j).keys
                &&& new.leaf(j).vals == self.leaf(j).vals
                &&& new.leaf(j).next == self.leaf(j).next
                &&& new.leaf(j).prev == if self.leaf(b).next is Some && self.leaf(b).next->0
                    == j {
                    Some(a as usize)
                } else {
                    self.leaf(j).prev
                }
            })
        &&& new.live(a)
        &&& !new.live(b)
        &&& a as usize as int == a
        &&& new.leaf(a).prev == self.leaf(a).prev
        &&& new.leaf(a).next == self.leaf(b).next
        &&& new.span(a) == (Span { lo: self.span(a).lo, hi: self.span(b).hi })
    }

    /// What a merge leaves of a leaf other than the two merged.
    proof fn lemma_merged_other(&self, new: &Self, a: int, b: int, p: int, j: int)
        requires
            self.merged_into(new, a, b, p),
            self.live(j),
            j != a,
            j != b,
        ensures
            new.live(j),
            new.span(j) == self.span(j),
            new.leaf(j).keys == self.leaf(j).keys,
            new.leaf(j).vals == self.leaf(j).vals,
            new.leaf(j).next == self.leaf(j).next,
            new.leaf(j).prev == if self.leaf(b).next is Some && self.leaf(b).next->0 == j {
                Some(a as usize)
            } else {
                self.leaf(j).prev
            },
    {
        assert(new.live(j) == self.live(j));
    }

    /// The handle at a place of the chain after a merge.
    proof fn lemma_merged_at(&self, new: &Self, a: int, b: int, p: int, k: int)
        requires
            self.merged_into(new, a, b, p),
            self.order_ok(),
            0 <= k < new.order@.len(),
        ensures
            new.order@.len() + 1 == self.order@.len(),
            k <= p ==> new.at(k) == self.at(k),
            k > p ==> new.at(k) == self.at(k + 1),
            k != p ==> new.at(k) != a && new.at(k) != b && self.live(new.at(k)),
    {
        let ok = if k <= p { k } else { k + 1 };
        self.lemma_listed(ok);
        self.lemma_listed(p);
        self.lemma_listed(p + 1);
    }

    proof fn lemma_merged_order(&self, new: &Self, a: int, b: int, p: int)
        requires
            self.merged_into(new, a, b, p),
            self.order_ok(),
        ensures
            new.order_ok(),
    {
        assert forall|k: int| 0 <= k < new.order@.len() implies new.live(#[trigger] new.at(k)) by {
            self.lemma_merged_at(new, a, b, p, k);
            if k != p {
                self.lemma_merged_other(new, a, b, p, new.at(k));
            }
        }
        assert forall|k: int, l: int| 0 <= k < l < new.order@.len() implies #[trigger] new.at(k)
            != #[trigger] new.at(l) by {
            self.lemma_merged_at(new, a, b, p, k);
            self.lemma_merged_at(new, a, b, p, l);
            let ok = if k <= p { k } else { k + 1 };
            self.lemma_listed(ok);
        }
        assert forall|j: int| #[trigger] new.live(j) implies exists|k: int|
            0 <= k < new.order@.len() && #[trigger] new.at(k) == j by {
            if j != a {
                assert(new.live(j) == self.live(j));
            }
            let k = self.lemma_place(j);
            self.lemma_listed(k);
            let nk = if k <= p { k } else { k - 1 };
            self.lemma_merged_at(new, a, b, p, nk);
            assert(new.at(nk) == j);
        }
        self.lemma_nonempty();
        reveal(NodeStore::order_ok);
    }

    proof fn lemma_merged_spans(&self, new: &Self, a: int, b: int, p: int)
        requires
            self.merged_into(new, a, b, p),
            self.order_ok(),
            self.spans_ok(),
        ensures
            new.spans_ok(),
    {
        let n = new.order@.len() as int;
        self.lemma_span_at(0);
        assert forall|k: int| 0 <= k < n implies span_ok(new.span(#[trigger] new.at(k))) && (k == 0
            ==> new.span(new.at(k)).lo is None) && (k == n - 1 ==> new.span(new.at(k)).hi is None)
            && (k < n - 1 ==> new.span(new.at(k)).hi is Some && new.span(new.at(k)).hi == new.span(
            new.at(k + 1),
        ).lo) by {
            self.lemma_merged_at(new, a, b, p, k);
            if k + 1 < n {
                self.lemma_merged_at(new, a, b, p, k + 1);
            }
            let ok = if k <= p { k } else { k + 1 };
            self.lemma_span_at(ok);
            self.lemma_span_at(p);
            self.lemma_span_at(p + 1);
            if k != p {
                self.lemma_merged_other(new, a, b, p, self.at(ok));
            }
            if k + 1 < n {
                let ok1 = if k + 1 <= p { k + 1 } else { k + 2 };
                self.lemma_span_at(ok1);
                if k + 1 != p {
                    self.lemma_merged_at(new, a, b, p, k + 1);
                    self.lemma_merged_other(new, a, b, p, self.at(ok1));
                }
            }
        }
        self.lemma_nonempty();
        assert(new.span(new.at(0)).lo is None);
        assert(new.span(new.at(n - 1)).hi is None);
        reveal(NodeStore::spans_ok);
    }

    proof fn lemma_merged_links(&self, new: &Self, a: int, b: int, p: int)
        requires
            self.merged_into(new, a, b, p),
            self.order_ok(),
            self.links_ok(),
        ensures
            new.links_ok(),
    {
        let n = new.order@.len() as int;
        assert forall|k: int| 0 <= k < n implies (#[trigger] new.leaf(new.at(k))).prev == (if k
            > 0 {
            Some(new.order@[k - 1])
        } else {
            None
        }) && new.leaf(new.at(k)).next == (if k + 1 < n {
            Some(new.order@[k + 1])
        } else {
            None
        }) by {
            self.lemma_merged_at(new, a, b, p, k);
            if k > 0 {
                self.lemma_merged_at(new, a, b, p, k - 1);
            }
            if k + 1 < n {
                self.lemma_merged_at(new, a, b, p, k + 1);
            }
            let ok = if k <= p { k } else { k + 1 };
            self.lemma_links_at(ok);
            self.lemma_links_at(p);
            self.lemma_links_at(p + 1);
            self.lemma_listed(ok);
            self.lemma_listed(p);
            self.lemma_listed(p + 1);
            if p + 2 < self.order@.len() {
                self.lemma_listed(p + 2);
            }
            if k != p {
                self.lemma_merged_other(new, a, b, p, self.at(ok));
            }
        }
        reveal(NodeStore::links_ok);
    }

    proof fn lemma_merged_leaves(&self, new: &Self, a: int, b: int, p: int, m: Map<int, V>)
        requires
            self.merged_into(new, a, b, p),
            self.leaves_ok(m),
            leaf_ok(new.leaf(a), new.span(a), m),
        ensures
            new.leaves_ok(m),
    {
        assert forall|j: int| #[trigger] new.live(j) implies leaf_ok(
            new.leaf(j),
            new.span(j),
            m,
        ) by {
            if j != a {
                assert(new.live(j) == self.live(j));
                self.lemma_leaf(j, m);
                self.lemma_merged_other(new, a, b, p, j);
            }
        }
        reveal(NodeStore::leaves_ok);
    }

    /// Moves every entry of the leaf `right` to the back of the leaf
    /// `left`, which comes before it in the chain, takes `right` out of the
    /// chain and frees its slot.
    pub fn merge(&mut self, left: usize, right: usize)
        requires
            old(self).wf(),
            old(self).live(left as int),
            old(self).live(right as int),
            old(self).span(left as int).hi is Some,
            old(self).span(left as int).hi == old(self).span(right as int).lo,
            old(self).leaf(left as int).keys@.len() + old(self).leaf(right as int).keys@.len()
                <= MAX_LEN,
        ensures
            final(self).wf(),
            final(self)@ == old(self)@,
            exists|p: int| old(self).merged_into(final(self), left as int, right as int, p),
            final(self).leaf(left as int).keys@.len() == old(self).leaf(left as int).keys@.len()
                + old(self).leaf(right as int).keys@.len(),
    {
        let ghost m = self@;
        let ghost sl = self.span(left as int);
        let ghost sr = self.span(right as int);
        let ghost p = self.lemma_adjacent(left as int, right as int);
        proof {
            self.lemma_neighbours(left as int, right as int, m);
            self.lemma_links_at(p + 1);
            self.lemma_listed(p);
            self.lemma_listed(p + 1);
            if p + 2 < self.order@.len() {
                self.lemma_listed(p + 2);
            }
            reveal(NodeStore::free_ok);
        }
        let mut l = self.take(left);
        let mut r = self.take(right);
        let ghost l0 = l;
        let ghost r0 = r;
        proof {
            lemma_sorted_concat(l0.keys@, r0.keys@);
            lemma_leaf_split(l0.keys@, l0.vals@, r0.keys@, r0.vals@, sl.hi->0);
        }
        l.merge(&mut r);
        let zopt = l.next;
        self.put(left, l);
        self.free.push(right);
        match zopt {
            Some(z) => {
                let mut after = self.take(z);
                after.prev = Some(left);
                self.put(z, after);
            },
            None => {},
        }
        proof {
            self.spans = Ghost(self.spans@.update(left as int, Span { lo: sl.lo, hi: sr.hi }));
            self.order = Ghost(self.order@.remove(p + 1));
            assert(old(self).merged_into(self, left as int, right as int, p));
            old(self).lemma_merged_order(self, left as int, right as int, p);
            old(self).lemma_merged_spans(self, left as int, right as int, p);
            old(self).lemma_merged_links(self, left as int, right as int, p);
            old(self).lemma_merged_leaves(self, left as int, right as int, p, m);
            assert(self.free_ok()) by {
                reveal(NodeStore::free_ok);
                assert forall|i: int| 0 <= i < self.free@.len() implies (#[trigger] self.free@[i])
                    < self.slots@.len() && !self.live(self.free@[i] as int) by {
                    if i < old(self).free@.len() {
                        let f = old(self).free@[i] as int;
                        assert(!old(self).live(f));
                        assert(self.live(f) == old(self).live(f));
                    }
                }
                assert forall|i: int, j: int|
                    0 <= i < j < self.free@.len() implies #[trigger] self.free@[i]
                    != #[trigger] self.free@[j] by {
                    if j == old(self).free@.len() {
                        assert(!old(self).live(old(self).free@[i] as int));
                    } else {
                        assert(old(self).free@[i] != old(self).free@[j]);
                    }
                }
            }
            self.lemma_view(m);
        }
    }
}

} // verus!
