//! Ranges of keys and what a scan of a range yields.
use vstd::prelude::*;
use crate::table::index::key::Key;
use crate::table::index::node::leaf::LeafNode;
use crate::table::index::order::{leaf_map, lemma_leaf_at, lemma_leaf_insert};
use crate::table::index::span::restricted;
use crate::table::index::store::NodeStore;
use crate::table::index::MAX_LEN;

verus! {

/// One end of a range of keys.
#[derive(Debug)]
pub enum Bound<K> {
    /// No limit on this side.
    Unbounded,
    /// The range reaches the key and holds it.
    Included(K),
    /// The range reaches the key and leaves it out.
    Excluded(K),
}

/// Whether rank `r` is on the inner side of the lower end `lo`.
pub open spec fn above<K: Key>(lo: Bound<K>, r: int) -> bool {
    match lo {
        Bound::Unbounded => true,
        Bound::Included(k) => k.rank() <= r,
        Bound::Excluded(k) => k.rank() < r,
    }
}

/// Whether rank `r` is on the inner side of the upper end `hi`.
pub open spec fn below<K: Key>(hi: Bound<K>, r: int) -> bool {
    match hi {
        Bound::Unbounded => true,
        Bound::Included(k) => r <= k.rank(),
        Bound::Excluded(k) => r < k.rank(),
    }
}

/// Whether rank `r` lies in the range from `lo` to `hi`.
pub open spec fn in_range<K: Key>(lo: Bound<K>, hi: Bound<K>, r: int) -> bool {
    above(lo, r) && below(hi, r)
}

/// Whether `items` is the scan of the range from `lo` to `hi` over the map
/// `m`: its keys are strictly ascending, each is in the range and comes
/// with the value that `m` holds for it, and no key of `m` in the range is
/// missing.
pub open spec fn scan_of<K: Key, V>(
    m: Map<int, V>,
    lo: Bound<K>,
    hi: Bound<K>,
    items: Seq<(K, &V)>,
) -> bool {
    &&& forall|i: int, j: int|
        0 <= i < j < items.len() ==> (#[trigger] items[i]).0.rank() < (#[trigger] items[j]).0.rank()
    &&& forall|i: int|
        0 <= i < items.len() ==> in_range(lo, hi, (#[trigger] items[i]).0.rank())
            && m.contains_key(items[i].0.rank()) && m[items[i].0.rank()] == *items[i].1
    &&& forall|r: int|
        m.contains_key(r) && in_range(lo, hi, r) ==> exists|i: int|
            0 <= i < items.len() && (#[trigger] items[i]).0.rank() == r
}

/// The scans of two maps, the first wholly below the second, make the scan
/// of the two maps together.
pub proof fn lemma_scan_concat<K: Key, V>(
    m1: Map<int, V>,
    items1: Seq<(K, &V)>,
    m2: Map<int, V>,
    items2: Seq<(K, &V)>,
    lo: Bound<K>,
    hi: Bound<K>,
)
    requires
        scan_of(m1, lo, hi, items1),
        scan_of(m2, lo, hi, items2),
        forall|r1: int, r2: int| m1.contains_key(r1) && m2.contains_key(r2) ==> r1 < r2,
    ensures
        scan_of(m1.union_prefer_right(m2), lo, hi, items1 + items2),
{
    let m = m1.union_prefer_right(m2);
    let items = items1 + items2;
    let n = items1.len() as int;
    assert forall|i: int, j: int| 0 <= i < j < items.len() implies (#[trigger] items[i]).0.rank() < (
    #[trigger] items[j]).0.rank() by {
        if j < n {
            assert(items1[i].0.rank() < items1[j].0.rank());
        } else if i >= n {
            assert(items2[i - n].0.rank() < items2[j - n].0.rank());
        } else {
            assert(m1.contains_key(items1[i].0.rank()));
            assert(m2.contains_key(items2[j - n].0.rank()));
        }
    }
    assert forall|i: int| 0 <= i < items.len() implies in_range(
        lo,
        hi,
        (#[trigger] items[i]).0.rank(),
    ) && m.contains_key(items[i].0.rank()) && m[items[i].0.rank()] == *items[i].1 by {
        if i < n {
            let r = items1[i].0.rank();
            assert(m1.contains_key(r));
            if m2.contains_key(r) {
                assert(r < r);
            }
        } else {
            assert(m2.contains_key(items2[i - n].0.rank()));
        }
    }
    assert forall|r: int| m.contains_key(r) && in_range(lo, hi, r) implies exists|i: int|
        0 <= i < items.len() && (#[trigger] items[i]).0.rank() == r by {
        if m2.contains_key(r) {
            let i = choose|i: int| 0 <= i < items2.len() && (#[trigger] items2[i]).0.rank() == r;
            assert(items[n + i].0.rank() == r);
        } else {
            let i = choose|i: int| 0 <= i < items1.len() && (#[trigger] items1[i]).0.rank() == r;
            assert(items[i].0.rank() == r);
        }
    }
}

/// A map with no key in the range has the empty scan.
pub proof fn lemma_scan_none<K: Key, V>(m: Map<int, V>, lo: Bound<K>, hi: Bound<K>)
    requires
        forall|r: int| m.contains_key(r) ==> !in_range(lo, hi, r),
    ensures
        scan_of(m, lo, hi, Seq::<(K, &V)>::empty()),
{
}

/// The scan of a map with one entry.
pub proof fn lemma_scan_one<K: Key, V>(k: K, v: &V, lo: Bound<K>, hi: Bound<K>)
    ensures
        in_range(lo, hi, k.rank()) ==> scan_of(
            Map::<int, V>::empty().insert(k.rank(), *v),
            lo,
            hi,
            seq![(k, v)],
        ),
        !in_range(lo, hi, k.rank()) ==> scan_of(
            Map::<int, V>::empty().insert(k.rank(), *v),
            lo,
            hi,
            Seq::<(K, &V)>::empty(),
        ),
{
    let items = seq![(k, v)];
    if in_range(lo, hi, k.rank()) {
        assert(items[0].0.rank() == k.rank());
    }
}

impl<K: Key> Bound<K> {
    /// Whether `key` is on the inner side of this lower end.
    pub fn admits_from(&self, key: &K) -> (r: bool)
        ensures
            r == above(*self, key.rank()),
    {
        match self {
            Bound::Unbounded => true,
            Bound::Included(k) => !key.less(k),
            Bound::Excluded(k) => k.less(key),
        }
    }

    /// Whether `key` is on the inner side of this upper end.
    pub fn admits_to(&self, key: &K) -> (r: bool)
        ensures
            r == below(*self, key.rank()),
    {
        match self {
            Bound::Unbounded => true,
            Bound::Included(k) => !k.less(key),
            Bound::Excluded(k) => key.less(k),
        }
    }
}

impl<K: Key, V> LeafNode<K, V> {
    /// Appends to `out` the entries of the leaf whose keys are in the
    /// range, in ascending order.
    pub fn scan_leaf<'a>(&'a self, lo: &Bound<K>, hi: &Bound<K>, out: &mut Vec<(K, &'a V)>)
        requires
            self.wf(0, MAX_LEN as nat),
        ensures
            final(out)@.len() >= old(out)@.len(),
            final(out)@.subrange(0, old(out)@.len() as int) == old(out)@,
            scan_of(
                self@,
                *lo,
                *hi,
                final(out)@.subrange(old(out)@.len() as int, final(out)@.len() as int),
            ),
    {
        let n: usize = self.keys.len();
        let ghost base = out@.len() as int;
        let mut i: usize = 0;
        proof {
            assert(self.keys@.take(0) =~= Seq::<K>::empty());
            lemma_scan_none(
                leaf_map(self.keys@.take(0), self.vals@.take(0)),
                *lo,
                *hi,
            );
            assert(out@.subrange(base, out@.len() as int) =~= Seq::<(K, &V)>::empty());
        }
        while i < n
            invariant
                self.wf(0, MAX_LEN as nat),
                n == self.keys@.len(),
                i <= n,
                base == old(out)@.len(),
                out@.len() >= base,
                out@.subrange(0, base) == old(out)@,
                scan_of(
                    leaf_map(self.keys@.take(i as int), self.vals@.take(i as int)),
                    *lo,
                    *hi,
                    out@.subrange(base, out@.len() as int),
                ),
            decreases n - i,
        {
            let ghost before = out@;
            let ghost m1 = leaf_map(self.keys@.take(i as int), self.vals@.take(i as int));
            let key: K = self.keys[i];
            let inside: bool = lo.admits_from(&key) && hi.admits_to(&key);
            if inside {
                out.push((key, &self.vals[i]));
            }
            proof {
                let ka = self.keys@.take(i as int);
                let va = self.vals@.take(i as int);
                assert(ka.insert(i as int, key) =~= self.keys@.take(i + 1));
                assert(va.insert(i as int, self.vals@[i as int]) =~= self.vals@.take(i + 1));
                assert forall|a: int, b: int| 0 <= a < b < ka.len() implies (#[trigger] ka[a]).rank() < (
                #[trigger] ka[b]).rank() by {
                    assert(self.keys@[a].rank() < self.keys@[b].rank());
                }
                if i > 0 {
                    assert(ka[i - 1] == self.keys@[i - 1]);
                    assert(self.keys@[i - 1].rank() < self.keys@[i as int].rank());
                }
                lemma_leaf_insert(ka, va, i as int, key, self.vals@[i as int]);
                let m2 = Map::<int, V>::empty().insert(key.rank(), self.vals@[i as int]);
                assert(m1.union_prefer_right(m2) =~= m1.insert(key.rank(), self.vals@[i as int]));
                assert forall|r1: int, r2: int|
                    m1.contains_key(r1) && m2.contains_key(r2) implies r1 < r2 by {
                    let j = choose|j: int| 0 <= j < ka.len() && (#[trigger] ka[j]).rank() == r1;
                    assert(self.keys@[j].rank() < self.keys@[i as int].rank());
                }
                lemma_scan_one(key, &self.vals@[i as int], *lo, *hi);
                let items1 = before.subrange(base, before.len() as int);
                let items2 = if inside {
                    seq![(key, &self.vals@[i as int])]
                } else {
                    Seq::<(K, &V)>::empty()
                };
                lemma_scan_concat(m1, items1, m2, items2, *lo, *hi);
                assert(out@.subrange(base, out@.len() as int) =~= items1 + items2);
                assert(out@.subrange(0, base) =~= before.subrange(0, base));
            }
            i += 1;
        }
        proof {
            assert(self.keys@.take(n as int) =~= self.keys@);
            assert(self.vals@.take(n as int) =~= self.vals@);
        }
    }
}

/// The part of `m` whose ranks lie below `b`; nothing where `b` is `None`.
pub open spec fn before<V>(m: Map<int, V>, b: Option<int>) -> Map<int, V> {
    Map::new(|r: int| m.contains_key(r) && b is Some && r < b->0, |r: int| m[r])
}

/// The scan of a part of a map is the scan of the map where nothing else
/// of the map lies in the range.
pub proof fn lemma_scan_rest<K: Key, V>(
    part: Map<int, V>,
    m: Map<int, V>,
    lo: Bound<K>,
    hi: Bound<K>,
    items: Seq<(K, &V)>,
)
    requires
        scan_of(part, lo, hi, items),
        forall|r: int| part.contains_key(r) ==> m.contains_key(r) && m[r] == part[r],
        forall|r: int| m.contains_key(r) && !part.contains_key(r) ==> !in_range(lo, hi, r),
    ensures
        scan_of(m, lo, hi, items),
{
    assert forall|i: int| 0 <= i < items.len() implies in_range(
        lo,
        hi,
        (#[trigger] items[i]).0.rank(),
    ) && m.contains_key(items[i].0.rank()) && m[items[i].0.rank()] == *items[i].1 by {
        assert(part.contains_key(items[i].0.rank()));
    }
    assert forall|r: int| m.contains_key(r) && in_range(lo, hi, r) implies exists|i: int|
        0 <= i < items.len() && (#[trigger] items[i]).0.rank() == r by {
        assert(part.contains_key(r));
    }
}

impl<K: Key, V> NodeStore<K, V> {
    /// The entries whose keys lie in the range from `lo` to `hi`, in
    /// ascending order of their keys. The walk starts at the leaf `start`,
    /// below whose span no key of the range lies, and goes along the chain
    /// of leaves until it is past the range.
    pub fn scan_from<'a>(&'a self, start: usize, lo: &Bound<K>, hi: &Bound<K>) -> (r: Vec<
        (K, &'a V),
    >)
        requires
            self.wf(),
            self.live(start as int),
            forall|q: int|
                self.span(start as int).lo is Some && q < self.span(start as int).lo->0 ==> !above(
                    *lo,
                    q,
                ),
        ensures
            scan_of(self@, *lo, *hi, r@),
    {
        let ghost m = self@;
        let mut out: Vec<(K, &'a V)> = Vec::new();
        let mut cur: usize = start;
        let mut done: bool = false;
        let ghost mut q: int = self.lemma_place(start as int);
        proof {
            assert forall|r: int| before(m, self.span(start as int).lo).contains_key(
                r,
            ) implies !in_range(*lo, *hi, r) by {}
            lemma_scan_none(before(m, self.span(start as int).lo), *lo, *hi);
            assert(out@ =~= Seq::<(K, &V)>::empty());
        }
        while !done
            invariant
                self.wf(),
                m == self@,
                0 <= q < self.order@.len(),
                self.at(q) == cur,
                self.live(cur as int),
                !done ==> scan_of(before(m, self.span(cur as int).lo), *lo, *hi, out@),
                done ==> scan_of(m, *lo, *hi, out@),
            decreases self.order@.len() - q, if done { 0int } else { 1int },
        {
            let ghost items1 = out@;
            let ghost sp = self.span(cur as int);
            let ghost m1 = before(m, sp.lo);
            let leaf = self.get(cur);
            proof {
                self.lemma_leaf(cur as int, m);
                self.lemma_links_at(q);
                self.lemma_span_at(q);
            }
            leaf.scan_leaf(lo, hi, &mut out);
            let ghost items2 = out@.subrange(items1.len() as int, out@.len() as int);
            let ghost m2 = leaf@;
            let ghost upto = m1.union_prefer_right(m2);
            proof {
                assert(out@ =~= items1 + items2);
                assert forall|r1: int, r2: int|
                    m1.contains_key(r1) && m2.contains_key(r2) implies r1 < r2 by {
                    assert(restricted(m, sp).contains_key(r2));
                }
                lemma_scan_concat(m1, items1, m2, items2, *lo, *hi);
                assert forall|r: int| upto.contains_key(r) implies m.contains_key(r) && m[r]
                    == upto[r] by {
                    if m2.contains_key(r) {
                        assert(restricted(m, sp).contains_key(r));
                    }
                }
                assert forall|r: int| m.contains_key(r) && (sp.hi is None || r < sp.hi->0)
                    implies upto.contains_key(r) by {
                    if !m1.contains_key(r) {
                        assert(restricted(m, sp).contains_key(r));
                    }
                }
            }
            let n: usize = leaf.keys.len();
            let past: bool = n > 0 && !hi.admits_to(&leaf.keys[n - 1]);
            match leaf.next {
                None => {
                    done = true;
                    proof {
                        lemma_scan_rest(upto, m, *lo, *hi, out@);
                    }
                },
                Some(next) => {
                    if past {
                        done = true;
                        proof {
                            lemma_leaf_at(leaf.keys@, leaf.vals@, n - 1);
                            assert(restricted(m, sp).contains_key(leaf.keys@[n - 1].rank()));
                            lemma_scan_rest(upto, m, *lo, *hi, out@);
                        }
                    } else {
                        proof {
                            self.lemma_listed(q + 1);
                            self.lemma_span_at(q + 1);
                            assert(before(m, self.span(next as int).lo) =~= upto);
                            q = q + 1;
                        }
                        cur = next;
                    }
                },
            }
        }
        out
    }
}

} // verus!
