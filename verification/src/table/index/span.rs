//! Spans of ranks: the interval of keys that a subtree or a leaf is
//! responsible for.
use vstd::prelude::*;
use crate::table::index::key::Key;
use crate::table::index::order::{all_below, all_from, joined};

verus! {

/// An interval of ranks from `lo`, which it holds, to `hi`, which it leaves
/// out. An end that is `None` is open.
pub ghost struct Span {
    pub lo: Option<int>,
    pub hi: Option<int>,
}

/// The span of all ranks.
pub open spec fn full_span() -> Span {
    Span { lo: None, hi: None }
}

/// Whether rank `r` lies in the span.
pub open spec fn span_has(s: Span, r: int) -> bool {
    &&& s.lo is Some ==> s.lo->0 <= r
    &&& s.hi is Some ==> r < s.hi->0
}

/// Whether the span holds some rank.
pub open spec fn span_ok(s: Span) -> bool {
    s.lo is Some && s.hi is Some ==> s.lo->0 < s.hi->0
}

/// Whether the span `a` lies within the span `b`.
pub open spec fn span_within(a: Span, b: Span) -> bool {
    &&& b.lo is Some ==> a.lo is Some && b.lo->0 <= a.lo->0
    &&& b.hi is Some ==> a.hi is Some && a.hi->0 <= b.hi->0
}

/// Whether each of `keys` lies strictly inside the span.
pub open spec fn keys_inside<K: Key>(keys: Seq<K>, s: Span) -> bool {
    forall|i: int|
        0 <= i < keys.len() ==> (s.lo is Some ==> s.lo->0 < (#[trigger] keys[i]).rank()) && (s.hi
            is Some ==> keys[i].rank() < s.hi->0)
}

/// The span of child `i` of a node with the separators `keys` and the span
/// `s`: from the separator before the child to the separator after it.
pub open spec fn child_span<K: Key>(s: Span, keys: Seq<K>, i: int) -> Span {
    Span {
        lo: if i == 0 {
            s.lo
        } else {
            Some(keys[i - 1].rank())
        },
        hi: if i >= keys.len() {
            s.hi
        } else {
            Some(keys[i].rank())
        },
    }
}

/// The part of `m` whose ranks lie in the span.
pub open spec fn restricted<V>(m: Map<int, V>, s: Span) -> Map<int, V> {
    Map::new(|r: int| m.contains_key(r) && span_has(s, r), |r: int| m[r])
}

/// Two maps that lie on the two sides of the rank `s`, neither empty on its
/// side, and that hold together the part of `m` in the span `sp`, hold the
/// parts of `m` in the two halves of the span.
pub proof fn lemma_span_halves<V>(
    left: Map<int, V>,
    s: int,
    right: Map<int, V>,
    m: Map<int, V>,
    sp: Span,
)
    requires
        joined(left, s, right) == restricted(m, sp),
        all_below(left, s),
        all_from(right, s),
        exists|a: int| left.contains_key(a),
        exists|b: int| right.contains_key(b),
    ensures
        left == restricted(m, Span { lo: sp.lo, hi: Some(s) }),
        right == restricted(m, Span { lo: Some(s), hi: sp.hi }),
        span_ok(Span { lo: sp.lo, hi: Some(s) }),
        span_ok(Span { lo: Some(s), hi: sp.hi }),
{
    let j = joined(left, s, right);
    let lo_span = Span { lo: sp.lo, hi: Some(s) };
    let hi_span = Span { lo: Some(s), hi: sp.hi };
    let a = choose|a: int| left.contains_key(a);
    let b = choose|b: int| right.contains_key(b);
    assert(j.contains_key(a));
    assert(j.contains_key(b));
    assert(restricted(m, sp).contains_key(a));
    assert(restricted(m, sp).contains_key(b));
    assert forall|q: int| #[trigger] left.contains_key(q) implies restricted(
        m,
        lo_span,
    ).contains_key(q) && left[q] == restricted(m, lo_span)[q] by {
        assert(j.contains_key(q));
        assert(j[q] == left[q]);
        assert(restricted(m, sp).contains_key(q));
    }
    assert forall|q: int| #[trigger] restricted(m, lo_span).contains_key(
        q,
    ) implies left.contains_key(q) by {
        assert(restricted(m, sp).contains_key(q));
        assert(j.contains_key(q));
    }
    assert(left =~= restricted(m, lo_span));
    assert forall|q: int| #[trigger] right.contains_key(q) implies restricted(
        m,
        hi_span,
    ).contains_key(q) && right[q] == restricted(m, hi_span)[q] by {
        assert(j.contains_key(q));
        assert(j[q] == right[q]);
        assert(restricted(m, sp).contains_key(q));
    }
    assert forall|q: int| #[trigger] restricted(m, hi_span).contains_key(
        q,
    ) implies right.contains_key(q) by {
        assert(restricted(m, sp).contains_key(q));
        assert(j.contains_key(q));
    }
    assert(right =~= restricted(m, hi_span));
}

/// The parts of `m` in two spans that follow one another make the part of
/// `m` in the two spans together.
pub proof fn lemma_span_joined<V>(m: Map<int, V>, lo: Option<int>, s: int, hi: Option<int>)
    requires
        span_ok(Span { lo: lo, hi: Some(s) }),
        span_ok(Span { lo: Some(s), hi: hi }),
    ensures
        joined(
            restricted(m, Span { lo: lo, hi: Some(s) }),
            s,
            restricted(m, Span { lo: Some(s), hi: hi }),
        ) == restricted(m, Span { lo: lo, hi: hi }),
        all_below(restricted(m, Span { lo: lo, hi: Some(s) }), s),
        all_from(restricted(m, Span { lo: Some(s), hi: hi }), s),
{
    assert(joined(
        restricted(m, Span { lo: lo, hi: Some(s) }),
        s,
        restricted(m, Span { lo: Some(s), hi: hi }),
    ) =~= restricted(m, Span { lo: lo, hi: hi }));
}

} // verus!
