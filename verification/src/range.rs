use vstd::prelude::*;
use crate::compare::{max_of, min_of, CompareTrait};

verus! {

/// The least element of `s[l..=r]`.
pub open spec fn range_min<T: CompareTrait>(s: Seq<T>, l: int, r: int) -> T
    decreases r - l,
{
    if r <= l {
        s[l]
    } else {
        min_of(range_min(s, l, r - 1), s[r])
    }
}

/// The greatest element of `s[l..=r]`.
pub open spec fn range_max<T: CompareTrait>(s: Seq<T>, l: int, r: int) -> T
    decreases r - l,
{
    if r <= l {
        s[l]
    } else {
        max_of(range_max(s, l, r - 1), s[r])
    }
}

/// `v` occurs in `s[l..=r]` and nothing there is below it.
pub open spec fn is_range_min<T: CompareTrait>(s: Seq<T>, l: int, r: int, v: T) -> bool {
    &&& exists|k: int| l <= k <= r && #[trigger] s[k] == v
    &&& forall|j: int| l <= j <= r ==> v.le(&#[trigger] s[j])
}

/// `v` occurs in `s[l..=r]` and nothing there is above it.
pub open spec fn is_range_max<T: CompareTrait>(s: Seq<T>, l: int, r: int, v: T) -> bool {
    &&& exists|k: int| l <= k <= r && #[trigger] s[k] == v
    &&& forall|j: int| l <= j <= r ==> (#[trigger] s[j]).le(&v)
}

/// Over a single position both extremes are that position's element.
pub proof fn lemma_range_single<T: CompareTrait>(s: Seq<T>, i: int)
    ensures
        range_min(s, i, i) == s[i],
        range_max(s, i, i) == s[i],
{
}

/// `range_min` is an element of the range and a lower bound of it.
pub proof fn lemma_range_min_is<T: CompareTrait>(s: Seq<T>, l: int, r: int)
    requires
        0 <= l <= r < s.len(),
    ensures
        is_range_min(s, l, r, range_min(s, l, r)),
    decreases r - l,
{
    if r <= l {
        T::le_total(&s[l], &s[l]);
        assert(s[l] == range_min(s, l, r));
    } else {
        lemma_range_min_is(s, l, r - 1);
        let p = range_min(s, l, r - 1);
        let v = range_min(s, l, r);
        T::le_total(&p, &s[r]);
        T::le_total(&s[r], &s[r]);
        let k0 = choose|k: int| l <= k <= r - 1 && #[trigger] s[k] == p;
        assert(s[if v == p { k0 } else { r }] == v);
        assert forall|j: int| l <= j <= r implies v.le(&#[trigger] s[j]) by {
            if j < r {
                T::le_transitive(&v, &p, &s[j]);
            }
        }
    }
}

/// `range_max` is an element of the range and an upper bound of it.
pub proof fn lemma_range_max_is<T: CompareTrait>(s: Seq<T>, l: int, r: int)
    requires
        0 <= l <= r < s.len(),
    ensures
        is_range_max(s, l, r, range_max(s, l, r)),
    decreases r - l,
{
    if r <= l {
        T::le_total(&s[l], &s[l]);
        assert(s[l] == range_max(s, l, r));
    } else {
        lemma_range_max_is(s, l, r - 1);
        let p = range_max(s, l, r - 1);
        let v = range_max(s, l, r);
        T::le_total(&p, &s[r]);
        T::le_total(&s[r], &s[r]);
        let k0 = choose|k: int| l <= k <= r - 1 && #[trigger] s[k] == p;
        assert(s[if v == p { k0 } else { r }] == v);
        assert forall|j: int| l <= j <= r implies (#[trigger] s[j]).le(&v) by {
            if j < r {
                T::le_transitive(&s[j], &p, &v);
            }
        }
    }
}

/// An element of the range that is a lower bound of it is `range_min`.
pub proof fn lemma_range_min_unique<T: CompareTrait>(s: Seq<T>, l: int, r: int, v: T)
    requires
        0 <= l <= r < s.len(),
        is_range_min(s, l, r, v),
    ensures
        v == range_min(s, l, r),
{
    lemma_range_min_is(s, l, r);
    let m = range_min(s, l, r);
    let kv = choose|k: int| l <= k <= r && #[trigger] s[k] == v;
    let km = choose|k: int| l <= k <= r && #[trigger] s[k] == m;
    assert(m.le(&s[kv]));
    assert(v.le(&s[km]));
    T::le_antisymmetric(&v, &m);
}

/// An element of the range that is an upper bound of it is `range_max`.
pub proof fn lemma_range_max_unique<T: CompareTrait>(s: Seq<T>, l: int, r: int, v: T)
    requires
        0 <= l <= r < s.len(),
        is_range_max(s, l, r, v),
    ensures
        v == range_max(s, l, r),
{
    lemma_range_max_is(s, l, r);
    let m = range_max(s, l, r);
    let kv = choose|k: int| l <= k <= r && #[trigger] s[k] == v;
    let km = choose|k: int| l <= k <= r && #[trigger] s[k] == m;
    assert(s[kv].le(&m));
    assert(s[km].le(&v));
    T::le_antisymmetric(&v, &m);
}

/// Two ranges that together cover `[l1, r2]`, overlapping or adjacent: the
/// least of the whole is the lesser of the two parts' least elements.
pub proof fn lemma_range_min_join<T: CompareTrait>(s: Seq<T>, l1: int, r1: int, l2: int, r2: int)
    requires
        0 <= l1 <= r1 <= r2 < s.len(),
        l1 <= l2 <= r1 + 1,
        l2 <= r2,
    ensures
        range_min(s, l1, r2) == min_of(range_min(s, l1, r1), range_min(s, l2, r2)),
{
    lemma_range_min_is(s, l1, r1);
    lemma_range_min_is(s, l2, r2);
    let a = range_min(s, l1, r1);
    let b = range_min(s, l2, r2);
    let v = min_of(a, b);
    T::le_total(&a, &b);
    T::le_total(&a, &a);
    T::le_total(&b, &b);
    let ka = choose|k: int| l1 <= k <= r1 && #[trigger] s[k] == a;
    let kb = choose|k: int| l2 <= k <= r2 && #[trigger] s[k] == b;
    assert(s[if v == a { ka } else { kb }] == v);
    assert forall|j: int| l1 <= j <= r2 implies v.le(&#[trigger] s[j]) by {
        if j <= r1 {
            T::le_transitive(&v, &a, &s[j]);
        } else {
            T::le_transitive(&v, &b, &s[j]);
        }
    }
    lemma_range_min_unique(s, l1, r2, v);
}

/// Two ranges that together cover `[l1, r2]`, overlapping or adjacent: the
/// greatest of the whole is the greater of the two parts' greatest elements.
pub proof fn lemma_range_max_join<T: CompareTrait>(s: Seq<T>, l1: int, r1: int, l2: int, r2: int)
    requires
        0 <= l1 <= r1 <= r2 < s.len(),
        l1 <= l2 <= r1 + 1,
        l2 <= r2,
    ensures
        range_max(s, l1, r2) == max_of(range_max(s, l1, r1), range_max(s, l2, r2)),
{
    lemma_range_max_is(s, l1, r1);
    lemma_range_max_is(s, l2, r2);
    let a = range_max(s, l1, r1);
    let b = range_max(s, l2, r2);
    let v = max_of(a, b);
    T::le_total(&a, &b);
    T::le_total(&a, &a);
    T::le_total(&b, &b);
    let ka = choose|k: int| l1 <= k <= r1 && #[trigger] s[k] == a;
    let kb = choose|k: int| l2 <= k <= r2 && #[trigger] s[k] == b;
    assert(s[if v == a { ka } else { kb }] == v);
    assert forall|j: int| l1 <= j <= r2 implies (#[trigger] s[j]).le(&v) by {
        if j <= r1 {
            T::le_transitive(&s[j], &a, &v);
        } else {
            T::le_transitive(&s[j], &b, &v);
        }
    }
    lemma_range_max_unique(s, l1, r2, v);
}

/// The range extremes read only the elements of the range: two sequences that
/// agree on `[l, r]`, up to a shift, have the same extremes there.
pub proof fn lemma_range_shift<T: CompareTrait>(s: Seq<T>, t: Seq<T>, l: int, r: int, d: int)
    requires
        l <= r,
        forall|j: int| l <= j <= r ==> s[j] == t[j + d],
    ensures
        range_min(s, l, r) == range_min(t, l + d, r + d),
        range_max(s, l, r) == range_max(t, l + d, r + d),
    decreases r - l,
{
    if r > l {
        lemma_range_shift(s, t, l, r - 1, d);
    }
}

} // verus!
