use vstd::prelude::*;
use std::cmp::Ordering;

verus! {

/// A total order on a type, decided at run time by `cmp`.
///
/// `le` is the order as a relation; the three proof functions say that it is
/// total, transitive and antisymmetric, so that equal rank means equal value.
pub trait CompareTrait {
    /// `self` comes before `other` in the order, or is equal to it.
    spec fn le(&self, other: &Self) -> bool;

    proof fn le_total(a: &Self, b: &Self)
        ensures
            a.le(b) || b.le(a),
    ;

    proof fn le_transitive(a: &Self, b: &Self, c: &Self)
        requires
            a.le(b),
            b.le(c),
        ensures
            a.le(c),
    ;

    proof fn le_antisymmetric(a: &Self, b: &Self)
        requires
            a.le(b),
            b.le(a),
        ensures
            a == b,
    ;

    /// Three-way comparison: `Less` exactly when `a` is strictly before `b`,
    /// `Greater` exactly when it is strictly after.
    fn cmp(a: &Self, b: &Self) -> (o: Ordering)
        ensures
            o == Ordering::Less <==> !b.le(a),
            o == Ordering::Greater <==> !a.le(b),
    ;
}

/// The smaller of two values; the first where they are equal.
pub open spec fn min_of<T: CompareTrait>(a: T, b: T) -> T {
    if a.le(&b) {
        a
    } else {
        b
    }
}

/// The larger of two values; the first where they are equal.
pub open spec fn max_of<T: CompareTrait>(a: T, b: T) -> T {
    if b.le(&a) {
        a
    } else {
        b
    }
}

/// Minimum and maximum of two values under the order of `CompareTrait`.
pub trait MinMaxTrait: Sized + CompareTrait {
    fn min(a: Self, b: Self) -> (m: Self)
        ensures
            m == min_of(a, b),
    {
        match Self::cmp(&a, &b) {
            Ordering::Greater => b,
            _ => a,
        }
    }

    fn max(a: Self, b: Self) -> (m: Self)
        ensures
            m == max_of(a, b),
    {
        match Self::cmp(&a, &b) {
            Ordering::Less => b,
            _ => a,
        }
    }
}

/// Taking the lesser, or the greater, of three values does not depend on
/// the grouping.
pub proof fn lemma_min_max_associative<T: CompareTrait>(a: T, b: T, c: T)
    ensures
        min_of(min_of(a, b), c) == min_of(a, min_of(b, c)),
        max_of(max_of(a, b), c) == max_of(a, max_of(b, c)),
{
    T::le_total(&a, &b);
    T::le_total(&b, &c);
    T::le_total(&a, &c);
    if a.le(&b) && b.le(&c) {
        T::le_transitive(&a, &b, &c);
    }
    if c.le(&b) && b.le(&a) {
        T::le_transitive(&c, &b, &a);
    }
    if b.le(&a) && a.le(&c) {
        T::le_transitive(&b, &a, &c);
    }
    if c.le(&a) && a.le(&b) {
        T::le_transitive(&c, &a, &b);
    }
    if a.le(&c) && c.le(&b) {
        T::le_transitive(&a, &c, &b);
    }
    if b.le(&c) && c.le(&a) {
        T::le_transitive(&b, &c, &a);
    }
    if a.le(&c) && c.le(&a) {
        T::le_antisymmetric(&a, &c);
    }
    if a.le(&b) && b.le(&a) {
        T::le_antisymmetric(&a, &b);
    }
    if c.le(&b) && b.le(&c) {
        T::le_antisymmetric(&c, &b);
    }
}

/// Taking the lesser, or the greater, of two values does not depend on the
/// order.
pub proof fn lemma_min_max_commutative<T: CompareTrait>(a: T, b: T)
    ensures
        min_of(a, b) == min_of(b, a),
        max_of(a, b) == max_of(b, a),
{
    T::le_total(&a, &b);
    if a.le(&b) && b.le(&a) {
        T::le_antisymmetric(&a, &b);
    }
}

/// `min_of` is the lower of its arguments and `max_of` the upper, and each is
/// one of the two.
pub proof fn lemma_min_max_of<T: CompareTrait>(a: T, b: T)
    ensures
        min_of(a, b).le(&a),
        min_of(a, b).le(&b),
        a.le(&max_of(a, b)),
        b.le(&max_of(a, b)),
        min_of(a, b) == a || min_of(a, b) == b,
        max_of(a, b) == a || max_of(a, b) == b,
{
    T::le_total(&a, &b);
    T::le_total(&a, &a);
    T::le_total(&b, &b);
}

impl CompareTrait for u64 {
    open spec fn le(&self, other: &Self) -> bool {
        *self <= *other
    }

    proof fn le_total(a: &Self, b: &Self) {
    }

    proof fn le_transitive(a: &Self, b: &Self, c: &Self) {
    }

    proof fn le_antisymmetric(a: &Self, b: &Self) {
    }

    fn cmp(a: &Self, b: &Self) -> (o: Ordering) {
        a.cmp(b)
    }
}

impl MinMaxTrait for u64 {
}

impl CompareTrait for u32 {
    open spec fn le(&self, other: &Self) -> bool {
        *self <= *other
    }

    proof fn le_total(a: &Self, b: &Self) {
    }

    proof fn le_transitive(a: &Self, b: &Self, c: &Self) {
    }

    proof fn le_antisymmetric(a: &Self, b: &Self) {
    }

    fn cmp(a: &Self, b: &Self) -> (o: Ordering) {
        a.cmp(b)
    }
}

impl MinMaxTrait for u32 {
}

impl CompareTrait for u16 {
    open spec fn le(&self, other: &Self) -> bool {
        *self <= *other
    }

    proof fn le_total(a: &Self, b: &Self) {
    }

    proof fn le_transitive(a: &Self, b: &Self, c: &Self) {
    }

    proof fn le_antisymmetric(a: &Self, b: &Self) {
    }

    fn cmp(a: &Self, b: &Self) -> (o: Ordering) {
        a.cmp(b)
    }
}

impl MinMaxTrait for u16 {
}

impl CompareTrait for u8 {
    open spec fn le(&self, other: &Self) -> bool {
        *self <= *other
    }

    proof fn le_total(a: &Self, b: &Self) {
    }

    proof fn le_transitive(a: &Self, b: &Self, c: &Self) {
    }

    proof fn le_antisymmetric(a: &Self, b: &Self) {
    }

    fn cmp(a: &Self, b: &Self) -> (o: Ordering) {
        a.cmp(b)
    }
}

impl MinMaxTrait for u8 {
}

impl CompareTrait for i64 {
    open spec fn le(&self, other: &Self) -> bool {
        *self <= *other
    }

    proof fn le_total(a: &Self, b: &Self) {
    }

    proof fn le_transitive(a: &Self, b: &Self, c: &Self) {
    }

    proof fn le_antisymmetric(a: &Self, b: &Self) {
    }

    fn cmp(a: &Self, b: &Self) -> (o: Ordering) {
        a.cmp(b)
    }
}

impl MinMaxTrait for i64 {
}

impl CompareTrait for i32 {
    open spec fn le(&self, other: &Self) -> bool {
        *self <= *other
    }

    proof fn le_total(a: &Self, b: &Self) {
    }

    proof fn le_transitive(a: &Self, b: &Self, c: &Self) {
    }

    proof fn le_antisymmetric(a: &Self, b: &Self) {
    }

    fn cmp(a: &Self, b: &Self) -> (o: Ordering) {
        a.cmp(b)
    }
}

impl MinMaxTrait for i32 {
}

impl CompareTrait for i16 {
    open spec fn le(&self, other: &Self) -> bool {
        *self <= *other
    }

    proof fn le_total(a: &Self, b: &Self) {
    }

    proof fn le_transitive(a: &Self, b: &Self, c: &Self) {
    }

    proof fn le_antisymmetric(a: &Self, b: &Self) {
    }

    fn cmp(a: &Self, b: &Self) -> (o: Ordering) {
        a.cmp(b)
    }
}

impl MinMaxTrait for i16 {
}

impl CompareTrait for i8 {
    open spec fn le(&self, other: &Self) -> bool {
        *self <= *other
    }

    proof fn le_total(a: &Self, b: &Self) {
    }

    proof fn le_transitive(a: &Self, b: &Self, c: &Self) {
    }

    proof fn le_antisymmetric(a: &Self, b: &Self) {
    }

    fn cmp(a: &Self, b: &Self) -> (o: Ordering) {
        a.cmp(b)
    }
}

impl MinMaxTrait for i8 {
}

} // verus!
