use vstd::prelude::*;
use std::cmp::Ordering;
use std::marker::PhantomData;
use crate::common::{get_msb_pos, lemma_leading_zeros_bit_length};
use crate::compare::CompareTrait;
use crate::masks::{
    ancestor_masks, bit16, chain_bit, first_recorded, lemma_answers, lemma_decode, pack, recorded,
};
use crate::scan::dominators;
use crate::range::{
    is_range_max, is_range_min, lemma_range_max_unique, lemma_range_min_unique, range_max,
    range_min,
};

verus! {

/// Orientation that looks for the least element.
pub struct Min;

/// Orientation that looks for the greatest element.
pub struct Max;

/// An orientation of the block algorithm: which of two elements wins.
pub trait RMQType {
    /// Whether the least element is sought; the greatest otherwise.
    spec fn seeks_min() -> bool;

    /// Whether `l` is strictly better than `r`: strictly before it where the
    /// least is sought, strictly after it where the greatest is.
    fn cmp<T: CompareTrait>(l: &T, r: &T) -> (b: bool)
        ensures
            b == (if Self::seeks_min() {
                !r.le(l)
            } else {
                !l.le(r)
            }),
    ;
}

impl RMQType for Min {
    open spec fn seeks_min() -> bool {
        true
    }

    fn cmp<T: CompareTrait>(l: &T, r: &T) -> (b: bool) {
        matches!(T::cmp(l, r), Ordering::Less)
    }
}

impl RMQType for Max {
    open spec fn seeks_min() -> bool {
        false
    }

    fn cmp<T: CompareTrait>(l: &T, r: &T) -> (b: bool) {
        matches!(T::cmp(l, r), Ordering::Greater)
    }
}

/// `a` is strictly better than `b` under the orientation `C`.
pub open spec fn better<C: RMQType, T: CompareTrait>(a: T, b: T) -> bool {
    if C::seeks_min() {
        !b.le(&a)
    } else {
        !a.le(&b)
    }
}

/// `better` is a strict order in which "not better" is transitive.
pub proof fn lemma_better_order<C: RMQType, T: CompareTrait>(a: T, b: T, c: T)
    ensures
        !better::<C, T>(a, a),
        better::<C, T>(a, b) ==> !better::<C, T>(b, a),
        !better::<C, T>(b, a) && !better::<C, T>(c, b) ==> !better::<C, T>(c, a),
        better::<C, T>(a, b) && !better::<C, T>(c, b) ==> better::<C, T>(a, c),
        better::<C, T>(a, b) && better::<C, T>(b, c) ==> better::<C, T>(a, c),
{
    T::le_total(&a, &a);
    T::le_total(&a, &b);
    T::le_total(&b, &c);
    T::le_total(&a, &c);
    if a.le(&b) && b.le(&c) {
        T::le_transitive(&a, &b, &c);
    }
    if c.le(&b) && b.le(&a) {
        T::le_transitive(&c, &b, &a);
    }
    if a.le(&c) && c.le(&b) {
        T::le_transitive(&a, &c, &b);
    }
    if b.le(&c) && c.le(&a) {
        T::le_transitive(&b, &c, &a);
    }
}

/// `k` is the position in `[l, r]` of the best element of `s[l..=r]`, and
/// where several are equally good, of the last of them.
pub open spec fn is_last_best<C: RMQType, T: CompareTrait>(
    s: Seq<T>,
    l: int,
    r: int,
    k: int,
) -> bool {
    &&& l <= k <= r
    &&& forall|j: int| l <= j <= r ==> !better::<C, T>(#[trigger] s[j], s[k])
    &&& forall|j: int| k < j <= r ==> better::<C, T>(s[k], #[trigger] s[j])
}

/// At most one position is the last best of a range.
pub proof fn lemma_last_best_unique<C: RMQType, T: CompareTrait>(
    s: Seq<T>,
    l: int,
    r: int,
    k1: int,
    k2: int,
)
    requires
        is_last_best::<C, T>(s, l, r, k1),
        is_last_best::<C, T>(s, l, r, k2),
    ensures
        k1 == k2,
{
    if k1 < k2 {
        assert(better::<C, T>(s[k1], s[k2]));
        assert(!better::<C, T>(s[k1], s[k2]));
    }
    if k2 < k1 {
        assert(better::<C, T>(s[k2], s[k1]));
        assert(!better::<C, T>(s[k2], s[k1]));
    }
}

/// The end of what a query of `[l, r]` reads of a run of `n` elements.
pub open spec fn query_end(n: nat, r: int) -> int {
    if r < n {
        r
    } else {
        n - 1
    }
}

/// One orientation's index of a run of at most 16 elements: for each end
/// position the mask of its ancestors, two masks to a word.
pub struct RMQBlock<C: RMQType> {
    val: [u16; 8],
    _cmp: PhantomData<C>,
}

/// The query that an orientation's index answers with a position.
pub trait RMQBlockTrait<C: RMQType> {
    /// The position that the index gives for the range `[l, r]`.
    spec fn answer(&self, l: int, r: int) -> int;

    /// The position that answers the range `[l, r]`, found by counting the
    /// leading zeros of the window.
    fn query(&self, l: usize, r: usize) -> (k: usize)
        requires
            l <= r <= 15,
        ensures
            k == self.answer(l as int, r as int),
            l <= k <= r,
    ;

    /// The same position, found by the position of the highest set bit.
    fn query_unsafe(&self, l: usize, r: usize) -> (k: usize)
        requires
            l <= r <= 15,
        ensures
            k == self.answer(l as int, r as int),
            l <= k <= r,
    ;
}

/// The 15 bits that a word holds of its two masks.
const MASK: u16 = 0x7fff;

impl<C: RMQType> RMQBlock<C> {
    /// The eight packed words.
    pub closed spec fn words(&self) -> Seq<u16> {
        self.val@
    }

    /// The index answers every query that begins inside the run `s` with
    /// the last best position of what the query reads of the run.
    pub open spec fn answers_for<T: CompareTrait>(&self, s: Seq<T>) -> bool {
        forall|l: int, r: int|
            0 <= l <= r <= 15 && l < s.len() ==> is_last_best::<C, T>(
                s,
                l,
                query_end(s.len(), r),
                #[trigger] self.answer(l, r),
            )
    }

    /// The words hold the masks of the run `s` and nothing else: for each
    /// position what it records, and the top bit of each word clear.
    pub open spec fn records<T: CompareTrait>(&self, s: Seq<T>) -> bool {
        &&& self.words().len() == 8
        &&& forall|r: int, b: int|
            0 <= b < r < 16 ==> (#[trigger] chain_bit(self.words(), r, b) <==> recorded::<C, T>(
                s,
                r,
                b,
            ))
        &&& forall|i: int| 0 <= i < 8 ==> !bit16(#[trigger] self.words()[i], 15)
    }

    /// The eight packed words.
    pub fn as_words(&self) -> (w: &[u16; 8])
        ensures
            w@ == self.words(),
    {
        &self.val
    }

    /// Builds the index of a run of at most 16 elements.
    pub fn new<T: CompareTrait>(arr: &[T]) -> (b: Self)
        requires
            arr@.len() <= 16,
        ensures
            b.records(arr@),
            b.answers_for(arr@),
    {
        let g = dominators::<C, T>(arr);
        let m = ancestor_masks::<C, T>(&g, Ghost(arr@));
        let val = pack(&m);
        let b = Self { val, _cmp: PhantomData };
        proof {
            assert(b.records(arr@));
            b.lemma_records_answers(arr@);
        }
        b
    }

    /// Words that hold the masks of a run answer every query of it with the
    /// last best position.
    pub proof fn lemma_records_answers<T: CompareTrait>(&self, s: Seq<T>)
        requires
            self.records(s),
        ensures
            self.answers_for(s),
    {
        assert forall|l: int, r: int| 0 <= l <= r <= 15 && l < s.len() implies is_last_best::<C, T>(
            s,
            l,
            query_end(s.len(), r),
            #[trigger] self.answer(l, r),
        ) by {
            lemma_answers::<C, T>(s, self.words(), l, r);
        }
    }
}

impl<C: RMQType> RMQBlockTrait<C> for RMQBlock<C> {
    open spec fn answer(&self, l: int, r: int) -> int {
        first_recorded(self.words(), l, r)
    }

    fn query(&self, l: usize, r: usize) -> (k: usize) {
        let mask = MASK >> 15 - (r - l);
        let idx = if r >= 8 {
            15 - r
        } else {
            r
        };
        let shift = if r >= 8 {
            15 - r
        } else {
            0
        };
        let bits = (self.val[idx] >> shift & mask) as u64;
        proof {
            lemma_decode(self.val@, l as int, r as int, bits);
            lemma_leading_zeros_bit_length(bits);
        }
        bits.leading_zeros() as usize - (64 - r)
    }

    fn query_unsafe(&self, l: usize, r: usize) -> (k: usize) {
        let mask = MASK >> 15 - (r - l);
        let idx = if r >= 8 {
            15 - r
        } else {
            r
        };
        let shift = if r >= 8 {
            15 - r
        } else {
            0
        };
        let bits = (self.val[idx] >> shift & mask) as u64;
        proof {
            lemma_decode(self.val@, l as int, r as int, bits);
        }
        r - get_msb_pos(bits) as usize
    }
}

/// A run of at most 16 elements with the indexes of both orientations.
///
/// The view is the run itself. The slots behind it hold padding, which no
/// query answers with: a query that reaches behind the run reads the run up
/// to its end.
pub struct Block<T: CompareTrait + Default> {
    min: RMQBlock<Min>,
    max: RMQBlock<Max>,
    val: [T; 16],
    len: Ghost<nat>,
}

impl<T: CompareTrait + Default> View for Block<T> {
    type V = Seq<T>;

    closed spec fn view(&self) -> Seq<T> {
        self.val@.take(self.len@ as int)
    }
}

impl<T: CompareTrait + Default> Block<T> {
    #[verifier::type_invariant]
    spec fn inv(self) -> bool {
        &&& self.len@ <= 16
        &&& self.min.records(self@)
        &&& self.max.records(self@)
    }
}

impl<T: CompareTrait + Default> Block<T> {
    /// The index of the orientation that seeks the least element.
    pub closed spec fn min_view(&self) -> RMQBlock<Min> {
        self.min
    }

    /// The index of the orientation that seeks the greatest element.
    pub closed spec fn max_view(&self) -> RMQBlock<Max> {
        self.max
    }

    /// The 16 slots: the run, and padding behind it.
    pub closed spec fn slots_view(&self) -> Seq<T> {
        self.val@
    }

    /// The slots begin with the run, and both indexes hold its masks.
    pub open spec fn laid_out(&self) -> bool {
        &&& self@.len() <= 16 == self.slots_view().len()
        &&& self.slots_view().take(self@.len() as int) == self@
        &&& self.min_view().records(self@)
        &&& self.max_view().records(self@)
    }

    /// The pair of elements that a query of `[l, r]` returns: the slots at
    /// the positions that the two indexes give.
    pub open spec fn selected(&self, l: int, r: int) -> (T, T) {
        (
            self.slots_view()[self.min_view().answer(l, r)],
            self.slots_view()[self.max_view().answer(l, r)],
        )
    }

    /// Every query that begins inside the run returns the least and the
    /// greatest element of what it reads of the run.
    pub open spec fn selects_extremes(&self) -> bool {
        forall|l: int, r: int|
            0 <= l <= r <= 15 && l < self@.len() ==> #[trigger] self.selected(l, r) == (
                range_min(self@, l, query_end(self@.len(), r)),
                range_max(self@, l, query_end(self@.len(), r)),
            )
    }

    /// A block that is laid out for its run answers with the run's extremes.
    pub proof fn lemma_selects_extremes(&self)
        requires
            self.laid_out(),
        ensures
            self.selects_extremes(),
    {
        self.min_view().lemma_records_answers(self@);
        self.max_view().lemma_records_answers(self@);
        assert forall|l: int, r: int| 0 <= l <= r <= 15 && l < self@.len() implies #[trigger] self.selected(
            l,
            r,
        ) == (
            range_min(self@, l, query_end(self@.len(), r)),
            range_max(self@, l, query_end(self@.len(), r)),
        ) by {
            lemma_extremes(self.min_view(), self.max_view(), self@, l, r);
        }
    }
}

impl<T: CompareTrait + Default + Copy> Block<T> {
    /// Builds the block of a run of at most 16 elements.
    pub fn new(arr: &[T]) -> (b: Self)
        requires
            arr@.len() <= 16,
        ensures
            b@ == arr@,
            b.laid_out(),
            b.selects_extremes(),
    {
        let mut val = [T::default();16];
        let mut i: usize = 0;
        while i < arr.len()
            invariant
                i <= arr@.len() <= 16,
                forall|j: int| 0 <= j < i ==> val@[j] == arr@[j],
            decreases arr@.len() - i,
        {
            val[i] = arr[i];
            i += 1;
        }
        assert(val@.take(arr@.len() as int) =~= arr@);
        let b = Self { min: RMQBlock::new(arr), max: RMQBlock::new(arr), val, len: Ghost(arr@.len()) };
        proof {
            b.lemma_selects_extremes();
        }
        b
    }

    /// The indexes of the orientation that seeks the least and of the one
    /// that seeks the greatest element.
    pub fn indexes(&self) -> (res: (&RMQBlock<Min>, &RMQBlock<Max>))
        ensures
            *res.0 == self.min_view(),
            *res.1 == self.max_view(),
            self.laid_out(),
    {
        proof {
            use_type_invariant(self);
        }
        (&self.min, &self.max)
    }

    /// The 16 slots.
    pub fn slots(&self) -> (v: &[T; 16])
        ensures
            v@ == self.slots_view(),
            self.laid_out(),
    {
        proof {
            use_type_invariant(self);
        }
        &self.val
    }

    /// The least and the greatest element of the range `[l, r]` of the run,
    /// cut off at the end of the run. A range that begins behind the run
    /// gives padding.
    pub fn query(&self, l: usize, r: usize) -> (res: (T, T))
        requires
            l <= r <= 15,
        ensures
            self@.len() <= 16,
            res == self.selected(l as int, r as int),
            l < self@.len() ==> res.0 == range_min(self@, l as int, query_end(self@.len(), r as int)),
            l < self@.len() ==> res.1 == range_max(self@, l as int, query_end(self@.len(), r as int)),
    {
        let min = self.min.query(l, r);
        let max = self.max.query(l, r);
        proof {
            use_type_invariant(self);
            if l < self@.len() {
                self.lemma_selects_extremes();
                assert(self.selected(l as int, r as int) == (
                    range_min(self@, l as int, query_end(self@.len(), r as int)),
                    range_max(self@, l as int, query_end(self@.len(), r as int)),
                ));
            }
        }
        (self.val[min], self.val[max])
    }

    /// The same as `query`.
    pub fn query_unsafe(&self, l: usize, r: usize) -> (res: (T, T))
        requires
            l <= r <= 15,
        ensures
            self@.len() <= 16,
            res == self.selected(l as int, r as int),
            l < self@.len() ==> res.0 == range_min(self@, l as int, query_end(self@.len(), r as int)),
            l < self@.len() ==> res.1 == range_max(self@, l as int, query_end(self@.len(), r as int)),
    {
        let min = self.min.query_unsafe(l, r);
        let max = self.max.query_unsafe(l, r);
        proof {
            use_type_invariant(self);
            if l < self@.len() {
                self.lemma_selects_extremes();
                assert(self.selected(l as int, r as int) == (
                    range_min(self@, l as int, query_end(self@.len(), r as int)),
                    range_max(self@, l as int, query_end(self@.len(), r as int)),
                ));
            }
        }
        (self.val[min], self.val[max])
    }

    /// The element in slot `idx`, by reference.
    pub fn get_ref(&self, idx: usize) -> (v: &T)
        requires
            idx < 16,
        ensures
            idx < self@.len() ==> *v == self@[idx as int],
    {
        proof {
            use_type_invariant(self);
        }
        &self.val[idx]
    }

    /// The element in slot `idx`: for a position of the run its element.
    pub fn get(&self, idx: usize) -> (v: T)
        requires
            idx < 16,
        ensures
            idx < self@.len() ==> v == self@[idx as int],
    {
        proof {
            use_type_invariant(self);
        }
        self.val[idx]
    }
}

proof fn lemma_extremes<T: CompareTrait>(
    min: RMQBlock<Min>,
    max: RMQBlock<Max>,
    s: Seq<T>,
    l: int,
    r: int,
)
    requires
        min.answers_for(s),
        max.answers_for(s),
        0 <= l <= r <= 15,
        l < s.len(),
    ensures
        l <= min.answer(l, r) <= query_end(s.len(), r) < s.len(),
        l <= max.answer(l, r) <= query_end(s.len(), r),
        s[min.answer(l, r)] == range_min(s, l, query_end(s.len(), r)),
        s[max.answer(l, r)] == range_max(s, l, query_end(s.len(), r)),
{
    let e = query_end(s.len(), r);
    let lo = min.answer(l, r);
    let hi = max.answer(l, r);
    assert(is_last_best::<Min, T>(s, l, e, lo));
    assert(is_last_best::<Max, T>(s, l, e, hi));
    assert(is_range_min(s, l, e, s[lo]));
    assert(is_range_max(s, l, e, s[hi]));
    lemma_range_min_unique(s, l, e, s[lo]);
    lemma_range_max_unique(s, l, e, s[hi]);
}

} // verus!
