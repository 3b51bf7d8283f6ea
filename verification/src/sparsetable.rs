use vstd::prelude::*;
use vstd::arithmetic::power2::{
    lemma2_to64, lemma2_to64_rest, lemma_pow2_pos, lemma_pow2_strictly_increases,
    lemma_pow2_unfold, pow2,
};
use vstd::bits::lemma_usize_shl_is_mul;
use crate::common::{bit_length, get_msb_pos, lemma_bit_length_bounds, lemma_bit_length_unique};

verus! {

/// An aggregate of a run of units that can be combined with another.
pub trait SparseTableEntryTrait {
    type Ret;

    /// The aggregate of what `self` and `b` stand for together.
    spec fn combine(&self, b: &Self) -> Self::Ret;

    fn with_cmp(&self, b: &Self) -> (r: Self::Ret)
        ensures
            r == self.combine(b),
    ;
}

/// A unit that a sparse table is built over: it reduces to one aggregate.
pub trait SparseTableSrcTrait<T: SparseTableEntryTrait> {
    /// The aggregate of this unit alone.
    spec fn sparse_table_entry(&self) -> T;

    fn get_sparse_table_entry(&self) -> (e: T)
        ensures
            e == self.sparse_table_entry(),
    ;
}

/// `combine` is associative and idempotent, so that aggregates of
/// overlapping runs combine to the aggregate of their union.
pub open spec fn combine_laws<T: SparseTableEntryTrait<Ret = T>>() -> bool {
    &&& forall|a: T, b: T, c: T| #[trigger] a.combine(&b).combine(&c) == a.combine(&b.combine(&c))
    &&& forall|a: T| #[trigger] a.combine(&a) == a
}

/// The aggregate of `s[l..=r]`, combined from the left.
pub open spec fn range_agg<T: SparseTableEntryTrait<Ret = T>>(s: Seq<T>, l: int, r: int) -> T
    decreases r - l,
{
    if r <= l {
        s[l]
    } else {
        range_agg(s, l, r - 1).combine(&s[r])
    }
}

/// The number of windows of size `2^d` over `n` units.
pub open spec fn level_len(n: nat, d: nat) -> int {
    n - pow2(d) + 1
}

/// Where level `d` begins among the entries: behind all smaller windows.
pub open spec fn level_head(n: nat, d: nat) -> int
    decreases d,
{
    if d == 0 {
        0
    } else {
        level_head(n, (d - 1) as nat) + level_len(n, (d - 1) as nat)
    }
}

/// The number of entries of a table over `n` units: one level for each
/// power of two up to `n`.
pub open spec fn table_len(n: nat) -> int {
    level_head(n, bit_length(n))
}

/// The entry of the window of size `2^d` that begins at unit `j`.
pub open spec fn level_entry<T>(entries: Seq<T>, n: nat, d: nat, j: int) -> T {
    entries[level_head(n, d) + j]
}

/// A level exists exactly where its window fits into `n` units.
pub proof fn lemma_levels(n: nat, d: nat)
    ensures
        d < bit_length(n) <==> pow2(d) <= n,
{
    lemma_pow2_pos(d);
    if n > 0 {
        lemma_bit_length_bounds(n);
        let b = bit_length(n);
        if d < b {
            if d < b - 1 {
                lemma_pow2_strictly_increases(d, (b - 1) as nat);
            }
        } else if d > b {
            lemma_pow2_strictly_increases(b, d);
        }
    }
}

/// The levels lie one behind the other, none of them empty.
pub proof fn lemma_level_head_grows(n: nat, d1: nat, d2: nat)
    requires
        d1 <= d2 <= bit_length(n),
    ensures
        level_head(n, d1) <= level_head(n, d2),
        d1 < d2 ==> level_head(n, d1) + level_len(n, d1) <= level_head(n, d2),
        0 <= level_head(n, d1),
    decreases d2, d1,
{
    if d1 < d2 {
        let d = (d2 - 1) as nat;
        lemma_level_head_grows(n, d1, d);
        lemma_levels(n, d);
    } else if d1 > 0 {
        lemma_level_head_grows(n, 0, d1);
    }
}

/// A table has at least as many entries as units.
pub proof fn lemma_table_len_ge(n: nat)
    ensures
        n <= table_len(n),
{
    if n > 0 {
        lemma2_to64();
        lemma_bit_length_bounds(n);
        lemma_level_head_grows(n, 1, bit_length(n));
        assert(level_head(n, 1) == level_head(n, 0) + level_len(n, 0));
    } else {
        assert(bit_length(0) == 0);
    }
}

/// A table over `n` units has at most `n` entries on each of its levels.
pub proof fn lemma_table_len_bound(n: nat)
    ensures
        table_len(n) <= n * bit_length(n),
{
    lemma_level_head_bound(n, bit_length(n));
}

proof fn lemma_level_head_bound(n: nat, d: nat)
    requires
        d <= bit_length(n),
    ensures
        level_head(n, d) <= n * d,
    decreases d,
{
    if d > 0 {
        let e = (d - 1) as nat;
        lemma_level_head_bound(n, e);
        lemma_pow2_pos(e);
        assert(n * d == n * e + n) by (nonlinear_arith)
            requires
                d == e + 1,
        ;
    }
}

/// Doubling a window that fits into the units of a table that fits into
/// `usize` does not overflow.
proof fn lemma_next_window_fits(n: nat, d: nat)
    requires
        pow2(d) <= n,
        table_len(n) <= usize::MAX,
    ensures
        2 * pow2(d) <= usize::MAX,
        pow2(d + 1) == 2 * pow2(d),
{
    lemma_pow2_unfold(d + 1);
    lemma2_to64();
    lemma_levels(n, d);
    lemma_levels(n, d + 1);
    let b = bit_length(n);
    if d + 1 < b {
        lemma_level_head_grows(n, 1, b);
        assert(level_head(n, 1) == level_head(n, 0) + level_len(n, 0));
    } else if b >= 3 {
        lemma_level_head_grows(n, 3, b);
        assert(level_head(n, 3) == level_head(n, 2) + level_len(n, 2));
        assert(level_head(n, 2) == level_head(n, 1) + level_len(n, 1));
        assert(level_head(n, 1) == level_head(n, 0) + level_len(n, 0));
        lemma_levels(n, 2);
    } else {
        assert(d <= 1);
    }
}

/// A range's aggregate is the combination of the aggregates of its two
/// parts.
pub proof fn lemma_range_agg_split<T: SparseTableEntryTrait<Ret = T>>(
    s: Seq<T>,
    l: int,
    m: int,
    r: int,
)
    requires
        combine_laws::<T>(),
        l <= m < r,
    ensures
        range_agg(s, l, r) == range_agg(s, l, m).combine(&range_agg(s, m + 1, r)),
    decreases r - m,
{
    if m + 1 < r {
        lemma_range_agg_split(s, l, m, r - 1);
        let a = range_agg(s, l, m);
        let b = range_agg(s, m + 1, r - 1);
        assert(a.combine(&b).combine(&s[r]) == a.combine(&b.combine(&s[r])));
    }
}

/// The aggregates of two windows that overlap, or are the same, combine to
/// the aggregate of what they cover.
pub proof fn lemma_range_agg_overlap<T: SparseTableEntryTrait<Ret = T>>(
    s: Seq<T>,
    l: int,
    r: int,
    w: int,
)
    requires
        combine_laws::<T>(),
        1 <= w <= r - l + 1 < 2 * w,
    ensures
        range_agg(s, l, r) == range_agg(s, l, l + w - 1).combine(&range_agg(s, r - w + 1, r)),
{
    let whole = range_agg(s, l, r);
    if w == r - l + 1 {
        assert(whole.combine(&whole) == whole);
    } else {
        let a = range_agg(s, l, r - w);
        let b = range_agg(s, r - w + 1, l + w - 1);
        let c = range_agg(s, l + w, r);
        lemma_range_agg_split(s, l, r - w, l + w - 1);
        lemma_range_agg_split(s, r - w + 1, l + w - 1, r);
        lemma_range_agg_split(s, l, r - w, r);
        let ab = a.combine(&b);
        let bc = b.combine(&c);
        assert(ab.combine(&bc) == a.combine(&b.combine(&bc)));
        assert(b.combine(&b).combine(&c) == b.combine(&bc));
        assert(b.combine(&b) == b);
    }
}

/// The number of entries of a table over `n` units, where it fits into
/// `usize`.
pub fn checked_table_len(n: usize) -> (r: Option<usize>)
    ensures
        r.is_some() <==> table_len(n as nat) <= usize::MAX,
        r matches Some(t) ==> t == table_len(n as nat),
{
    let mut total: usize = 0;
    let mut window: usize = 1;
    let ghost mut d: nat = 0;
    proof {
        lemma2_to64();
        assert(bit_length(0) == 0);
    }
    while window <= n
        invariant
            d <= bit_length(n as nat),
            window == pow2(d),
            total == level_head(n as nat, d),
            d > 0 ==> window <= n,
        decreases bit_length(n as nat) - d,
    {
        proof {
            lemma_levels(n as nat, d);
            lemma_pow2_pos(d);
            lemma_pow2_unfold(d + 1);
            lemma_level_head_grows(n as nat, d + 1, bit_length(n as nat));
            assert(level_head(n as nat, d + 1) == level_head(n as nat, d) + level_len(n as nat, d));
        }
        let level = n - (window - 1);
        if level > usize::MAX - total {
            return None;
        }
        total += level;
        if n - window < window {
            proof {
                lemma_bit_length_unique(n as nat, d + 1);
            }
            return Some(total);
        }
        window *= 2;
        proof {
            d = d + 1;
        }
    }
    Some(total)
}

/// The aggregates of all windows of power-of-two size over a sequence of
/// units, level by level, and where each level begins.
///
/// `source` is the sequence of the units' own aggregates.
#[verifier::reject_recursive_types(T)]
pub struct SparseTable<T: SparseTableEntryTrait<Ret = T>> {
    entries: Vec<T>,
    heads: Vec<usize>,
    src: Ghost<Seq<T>>,
}

/// `with_cmp`, under the name of what it computes.
fn combined<T: SparseTableEntryTrait<Ret = T>>(a: &T, b: &T) -> (r: T)
    ensures
        r == a.combine(b),
{
    a.with_cmp(b)
}

/// The entries of the levels below `d` are the aggregates of their windows.
spec fn levels_filled<T: SparseTableEntryTrait<Ret = T>>(
    entries: Seq<T>,
    src: Seq<T>,
    d: nat,
) -> bool {
    forall|e: nat, j: int|
        e < d && 0 <= j < level_len(src.len(), e) ==> #[trigger] level_entry(
            entries,
            src.len(),
            e,
            j,
        ) == range_agg(src, j, j + pow2(e) - 1)
}

impl<T: SparseTableEntryTrait<Ret = T>> SparseTable<T> {
    #[verifier::type_invariant]
    spec fn inv(self) -> bool {
        let n = self.src@.len();
        &&& combine_laws::<T>()
        &&& self.heads@.len() == bit_length(n)
        &&& forall|d: int| 0 <= d < self.heads@.len() ==> #[trigger] self.heads@[d] == level_head(n, d as nat)
        &&& self.entries@.len() == table_len(n) <= usize::MAX
        &&& levels_filled(self.entries@, self.src@, bit_length(n))
    }

    /// The aggregates of the units that the table was built over.
    pub closed spec fn source(&self) -> Seq<T> {
        self.src@
    }

    /// The entries of all levels, one level behind the other.
    pub closed spec fn entries_view(&self) -> Seq<T> {
        self.entries@
    }

    /// For each level the position of its first entry.
    pub closed spec fn heads_view(&self) -> Seq<usize> {
        self.heads@
    }

    /// There is one level for each power of two that fits into the units,
    /// level `d` begins at `level_head(n, d)` and holds, for each position
    /// at which a window of `2^d` units begins, the aggregate of that window.
    pub open spec fn laid_out(&self) -> bool {
        let n = self.source().len();
        &&& self.heads_view().len() == bit_length(n)
        &&& forall|d: int|
            0 <= d < bit_length(n) ==> #[trigger] self.heads_view()[d] == level_head(n, d as nat)
        &&& self.entries_view().len() == table_len(n)
        &&& forall|d: nat, j: int|
            d < bit_length(n) && 0 <= j < level_len(n, d) ==> #[trigger] level_entry(
                self.entries_view(),
                n,
                d,
                j,
            ) == range_agg(self.source(), j, j + pow2(d) - 1)
    }

    /// The entries of all levels.
    pub fn entries(&self) -> (e: &[T])
        ensures
            e@ == self.entries_view(),
            self.laid_out(),
    {
        proof {
            use_type_invariant(self);
        }
        self.entries.as_slice()
    }

    /// Where each level begins among the entries.
    pub fn heads(&self) -> (h: &[usize])
        ensures
            h@ == self.heads_view(),
            self.laid_out(),
    {
        proof {
            use_type_invariant(self);
        }
        self.heads.as_slice()
    }

    /// Builds the table over the aggregates of `arr`.
    pub fn new<S: SparseTableSrcTrait<T>>(arr: &[S]) -> (t: Self)
        requires
            combine_laws::<T>(),
            table_len(arr@.len()) <= usize::MAX,
        ensures
            t.source() == Seq::new(arr@.len(), |i: int| arr@[i].sparse_table_entry()),
            t.laid_out(),
    {
        let len = arr.len();
        let ghost n = arr@.len();
        let ghost src = Seq::new(n, |i: int| arr@[i].sparse_table_entry());
        let mut heads: Vec<usize> = Vec::new();
        let mut window: usize = 1;
        let mut last: usize = 0;
        proof {
            lemma2_to64();
        }
        while window <= len
            invariant
                len == n,
                table_len(n) <= usize::MAX,
                heads@.len() <= bit_length(n),
                window == pow2(heads@.len()),
                last == level_head(n, heads@.len()),
                forall|d: int| 0 <= d < heads@.len() ==> #[trigger] heads@[d] == level_head(n, d as nat),
            decreases len - heads@.len(),
        {
            let ghost d = heads@.len();
            proof {
                lemma_levels(n, d);
                lemma_level_head_grows(n, d + 1, bit_length(n));
                lemma_next_window_fits(n, d);
                lemma_bit_length_le(n);
                lemma_pow2_pos(d);
                assert(level_head(n, d + 1) == level_head(n, d) + level_len(n, d));
            }
            heads.push(last);
            last += len - (window - 1);
            window *= 2;
        }
        proof {
            lemma_levels(n, heads@.len());
        }
        let mut entries: Vec<T> = Vec::with_capacity(last);
        let mut i: usize = 0;
        while i < len
            invariant
                i <= len == n == src.len() == arr@.len(),
                entries@.len() == i,
                forall|j: int| 0 <= j < n ==> src[j] == (#[trigger] arr@[j]).sparse_table_entry(),
                forall|j: int| 0 <= j < i ==> #[trigger] entries@[j] == src[j],
            decreases len - i,
        {
            entries.push(arr[i].get_sparse_table_entry());
            i += 1;
        }
        proof {
            lemma2_to64();
            if n > 0 {
                assert(level_head(n, 1) == level_head(n, 0) + level_len(n, 0));
            }
            assert forall|e: nat, j: int| e < 1 && 0 <= j < level_len(n, e) implies #[trigger] level_entry(
                entries@,
                n,
                e,
                j,
            ) == range_agg(src, j, j + pow2(e) - 1) by {
            }
        }
        let mut window: usize = 1;
        let mut i: usize = 1;
        while i < heads.len()
            invariant
                combine_laws::<T>(),
                len == n == src.len(),
                last == table_len(n) <= usize::MAX,
                heads@.len() == bit_length(n),
                forall|d: int| 0 <= d < heads@.len() ==> #[trigger] heads@[d] == level_head(n, d as nat),
                1 <= i,
                n > 0 ==> i <= heads@.len(),
                n == 0 ==> i == 1,
                window == pow2((i - 1) as nat),
                entries@.len() == level_head(n, i as nat),
                levels_filled(entries@, src, i as nat),
            decreases heads@.len() - i,
        {
            let start = heads[i];
            let end = if i + 1 < heads.len() {
                heads[i + 1]
            } else {
                last
            };
            proof {
                lemma_level_head_grows(n, i as nat, (i + 1) as nat);
                lemma_level_head_grows(n, (i - 1) as nat, i as nat);
                lemma_levels(n, i as nat);
                lemma_levels(n, (i - 1) as nat);
                lemma_pow2_unfold(i as nat);
                lemma_pow2_pos((i - 1) as nat);
                assert(level_head(n, (i + 1) as nat) == level_head(n, i as nat) + level_len(n, i as nat));
                assert(level_head(n, i as nat) == level_head(n, (i - 1) as nat) + level_len(
                    n,
                    (i - 1) as nat,
                ));
            }
            let len_i = end - start;
            let head = heads[i - 1];
            let ghost w = pow2((i - 1) as nat) as int;
            let mut j: usize = head;
            while j < head + len_i
                invariant
                    combine_laws::<T>(),
                    n == src.len(),
                    1 <= i < bit_length(n),
                    1 <= w == pow2((i - 1) as nat) == window,
                    2 * w == pow2(i as nat) <= n,
                    head == level_head(n, (i - 1) as nat),
                    start == level_head(n, i as nat) == head + level_len(n, (i - 1) as nat),
                    len_i == level_len(n, i as nat),
                    head + len_i <= usize::MAX,
                    head <= j <= head + len_i,
                    entries@.len() == start + (j - head),
                    levels_filled(entries@, src, i as nat),
                    forall|q: int|
                        0 <= q < j - head ==> #[trigger] level_entry(entries@, n, i as nat, q)
                            == range_agg(src, q, q + 2 * w - 1),
                decreases head + len_i - j,
            {
                let ghost before = entries@;
                let ghost q = j - head;
                proof {
                    assert(level_entry(before, n, (i - 1) as nat, q) == range_agg(src, q, q + w - 1));
                    assert(level_entry(before, n, (i - 1) as nat, q + w) == range_agg(
                        src,
                        q + w,
                        q + 2 * w - 1,
                    ));
                    lemma_range_agg_split(src, q, q + w - 1, q + 2 * w - 1);
                }
                let v = combined(&entries[j], &entries[j + window]);
                entries.push(v);
                proof {
                    assert forall|e: nat, p: int|
                        e < i && 0 <= p < level_len(n, e) implies #[trigger] level_entry(
                        entries@,
                        n,
                        e,
                        p,
                    ) == range_agg(src, p, p + pow2(e) - 1) by {
                        lemma_level_head_grows(n, e, i as nat);
                        assert(level_entry(before, n, e, p) == range_agg(src, p, p + pow2(e) - 1));
                    }
                    assert forall|p: int| 0 <= p < j + 1 - head implies #[trigger] level_entry(
                        entries@,
                        n,
                        i as nat,
                        p,
                    ) == range_agg(src, p, p + 2 * w - 1) by {
                        if p < q {
                            assert(level_entry(before, n, i as nat, p) == range_agg(
                                src,
                                p,
                                p + 2 * w - 1,
                            ));
                        }
                    }
                }
                j += 1;
            }
            proof {
                assert forall|e: nat, p: int|
                    e < i + 1 && 0 <= p < level_len(n, e) implies #[trigger] level_entry(
                    entries@,
                    n,
                    e,
                    p,
                ) == range_agg(src, p, p + pow2(e) - 1) by {
                }
            }
            window *= 2;
            i += 1;
        }
        proof {
            if n == 0 {
                lemma2_to64();
                assert(bit_length(0) == 0);
                assert(level_head(n, 1) == level_head(n, 0) + level_len(n, 0));
            }
            assert(entries@.len() == table_len(n));
            assert(levels_filled(entries@, src, bit_length(n)));
        }
        Self { entries, heads, src: Ghost(src) }
    }

    /// The aggregate of the units `l..=r`.
    pub fn query(&self, l: usize, r: usize) -> (res: T::Ret)
        requires
            l <= r < self.source().len(),
        ensures
            res == range_agg(self.source(), l as int, r as int),
    {
        proof {
            use_type_invariant(self);
            lemma_table_len_ge(self.src@.len());
        }
        let len = r - l + 1;
        proof {
            lemma_window_of(self.src@.len(), len as nat);
            lemma_window_entries(self.entries@, self.src@, l as int, r as int);
            vstd::std_specs::bits::axiom_u64_leading_zeros(len as u64);
            crate::common::lemma_leading_zeros_bit_length(len as u64);
        }
        let d = (64 - (len as u64).leading_zeros() - 1) as usize;
        let head = self.heads[d];
        let a = &self.entries[head + l];
        let b = &self.entries[head + (r + 1 - (1 << d))];
        combined(a, b)
    }

    /// The same as `query`.
    pub fn query_unsafe(&self, l: usize, r: usize) -> (res: T::Ret)
        requires
            l <= r < self.source().len(),
        ensures
            res == range_agg(self.source(), l as int, r as int),
    {
        proof {
            use_type_invariant(self);
            lemma_table_len_ge(self.src@.len());
        }
        let len = r - l + 1;
        proof {
            lemma_window_of(self.src@.len(), len as nat);
            lemma_window_entries(self.entries@, self.src@, l as int, r as int);
        }
        let d = get_msb_pos(len as u64) as usize - 1;
        let head = self.heads[d];
        let a = &self.entries[head + l];
        let b = &self.entries[head + (r + 1 - (1 << d))];
        combined(a, b)
    }
}

/// The level that answers a range of `len` units out of `n`: its window is
/// the largest power of two that fits into the range.
proof fn lemma_window_of(n: nat, len: nat)
    requires
        1 <= len <= n <= usize::MAX,
    ensures
        1 <= bit_length(len) <= bit_length(n),
        bit_length(len) - 1 < usize::BITS,
        pow2((bit_length(len) - 1) as nat) <= len < 2 * pow2((bit_length(len) - 1) as nat),
        (1usize << ((bit_length(len) - 1) as usize)) == pow2((bit_length(len) - 1) as nat),
{
    let d = (bit_length(len) - 1) as nat;
    lemma_bit_length_bounds(len);
    lemma_pow2_unfold(d + 1);
    lemma_levels(n, d);
    lemma2_to64();
    lemma2_to64_rest();
    if d >= usize::BITS {
        if d > 32 {
            lemma_pow2_strictly_increases(32, d);
        }
        if d > 64 {
            lemma_pow2_strictly_increases(64, d);
        }
    }
    lemma_usize_shl_is_mul(1, d as usize);
}

/// The two windows of a range lie in the table and combine to the range's
/// aggregate.
proof fn lemma_window_entries<T: SparseTableEntryTrait<Ret = T>>(
    entries: Seq<T>,
    src: Seq<T>,
    l: int,
    r: int,
)
    requires
        combine_laws::<T>(),
        0 <= l <= r < src.len() <= usize::MAX,
        entries.len() == table_len(src.len()),
        levels_filled(entries, src, bit_length(src.len())),
    ensures
        ({
            let d = (bit_length((r - l + 1) as nat) - 1) as nat;
            let head = level_head(src.len(), d);
            &&& 0 <= head + l <= head + r + 1 - pow2(d) < entries.len()
            &&& entries[head + l].combine(&entries[head + r + 1 - pow2(d)]) == range_agg(src, l, r)
        }),
{
    let n = src.len();
    let len = (r - l + 1) as nat;
    let d = (bit_length(len) - 1) as nat;
    let w = pow2(d) as int;
    lemma_window_of(n, len);
    lemma_level_head_grows(n, d, bit_length(n));
    assert(level_entry(entries, n, d, l) == range_agg(src, l, l + w - 1));
    assert(level_entry(entries, n, d, r + 1 - w) == range_agg(src, r + 1 - w, r));
    lemma_range_agg_overlap(src, l, r, w);
}

/// The bit length of a number is at most the number.
proof fn lemma_bit_length_le(n: nat)
    ensures
        bit_length(n) <= n,
    decreases n,
{
    if n > 0 {
        lemma_bit_length_le(n / 2);
    }
}

} // verus!
