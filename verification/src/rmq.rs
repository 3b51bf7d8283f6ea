use vstd::prelude::*;
use crate::block::{query_end, Block};
use crate::compare::{
    lemma_min_max_associative, lemma_min_max_commutative, max_of, min_of, CompareTrait,
    MinMaxTrait,
};
use crate::range::{
    is_range_max, is_range_min, lemma_range_max_is, lemma_range_max_join, lemma_range_min_is,
    lemma_range_min_join, lemma_range_shift, lemma_range_single, range_max, range_min,
};
use crate::sparsetable::{
    combine_laws, range_agg, table_len, SparseTable, SparseTableEntryTrait, SparseTableSrcTrait,
};

verus! {

/// The least and the greatest element of a run of blocks.
pub struct SparseTableEntry<T: MinMaxTrait + Copy> {
    pub min: T,
    pub max: T,
}

impl<T: MinMaxTrait + Copy> SparseTableEntryTrait for SparseTableEntry<T> {
    type Ret = SparseTableEntry<T>;

    open spec fn combine(&self, b: &Self) -> Self::Ret {
        SparseTableEntry { min: min_of(self.min, b.min), max: max_of(self.max, b.max) }
    }

    fn with_cmp(&self, b: &Self) -> (r: Self::Ret) {
        Self::Ret { min: MinMaxTrait::min(self.min, b.min), max: MinMaxTrait::max(self.max, b.max) }
    }
}

/// Taking the lesser and the greater of two pairs is associative and
/// idempotent.
pub proof fn lemma_entry_laws<T: MinMaxTrait + Copy>()
    ensures
        combine_laws::<SparseTableEntry<T>>(),
{
    assert forall|a: SparseTableEntry<T>, b: SparseTableEntry<T>, c: SparseTableEntry<T>| #[trigger]
        a.combine(&b).combine(&c) == a.combine(&b.combine(&c)) by {
        lemma_min_max_associative(a.min, b.min, c.min);
        lemma_min_max_associative(a.max, b.max, c.max);
    }
    assert forall|a: SparseTableEntry<T>| #[trigger] a.combine(&a) == a by {
        T::le_total(&a.min, &a.min);
        T::le_total(&a.max, &a.max);
    }
}

impl<T: MinMaxTrait + Copy + Default> SparseTableSrcTrait<SparseTableEntry<T>> for Block<T> {
    open spec fn sparse_table_entry(&self) -> SparseTableEntry<T> {
        SparseTableEntry { min: self.selected(0, 15).0, max: self.selected(0, 15).1 }
    }

    fn get_sparse_table_entry(&self) -> (e: SparseTableEntry<T>)
        ensures
            self@.len() > 0 ==> e.min == range_min(self@, 0, self@.len() - 1),
            self@.len() > 0 ==> e.max == range_max(self@, 0, self@.len() - 1),
    {
        let (min, max) = self.query_unsafe(0, 15);
        SparseTableEntry { min, max }
    }
}

/// The last position of block `b` in a sequence of `n` elements.
pub open spec fn block_end(n: nat, b: int) -> int {
    if 16 * b + 15 < n {
        16 * b + 15
    } else {
        n - 1
    }
}

/// The least and the greatest element of the blocks `x..=y` of `s`.
pub open spec fn blocks_entry<T: MinMaxTrait + Copy>(s: Seq<T>, x: int, y: int) -> SparseTableEntry<T> {
    SparseTableEntry {
        min: range_min(s, 16 * x, block_end(s.len(), y)),
        max: range_max(s, 16 * x, block_end(s.len(), y)),
    }
}

/// Over block aggregates, the aggregate of a run of blocks is the pair of
/// extremes of the elements of those blocks.
proof fn lemma_blocks_agg<T: MinMaxTrait + Copy>(
    s: Seq<T>,
    entries: Seq<SparseTableEntry<T>>,
    x: int,
    y: int,
)
    requires
        0 <= x <= y < entries.len(),
        16 * y < s.len(),
        forall|b: int| 0 <= b < entries.len() ==> #[trigger] entries[b] == blocks_entry(s, b, b),
    ensures
        range_agg(entries, x, y) == blocks_entry(s, x, y),
    decreases y - x,
{
    if x < y {
        lemma_blocks_agg(s, entries, x, y - 1);
        let n = s.len();
        assert(entries[y] == blocks_entry(s, y, y));
        lemma_range_min_join(s, 16 * x, block_end(n, y - 1), 16 * y, block_end(n, y));
        lemma_range_max_join(s, 16 * x, block_end(n, y - 1), 16 * y, block_end(n, y));
    } else {
        assert(entries[x] == blocks_entry(s, x, x));
    }
}

/// The index of range minima and maxima over a fixed sequence: the blocks of
/// its runs of 16, and the sparse table over the blocks' extremes.
///
/// The view is the sequence that the index was built of.
#[verifier::reject_recursive_types(T)]
pub struct RMQ<T: MinMaxTrait + Copy + Default> {
    blocks: Vec<Block<T>>,
    table: SparseTable<SparseTableEntry<T>>,
    len: usize,
    src: Ghost<Seq<T>>,
}

impl<T: MinMaxTrait + Copy + Default> View for RMQ<T> {
    type V = Seq<T>;

    closed spec fn view(&self) -> Seq<T> {
        self.src@
    }
}

/// Block `b` holds its run of `s`.
spec fn block_holds<T: MinMaxTrait + Copy + Default>(s: Seq<T>, blk: Block<T>, b: int) -> bool {
    blk@ == s.subrange(16 * b, block_end(s.len(), b) + 1)
}

impl<T: MinMaxTrait + Copy + Default> RMQ<T> {
    #[verifier::type_invariant]
    spec fn inv(self) -> bool {
        let s = self.src@;
        &&& s.len() == self.len
        &&& self.blocks@.len() * 16 >= s.len() > self.blocks@.len() * 16 - 16
        &&& forall|b: int| 0 <= b < self.blocks@.len() ==> block_holds(s, #[trigger] self.blocks@[b], b)
        &&& self.table.source().len() == self.blocks@.len()
        &&& forall|b: int|
            0 <= b < self.blocks@.len() ==> #[trigger] self.table.source()[b] == blocks_entry(s, b, b)
    }

    /// The blocks of the index.
    pub closed spec fn blocks_view(&self) -> Seq<Block<T>> {
        self.blocks@
    }

    /// The sparse table of the index.
    pub closed spec fn table_view(&self) -> SparseTable<SparseTableEntry<T>> {
        self.table
    }

    /// There is one block for each run of 16 elements, the last run may be
    /// shorter; block `b` holds run `b`, and the table is built over the
    /// extremes of the blocks.
    pub open spec fn laid_out(&self) -> bool {
        let n = self@.len();
        let blocks = self.blocks_view();
        let units = self.table_view().source();
        &&& blocks.len() * 16 >= n > blocks.len() * 16 - 16
        &&& forall|b: int|
            0 <= b < blocks.len() ==> (#[trigger] blocks[b])@ == self@.subrange(
                16 * b,
                block_end(n, b) + 1,
            )
        &&& units.len() == blocks.len()
        &&& forall|b: int| 0 <= b < blocks.len() ==> #[trigger] units[b] == blocks_entry(self@, b, b)
    }

    /// The blocks of the index.
    pub fn blocks(&self) -> (b: &[Block<T>])
        ensures
            b@ == self.blocks_view(),
            self.laid_out(),
    {
        proof {
            use_type_invariant(self);
            assert forall|b: int| 0 <= b < self.blocks@.len() implies (#[trigger] self.blocks@[b])@
                == self@.subrange(16 * b, block_end(self@.len(), b) + 1) by {
                assert(block_holds(self@, self.blocks@[b], b));
            }
        }
        self.blocks.as_slice()
    }

    /// The sparse table over the extremes of the blocks.
    pub fn table(&self) -> (t: &SparseTable<SparseTableEntry<T>>)
        ensures
            *t == self.table_view(),
            self.laid_out(),
    {
        proof {
            use_type_invariant(self);
            assert forall|b: int| 0 <= b < self.blocks@.len() implies (#[trigger] self.blocks@[b])@
                == self@.subrange(16 * b, block_end(self@.len(), b) + 1) by {
                assert(block_holds(self@, self.blocks@[b], b));
            }
        }
        &self.table
    }

    /// The least and the greatest element of `self@[l..=r]`.
    pub open spec fn extremes(&self, l: int, r: int) -> (T, T) {
        (range_min(self@, l, r), range_max(self@, l, r))
    }

    /// What a query of `[l, r]` returns are elements of that range, the
    /// first below or equal to every element of it and the second above or
    /// equal to every one.
    pub proof fn lemma_extremes(&self, l: int, r: int)
        requires
            0 <= l <= r < self@.len(),
        ensures
            is_range_min(self@, l, r, self.extremes(l, r).0),
            is_range_max(self@, l, r, self.extremes(l, r).1),
    {
        lemma_range_min_is(self@, l, r);
        lemma_range_max_is(self@, l, r);
    }

    /// A query of a single position returns its element twice.
    pub proof fn lemma_single(&self, i: int)
        ensures
            self.extremes(i, i) == (self@[i], self@[i]),
    {
        lemma_range_single(self@, i);
    }

    /// Two indexes of the same sequence give the same answers, however
    /// each of them came to be.
    pub proof fn lemma_same_sequence(&self, other: &Self, l: int, r: int)
        requires
            self@ == other@,
        ensures
            self.extremes(l, r) == other.extremes(l, r),
    {
    }

    /// Builds the index of `arr`.
    pub fn new(arr: &[T]) -> (rmq: Self)
        requires
            table_len(((arr@.len() + 15) / 16) as nat) <= usize::MAX,
        ensures
            rmq@ == arr@,
            rmq.laid_out(),
    {
        let len = arr.len();
        let ghost s = arr@;
        let mut blocks: Vec<Block<T>> = Vec::with_capacity(
            len / 16 + if len % 16 == 0 {
                0
            } else {
                1
            },
        );
        let mut i: usize = 0;
        while i < len
            invariant
                len == s.len(),
                s == arr@,
                i <= len,
                i == blocks@.len() * 16 || i == len,
                blocks@.len() * 16 >= i > blocks@.len() * 16 - 16,
                forall|b: int| 0 <= b < blocks@.len() ==> block_holds(s, #[trigger] blocks@[b], b),
                forall|b: int| 0 <= b < blocks@.len() ==> (#[trigger] blocks@[b]).selects_extremes(),
            decreases len - i,
        {
            let end = if len - i < 16 {
                len
            } else {
                i + 16
            };
            let block = Block::new(vstd::slice::slice_subrange(arr, i, end));
            assert(block_holds(s, block, blocks@.len() as int));
            blocks.push(block);
            i = end;
        }
        proof {
            lemma_entry_laws::<T>();
            assert(blocks@.len() == (s.len() + 15) / 16);
        }
        let table = SparseTable::new(blocks.as_slice());
        proof {
            assert forall|b: int| 0 <= b < blocks@.len() implies #[trigger] table.source()[b]
                == blocks_entry(s, b, b) by {
                let blk = blocks@[b];
                assert(block_holds(s, blk, b));
                assert(blk.selects_extremes());
                let e = block_end(s.len(), b);
                assert(blk@.len() == e + 1 - 16 * b);
                assert(table.source()[b] == blk.sparse_table_entry());
                assert(blk.selected(0, 15) == (
                    range_min(blk@, 0, query_end(blk@.len(), 15)),
                    range_max(blk@, 0, query_end(blk@.len(), 15)),
                ));
                lemma_range_shift(blk@, s, 0, e - 16 * b, 16 * b);
            }
        }
        let rmq = Self { blocks, table, len, src: Ghost(s) };
        proof {
            assert forall|b: int| 0 <= b < rmq.blocks@.len() implies (#[trigger] rmq.blocks@[b])@
                == s.subrange(16 * b, block_end(s.len(), b) + 1) by {
                assert(block_holds(s, rmq.blocks@[b], b));
            }
        }
        rmq
    }

    /// The number of elements of the sequence.
    pub fn len(&self) -> (n: usize)
        ensures
            n == self@.len(),
    {
        proof {
            use_type_invariant(self);
        }
        self.len
    }

    /// The least and the greatest element of the positions `l..=r`.
    pub fn query(&self, l: usize, r: usize) -> (res: (T, T))
        requires
            l <= r < self@.len(),
        ensures
            res == self.extremes(l as int, r as int),
    {
        proof {
            use_type_invariant(self);
        }
        let ghost s = self@;
        let (l_block, l_offset) = (l / 16, l % 16);
        let (r_block, r_offset) = (r / 16, r % 16);
        if l_block == r_block {
            proof {
                lemma_block_range(s, self.blocks@[l_block as int]@, l_block as int, l_offset as int, r_offset as int);
            }
            self.blocks[l_block].query(l_offset, r_offset)
        } else {
            proof {
                lemma_block_range(s, self.blocks@[l_block as int]@, l_block as int, l_offset as int, 15);
                lemma_block_range(s, self.blocks@[r_block as int]@, r_block as int, 0, r_offset as int);
            }
            let (min1, max1) = self.blocks[l_block].query(l_offset, 15);
            let (min2, max2) = self.blocks[r_block].query(0, r_offset);
            let min = MinMaxTrait::min(min1, min2);
            let max = MinMaxTrait::max(max1, max2);
            let l_block = l_block + 1;
            if l_block == r_block {
                proof {
                    lemma_range_min_join(s, l as int, 16 * l_block - 1, 16 * l_block, r as int);
                    lemma_range_max_join(s, l as int, 16 * l_block - 1, 16 * l_block, r as int);
                }
                (min, max)
            } else {
                proof {
                    lemma_blocks_agg(s, self.table.source(), l_block as int, r_block - 1);
                    lemma_three_parts(s, l as int, 16 * l_block - 1, 16 * r_block - 1, r as int);
                }
                let min_max = self.table.query(l_block, r_block - 1);
                let (min3, max3) = (min_max.min, min_max.max);
                (MinMaxTrait::min(min, min3), MinMaxTrait::max(max, max3))
            }
        }
    }

    /// The same as `query`.
    pub fn query_unsafe(&self, l: usize, r: usize) -> (res: (T, T))
        requires
            l <= r < self@.len(),
        ensures
            res == self.extremes(l as int, r as int),
    {
        proof {
            use_type_invariant(self);
        }
        let ghost s = self@;
        let (l_block, l_offset) = (l / 16, l % 16);
        let (r_block, r_offset) = (r / 16, r % 16);
        if l_block == r_block {
            proof {
                lemma_block_range(s, self.blocks@[l_block as int]@, l_block as int, l_offset as int, r_offset as int);
            }
            self.blocks[l_block].query_unsafe(l_offset, r_offset)
        } else {
            proof {
                lemma_block_range(s, self.blocks@[l_block as int]@, l_block as int, l_offset as int, 15);
                lemma_block_range(s, self.blocks@[r_block as int]@, r_block as int, 0, r_offset as int);
            }
            let (min1, max1) = self.blocks[l_block].query_unsafe(l_offset, 15);
            let (min2, max2) = self.blocks[r_block].query_unsafe(0, r_offset);
            let min = MinMaxTrait::min(min1, min2);
            let max = MinMaxTrait::max(max1, max2);
            let l_block = l_block + 1;
            if l_block == r_block {
                proof {
                    lemma_range_min_join(s, l as int, 16 * l_block - 1, 16 * l_block, r as int);
                    lemma_range_max_join(s, l as int, 16 * l_block - 1, 16 * l_block, r as int);
                }
                (min, max)
            } else {
                proof {
                    lemma_blocks_agg(s, self.table.source(), l_block as int, r_block - 1);
                    lemma_three_parts(s, l as int, 16 * l_block - 1, 16 * r_block - 1, r as int);
                }
                let min_max = self.table.query_unsafe(l_block, r_block - 1);
                let (min3, max3) = (min_max.min, min_max.max);
                (MinMaxTrait::min(min, min3), MinMaxTrait::max(max, max3))
            }
        }
    }
}

impl<T: MinMaxTrait + Copy + Default> vstd::std_specs::core::IndexSpecImpl<usize> for RMQ<T> {
    open spec fn index_req(&self, index: &usize) -> bool {
        *index < self@.len()
    }
}

impl<T: MinMaxTrait + Copy + Default> std::ops::Index<usize> for RMQ<T> {
    type Output = T;

    /// The element at position `idx`.
    fn index(&self, idx: usize) -> (v: &T)
        ensures
            *v == self@[idx as int],
    {
        proof {
            use_type_invariant(self);
            assert(block_holds(self@, self.blocks@[idx as int / 16], idx as int / 16));
        }
        self.blocks[idx / 16].get_ref(idx % 16)
    }
}

/// Within its block, a range of the sequence is a range of the block.
proof fn lemma_block_range<T: CompareTrait>(s: Seq<T>, blk: Seq<T>, b: int, lo: int, hi: int)
    requires
        0 <= b,
        16 * b < s.len(),
        blk == s.subrange(16 * b, block_end(s.len(), b) + 1),
        0 <= lo <= hi <= 15,
        lo < blk.len(),
    ensures
        range_min(blk, lo, query_end(blk.len(), hi)) == range_min(
            s,
            16 * b + lo,
            16 * b + query_end(blk.len(), hi),
        ),
        range_max(blk, lo, query_end(blk.len(), hi)) == range_max(
            s,
            16 * b + lo,
            16 * b + query_end(blk.len(), hi),
        ),
{
    lemma_range_shift(blk, s, lo, query_end(blk.len(), hi), 16 * b);
}

/// The extremes of a range in three parts, taken as the code takes them:
/// first and last part together, then the middle.
proof fn lemma_three_parts<T: CompareTrait>(s: Seq<T>, l: int, m1: int, m2: int, r: int)
    requires
        0 <= l <= m1 < m2 < r < s.len(),
    ensures
        range_min(s, l, r) == min_of(
            min_of(range_min(s, l, m1), range_min(s, m2 + 1, r)),
            range_min(s, m1 + 1, m2),
        ),
        range_max(s, l, r) == max_of(
            max_of(range_max(s, l, m1), range_max(s, m2 + 1, r)),
            range_max(s, m1 + 1, m2),
        ),
{
    lemma_range_min_join(s, l, m1, m1 + 1, m2);
    lemma_range_min_join(s, l, m2, m2 + 1, r);
    lemma_range_max_join(s, l, m1, m1 + 1, m2);
    lemma_range_max_join(s, l, m2, m2 + 1, r);
    let a = range_min(s, l, m1);
    let b = range_min(s, m1 + 1, m2);
    let c = range_min(s, m2 + 1, r);
    lemma_min_max_associative(a, b, c);
    lemma_min_max_associative(a, c, b);
    lemma_min_max_commutative(b, c);
    let x = range_max(s, l, m1);
    let y = range_max(s, m1 + 1, m2);
    let z = range_max(s, m2 + 1, r);
    lemma_min_max_associative(x, y, z);
    lemma_min_max_associative(x, z, y);
    lemma_min_max_commutative(y, z);
}

} // verus!
