use vstd::prelude::*;
use vstd::std_specs::bits::axiom_u64_leading_zeros;
use crate::block::{better, is_last_best, lemma_better_order, query_end, RMQType};
use crate::common::{bit_length, lemma_leading_zeros_bit_length};
use crate::compare::CompareTrait;
use crate::scan::nearest_better;

verus! {

/// Bit `b` of `m` is set.
pub open spec fn bit16(m: u16, b: int) -> bool {
    0 <= b < 16 && (m >> (b as u16)) & 1 == 1
}

/// `m` has no bit set at position `n` or above.
pub open spec fn below_bit(m: u16, n: int) -> bool {
    0 <= n < 16 && m >> (n as u16) == 0
}

/// Reverses the order of the 16 bits of `x`: bit `k` of the result is bit
/// `15 - k` of `x`.
pub assume_specification[ u16::reverse_bits ](x: u16) -> (r: u16)
    ensures
        forall|k: u16| 0 <= k < 16 ==> #[trigger] (r >> k) & 1 == (x >> (15 - k) as u16) & 1,
;

/// Zero has no bit set.
proof fn lemma_bit_of_zero(b: u16)
    by (bit_vector)
    ensures
        (0u16 >> b) & 1 == 0,
        0u16 >> b == 0,
{
}

/// Setting bit `g` changes bit `g` and no other.
proof fn lemma_bit_of_or(x: u16, g: u16, b: u16)
    by (bit_vector)
    requires
        g < 16,
        b < 16,
    ensures
        (((x | (1u16 << g)) >> b) & 1 == 1) <==> ((x >> b) & 1 == 1 || b == g),
{
}

/// Setting a bit below `i` in a mask below `g` leaves the mask below `i`.
proof fn lemma_or_below(x: u16, g: u16, i: u16)
    by (bit_vector)
    requires
        g < i < 16,
        x >> g == 0,
    ensures
        (x | (1u16 << g)) >> i == 0,
{
}

/// Shifting by one and then by `j` reads bit `j + 1`.
proof fn lemma_shift_twice(x: u16, j: u16)
    by (bit_vector)
    requires
        j <= 14,
    ensures
        ((x >> 1) >> j) & 1 == (x >> ((j + 1) as u16)) & 1,
{
}

/// A word shifted down by one has its top bit clear.
proof fn lemma_top_bit_clear(x: u16)
    by (bit_vector)
    ensures
        ((x >> 1) >> 15) & 1 == 0,
{
}

/// Above the shift, a pair of masks packed into one word reads as the first.
proof fn lemma_packed_high(a: u16, c: u16, sh: u16, b: u16)
    by (bit_vector)
    requires
        sh <= 15,
        b <= 15 - sh,
        c >> sh == 0,
    ensures
        (((a << sh) | c) >> ((sh + b) as u16)) & 1 == (a >> b) & 1,
{
}

/// Below the shift, a pair of masks packed into one word reads as the second.
proof fn lemma_packed_low(a: u16, c: u16, sh: u16, b: u16)
    by (bit_vector)
    requires
        b < sh <= 15,
    ensures
        (((a << sh) | c) >> b) & 1 == (c >> b) & 1,
{
}

/// The element at `b` is strictly better than every later one up to `e`.
pub open spec fn leader<C: RMQType, T: CompareTrait>(s: Seq<T>, b: int, e: int) -> bool {
    &&& 0 <= b <= e
    &&& forall|j: int| b < j <= e ==> better::<C, T>(s[b], #[trigger] s[j])
}

/// What the mask of position `i` records of position `b`: that `b` lies
/// before `i` and leads up to `i`, or up to the end of `s` where `i` lies
/// behind it.
pub open spec fn recorded<C: RMQType, T: CompareTrait>(s: Seq<T>, i: int, b: int) -> bool {
    let e = if i < s.len() {
        i
    } else {
        s.len() - 1
    };
    0 <= b < i && b <= e && leader::<C, T>(s, b, e)
}

/// A position without a better one before it records nothing.
proof fn lemma_recorded_none<C: RMQType, T: CompareTrait>(s: Seq<T>, i: int, b: int)
    requires
        0 <= i,
        i < s.len() ==> nearest_better::<C, T>(s, i, -1),
        i >= s.len() ==> s.len() == 0,
    ensures
        !recorded::<C, T>(s, i, b),
{
    if recorded::<C, T>(s, i, b) {
        assert(better::<C, T>(s[b], s[i]));
        assert(!better::<C, T>(s[b], s[i]));
    }
}

/// A position records its nearest better position and what that one
/// records, and nothing else.
proof fn lemma_recorded_step<C: RMQType, T: CompareTrait>(s: Seq<T>, i: int, g: int, b: int)
    requires
        0 <= g < i,
        i < s.len() ==> nearest_better::<C, T>(s, i, g),
        i >= s.len() ==> g == s.len() - 1,
    ensures
        recorded::<C, T>(s, i, b) <==> (b == g || recorded::<C, T>(s, g, b)),
{
    if i < s.len() {
        assert forall|j: int| g < j <= i implies better::<C, T>(s[g], #[trigger] s[j]) by {
            lemma_better_order::<C, T>(s[g], s[i], s[j]);
        }
        assert(leader::<C, T>(s, g, i));
        if recorded::<C, T>(s, g, b) {
            assert forall|j: int| b < j <= i implies better::<C, T>(s[b], #[trigger] s[j]) by {
                if j > g {
                    assert(better::<C, T>(s[b], s[g]));
                    lemma_better_order::<C, T>(s[b], s[g], s[j]);
                }
            }
        }
        if recorded::<C, T>(s, i, b) {
            assert(better::<C, T>(s[b], s[i]));
            if b > g {
                assert(!better::<C, T>(s[b], s[i]));
            }
        }
    }
}

/// For each position the mask of the positions that it records.
pub(crate) fn ancestor_masks<C: RMQType, T: CompareTrait>(g: &[i8; 16], Ghost(s): Ghost<Seq<T>>) -> (m: [u16; 16])
    requires
        s.len() <= 16,
        forall|i: int| 0 <= i < s.len() ==> nearest_better::<C, T>(s, i, #[trigger] g@[i] as int),
        forall|i: int| s.len() <= i < 16 ==> #[trigger] g@[i] == s.len() - 1,
    ensures
        forall|i: int| 0 <= i < 16 ==> below_bit(#[trigger] m@[i], i),
        forall|i: int, b: int|
            0 <= i < 16 && 0 <= b < 16 ==> (#[trigger] bit16(m@[i], b) <==> recorded::<C, T>(s, i, b)),
{
    let mut m: [u16; 16] = [0; 16];
    proof {
        lemma_bit_of_zero(0);
        assert forall|b: int| 0 <= b < 16 implies !bit16(0u16, b) by {
            lemma_bit_of_zero(b as u16);
        }
    }
    let mut i: usize = 1;
    while i < 16
        invariant
            1 <= i <= 16,
            s.len() <= 16,
            forall|k: int| 0 <= k < s.len() ==> nearest_better::<C, T>(s, k, #[trigger] g@[k] as int),
            forall|k: int| s.len() <= k < 16 ==> #[trigger] g@[k] == s.len() - 1,
            forall|k: int| 0 <= k < i ==> below_bit(#[trigger] m@[k], k),
            forall|k: int, b: int|
                0 <= k < i && 0 <= b < 16 ==> (#[trigger] bit16(m@[k], b) <==> recorded::<C, T>(
                    s,
                    k,
                    b,
                )),
        decreases 16 - i,
    {
        let g_i = g[i];
        let ghost before = m@;
        assert(-1 <= g_i < i) by {
            if i < s.len() {
                assert(nearest_better::<C, T>(s, i as int, g@[i as int] as int));
            }
        }
        if g_i == -1 {
            m[i] = 0;
            proof {
                lemma_bit_of_zero(i as u16);
                assert forall|b: int| 0 <= b < 16 implies (bit16(m@[i as int], b) <==> recorded::<
                    C,
                    T,
                >(s, i as int, b)) by {
                    lemma_bit_of_zero(b as u16);
                    lemma_recorded_none::<C, T>(s, i as int, b);
                }
            }
        } else {
            let lower = m[g_i as usize];
            m[i] = lower | (1u16 << (g_i as u16));
            proof {
                lemma_or_below(lower, g_i as u16, i as u16);
                assert forall|b: int| 0 <= b < 16 implies (bit16(m@[i as int], b) <==> recorded::<
                    C,
                    T,
                >(s, i as int, b)) by {
                    lemma_bit_of_or(lower, g_i as u16, b as u16);
                    lemma_recorded_step::<C, T>(s, i as int, g_i as int, b);
                    assert(bit16(before[g_i as int], b) <==> recorded::<C, T>(s, g_i as int, b));
                }
            }
        }
        assert forall|k: int, b: int| 0 <= k < i + 1 && 0 <= b < 16 implies (#[trigger] bit16(
            m@[k],
            b,
        ) <==> recorded::<C, T>(s, k, b)) by {
            if k < i {
                assert(m@[k] == before[k]);
                assert(bit16(before[k], b) <==> recorded::<C, T>(s, k, b));
            }
        }
        i += 1;
    }
    m
}

/// Whether the packed words record position `b` for position `r`: two masks
/// share a word, the one of `r < 8` in its low `r` bits and the one of
/// `15 - r` above them, both with the nearest position first.
pub open spec fn chain_bit(words: Seq<u16>, r: int, b: int) -> bool {
    if r < 8 {
        bit16(words[r], r - 1 - b)
    } else {
        bit16(words[15 - r], 14 - b)
    }
}

/// Packs the 16 masks into 8 words.
pub(crate) fn pack(m: &[u16; 16]) -> (val: [u16; 8])
    requires
        forall|i: int| 0 <= i < 16 ==> below_bit(#[trigger] m@[i], i),
    ensures
        forall|r: int, b: int|
            0 <= b < r < 16 ==> (#[trigger] chain_bit(val@, r, b) <==> bit16(m@[r], b)),
        forall|i: int| 0 <= i < 8 ==> !bit16(#[trigger] val@[i], 15),
{
    let mut val: [u16; 8] = [0; 8];
    let mut i: usize = 0;
    proof {
        lemma_bit_of_zero(15);
    }
    while i < 8
        invariant
            i <= 8,
            forall|k: int| 0 <= k < 8 ==> !bit16(#[trigger] val@[k], 15),
            forall|k: int| 0 <= k < 16 ==> below_bit(#[trigger] m@[k], k),
            forall|r: int, b: int|
                0 <= b < r < 16 && (r < i || r > 15 - i) ==> (#[trigger] chain_bit(val@, r, b)
                    <==> bit16(m@[r], b)),
        decreases 8 - i,
    {
        let ghost before = val@;
        let x = m[i] << 15 - i | m[15 - i];
        let xr = x.reverse_bits();
        val[i] = xr >> 1;
        proof {
            let a = m@[i as int];
            let c = m@[15 - i];
            let sh = (15 - i) as u16;
            let w = val@[i as int];
            assert(below_bit(c, 15 - i));
            lemma_top_bit_clear(xr);
            assert forall|b: int| 0 <= b < i implies (bit16(w, i - 1 - b) <==> bit16(a, b)) by {
                let j = (i - 1 - b) as u16;
                lemma_shift_twice(xr, j);
                assert((xr >> ((j + 1) as u16)) & 1 == (x >> (15 - (j + 1) as u16) as u16) & 1);
                lemma_packed_high(a, c, sh, b as u16);
            }
            assert forall|b: int| 0 <= b < 15 - i implies (bit16(w, 14 - b) <==> bit16(c, b)) by {
                let j = (14 - b) as u16;
                lemma_shift_twice(xr, j);
                assert((xr >> ((j + 1) as u16)) & 1 == (x >> (15 - (j + 1) as u16) as u16) & 1);
                lemma_packed_low(a, c, sh, b as u16);
            }
            assert forall|r: int, b: int|
                0 <= b < r < 16 && (r < i + 1 || r > 15 - (i + 1)) implies (#[trigger] chain_bit(
                val@,
                r,
                b,
            ) <==> bit16(m@[r], b)) by {
                if r == i {
                    assert(bit16(w, i - 1 - b) <==> bit16(a, b));
                } else if r == 15 - i {
                    assert(bit16(w, 14 - b) <==> bit16(c, b));
                } else {
                    assert(chain_bit(val@, r, b) == chain_bit(before, r, b));
                }
            }
        }
        i += 1;
    }
    val
}

/// The first position from `l` on that the words record for `r`, and `r`
/// itself where they record none.
pub open spec fn first_recorded(words: Seq<u16>, l: int, r: int) -> int
    decreases r - l,
{
    if l >= r {
        r
    } else if chain_bit(words, r, l) {
        l
    } else {
        first_recorded(words, l + 1, r)
    }
}

/// `first_recorded` lies in `[l, r]`, is recorded unless it is `r`, and
/// nothing from `l` up to it is recorded.
proof fn lemma_first_recorded_props(words: Seq<u16>, l: int, r: int)
    requires
        l <= r,
    ensures
        l <= first_recorded(words, l, r) <= r,
        first_recorded(words, l, r) < r ==> chain_bit(words, r, first_recorded(words, l, r)),
        forall|b: int| l <= b < first_recorded(words, l, r) ==> !chain_bit(words, r, b),
    decreases r - l,
{
    if l < r && !chain_bit(words, r, l) {
        lemma_first_recorded_props(words, l + 1, r);
    }
}

/// A position with those three properties is `first_recorded`.
proof fn lemma_first_recorded_is(words: Seq<u16>, l: int, r: int, k: int)
    requires
        l <= k <= r,
        k < r ==> chain_bit(words, r, k),
        forall|b: int| l <= b < k ==> !chain_bit(words, r, b),
    ensures
        first_recorded(words, l, r) == k,
    decreases k - l,
{
    if l < k {
        lemma_first_recorded_is(words, l + 1, r, k);
    }
}

/// Before the first leader from `j` on, nothing is better than it.
proof fn lemma_not_better_before<C: RMQType, T: CompareTrait>(s: Seq<T>, e: int, k: int, j: int)
    requires
        0 <= j < k <= e,
        leader::<C, T>(s, k, e),
        forall|b: int| j <= b < k ==> !leader::<C, T>(s, b, e),
    ensures
        !better::<C, T>(s[j], s[k]),
    decreases k - j,
{
    if better::<C, T>(s[j], s[k]) {
        assert(!leader::<C, T>(s, j, e));
        let w = choose|w: int| j < w <= e && !better::<C, T>(s[j], #[trigger] s[w]);
        if w > k {
            assert(better::<C, T>(s[k], s[w]));
            lemma_better_order::<C, T>(s[j], s[k], s[w]);
        } else if w < k {
            lemma_not_better_before::<C, T>(s, e, k, w);
            lemma_better_order::<C, T>(s[k], s[w], s[j]);
        }
    }
}

/// The first leader from `l` on is the last best position of `[l, e]`.
proof fn lemma_smallest_leader<C: RMQType, T: CompareTrait>(s: Seq<T>, l: int, e: int, k: int)
    requires
        0 <= l <= k <= e,
        leader::<C, T>(s, k, e),
        forall|b: int| l <= b < k ==> !leader::<C, T>(s, b, e),
    ensures
        is_last_best::<C, T>(s, l, e, k),
{
    assert forall|j: int| l <= j <= e implies !better::<C, T>(#[trigger] s[j], s[k]) by {
        lemma_better_order::<C, T>(s[k], s[j], s[j]);
        if j < k {
            lemma_not_better_before::<C, T>(s, e, k, j);
        } else if j > k {
            assert(better::<C, T>(s[k], s[j]));
        }
    }
}

/// Words that record for each position what `recorded` says answer a query
/// of `[l, r]` with the last best position of what the query reads.
pub proof fn lemma_answers<C: RMQType, T: CompareTrait>(s: Seq<T>, words: Seq<u16>, l: int, r: int)
    requires
        forall|i: int, b: int|
            0 <= b < i < 16 ==> (#[trigger] chain_bit(words, i, b) <==> recorded::<C, T>(s, i, b)),
        0 <= l <= r <= 15,
        l < s.len(),
    ensures
        is_last_best::<C, T>(s, l, query_end(s.len(), r), first_recorded(words, l, r)),
{
    let k = first_recorded(words, l, r);
    let e = query_end(s.len(), r);
    lemma_first_recorded_props(words, l, r);
    if k == r && r >= s.len() {
        assert(recorded::<C, T>(s, r, s.len() - 1));
        assert(chain_bit(words, r, s.len() - 1));
    }
    if k < r {
        assert(recorded::<C, T>(s, r, k));
    }
    assert forall|b: int| l <= b < k implies !leader::<C, T>(s, b, e) by {
        assert(!chain_bit(words, r, b));
        assert(!recorded::<C, T>(s, r, b));
    }
    lemma_smallest_leader::<C, T>(s, l, e, k);
}

/// Bit `j` of the window of `n` bits above `shift` is bit `shift + j` of the
/// word, and no bit of the window lies at `n` or above.
proof fn lemma_window_bit(w: u16, shift: u16, n: u16, j: u64)
    by (bit_vector)
    requires
        shift + n <= 15,
        j < 64,
    ensures
        ((((w >> shift) & (0x7fffu16 >> ((15 - n) as u16))) as u64 >> j) & 1 == 1) <==> (j < n && (w
            >> ((shift + j) as u16)) & 1 == 1),
        (((w >> shift) & (0x7fffu16 >> ((15 - n) as u16))) as u64 >> j) & 1 == 1 || (((w >> shift) & (
        0x7fffu16 >> ((15 - n) as u16))) as u64 >> j) & 1 == 0,
{
}

/// The word that holds the mask of position `r`.
pub open spec fn word_of(r: int) -> int {
    if r >= 8 {
        15 - r
    } else {
        r
    }
}

/// The shift that brings the mask of position `r` down to bit 0.
pub open spec fn shift_of(r: int) -> int {
    if r >= 8 {
        15 - r
    } else {
        0
    }
}

/// What a query computes of the words: the window of the mask of `r` that
/// reaches back to `l`, and of that window the highest set bit, is the first
/// position from `l` on that the words record for `r`.
pub proof fn lemma_decode(words: Seq<u16>, l: int, r: int, bits: u64)
    requires
        words.len() == 8,
        0 <= l <= r <= 15,
        bits == ((words[word_of(r)] >> (shift_of(r) as u16)) & (0x7fffu16 >> ((15 - (r - l)) as u16))) as u64,
    ensures
        bit_length(bits as nat) <= r - l,
        first_recorded(words, l, r) == r - bit_length(bits as nat),
{
    let p = bit_length(bits as nat) as int;
    let w = words[word_of(r)];
    let shift = shift_of(r) as u16;
    let n = (r - l) as u16;
    lemma_leading_zeros_bit_length(bits);
    axiom_u64_leading_zeros(bits);
    assert forall|b: int| l <= b < r implies (chain_bit(words, r, b) <==> (bits >> ((r - 1
        - b) as u64)) & 1 == 1) by {
        let j = (r - 1 - b) as u64;
        lemma_window_bit(w, shift, n, j);
        let at = (shift + j) as u16;
        assert(at == shift_of(r) + r - 1 - b);
        assert(chain_bit(words, r, b) <==> (w >> at) & 1 == 1);
        assert((15 - n) as u16 == 15 - (r - l));
        assert(bits == ((w >> shift) & (0x7fffu16 >> ((15 - n) as u16))) as u64);
    }
    if p >= 1 {
        lemma_window_bit(w, shift, n, (p - 1) as u64);
        assert((bits >> ((p - 1) as u64)) & 1 != 0);
    }
    let k = r - p;
    assert forall|b: int| l <= b < k implies !chain_bit(words, r, b) by {
        let j = (r - 1 - b) as u64;
        assert((bits >> j) & 1 == 0);
    }
    lemma_first_recorded_is(words, l, r, k);
}

} // verus!
