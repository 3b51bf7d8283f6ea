use vstd::prelude::*;
use smallvec::SmallVec;
use crate::block::{better, lemma_better_order, RMQType};
use crate::compare::CompareTrait;

verus! {

/// `g` is the nearest position before `i` whose element is strictly better
/// than the one at `i`, or -1 where there is none.
pub open spec fn nearest_better<C: RMQType, T: CompareTrait>(s: Seq<T>, i: int, g: int) -> bool {
    &&& -1 <= g < i
    &&& g >= 0 ==> better::<C, T>(s[g], s[i])
    &&& forall|j: int| g < j < i ==> !better::<C, T>(#[trigger] s[j], s[i])
}

/// The stack of candidate positions of the scan, kept in a
/// `SmallVec<[i8; 16]>`: a block's positions fit in it without spilling.
/// Nothing is known of it but what `stack_items` names and the four
/// functions below say of `SmallVec`'s methods.
#[verifier::external_body]
pub struct PositionStack {
    items: SmallVec<[i8; 16]>,
}

/// The positions on the stack, bottom first.
pub uninterp spec fn stack_items(st: PositionStack) -> Seq<i8>;

/// `SmallVec::new`: an empty stack.
#[verifier::external_body]
fn stack_new() -> (st: PositionStack)
    ensures
        stack_items(st) == Seq::<i8>::empty(),
{
    PositionStack { items: SmallVec::new() }
}

/// `SmallVec::push`: the value goes on top and nothing else changes. Below
/// the inline capacity of 16 the call does not allocate.
#[verifier::external_body]
fn stack_push(st: &mut PositionStack, x: i8)
    requires
        stack_items(*old(st)).len() < 16,
    ensures
        stack_items(*final(st)) == stack_items(*old(st)).push(x),
{
    st.items.push(x)
}

/// `SmallVec::pop`: the top leaves the stack and is returned; an empty stack
/// stays as it is and gives `None`.
#[verifier::external_body]
fn stack_pop(st: &mut PositionStack) -> (top: Option<i8>)
    ensures
        stack_items(*old(st)).len() == 0 ==> top.is_none() && stack_items(*final(st))
            == stack_items(*old(st)),
        stack_items(*old(st)).len() > 0 ==> top == Some(stack_items(*old(st)).last())
            && stack_items(*final(st)) == stack_items(*old(st)).drop_last(),
{
    st.items.pop()
}

/// `SmallVec::as_slice`: the positions on the stack as a slice, bottom first.
#[verifier::external_body]
fn stack_as_slice(st: &PositionStack) -> (s: &[i8])
    ensures
        s@ == stack_items(*st),
{
    st.items.as_slice()
}

/// The comparison of the orientation `C`, under the name of its meaning.
fn strictly_better<C: RMQType, T: CompareTrait>(a: &T, b: &T) -> (r: bool)
    ensures
        r == better::<C, T>(*a, *b),
{
    C::cmp(a, b)
}

/// The top of the stack as a position, -1 for an empty stack.
spec fn stack_top(st: Seq<i8>) -> int {
    if st.len() == 0 {
        -1
    } else {
        st.last() as int
    }
}

/// Every position on the stack lies before `i`, and the one below it on the
/// stack is its nearest better position.
#[verifier::opaque]
spec fn stack_linked<C: RMQType, T: CompareTrait>(s: Seq<T>, st: Seq<i8>, i: int) -> bool {
    &&& forall|p: int| 0 <= p < st.len() ==> p <= #[trigger] st[p] < i
    &&& forall|p: int|
        0 <= p < st.len() ==> nearest_better::<C, T>(
            s,
            #[trigger] st[p] as int,
            if p == 0 {
                -1
            } else {
                st[p - 1] as int
            },
        )
}

/// No element between `t` and `i` is better than the one at `i`.
#[verifier::opaque]
spec fn none_better_between<C: RMQType, T: CompareTrait>(s: Seq<T>, t: int, i: int) -> bool {
    forall|j: int| t < j < i ==> !better::<C, T>(#[trigger] s[j], s[i])
}

/// The empty stack is linked.
proof fn lemma_linked_start<C: RMQType, T: CompareTrait>(s: Seq<T>)
    ensures
        stack_linked::<C, T>(s, Seq::<i8>::empty(), 0),
{
    reveal(stack_linked);
}

/// The top of a linked stack lies before `i`, its nearest better position is
/// the one below it, and without it the stack is still linked.
proof fn lemma_linked_top<C: RMQType, T: CompareTrait>(s: Seq<T>, st: Seq<i8>, i: int)
    requires
        stack_linked::<C, T>(s, st, i),
        st.len() > 0,
    ensures
        0 <= st.last() < i,
        st.len() <= i,
        nearest_better::<C, T>(s, st.last() as int, stack_top(st.drop_last())),
        stack_linked::<C, T>(s, st.drop_last(), i),
{
    reveal(stack_linked);
    let n = st.len() - 1;
    assert(n <= st[n] < i);
    assert(nearest_better::<C, T>(s, st[n] as int, if n == 0 {
        -1
    } else {
        st[n - 1] as int
    }));
    let rest = st.drop_last();
    assert forall|p: int| 0 <= p < rest.len() implies p <= #[trigger] rest[p] < i by {
        assert(rest[p] == st[p]);
    }
    assert forall|p: int| 0 <= p < rest.len() implies nearest_better::<C, T>(
        s,
        #[trigger] rest[p] as int,
        if p == 0 {
            -1
        } else {
            rest[p - 1] as int
        },
    ) by {
        assert(rest[p] == st[p]);
        if p > 0 {
            assert(rest[p - 1] == st[p - 1]);
        }
    }
}

/// A position whose nearest better position is the top may go on top.
proof fn lemma_linked_push<C: RMQType, T: CompareTrait>(s: Seq<T>, st: Seq<i8>, i: int)
    requires
        stack_linked::<C, T>(s, st, i),
        nearest_better::<C, T>(s, i, stack_top(st)),
        0 <= i < 16,
    ensures
        st.len() <= i,
        stack_linked::<C, T>(s, st.push(i as i8), i + 1),
        stack_top(st.push(i as i8)) == i,
{
    reveal(stack_linked);
    if st.len() > 0 {
        assert(st.len() - 1 <= st[st.len() - 1] < i);
    }
    let next = st.push(i as i8);
    assert forall|p: int| 0 <= p < next.len() implies p <= #[trigger] next[p] < i + 1 by {
        if p < st.len() {
            assert(next[p] == st[p]);
        }
    }
    assert forall|p: int| 0 <= p < next.len() implies nearest_better::<C, T>(
        s,
        #[trigger] next[p] as int,
        if p == 0 {
            -1
        } else {
            next[p - 1] as int
        },
    ) by {
        if p < st.len() {
            assert(next[p] == st[p]);
            if p > 0 {
                assert(next[p - 1] == st[p - 1]);
            }
        }
    }
}

/// Between `i - 1` and `i` lies nothing.
proof fn lemma_none_better_start<C: RMQType, T: CompareTrait>(s: Seq<T>, i: int)
    ensures
        none_better_between::<C, T>(s, i - 1, i),
{
    reveal(none_better_between);
}

/// What is not better than a position that is itself not better than the
/// one at `i` is not better than the one at `i`: the top may leave.
proof fn lemma_none_better_pop<C: RMQType, T: CompareTrait>(s: Seq<T>, below: int, t: int, i: int)
    requires
        nearest_better::<C, T>(s, t, below),
        none_better_between::<C, T>(s, t, i),
        !better::<C, T>(s[t], s[i]),
    ensures
        none_better_between::<C, T>(s, below, i),
{
    reveal(none_better_between);
    assert forall|j: int| below < j < i implies !better::<C, T>(#[trigger] s[j], s[i]) by {
        if j < t {
            lemma_better_order::<C, T>(s[i], s[t], s[j]);
        }
    }
}

/// The top that is better than the one at `i`, or -1 on an empty stack, is
/// the nearest better position of `i`.
proof fn lemma_nearest_found<C: RMQType, T: CompareTrait>(s: Seq<T>, i: int, t: int)
    requires
        -1 <= t < i,
        t >= 0 ==> better::<C, T>(s[t], s[i]),
        none_better_between::<C, T>(s, t, i),
    ensures
        nearest_better::<C, T>(s, i, t),
{
    reveal(none_better_between);
}

/// For each position of `arr` the nearest better position before it (-1 for
/// none), and for the positions behind `arr` the last position of `arr`.
pub(crate) fn dominators<C: RMQType, T: CompareTrait>(arr: &[T]) -> (g: [i8; 16])
    requires
        arr@.len() <= 16,
    ensures
        forall|i: int| 0 <= i < arr@.len() ==> nearest_better::<C, T>(arr@, i, #[trigger] g@[i] as int),
        forall|i: int| arr@.len() <= i < 16 ==> #[trigger] g@[i] == arr@.len() - 1,
{
    let len = arr.len();
    let mut st = stack_new();
    let mut g: [i8; 16] = [0; 16];
    let mut i: usize = 0;
    proof {
        lemma_linked_start::<C, T>(arr@);
    }
    while i < len
        invariant
            i <= len == arr@.len() <= 16,
            forall|k: int| 0 <= k < i ==> nearest_better::<C, T>(arr@, k, #[trigger] g@[k] as int),
            stack_linked::<C, T>(arr@, stack_items(st), i as int),
            stack_top(stack_items(st)) == i - 1,
        decreases len - i,
    {
        proof {
            lemma_none_better_start::<C, T>(arr@, i as int);
        }
        loop
            invariant
                i < len == arr@.len() <= 16,
                forall|k: int| 0 <= k < i ==> nearest_better::<C, T>(arr@, k, #[trigger] g@[k] as int),
                stack_linked::<C, T>(arr@, stack_items(st), i as int),
                none_better_between::<C, T>(arr@, stack_top(stack_items(st)), i as int),
            ensures
                nearest_better::<C, T>(arr@, i as int, g@[i as int] as int),
                g@[i as int] == stack_top(stack_items(st)),
            decreases stack_items(st).len(),
        {
            let ghost items = stack_items(st);
            let last = stack_as_slice(&st).last();
            match last {
                Some(x) => {
                    let t = *x;
                    proof {
                        lemma_linked_top::<C, T>(arr@, items, i as int);
                    }
                    if strictly_better::<C, T>(&arr[t as usize], &arr[i]) {
                        g[i] = t;
                        proof {
                            lemma_nearest_found::<C, T>(arr@, i as int, t as int);
                        }
                        break ;
                    } else {
                        stack_pop(&mut st);
                        proof {
                            lemma_none_better_pop::<C, T>(
                                arr@,
                                stack_top(items.drop_last()),
                                t as int,
                                i as int,
                            );
                        }
                    }
                },
                None => {
                    g[i] = -1i8;
                    proof {
                        lemma_nearest_found::<C, T>(arr@, i as int, -1);
                    }
                    break ;
                },
            };
        }
        proof {
            lemma_linked_push::<C, T>(arr@, stack_items(st), i as int);
        }
        stack_push(&mut st, i as i8);
        i += 1;
    }
    let mut i: usize = len;
    while i < 16
        invariant
            len <= i <= 16,
            len == arr@.len(),
            forall|k: int| 0 <= k < len ==> nearest_better::<C, T>(arr@, k, #[trigger] g@[k] as int),
            forall|k: int| len <= k < i ==> #[trigger] g@[k] == len - 1,
        decreases 16 - i,
    {
        g[i] = len as i8 - 1;
        i += 1;
    }
    g
}

} // verus!
