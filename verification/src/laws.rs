//! What holds of buffers over several operations.
use vstd::prelude::*;

use crate::iou_buf_vec::{lemma_retained_all, released_all, retained_all};
use crate::model::{
    law_clone_then_release, law_free_iff_not_held, lemma_pool_released, lemma_with_commutes,
    lemma_with_twice, BufState, HandlePtr, PoolState,
};
use crate::view::{law_edit_is_local, BufView};

verus! {

/// A new buffer shares no backing buffer with one that is held, which stays in the pool, reads as
/// before and is as unique as before.
pub proof fn law_new_buffer_leaves_others(
    before: PoolState,
    after: PoolState,
    new: BufView,
    size: nat,
    other: BufView,
)
    requires
        new.new_in(before, after, size),
        other.in_pool(before),
    ensures
        other.inner != new.inner,
        other.in_pool(after),
        other.content(after) == other.content(before),
        other.unique(after) == other.unique(before),
{
    assert(after.valid(other.inner));
}

/// Writing over a buffer leaves every buffer with another backing buffer as it reads.
pub proof fn law_edit_leaves_others(p: PoolState, b: BufView, new: Seq<u8>, other: BufView)
    requires
        p.wf(),
        b.in_pool(p),
        new.len() == b.len,
        other.in_pool(p),
        other.inner != b.inner,
    ensures
        other.in_pool(b.edited(p, new)),
        other.content(b.edited(p, new)) == other.content(p),
{
    law_edit_is_local(p, b, new);
    assert(b.edited(p, new).valid(other.inner));
}

/// Two parts of one backing buffer that do not overlap do not see each other's writes.
pub proof fn law_edit_leaves_other_parts(p: PoolState, b: BufView, new: Seq<u8>, other: BufView)
    requires
        p.wf(),
        b.in_pool(p),
        new.len() == b.len,
        other.in_pool(p),
        other.inner == b.inner,
        other.start + other.len <= b.start || b.start + b.len <= other.start,
    ensures
        other.in_pool(b.edited(p, new)),
        other.content(b.edited(p, new)) == other.content(p),
{
    law_edit_is_local(p, b, new);
    assert(other.content(b.edited(p, new)) =~= other.content(p));
}

/// While two references to a backing buffer are held, it is not unique: neither can be written
/// through.
pub proof fn law_clone_is_shared(p: PoolState, b: BufView)
    requires
        b.in_pool(p),
    ensures
        b.in_pool(p.retained(b.inner)),
        b.content(p.retained(b.inner)) == b.content(p),
        !b.unique(p.retained(b.inner)),
{
    lemma_with_twice(
        p,
        b.inner,
        BufState { refs: p.at(b.inner).refs + 1, ..p.at(b.inner) },
        p.at(b.inner),
    );
}

/// The last reference to a buffer of a slab puts it at the end of the queue of its size class,
/// where it waits to be handed out; one that is not the last leaves the queues alone.
pub proof fn law_last_release_recycles(p: PoolState, list: usize, slab: usize, index: usize)
    requires
        p.wf(),
        p.held(HandlePtr::Pooled { list, slab, index }),
    ensures
        ({
            let h = HandlePtr::Pooled { list, slab, index };
            let q = p.released(h);
            &&& q.wf()
            &&& q.is_free(h) <==> p.at(h).refs == 1
            &&& q.lists[list as int].free == if p.at(h).refs == 1 {
                p.lists[list as int].free.push((slab, index))
            } else {
                p.lists[list as int].free
            }
            &&& forall|l: int|
                0 <= l < p.lists.len() && l != list ==> #[trigger] q.lists[l] == p.lists[l]
        }),
{
    let h = HandlePtr::Pooled { list, slab, index };
    lemma_pool_released(p, h);
    law_free_iff_not_held(p, h);
}

/// A buffer that was given up where none waited is the next one that its size class hands out,
/// without a slab more.
pub proof fn law_recycled_buffer_comes_back(
    p: PoolState,
    list: usize,
    slab: usize,
    index: usize,
    granted: bool,
)
    requires
        p.wf(),
        p.held(HandlePtr::Pooled { list, slab, index }),
        p.at(HandlePtr::Pooled { list, slab, index }).refs == 1,
        p.lists[list as int].free.len() == 0,
    ensures
        ({
            let h = HandlePtr::Pooled { list, slab, index };
            let q = p.released(h);
            &&& q.can_hand_out(list as int, granted)
            &&& q.hand_out(list as int, granted) == h
            &&& q.refilled(list as int, granted) == q
        }),
{
    law_last_release_recycles(p, list, slab, index);
    let q = p.released(HandlePtr::Pooled { list, slab, index });
    assert(q.lists[list as int].free =~= seq![(slab, index)]);
}

/// Buffers of one size class are handed out in the order in which they were given up.
pub proof fn law_recycling_is_first_in_first_out(p: PoolState, l: int)
    requires
        0 <= l < p.lists.len(),
        p.lists[l].free.len() > 1,
    ensures
        p.taken(l).next_free(l) == (HandlePtr::Pooled {
            list: l as usize,
            slab: p.lists[l].free[1].0,
            index: p.lists[l].free[1].1,
        }),
{
}

/// Taking two references gives the same in either order.
proof fn lemma_retained_commutes(p: PoolState, a: HandlePtr, b: HandlePtr)
    requires
        p.valid(a),
        p.valid(b),
    ensures
        p.retained(a).retained(b) == p.retained(b).retained(a),
{
    if a != b {
        let x = BufState { refs: p.at(a).refs + 1, ..p.at(a) };
        let y = BufState { refs: p.at(b).refs + 1, ..p.at(b) };
        lemma_with_commutes(p, a, x, b, y);
        lemma_at_other(p, a, x, b);
        lemma_at_other(p, b, y, a);
    }
}

/// A change to one buffer leaves another.
proof fn lemma_at_other(p: PoolState, h: HandlePtr, b: BufState, x: HandlePtr)
    requires
        p.valid(h),
        p.valid(x),
        x != h,
    ensures
        p.with(h, b).valid(x),
        p.with(h, b).at(x) == p.at(x),
{
}

/// A reference can be taken before or after those of a list.
proof fn lemma_retained_all_commutes(p: PoolState, h: HandlePtr, s: Seq<BufView>)
    requires
        p.wf(),
        p.held(h),
        forall|i: int| 0 <= i < s.len() ==> (#[trigger] s[i]).in_pool(p),
    ensures
        retained_all(p.retained(h), s) == retained_all(p, s).retained(h),
    decreases s.len(),
{
    if s.len() > 0 {
        let x = s[0].inner;
        let t = s.drop_first();
        let q = p.retained(x);
        assert(s[0].in_pool(p));
        lemma_retained_commutes(p, h, x);
        lemma_retained_all(p, seq![s[0]]);
        assert(seq![s[0]].drop_first() =~= Seq::empty());
        assert(retained_all(p, seq![s[0]]) == retained_all(q, seq![s[0]].drop_first()));
        assert(retained_all(q, Seq::empty()) == q);
        assert(q.valid(h) == p.valid(h));
        assert forall|i: int| 0 <= i < t.len() implies (#[trigger] t[i]).in_pool(q) by {
            assert(t[i] == s[i + 1]);
            assert(s[i + 1].in_pool(p));
            assert(q.valid(t[i].inner) == p.valid(t[i].inner));
            assert(q.at(t[i].inner).bytes == p.at(t[i].inner).bytes);
        }
        lemma_retained_all_commutes(q, h, t);
    }
}

/// Giving up the clone of a list leaves the pool as it was before the list was cloned.
pub proof fn law_list_clone_then_release(p: PoolState, s: Seq<BufView>)
    requires
        p.wf(),
        forall|i: int| 0 <= i < s.len() ==> (#[trigger] s[i]).in_pool(p),
    ensures
        released_all(retained_all(p, s), s) == p,
    decreases s.len(),
{
    if s.len() > 0 {
        let h = s[0].inner;
        let t = s.drop_first();
        assert(s[0].in_pool(p));
        assert forall|i: int| 0 <= i < t.len() implies (#[trigger] t[i]).in_pool(p) by {
            assert(t[i] == s[i + 1]);
        }
        lemma_retained_all_commutes(p, h, t);
        lemma_retained_all(p, t);
        let q = retained_all(p, t);
        assert(q.valid(h) == p.valid(h));
        assert(q.at(h).refs >= p.at(h).refs);
        law_clone_then_release(q, h);
        law_list_clone_then_release(p, t);
    }
}

} // verus!
