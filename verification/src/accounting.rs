//! The references that a pool counts are the buffers that exist.
//!
//! Here `s` stands for all the buffers that exist for a pool, in any order. Each law says of one
//! kind of operation that the counts still agree when the list of buffers changes as the
//! operation changes it.
use vstd::prelude::*;

use crate::class::class_size;
use crate::iou_buf_vec::{
    after_consume, consumed, covers, lemma_release_one, lemma_retained_all, lemma_used,
    lemma_uses_concat, lemma_uses_member, lemma_uses_remove, released_all, retained_all, total,
    uses, VecView,
};
use crate::model::{
    law_free_iff_not_held, lemma_hand_out, lemma_pool_refilled, lemma_pool_released,
    lemma_pool_with, lemma_pool_with_owned, replaced, BufState, HandlePtr, PoolState,
};
use crate::view::{law_edit_is_local, law_retain_is_local, law_slice_is_a_part, BufView};
use crate::write_all::{WriteOutcome, WriteStep, WriteView};
use crate::writev_all::{WritevStep, WritevView};

verus! {

/// The buffers of `s` are in the pool, and each backing buffer counts as many references as there
/// are buffers of `s` over it.
pub open spec fn accounts(p: PoolState, s: Seq<BufView>) -> bool {
    &&& forall|i: int| 0 <= i < s.len() ==> (#[trigger] s[i]).in_pool(p)
    &&& forall|h: HandlePtr| #[trigger] p.valid(h) ==> p.at(h).refs == uses(s, h)
}

/// A backing buffer that no buffer is over has no uses.
proof fn lemma_unused(p: PoolState, s: Seq<BufView>, h: HandlePtr)
    requires
        forall|i: int| 0 <= i < s.len() ==> (#[trigger] s[i]).in_pool(p),
        !p.valid(h),
    ensures
        uses(s, h) == 0,
{
    if uses(s, h) > 0 {
        let i = lemma_used(s, h);
        assert(s[i].in_pool(p));
    }
}

/// The uses of a list with one more buffer.
proof fn lemma_uses_push(s: Seq<BufView>, b: BufView, h: HandlePtr)
    ensures
        uses(s.push(b), h) == uses(s, h) + if b.inner == h {
            1nat
        } else {
            0nat
        },
{
    let t = s.push(b);
    lemma_uses_remove(t, s.len() as int, h);
    assert(t.remove(s.len() as int) =~= s);
}

/// A pool that was just made counts nothing.
pub proof fn law_fresh_pool_counts_nothing(count: nat)
    ensures
        accounts(PoolState::fresh(count), Seq::empty()),
{
}

/// Buffers that are accounted for are covered.
pub proof fn lemma_accounts_covers(p: PoolState, s: Seq<BufView>)
    requires
        accounts(p, s),
    ensures
        covers(p, s),
{
    assert forall|x: HandlePtr| #[trigger] uses(s, x) > 0 implies uses(s, x) <= p.at(x).refs by {
        let j = lemma_used(s, x);
        assert(s[j].in_pool(p));
        assert(p.valid(x));
    }
}

/// A buffer is unique exactly when it is the only one over its backing buffer.
pub proof fn law_unique_iff_the_only_one(p: PoolState, s: Seq<BufView>, i: int)
    requires
        accounts(p, s),
        0 <= i < s.len(),
    ensures
        s[i].unique(p) <==> forall|j: int|
            0 <= j < s.len() && j != i ==> (#[trigger] s[j]).inner != s[i].inner,
{
    let h = s[i].inner;
    assert(s[i].in_pool(p));
    assert(p.valid(h));
    lemma_uses_remove(s, i, h);
    let t = s.remove(i);
    if uses(t, h) > 0 {
        let k = lemma_used(t, h);
        let j = if k < i {
            k
        } else {
            k + 1
        };
        assert(t[k] == s[j]);
        assert(s[j].inner == h);
    } else {
        assert forall|j: int| 0 <= j < s.len() && j != i implies (#[trigger] s[j]).inner != h by {
            let k = if j < i {
                j
            } else {
                j - 1
            };
            assert(t[k] == s[j]);
            lemma_uses_member(t, k);
        }
    }
}

/// A backing buffer waits to be handed out exactly when no buffer is over it.
pub proof fn law_free_iff_unused(p: PoolState, s: Seq<BufView>, h: HandlePtr)
    requires
        p.wf(),
        accounts(p, s),
        p.valid(h),
    ensures
        p.is_free(h) <==> forall|j: int| 0 <= j < s.len() ==> (#[trigger] s[j]).inner != h,
{
    law_free_iff_not_held(p, h);
    if uses(s, h) > 0 {
        let j = lemma_used(s, h);
        assert(s[j].inner == h);
    } else {
        assert forall|j: int| 0 <= j < s.len() implies (#[trigger] s[j]).inner != h by {
            lemma_uses_member(s, j);
        }
    }
}

/// Handing a buffer out: the counts agree with one buffer more. Where none can be handed out they
/// agree as before.
pub proof fn law_hand_out_is_counted(
    p: PoolState,
    s: Seq<BufView>,
    l: int,
    granted: bool,
    len: nat,
)
    requires
        p.wf(),
        accounts(p, s),
        0 <= l < p.lists.len(),
        p.after_hand_out(l, granted).lists[l].slabs.len() <= usize::MAX,
        len <= class_size(l as nat),
    ensures
        p.can_hand_out(l, granted) ==> accounts(
            p.after_hand_out(l, granted),
            s.push(BufView { inner: p.hand_out(l, granted), start: 0, len }),
        ),
        !p.can_hand_out(l, granted) ==> accounts(p.after_hand_out(l, granted), s),
{
    let q = p.after_hand_out(l, granted);
    let h = p.hand_out(l, granted);
    lemma_hand_out(p, l, granted);
    let b = BufView { inner: h, start: 0, len };
    let t = if p.can_hand_out(l, granted) {
        s.push(b)
    } else {
        s
    };
    assert forall|i: int| 0 <= i < t.len() implies (#[trigger] t[i]).in_pool(q) by {
        if i < s.len() {
            assert(t[i] == s[i]);
            assert(s[i].in_pool(p));
            assert(q.valid(s[i].inner));
        }
    }
    assert forall|x: HandlePtr| #[trigger] q.valid(x) implies q.at(x).refs == uses(t, x) by {
        if p.can_hand_out(l, granted) {
            lemma_uses_push(s, b, x);
        }
        if p.valid(x) {
            assert(p.at(x).refs == uses(s, x));
            if x == h && p.can_hand_out(l, granted) {
                assert(!p.held(h));
            }
        } else {
            lemma_unused(p, s, x);
            if x != h || !p.can_hand_out(l, granted) {
                lemma_new_slab_is_free(p, l, granted, x);
            }
        }
    }
}

/// The buffers of a slab that was added for a request count nothing but the request.
proof fn lemma_new_slab_is_free(p: PoolState, l: int, granted: bool, x: HandlePtr)
    requires
        p.wf(),
        0 <= l < p.lists.len(),
        p.after_hand_out(l, granted).lists[l].slabs.len() <= usize::MAX,
        p.after_hand_out(l, granted).valid(x),
        !p.valid(x),
        x != p.hand_out(l, granted) || !p.can_hand_out(l, granted),
    ensures
        p.after_hand_out(l, granted).at(x).refs == 0,
{
    let ready = p.refilled(l, granted);
    let q = p.after_hand_out(l, granted);
    match x {
        HandlePtr::Pooled { list, slab, index } => {
            let old_list = p.lists[list as int];
            assert(ready.lists.len() == p.lists.len());
            assert(q.lists.len() == ready.lists.len());
            if list != l {
                assert(q.lists[list as int] == p.lists[list as int]);
            } else {
                if p.can_hand_out(l, granted) {
                    assert(q.lists[l].slabs.len() == ready.lists[l].slabs.len());
                    assert(ready.lists[l].free.len() > 0);
                    lemma_pool_refilled(p, l, granted);
                    let first = ready.lists[l].free[0];
                    assert(ready.lists[l].wf());
                    assert(ready.lists[l].has(first.0 as int, first.1 as int));
                    assert(q.lists[l].slabs[slab as int].len()
                        == ready.lists[l].slabs[slab as int].len());
                    assert(q.at(x) == ready.at(x));
                }
                assert(ready.valid(x));
                assert(ready.lists[l] == p.lists[l].grown());
                assert(slab == old_list.slabs.len());
            }
        },
        HandlePtr::Owned { slot } => {
            assert(q.owned == p.owned);
        },
    }
}

/// Taking a buffer in from outside: the counts agree with one buffer more.
pub proof fn law_owned_is_counted(p: PoolState, s: Seq<BufView>, bytes: Seq<u8>, len: nat)
    requires
        p.wf(),
        p.owned.len() < usize::MAX,
        accounts(p, s),
        len <= bytes.len(),
    ensures
        accounts(
            p.with_owned(bytes),
            s.push(BufView { inner: p.next_owned(), start: 0, len }),
        ),
{
    let q = p.with_owned(bytes);
    let b = BufView { inner: p.next_owned(), start: 0, len };
    let t = s.push(b);
    lemma_pool_with_owned(p, bytes);
    assert forall|i: int| 0 <= i < t.len() implies (#[trigger] t[i]).in_pool(q) by {
        if i < s.len() {
            assert(t[i] == s[i]);
            assert(s[i].in_pool(p));
            assert(q.valid(s[i].inner));
        }
    }
    assert forall|x: HandlePtr| #[trigger] q.valid(x) implies q.at(x).refs == uses(t, x) by {
        lemma_uses_push(s, b, x);
        if x == p.next_owned() {
            lemma_unused(p, s, x);
        } else {
            assert(p.valid(x));
        }
    }
}

/// Another reference, to any part of the backing buffer: the counts agree with one buffer more.
pub proof fn law_clone_is_counted(p: PoolState, s: Seq<BufView>, i: int, b: BufView)
    requires
        p.wf(),
        accounts(p, s),
        0 <= i < s.len(),
        b.inner == s[i].inner,
        b.in_pool(p),
    ensures
        accounts(p.retained(b.inner), s.push(b)),
{
    let q = p.retained(b.inner);
    let t = s.push(b);
    law_retain_is_local(p, b);
    lemma_pool_with(
        p,
        b.inner,
        BufState { refs: p.at(b.inner).refs + 1, ..p.at(b.inner) },
    );
    assert forall|j: int| 0 <= j < t.len() implies (#[trigger] t[j]).in_pool(q) by {
        if j < s.len() {
            assert(t[j] == s[j]);
            assert(s[j].in_pool(p));
            assert(q.valid(s[j].inner));
        }
    }
    assert forall|x: HandlePtr| #[trigger] q.valid(x) implies q.at(x).refs == uses(t, x) by {
        lemma_uses_push(s, b, x);
        assert(q.valid(x) == p.valid(x));
        assert(p.at(x).refs == uses(s, x));
    }
}

/// A reference given up: the counts agree with one buffer less.
pub proof fn law_release_is_counted(p: PoolState, s: Seq<BufView>, i: int)
    requires
        p.wf(),
        accounts(p, s),
        0 <= i < s.len(),
    ensures
        p.released(s[i].inner).wf(),
        accounts(p.released(s[i].inner), s.remove(i)),
{
    let h = s[i].inner;
    let q = p.released(h);
    let t = s.remove(i);
    lemma_accounts_covers(p, s);
    assert(s[i].in_pool(p));
    assert(p.valid(h));
    lemma_release_one(p, s, i);
    lemma_pool_released(p, h);
    assert forall|x: HandlePtr| #[trigger] q.valid(x) implies q.at(x).refs == uses(t, x) by {
        lemma_uses_remove(s, i, x);
        lemma_released_adds_none(p, h, x);
        assert(p.at(x).refs == uses(s, x));
    }
}

/// Giving up a reference brings no backing buffer into being.
proof fn lemma_released_adds_none(p: PoolState, h: HandlePtr, x: HandlePtr)
    requires
        p.valid(h),
        p.released(h).valid(x),
    ensures
        p.valid(x),
{
}

/// Writing over a buffer: the counts agree as before.
pub proof fn law_edit_is_counted(p: PoolState, s: Seq<BufView>, b: BufView, new: Seq<u8>)
    requires
        p.wf(),
        accounts(p, s),
        b.in_pool(p),
        new.len() == b.len,
    ensures
        accounts(b.edited(p, new), s),
{
    let q = b.edited(p, new);
    law_edit_is_local(p, b, new);
    lemma_pool_with(
        p,
        b.inner,
        BufState {
            bytes: replaced(
                p.at(b.inner).bytes,
                b.start as int,
                (b.start + b.len) as int,
                new,
            ),
            ..p.at(b.inner)
        },
    );
    assert forall|i: int| 0 <= i < s.len() implies (#[trigger] s[i]).in_pool(q) by {
        assert(s[i].in_pool(p));
        if s[i].inner != b.inner {
            assert(q.valid(s[i].inner));
        }
    }
    assert forall|x: HandlePtr| #[trigger] q.valid(x) implies q.at(x).refs == uses(s, x) by {
        assert(q.valid(x) == p.valid(x));
        assert(p.at(x).refs == uses(s, x));
    }
}

/// A buffer narrowed, widened or moved within its backing buffer: the counts agree as before.
pub proof fn law_slice_is_counted(p: PoolState, s: Seq<BufView>, i: int, b: BufView)
    requires
        accounts(p, s),
        0 <= i < s.len(),
        b.inner == s[i].inner,
        b.in_pool(p),
    ensures
        accounts(p, s.update(i, b)),
{
    let t = s.update(i, b);
    assert(t.remove(i) =~= s.remove(i));
    assert forall|x: HandlePtr| #[trigger] p.valid(x) implies p.at(x).refs == uses(t, x) by {
        lemma_uses_remove(s, i, x);
        lemma_uses_remove(t, i, x);
    }
}

/// The counts do not depend on the order of the buffers.
proof fn lemma_accounts_swap(p: PoolState, a: Seq<BufView>, b: Seq<BufView>, c: Seq<BufView>)
    requires
        accounts(p, a + b + c),
    ensures
        accounts(p, a + c + b),
{
    let s = a + b + c;
    let t = a + c + b;
    assert forall|i: int| 0 <= i < t.len() implies (#[trigger] t[i]).in_pool(p) by {
        let j = if i < a.len() {
            i
        } else if i < a.len() + c.len() {
            i + b.len()
        } else {
            i - c.len()
        };
        assert(t[i] == s[j]);
        assert(s[j].in_pool(p));
    }
    assert forall|x: HandlePtr| #[trigger] p.valid(x) implies p.at(x).refs == uses(t, x) by {
        lemma_uses_concat(a + b, c, x);
        lemma_uses_concat(a, b, x);
        lemma_uses_concat(a + c, b, x);
        lemma_uses_concat(a, c, x);
    }
}

/// Giving a list up: the counts agree without its buffers, one less for each of them.
pub proof fn law_list_release_is_counted(p: PoolState, s: Seq<BufView>, t: Seq<BufView>)
    requires
        p.wf(),
        accounts(p, s + t),
    ensures
        released_all(p, t).wf(),
        accounts(released_all(p, t), s),
    decreases t.len(),
{
    if t.len() == 0 {
        assert(s + t =~= s);
    } else {
        let n = s.len() as int;
        assert((s + t)[n] == t[0]);
        assert((s + t).remove(n) =~= s + t.drop_first());
        law_release_is_counted(p, s + t, n);
        law_list_release_is_counted(p.released(t[0].inner), s, t.drop_first());
    }
}

/// Cloning a list: the counts agree with its buffers twice.
pub proof fn law_list_clone_is_counted(p: PoolState, s: Seq<BufView>, t: Seq<BufView>)
    requires
        p.wf(),
        accounts(p, s + t),
    ensures
        retained_all(p, t).wf(),
        accounts(retained_all(p, t), s + t + t),
{
    let q = retained_all(p, t);
    let all = s + t + t;
    assert forall|i: int| 0 <= i < t.len() implies (#[trigger] t[i]).in_pool(p) by {
        assert((s + t)[s.len() + i] == t[i]);
    }
    lemma_retained_all(p, t);
    assert forall|i: int| 0 <= i < all.len() implies (#[trigger] all[i]).in_pool(q) by {
        let j = if i < s.len() + t.len() {
            i
        } else {
            i - t.len()
        };
        assert(all[i] == (s + t)[j]);
        assert((s + t)[j].in_pool(p));
        assert(q.valid(all[i].inner) == p.valid(all[i].inner));
        assert(q.at(all[i].inner).bytes == p.at(all[i].inner).bytes);
    }
    assert forall|x: HandlePtr| #[trigger] q.valid(x) implies q.at(x).refs == uses(all, x) by {
        lemma_uses_concat(s + t, t, x);
        assert(q.valid(x) == p.valid(x));
        assert(p.at(x).refs == uses(s + t, x));
        assert(q.at(x).refs == p.at(x).refs + uses(t, x));
    }
}

/// Consuming a list: the counts agree with what is left of it.
pub proof fn law_consume_is_counted(p: PoolState, s: Seq<BufView>, t: Seq<BufView>, amt: nat)
    requires
        p.wf(),
        accounts(p, s + t),
    ensures
        after_consume(p, t, amt).wf(),
        accounts(after_consume(p, t, amt), s + consumed(t, amt)),
    decreases t.len(),
{
    if t.len() == 0 {
    } else if amt >= t[0].len {
        let n = s.len() as int;
        assert((s + t)[n] == t[0]);
        assert((s + t).remove(n) =~= s + t.drop_first());
        law_release_is_counted(p, s + t, n);
        law_consume_is_counted(
            p.released(t[0].inner),
            s,
            t.drop_first(),
            (amt - t[0].len) as nat,
        );
    } else {
        let n = s.len() as int;
        let c = t[0].sliced(amt as int, t[0].len as int);
        assert((s + t)[n] == t[0]);
        assert((s + t)[n].in_pool(p));
        law_slice_is_counted(p, s + t, n, c);
        assert((s + t).update(n, c) =~= s + consumed(t, amt));
    }
}

/// Giving a reference up, or taking another one, changes no byte of a buffer that stays.
proof fn lemma_counting_leaves_bytes(p: PoolState, h: HandlePtr)
    requires
        p.wf(),
        p.held(h),
    ensures
        forall|x: HandlePtr| #[trigger]
            p.released(h).valid(x) ==> p.valid(x) && p.released(h).at(x).bytes == p.at(x).bytes,
        forall|x: HandlePtr| #[trigger]
            p.retained(h).valid(x) ==> p.valid(x) && p.retained(h).at(x).bytes == p.at(x).bytes,
{
    lemma_pool_released(p, h);
    lemma_pool_with(p, h, BufState { refs: p.at(h).refs + 1, ..p.at(h) });
    assert forall|x: HandlePtr| #[trigger] p.released(h).valid(x) implies p.valid(x) && p.released(
        h,
    ).at(x).bytes == p.at(x).bytes by {
        lemma_released_adds_none(p, h, x);
    }
    assert forall|x: HandlePtr| #[trigger] p.retained(h).valid(x) implies p.valid(x) && p.retained(
        h,
    ).at(x).bytes == p.at(x).bytes by {
        assert(p.retained(h).valid(x) == p.valid(x));
    }
}

/// A write that goes on, or stops: beside the other buffers the counts agree with those of the
/// step, neither more nor less, and no byte changes.
pub proof fn law_write_step_is_counted(
    p: PoolState,
    q: PoolState,
    w: WriteView,
    step: WriteStep,
    s: Seq<BufView>,
)
    requires
        p.wf(),
        accounts(p, s + seq![w.orig, w.buf]),
        w.goes_on(p, q, step),
    ensures
        q.wf(),
        match step {
            WriteStep::Write(v, lent) => accounts(q, s + seq![v@.orig, v@.buf, lent@]),
            WriteStep::Done(_, buf) => accounts(q, s + seq![buf@]),
        },
        forall|x: HandlePtr| #[trigger] q.valid(x) ==> p.valid(x) && q.at(x).bytes == p.at(x).bytes,
{
    let t = s + seq![w.orig, w.buf];
    let n = s.len() as int;
    assert(t[n] == w.orig);
    assert(t[n].in_pool(p));
    lemma_counting_leaves_bytes(p, w.orig.inner);
    if w.written < w.orig.len {
        law_slice_is_a_part(p, w.orig, w.written as int, w.orig.len as int);
        law_retain_is_local(p, w.orig);
        law_clone_is_counted(p, t, n, w.rest());
        assert(t.push(w.rest()) =~= s + seq![w.orig, w.buf, w.rest()]);
    } else {
        law_release_is_counted(p, t, n);
        assert(t.remove(n) =~= s + seq![w.buf]);
    }
}

/// A write that begins: beside the other buffers the counts agree with those of the step, and no
/// byte changes.
pub proof fn law_write_start_is_counted(
    p: PoolState,
    q: PoolState,
    orig: BufView,
    step: WriteStep,
    s: Seq<BufView>,
)
    requires
        p.wf(),
        accounts(p, s + seq![orig]),
        (WriteView { orig, buf: orig, written: 0 }).goes_on(p.retained(orig.inner), q, step),
    ensures
        q.wf(),
        match step {
            WriteStep::Write(v, lent) => accounts(q, s + seq![v@.orig, v@.buf, lent@]),
            WriteStep::Done(_, buf) => accounts(q, s + seq![buf@]),
        },
        forall|x: HandlePtr| #[trigger] q.valid(x) ==> p.valid(x) && q.at(x).bytes == p.at(x).bytes,
{
    let t = s + seq![orig];
    let n = s.len() as int;
    let mid = p.retained(orig.inner);
    assert(t[n] == orig);
    assert(t[n].in_pool(p));
    lemma_counting_leaves_bytes(p, orig.inner);
    law_retain_is_local(p, orig);
    law_clone_is_counted(p, t, n, orig);
    assert(t.push(orig) =~= s + seq![orig, orig]);
    law_write_step_is_counted(mid, q, WriteView { orig, buf: orig, written: 0 }, step, s);
    assert forall|x: HandlePtr| #[trigger] q.valid(x) implies p.valid(x) && q.at(x).bytes == p.at(
        x,
    ).bytes by {
        assert(mid.valid(x));
    }
}

/// A write that resumes, whatever came of the last one: beside the other buffers the counts agree
/// with those of the step, neither more nor less, and no byte changes.
pub proof fn law_write_resume_is_counted(
    p: PoolState,
    q: PoolState,
    w: WriteView,
    returned: BufView,
    outcome: WriteOutcome,
    step: WriteStep,
    s: Seq<BufView>,
)
    requires
        p.wf(),
        accounts(p, s + seq![w.orig, w.buf, returned]),
        w.resumes(p, q, returned, outcome, step),
    ensures
        q.wf(),
        match step {
            WriteStep::Write(v, lent) => accounts(q, s + seq![v@.orig, v@.buf, lent@]),
            WriteStep::Done(_, buf) => accounts(q, s + seq![buf@]),
        },
        forall|x: HandlePtr| #[trigger] q.valid(x) ==> p.valid(x) && q.at(x).bytes == p.at(x).bytes,
{
    let t = s + seq![w.orig, w.buf, returned];
    let u = s + seq![w.orig, returned];
    let n = s.len() as int;
    let mid = p.released(w.buf.inner);
    assert(t[n + 1] == w.buf);
    assert(t[n + 1].in_pool(p));
    lemma_counting_leaves_bytes(p, w.buf.inner);
    law_release_is_counted(p, t, n + 1);
    assert(t.remove(n + 1) =~= u);
    assert(u[n] == w.orig && u[n + 1] == returned);
    assert(u[n].in_pool(mid) && u[n + 1].in_pool(mid));
    match outcome {
        WriteOutcome::Wrote(k) => {
            if k == 0 {
                lemma_counting_leaves_bytes(mid, w.orig.inner);
                law_release_is_counted(mid, u, n);
                assert(u.remove(n) =~= s + seq![returned]);
            } else {
                let v = WriteView { buf: returned, written: w.written + k as nat, ..w };
                law_write_step_is_counted(mid, q, v, step, s);
            }
        },
        WriteOutcome::Interrupted => {
            law_write_step_is_counted(mid, q, WriteView { buf: returned, ..w }, step, s);
        },
        WriteOutcome::Failed(_) => {
            lemma_counting_leaves_bytes(mid, returned.inner);
            law_release_is_counted(mid, u, n + 1);
            assert(u.remove(n + 1) =~= s + seq![w.orig]);
        },
    }
    assert forall|x: HandlePtr| #[trigger] q.valid(x) implies p.valid(x) && q.at(x).bytes == p.at(
        x,
    ).bytes by {
        assert(mid.valid(x));
    }
}

/// A gathering write that resumes, whatever came of the last one: beside the other buffers the
/// counts agree with those of the step, neither more nor less.
pub proof fn law_writev_resume_is_counted(
    p: PoolState,
    q: PoolState,
    w: WritevView,
    returned: VecView,
    outcome: WriteOutcome,
    step: WritevStep,
    s: Seq<BufView>,
)
    requires
        p.wf(),
        accounts(p, s + w.orig.bufs + returned.bufs),
        w.resumes(p, q, returned, outcome, step),
    ensures
        q.wf(),
        match step {
            WritevStep::Write(v, bufs) => accounts(q, s + v@.orig.bufs + bufs@.bufs),
            WritevStep::Done(_, bufs) => accounts(q, s + bufs@.bufs),
        },
{
    let orig = w.orig.bufs;
    match outcome {
        WriteOutcome::Wrote(k) => {
            if k == 0 {
                lemma_accounts_swap(p, s, orig, returned.bufs);
                law_list_release_is_counted(p, s + returned.bufs, orig);
            } else {
                let rest = consumed(returned.bufs, k as nat);
                let mid = after_consume(p, returned.bufs, k as nat);
                law_consume_is_counted(p, s + orig, returned.bufs, k as nat);
                if w.written + k >= total(orig) {
                    law_list_release_is_counted(mid, s + orig, rest);
                }
            }
        },
        WriteOutcome::Interrupted => {
            if w.written >= total(orig) {
                law_list_release_is_counted(p, s + orig, returned.bufs);
            }
        },
        WriteOutcome::Failed(_) => {
            lemma_accounts_swap(p, s, orig, returned.bufs);
            law_list_release_is_counted(p, s + returned.bufs, orig);
        },
    }
}

/// A gathering write that begins: beside the other buffers the counts agree with those of the
/// step.
pub proof fn law_writev_start_is_counted(
    p: PoolState,
    q: PoolState,
    orig: VecView,
    step: WritevStep,
    s: Seq<BufView>,
)
    requires
        p.wf(),
        accounts(p, s + orig.bufs),
        (WritevView { orig, written: 0 }).goes_on(orig, retained_all(p, orig.bufs), q, step),
    ensures
        q.wf(),
        match step {
            WritevStep::Write(v, bufs) => accounts(q, s + v@.orig.bufs + bufs@.bufs),
            WritevStep::Done(_, bufs) => accounts(q, s + bufs@.bufs),
        },
{
    law_list_clone_is_counted(p, s, orig.bufs);
    if total(orig.bufs) == 0 {
        law_list_release_is_counted(retained_all(p, orig.bufs), s + orig.bufs, orig.bufs);
    }
}

} // verus!
