//! A list of buffers, to be written in one go.
use vstd::prelude::*;

use crate::foreign::{
    buf_list, bufs_of, bufs_of_mut, io_vec_list, io_vecs_of, listed, recorded, push_buf,
    push_io_vec, remove_buf, BufList, IoVecList,
};
use crate::iou_buf::IouBuf;
use crate::iou_buf_pool::BufferPool;
use crate::model::{lemma_pool_released, lemma_pool_with, BufState, HandlePtr, PoolState};
use crate::view::BufView;

verus! {

/// Where the bytes of a buffer lie and how many they are: what a gathering write is given.
#[derive(Debug, Clone, Copy)]
pub struct IoVec {
    /// The backing buffer.
    pub inner: HandlePtr,
    /// Where in the backing buffer the bytes begin.
    pub start: usize,
    /// How many they are.
    pub len: usize,
}

impl View for IoVec {
    type V = BufView;

    open spec fn view(&self) -> BufView {
        BufView { inner: self.inner, start: self.start as nat, len: self.len as nat }
    }
}

/// A list of buffers. This mostly exists to serve gathering writes.
pub struct IouBufVec {
    bufs: BufList,
    io_vecs: IoVecList,
}

/// What a list of buffers is: the buffers, and the places where their bytes lie.
#[verifier::ext_equal]
pub struct VecView {
    /// The buffers.
    pub bufs: Seq<BufView>,
    /// The places.
    pub io_vecs: Seq<BufView>,
}

impl VecView {
    /// The places are those of the buffers.
    pub open spec fn in_step(self) -> bool {
        self.io_vecs == self.bufs
    }

    /// The list without the first `amt` bytes.
    pub open spec fn without(self, amt: nat) -> VecView {
        VecView { bufs: consumed(self.bufs, amt), io_vecs: consumed(self.bufs, amt) }
    }
}

impl View for IouBufVec {
    type V = VecView;

    closed spec fn view(&self) -> VecView {
        VecView {
            bufs: listed(self.bufs).map_values(|b: IouBuf| b@),
            io_vecs: recorded(self.io_vecs).map_values(|v: IoVec| v@),
        }
    }
}

/// The length of all the buffers together.
pub open spec fn total(s: Seq<BufView>) -> nat
    decreases s.len(),
{
    if s.len() == 0 {
        0
    } else {
        s[0].len + total(s.drop_first())
    }
}

/// The bytes of all the buffers, one after the other.
pub open spec fn gathered(s: Seq<BufView>, p: PoolState) -> Seq<u8>
    decreases s.len(),
{
    if s.len() == 0 {
        Seq::empty()
    } else {
        s[0].content(p) + gathered(s.drop_first(), p)
    }
}

/// The buffers without the first `amt` bytes: those that hold no other bytes are gone, and the
/// next one begins later.
pub open spec fn consumed(s: Seq<BufView>, amt: nat) -> Seq<BufView>
    decreases s.len(),
{
    if s.len() == 0 {
        s
    } else if amt >= s[0].len {
        consumed(s.drop_first(), (amt - s[0].len) as nat)
    } else {
        s.update(0, s[0].sliced(amt as int, s[0].len as int))
    }
}

/// How many references to a backing buffer the buffers are.
pub open spec fn uses(s: Seq<BufView>, h: HandlePtr) -> nat
    decreases s.len(),
{
    if s.len() == 0 {
        0
    } else {
        uses(s.drop_first(), h) + if s[0].inner == h {
            1nat
        } else {
            0nat
        }
    }
}

/// Every buffer is in the pool, and the pool counts a reference for each.
pub open spec fn covers(p: PoolState, s: Seq<BufView>) -> bool {
    &&& forall|i: int| 0 <= i < s.len() ==> (#[trigger] s[i]).in_pool(p)
    &&& forall|h: HandlePtr| #[trigger] uses(s, h) > 0 ==> uses(s, h) <= p.at(h).refs
}

/// The pool once all the buffers were given up, the first one first.
pub open spec fn released_all(p: PoolState, s: Seq<BufView>) -> PoolState
    decreases s.len(),
{
    if s.len() == 0 {
        p
    } else {
        released_all(p.released(s[0].inner), s.drop_first())
    }
}

/// The pool with one more reference for each of the buffers.
pub open spec fn retained_all(p: PoolState, s: Seq<BufView>) -> PoolState
    decreases s.len(),
{
    if s.len() == 0 {
        p
    } else {
        retained_all(p.retained(s[0].inner), s.drop_first())
    }
}

/// The pool once the first `amt` bytes of the buffers are done with: the buffers that hold no
/// other bytes are given up.
pub open spec fn after_consume(p: PoolState, s: Seq<BufView>, amt: nat) -> PoolState
    decreases s.len(),
{
    if s.len() == 0 || amt < s[0].len {
        p
    } else {
        after_consume(p.released(s[0].inner), s.drop_first(), (amt - s[0].len) as nat)
    }
}

/// A buffer of the list is a use of its backing buffer.
pub proof fn lemma_uses_member(s: Seq<BufView>, i: int)
    requires
        0 <= i < s.len(),
    ensures
        uses(s, s[i].inner) >= 1,
    decreases s.len(),
{
    if i > 0 {
        assert(s.drop_first()[i - 1] == s[i]);
        lemma_uses_member(s.drop_first(), i - 1);
    }
}

/// What is used is the backing buffer of a buffer of the list.
pub proof fn lemma_used(s: Seq<BufView>, h: HandlePtr) -> (i: int)
    requires
        uses(s, h) > 0,
    ensures
        0 <= i < s.len(),
        s[i].inner == h,
    decreases s.len(),
{
    if s[0].inner == h {
        0
    } else {
        let i = lemma_used(s.drop_first(), h);
        assert(s.drop_first()[i] == s[i + 1]);
        i + 1
    }
}

/// Buffers read the same in two pools that hold the same bytes in their backing buffers.
pub proof fn lemma_gathered_same(s: Seq<BufView>, p: PoolState, q: PoolState)
    requires
        forall|i: int|
            0 <= i < s.len() ==> p.at((#[trigger] s[i]).inner).bytes == q.at(s[i].inner).bytes,
    ensures
        gathered(s, p) == gathered(s, q),
    decreases s.len(),
{
    if s.len() > 0 {
        let t = s.drop_first();
        assert forall|i: int| 0 <= i < t.len() implies p.at((#[trigger] t[i]).inner).bytes == q.at(
            t[i].inner,
        ).bytes by {
            assert(t[i] == s[i + 1]);
        }
        lemma_gathered_same(t, p, q);
    }
}

/// The bytes of all the buffers are as many as they have together.
pub proof fn lemma_gathered_len(s: Seq<BufView>, p: PoolState)
    requires
        forall|i: int| 0 <= i < s.len() ==> (#[trigger] s[i]).in_pool(p),
    ensures
        gathered(s, p).len() == total(s),
    decreases s.len(),
{
    if s.len() > 0 {
        let t = s.drop_first();
        assert forall|i: int| 0 <= i < t.len() implies (#[trigger] t[i]).in_pool(p) by {
            assert(t[i] == s[i + 1]);
        }
        lemma_gathered_len(t, p);
    }
}

/// A single buffer is covered when it is in the pool.
pub proof fn lemma_covers_one(p: PoolState, b: BufView)
    requires
        b.in_pool(p),
    ensures
        covers(p, seq![b]),
{
    let s = seq![b];
    assert forall|h: HandlePtr| #[trigger] uses(s, h) > 0 implies uses(s, h) <= p.at(h).refs by {
        assert(s.drop_first().len() == 0);
        assert(uses(s.drop_first(), h) == 0);
    }
}

/// The uses of a list without one of its buffers.
pub proof fn lemma_uses_remove(s: Seq<BufView>, i: int, h: HandlePtr)
    requires
        0 <= i < s.len(),
    ensures
        uses(s, h) == uses(s.remove(i), h) + if s[i].inner == h {
            1nat
        } else {
            0nat
        },
    decreases s.len(),
{
    if i == 0 {
        assert(s.remove(0) =~= s.drop_first());
    } else {
        assert(s.drop_first()[i - 1] == s[i]);
        assert(s.remove(i).drop_first() =~= s.drop_first().remove(i - 1));
        lemma_uses_remove(s.drop_first(), i - 1, h);
    }
}

/// Giving up one buffer leaves the others in the pool, with the same bytes.
pub proof fn lemma_release_one(p: PoolState, s: Seq<BufView>, i: int)
    requires
        p.wf(),
        covers(p, s),
        0 <= i < s.len(),
    ensures
        p.released(s[i].inner).wf(),
        covers(p.released(s[i].inner), s.remove(i)),
        forall|j: int|
            0 <= j < s.len() - 1 ==> p.at((#[trigger] s.remove(i)[j]).inner).bytes == p.released(
                s[i].inner,
            ).at(s.remove(i)[j].inner).bytes,
{
    let h = s[i].inner;
    let t = s.remove(i);
    let q = p.released(h);
    assert(s[i].in_pool(p));
    lemma_pool_released(p, h);
    assert forall|j: int| 0 <= j < t.len() implies (#[trigger] t[j]).in_pool(q) && p.at(
        t[j].inner,
    ).bytes == q.at(t[j].inner).bytes by {
        let k = if j < i {
            j
        } else {
            j + 1
        };
        assert(t[j] == s[k]);
        assert(s[k].in_pool(p));
        lemma_uses_member(t, j);
        lemma_uses_remove(s, i, t[j].inner);
        assert(uses(s, t[j].inner) > 0);
        if t[j].inner == h {
            assert(uses(s, h) <= p.at(h).refs);
        } else {
            assert(q.valid(t[j].inner));
        }
    }
    assert forall|x: HandlePtr| #[trigger] uses(t, x) > 0 implies uses(t, x) <= q.at(x).refs by {
        lemma_uses_remove(s, i, x);
        assert(uses(s, x) > 0);
        let j = lemma_used(s, x);
        assert(s[j].in_pool(p));
        if x != h {
            assert(q.valid(x));
        } else {
            assert(uses(s, h) <= p.at(h).refs);
        }
    }
}

/// Giving up the first buffer leaves the others in the pool, as they read before.
pub proof fn lemma_released_first(p: PoolState, s: Seq<BufView>)
    requires
        p.wf(),
        covers(p, s),
        s.len() > 0,
    ensures
        p.released(s[0].inner).wf(),
        covers(p.released(s[0].inner), s.drop_first()),
        gathered(s.drop_first(), p.released(s[0].inner)) == gathered(s.drop_first(), p),
{
    lemma_release_one(p, s, 0);
    assert(s.remove(0) =~= s.drop_first());
    lemma_gathered_same(s.drop_first(), p, p.released(s[0].inner));
}

/// What is left once some bytes are done with reads as all the bytes but these, in the pool as
/// it is then: nothing is lost and nothing is kept. Where more bytes are done with than there
/// are, nothing is left.
pub proof fn law_consume(p: PoolState, s: Seq<BufView>, amt: nat)
    requires
        p.wf(),
        covers(p, s),
    ensures
        after_consume(p, s, amt).wf(),
        covers(after_consume(p, s, amt), consumed(s, amt)),
        amt <= total(s) ==> gathered(consumed(s, amt), after_consume(p, s, amt)) == gathered(
            s,
            p,
        ).skip(amt as int),
        amt >= total(s) ==> consumed(s, amt).len() == 0,
    decreases s.len(),
{
    if s.len() == 0 {
        assert(gathered(s, p).skip(0) =~= Seq::empty());
    } else if amt >= s[0].len {
        let t = s.drop_first();
        let rest = (amt - s[0].len) as nat;
        let q = p.released(s[0].inner);
        assert(s[0].in_pool(p));
        lemma_released_first(p, s);
        law_consume(q, t, rest);
        if amt <= total(s) {
            lemma_gathered_len(t, q);
            assert(gathered(t, q).skip(rest as int) =~= gathered(s, p).skip(amt as int));
        }
    } else {
        let c = s[0].sliced(amt as int, s[0].len as int);
        let u = s.update(0, c);
        assert(s[0].in_pool(p));
        assert(u.drop_first() =~= s.drop_first());
        assert(c.content(p) =~= s[0].content(p).skip(amt as int));
        assert(gathered(u, p) =~= gathered(s, p).skip(amt as int));
        assert forall|h: HandlePtr| #[trigger] uses(u, h) > 0 implies uses(u, h) <= p.at(
            h,
        ).refs by {
            assert(uses(u, h) == uses(s, h));
        }
        assert forall|i: int| 0 <= i < u.len() implies (#[trigger] u[i]).in_pool(p) by {
            if i > 0 {
                assert(u[i] == s[i]);
            }
        }
    }
}

/// Consuming some bytes and then some more is consuming all of them at once, in the list and in
/// the pool.
pub proof fn law_consume_composes(p: PoolState, s: Seq<BufView>, a: nat, b: nat)
    ensures
        consumed(consumed(s, a), b) == consumed(s, a + b),
        after_consume(after_consume(p, s, a), consumed(s, a), b) == after_consume(p, s, a + b),
    decreases s.len(),
{
    if s.len() > 0 {
        if a >= s[0].len {
            law_consume_composes(
                p.released(s[0].inner),
                s.drop_first(),
                (a - s[0].len) as nat,
                b,
            );
        } else {
            let u = consumed(s, a);
            assert(u.drop_first() =~= s.drop_first());
            if a + b < s[0].len {
                assert(consumed(u, b) =~= consumed(s, a + b));
            }
        }
    }
}

impl Default for IouBufVec {
    /// A list without buffers.
    fn default() -> (v: IouBufVec)
        ensures
            v@ == (VecView { bufs: Seq::empty(), io_vecs: Seq::empty() }),
            v@.in_step(),
    {
        let v = IouBufVec { bufs: buf_list(), io_vecs: io_vec_list() };
        proof {
            assert(v@.bufs =~= Seq::empty());
            assert(v@.io_vecs =~= Seq::empty());
        }
        v
    }
}

impl IouBufVec {
    /// Puts a buffer at the end of the list.
    pub fn push(&mut self, buf: IouBuf)
        ensures
            final(self)@ == (VecView {
                bufs: old(self)@.bufs.push(buf@),
                io_vecs: old(self)@.io_vecs.push(buf@),
            }),
            old(self)@.in_step() ==> final(self)@.in_step(),
    {
        let place: IoVec = buf.place();
        push_buf(&mut self.bufs, buf);
        push_io_vec(&mut self.io_vecs, place);
        proof {
            assert(self@.bufs =~= old(self)@.bufs.push(buf@));
            assert(self@.io_vecs =~= old(self)@.io_vecs.push(buf@));
        }
    }

    /// Puts buffers at the end of the list, in order.
    pub fn extend(&mut self, iter: Vec<IouBuf>)
        ensures
            final(self)@ == (VecView {
                bufs: old(self)@.bufs + iter@.map_values(|b: IouBuf| b@),
                io_vecs: old(self)@.io_vecs + iter@.map_values(|b: IouBuf| b@),
            }),
            old(self)@.in_step() ==> final(self)@.in_step(),
    {
        let ghost came = iter@.map_values(|b: IouBuf| b@);
        proof {
            assert(came.take(0) =~= Seq::empty());
            assert(self@.bufs + came.take(0) =~= self@.bufs);
            assert(self@.io_vecs + came.take(0) =~= self@.io_vecs);
        }
        for elem in it: iter
            invariant
                came == it.seq().map_values(|b: IouBuf| b@),
                self@.bufs == old(self)@.bufs + came.take(it.index() as int),
                self@.io_vecs == old(self)@.io_vecs + came.take(it.index() as int),
        {
            let ghost k = it.index() as int;
            proof {
                assert(came.take(k + 1) =~= came.take(k).push(came[k]));
            }
            self.push(elem);
            proof {
                assert(old(self)@.bufs + came.take(k + 1) =~= (old(self)@.bufs + came.take(k)).push(
                    came[k],
                ));
                assert(old(self)@.io_vecs + came.take(k + 1) =~= (old(self)@.io_vecs + came.take(
                    k,
                )).push(came[k]));
            }
        }
        proof {
            assert(came.take(came.len() as int) =~= came);
        }
    }

    /// The length of all the buffers together, which has to fit in memory.
    pub fn len(&self) -> (n: usize)
        requires
            total(self@.bufs) <= usize::MAX,
        ensures
            n == total(self@.bufs),
    {
        let bufs: &[IouBuf] = bufs_of(&self.bufs);
        let count: usize = bufs.len();
        let mut sum: usize = 0;
        let mut i: usize = 0;
        proof {
            assert(self@.bufs.skip(0) =~= self@.bufs);
        }
        while i < count
            invariant
                i <= count,
                count == bufs@.len(),
                bufs@ == listed(self.bufs),
                sum + total(self@.bufs.skip(i as int)) == total(self@.bufs),
                total(self@.bufs) <= usize::MAX,
            decreases count - i,
        {
            proof {
                assert(self@.bufs.skip(i as int).drop_first() =~= self@.bufs.skip(i + 1));
                assert(self@.bufs.skip(i as int)[0] == bufs@[i as int]@);
            }
            sum = sum + bufs[i].len();
            i = i + 1;
        }
        sum
    }

    /// Tells that there is data in the list.
    pub fn is_empty(&self) -> (r: bool)
        requires
            total(self@.bufs) <= usize::MAX,
        ensures
            r <==> total(self@.bufs) > 0,
    {
        bufs_of(&self.bufs).len() > 0 && self.len() > 0
    }

    /// The buffers.
    pub fn bufs(&self) -> (bufs: &[IouBuf])
        ensures
            bufs@.map_values(|b: IouBuf| b@) == self@.bufs,
    {
        bufs_of(&self.bufs)
    }

    /// The places of the buffers.
    pub fn io_vecs(&self) -> (places: &[IoVec])
        ensures
            places@.map_values(|v: IoVec| v@) == self@.io_vecs,
    {
        io_vecs_of(&self.io_vecs)
    }

    /// Removes the first `amt` bytes from the front of the list: gives up the buffers that hold
    /// no other bytes, and lets the next one begin later. The places follow.
    pub fn consume(&mut self, pool: &mut BufferPool, amt: usize)
        requires
            old(pool).wf(),
            covers(old(pool)@, old(self)@.bufs),
        ensures
            final(pool).wf(),
            final(pool)@ == after_consume(old(pool)@, old(self)@.bufs, amt as nat),
            final(self)@ == old(self)@.without(amt as nat),
            final(self)@.bufs == consumed(old(self)@.bufs, amt as nat),
            final(self)@.io_vecs == final(self)@.bufs,
            final(self)@.in_step(),
            covers(final(pool)@, final(self)@.bufs),
    {
        self.consume_bufs(pool, amt);
        self.io_vecs = places_of(&self.bufs);
    }

    /// Removes the first `amt` bytes from the buffers.
    fn consume_bufs(&mut self, pool: &mut BufferPool, amt: usize)
        requires
            old(pool).wf(),
            covers(old(pool)@, old(self)@.bufs),
        ensures
            final(pool).wf(),
            final(pool)@ == after_consume(old(pool)@, old(self)@.bufs, amt as nat),
            final(self)@ == (VecView {
                bufs: consumed(old(self)@.bufs, amt as nat),
                ..old(self)@
            }),
            covers(final(pool)@, final(self)@.bufs),
    {
        let mut left: usize = amt;
        while bufs_of(&self.bufs).len() > 0
            invariant
                pool.wf(),
                covers(pool@, self@.bufs),
                self@.io_vecs == old(self)@.io_vecs,
                consumed(self@.bufs, left as nat) == consumed(old(self)@.bufs, amt as nat),
                after_consume(pool@, self@.bufs, left as nat) == after_consume(
                    old(pool)@,
                    old(self)@.bufs,
                    amt as nat,
                ),
            decreases listed(self.bufs).len(),
        {
            let len: usize = bufs_of(&self.bufs)[0].len();
            let ghost before = self@.bufs;
            proof {
                assert(before[0] == listed(self.bufs)[0]@);
                assert(before[0].in_pool(pool@));
            }
            if left >= len {
                proof {
                    lemma_released_first(pool@, before);
                }
                let buf = remove_buf(&mut self.bufs, 0);
                proof {
                    assert(self@.bufs =~= before.drop_first());
                }
                left = left - len;
                buf.release(pool);
            } else {
                proof {
                    law_consume(pool@, before, left as nat);
                }
                let bufs: &mut [IouBuf] = bufs_of_mut(&mut self.bufs);
                let first: &mut IouBuf = &mut bufs[0];
                first.narrow_from(left);
                proof {
                    assert(self@.bufs =~= consumed(before, left as nat));
                }
                return ;
            }
        }
    }
}

/// The uses of two lists together.
pub proof fn lemma_uses_concat(s: Seq<BufView>, t: Seq<BufView>, h: HandlePtr)
    ensures
        uses(s + t, h) == uses(s, h) + uses(t, h),
    decreases s.len(),
{
    if s.len() == 0 {
        assert(s + t =~= t);
    } else {
        assert((s + t).drop_first() =~= s.drop_first() + t);
        lemma_uses_concat(s.drop_first(), t, h);
    }
}

/// The length of all the buffers: none have none, one has its own, and the lengths of two lists
/// add up.
pub proof fn law_lengths_add_up(b: BufView, s: Seq<BufView>, t: Seq<BufView>)
    ensures
        total(Seq::empty()) == 0,
        total(seq![b]) == b.len,
        total(s + t) == total(s) + total(t),
    decreases s.len(),
{
    assert(seq![b].drop_first() =~= Seq::empty());
    assert(total(seq![b].drop_first()) == 0);
    if s.len() == 0 {
        assert(s + t =~= t);
    } else {
        assert((s + t).drop_first() =~= s.drop_first() + t);
        law_lengths_add_up(b, s.drop_first(), t);
    }
}

/// The bytes of all the buffers: none have none, one has the bytes of the backing buffer that lie
/// in its part, and those of two lists follow each other.
pub proof fn law_bytes_are_gathered_in_order(
    p: PoolState,
    b: BufView,
    s: Seq<BufView>,
    t: Seq<BufView>,
)
    ensures
        gathered(Seq::empty(), p).len() == 0,
        b.start + b.len <= p.at(b.inner).bytes.len() ==> gathered(seq![b], p).len() == b.len,
        b.start + b.len <= p.at(b.inner).bytes.len() ==> forall|i: int|
            0 <= i < b.len ==> #[trigger] gathered(seq![b], p)[i] == p.at(b.inner).bytes[b.start
                + i],
        gathered(s + t, p) == gathered(s, p) + gathered(t, p),
    decreases s.len(),
{
    assert(seq![b].drop_first() =~= Seq::empty());
    assert(gathered(seq![b].drop_first(), p) =~= Seq::empty());
    assert(gathered(seq![b], p) =~= b.content(p));
    if s.len() == 0 {
        assert(s + t =~= t);
        assert(gathered(s, p) + gathered(t, p) =~= gathered(t, p));
    } else {
        assert((s + t).drop_first() =~= s.drop_first() + t);
        law_bytes_are_gathered_in_order(p, b, s.drop_first(), t);
        assert(gathered(s + t, p) =~= gathered(s, p) + gathered(t, p));
    }
}

/// The references to a backing buffer: no buffer is none, one buffer is one to its own backing
/// buffer alone, and those of two lists add up.
pub proof fn law_uses_add_up(b: BufView, h: HandlePtr, s: Seq<BufView>, t: Seq<BufView>)
    ensures
        uses(Seq::empty(), h) == 0,
        b.inner == h ==> uses(seq![b], h) == 1,
        b.inner != h ==> uses(seq![b], h) == 0,
        uses(s + t, h) == uses(s, h) + uses(t, h),
{
    assert(seq![b].drop_first() =~= Seq::empty());
    assert(uses(seq![b].drop_first(), h) == 0);
    lemma_uses_concat(s, t, h);
}

/// Giving up a list gives up each buffer of it once, in order, and cloning one takes one more
/// reference for each buffer of it, in order.
pub proof fn law_lists_are_counted_in_order(
    p: PoolState,
    b: BufView,
    s: Seq<BufView>,
    t: Seq<BufView>,
)
    ensures
        released_all(p, Seq::empty()) == p,
        released_all(p, seq![b]) == p.released(b.inner),
        released_all(p, s + t) == released_all(released_all(p, s), t),
        retained_all(p, Seq::empty()) == p,
        retained_all(p, seq![b]) == p.retained(b.inner),
        retained_all(p, s + t) == retained_all(retained_all(p, s), t),
    decreases s.len(),
{
    assert(seq![b].drop_first() =~= Seq::empty());
    assert(released_all(p.released(b.inner), seq![b].drop_first()) == p.released(b.inner));
    assert(retained_all(p.retained(b.inner), seq![b].drop_first()) == p.retained(b.inner));
    if s.len() == 0 {
        assert(s + t =~= t);
    } else {
        assert((s + t).drop_first() =~= s.drop_first() + t);
        law_lists_are_counted_in_order(p.released(s[0].inner), b, s.drop_first(), t);
        law_lists_are_counted_in_order(p.retained(s[0].inner), b, s.drop_first(), t);
    }
}

/// Consuming the bytes of the first `k` buffers and `r` bytes of the next one, which has more:
/// those `k` buffers are gone and given up, the next one begins `r` bytes later and ends where it
/// did, and the others are as they were.
pub proof fn law_consume_drops_and_narrows(p: PoolState, s: Seq<BufView>, k: int, r: nat)
    requires
        0 <= k < s.len(),
        r < s[k].len,
    ensures
        consumed(s, total(s.take(k)) + r).len() == s.len() - k,
        consumed(s, total(s.take(k)) + r)[0].inner == s[k].inner,
        consumed(s, total(s.take(k)) + r)[0].start == s[k].start + r,
        consumed(s, total(s.take(k)) + r)[0].len == s[k].len - r,
        forall|j: int|
            1 <= j < s.len() - k ==> #[trigger] consumed(s, total(s.take(k)) + r)[j] == s[k + j],
        after_consume(p, s, total(s.take(k)) + r) == released_all(p, s.take(k)),
    decreases k,
{
    if k == 0 {
        assert(s.take(0).len() == 0);
        assert(total(s.take(0)) == 0);
        assert(released_all(p, s.take(0)) == p);
    } else {
        let t = s.drop_first();
        assert(s.take(k)[0] == s[0]);
        assert(s.take(k).drop_first() =~= t.take(k - 1));
        assert(t[k - 1] == s[k]);
        law_consume_drops_and_narrows(p.released(s[0].inner), t, k - 1, r);
        assert forall|j: int| 1 <= j < s.len() - k implies #[trigger] consumed(
            s,
            total(s.take(k)) + r,
        )[j] == s[k + j] by {
            assert(consumed(t, total(t.take(k - 1)) + r)[j] == t[k - 1 + j]);
        }
    }
}

/// Consuming all the bytes of a list, or more: no buffer is left, and each was given up.
pub proof fn law_consume_all(p: PoolState, s: Seq<BufView>, r: nat)
    ensures
        consumed(s, total(s) + r).len() == 0,
        after_consume(p, s, total(s) + r) == released_all(p, s),
    decreases s.len(),
{
    if s.len() > 0 {
        law_consume_all(p.released(s[0].inner), s.drop_first(), r);
    }
}

/// The places are in step where they are as many as the buffers and each is the place of its
/// buffer, and not otherwise.
pub proof fn law_places_follow_the_buffers(v: VecView)
    ensures
        v.in_step() <==> v.io_vecs.len() == v.bufs.len() && forall|i: int|
            0 <= i < v.bufs.len() ==> #[trigger] v.io_vecs[i] == v.bufs[i],
{
    if v.io_vecs.len() == v.bufs.len() && forall|i: int|
        0 <= i < v.bufs.len() ==> #[trigger] v.io_vecs[i] == v.bufs[i] {
        assert(v.io_vecs =~= v.bufs);
    }
}

/// A place names the backing buffer, the beginning and the length that it holds.
pub proof fn law_place_is_as_recorded(v: IoVec)
    ensures
        v@.inner == v.inner,
        v@.start == v.start,
        v@.len == v.len,
{
}

/// A part of a covered list is covered.
pub proof fn lemma_covers_parts(p: PoolState, s: Seq<BufView>, t: Seq<BufView>)
    requires
        covers(p, s + t),
    ensures
        covers(p, s),
        covers(p, t),
{
    assert forall|i: int| 0 <= i < s.len() implies (#[trigger] s[i]).in_pool(p) by {
        assert((s + t)[i] == s[i]);
    }
    assert forall|i: int| 0 <= i < t.len() implies (#[trigger] t[i]).in_pool(p) by {
        assert((s + t)[s.len() + i] == t[i]);
    }
    assert forall|h: HandlePtr| #[trigger] uses(s, h) > 0 implies uses(s, h) <= p.at(h).refs by {
        lemma_uses_concat(s, t, h);
        assert(uses(s + t, h) > 0);
    }
    assert forall|h: HandlePtr| #[trigger] uses(t, h) > 0 implies uses(t, h) <= p.at(h).refs by {
        lemma_uses_concat(s, t, h);
        assert(uses(s + t, h) > 0);
    }
}

/// Two lists are covered together in either order.
pub proof fn lemma_covers_swap(p: PoolState, s: Seq<BufView>, t: Seq<BufView>)
    requires
        covers(p, s + t),
    ensures
        covers(p, t + s),
{
    assert forall|i: int| 0 <= i < (t + s).len() implies (#[trigger] (t + s)[i]).in_pool(p) by {
        if i < t.len() {
            assert((s + t)[s.len() + i] == (t + s)[i]);
        } else {
            assert((s + t)[i - t.len()] == (t + s)[i]);
        }
    }
    assert forall|h: HandlePtr| #[trigger] uses(t + s, h) > 0 implies uses(t + s, h) <= p.at(
        h,
    ).refs by {
        lemma_uses_concat(s, t, h);
        lemma_uses_concat(t, s, h);
        assert(uses(s + t, h) > 0);
    }
}

/// Consuming one list leaves another one in the pool, as it reads.
pub proof fn lemma_consume_beside(p: PoolState, a: Seq<BufView>, b: Seq<BufView>, amt: nat)
    requires
        p.wf(),
        covers(p, a + b),
    ensures
        after_consume(p, b, amt).wf(),
        covers(after_consume(p, b, amt), a + consumed(b, amt)),
        gathered(a, after_consume(p, b, amt)) == gathered(a, p),
    decreases b.len(),
{
    if b.len() == 0 {
    } else if amt >= b[0].len {
        let s = a + b;
        let n = a.len() as int;
        let q = p.released(b[0].inner);
        assert(s[n] == b[0]);
        assert(s.remove(n) =~= a + b.drop_first());
        lemma_release_one(p, s, n);
        assert forall|i: int| 0 <= i < a.len() implies p.at((#[trigger] a[i]).inner).bytes == q.at(
            a[i].inner,
        ).bytes by {
            assert(s.remove(n)[i] == a[i]);
        }
        lemma_gathered_same(a, p, q);
        lemma_consume_beside(q, a, b.drop_first(), (amt - b[0].len) as nat);
    } else {
        let c = consumed(b, amt);
        assert(c.drop_first() =~= b.drop_first());
        assert forall|i: int| 0 <= i < (a + c).len() implies (#[trigger] (a + c)[i]).in_pool(p) by {
            assert((a + b)[i].in_pool(p));
        }
        assert forall|h: HandlePtr| #[trigger] uses(a + c, h) > 0 implies uses(a + c, h) <= p.at(
            h,
        ).refs by {
            lemma_uses_concat(a, b, h);
            lemma_uses_concat(a, c, h);
            assert(uses(c, h) == uses(b, h));
            assert(uses(a + b, h) > 0);
        }
    }
}

/// Giving one list up leaves another one in the pool, as it reads.
pub proof fn lemma_release_beside(p: PoolState, a: Seq<BufView>, b: Seq<BufView>)
    requires
        p.wf(),
        covers(p, a + b),
    ensures
        released_all(p, b).wf(),
        covers(released_all(p, b), a),
        gathered(a, released_all(p, b)) == gathered(a, p),
    decreases b.len(),
{
    if b.len() == 0 {
        assert(a + b =~= a);
    } else {
        let s = a + b;
        let n = a.len() as int;
        let q = p.released(b[0].inner);
        assert(s[n] == b[0]);
        assert(s.remove(n) =~= a + b.drop_first());
        lemma_release_one(p, s, n);
        assert forall|i: int| 0 <= i < a.len() implies p.at((#[trigger] a[i]).inner).bytes == q.at(
            a[i].inner,
        ).bytes by {
            assert(s.remove(n)[i] == a[i]);
        }
        lemma_gathered_same(a, p, q);
        lemma_release_beside(q, a, b.drop_first());
    }
}

/// One more reference for each buffer: every backing buffer keeps its bytes and gets as many
/// references as the list has to it.
pub proof fn lemma_retained_all(p: PoolState, s: Seq<BufView>)
    requires
        p.wf(),
        forall|i: int| 0 <= i < s.len() ==> (#[trigger] s[i]).in_pool(p),
    ensures
        retained_all(p, s).wf(),
        forall|x: HandlePtr| #[trigger] retained_all(p, s).valid(x) == p.valid(x),
        forall|x: HandlePtr|
            p.valid(x) ==> #[trigger] retained_all(p, s).at(x) == (BufState {
                refs: p.at(x).refs + uses(s, x),
                ..p.at(x)
            }),
    decreases s.len(),
{
    if s.len() > 0 {
        let h = s[0].inner;
        let t = s.drop_first();
        let q = p.retained(h);
        assert(s[0].in_pool(p));
        let b = BufState { refs: p.at(h).refs + 1, ..p.at(h) };
        lemma_pool_with(p, h, b);
        assert forall|i: int| 0 <= i < t.len() implies (#[trigger] t[i]).in_pool(q) by {
            assert(t[i] == s[i + 1]);
            assert(s[i + 1].in_pool(p));
            assert(p.with(h, b).valid(t[i].inner) == p.valid(t[i].inner));
            assert(p.with(h, b).at(t[i].inner).bytes == p.at(t[i].inner).bytes);
        }
        lemma_retained_all(q, t);
        assert forall|x: HandlePtr| #[trigger] retained_all(p, s).valid(x) == p.valid(x) by {
            assert(retained_all(q, t).valid(x) == q.valid(x));
            assert(p.with(h, b).valid(x) == p.valid(x));
        }
        assert forall|x: HandlePtr| p.valid(x) implies #[trigger] retained_all(p, s).at(x) == (
        BufState { refs: p.at(x).refs + uses(s, x), ..p.at(x) }) by {
            assert(p.with(h, b).valid(x) == p.valid(x));
            assert(p.with(h, b).at(x) == if x == h {
                b
            } else {
                p.at(x)
            });
            assert(retained_all(q, t).at(x) == (BufState {
                refs: q.at(x).refs + uses(t, x),
                ..q.at(x)
            }));
        }
    }
}

/// A list and its clone are both in the pool, each buffer with a reference of its own, and read
/// as the list did.
pub proof fn law_clone_is_covered(p: PoolState, s: Seq<BufView>)
    requires
        p.wf(),
        covers(p, s),
    ensures
        covers(retained_all(p, s), s + s),
        gathered(s, retained_all(p, s)) == gathered(s, p),
{
    let q = retained_all(p, s);
    lemma_retained_all(p, s);
    assert forall|i: int| 0 <= i < (s + s).len() implies (#[trigger] (s + s)[i]).in_pool(q) by {
        let j = if i < s.len() {
            i
        } else {
            i - s.len()
        };
        assert((s + s)[i] == s[j]);
        assert(s[j].in_pool(p));
        assert(q.valid(s[j].inner) == p.valid(s[j].inner));
        assert(q.at(s[j].inner).bytes == p.at(s[j].inner).bytes);
    }
    assert forall|h: HandlePtr| #[trigger] uses(s + s, h) > 0 implies uses(s + s, h) <= q.at(
        h,
    ).refs by {
        lemma_uses_concat(s, s, h);
        let i = lemma_used(s, h);
        assert(s[i].in_pool(p));
        assert(uses(s, h) <= p.at(h).refs);
        assert(q.at(h).refs == p.at(h).refs + uses(s, h));
    }
    assert forall|i: int| 0 <= i < s.len() implies p.at((#[trigger] s[i]).inner).bytes == q.at(
        s[i].inner,
    ).bytes by {
        assert(s[i].in_pool(p));
        assert(q.at(s[i].inner) == q.at(s[i].inner));
    }
    lemma_gathered_same(s, p, q);
}

impl IouBufVec {
    /// A list of other references to the same buffers.
    pub fn clone(&self, pool: &mut BufferPool) -> (v: IouBufVec)
        requires
            old(pool).wf(),
            covers(old(pool)@, self@.bufs),
            forall|h: HandlePtr| #[trigger]
                uses(self@.bufs, h) > 0 ==> old(pool)@.at(h).refs + uses(self@.bufs, h)
                    <= isize::MAX + 1,
        ensures
            final(pool).wf(),
            final(pool)@ == retained_all(old(pool)@, self@.bufs),
            v@ == self@,
    {
        let mut v = IouBufVec::default();
        let ghost s = self@.bufs;
        let bufs: &[IouBuf] = bufs_of(&self.bufs);
        let count: usize = bufs.len();
        let mut i: usize = 0;
        proof {
            assert(s.skip(0) =~= s);
            assert(s.take(0) =~= Seq::empty());
        }
        while i < count
            invariant
                i <= count,
                count == bufs@.len(),
                bufs@ == listed(self.bufs),
                s == self@.bufs,
                pool.wf(),
                v@.bufs == s.take(i as int),
                v@.io_vecs == s.take(i as int),
                retained_all(pool@, s.skip(i as int)) == retained_all(old(pool)@, s),
                forall|j: int| 0 <= j < s.len() ==> (#[trigger] s[j]).in_pool(pool@),
                forall|h: HandlePtr| #[trigger]
                    uses(s.skip(i as int), h) > 0 ==> pool@.at(h).refs + uses(s.skip(i as int), h)
                        <= isize::MAX + 1,
            decreases count - i,
        {
            let ghost rest = s.skip(i as int);
            let ghost h = s[i as int].inner;
            let ghost p = pool@;
            let ghost b = BufState { refs: p.at(h).refs + 1, ..p.at(h) };
            proof {
                assert(rest.drop_first() =~= s.skip(i + 1));
                assert(rest[0] == s[i as int]);
                assert(s[i as int] == bufs@[i as int]@);
                assert(s[i as int].in_pool(p));
                lemma_uses_member(rest, 0);
                assert(uses(rest, h) > 0);
                lemma_pool_with(p, h, b);
            }
            let buf = bufs[i].clone(pool);
            v.push(buf);
            proof {
                assert(s.take(i + 1) =~= s.take(i as int).push(s[i as int]));
                assert forall|j: int| 0 <= j < s.len() implies (#[trigger] s[j]).in_pool(pool@) by {
                    assert(s[j].in_pool(p));
                    assert(p.with(h, b).valid(s[j].inner) == p.valid(s[j].inner));
                    assert(p.with(h, b).at(s[j].inner).bytes == p.at(s[j].inner).bytes);
                }
                assert forall|x: HandlePtr| #[trigger]
                    uses(s.skip(i + 1), x) > 0 implies pool@.at(x).refs + uses(s.skip(i + 1), x)
                    <= isize::MAX + 1 by {
                    assert(uses(rest, x) > 0);
                    let k = lemma_used(s.skip(i + 1), x);
                    assert(s.skip(i + 1)[k] == s[i + 1 + k]);
                    assert(s[i + 1 + k].in_pool(p));
                    assert(p.with(h, b).at(x).refs == if x == h {
                        b.refs
                    } else {
                        p.at(x).refs
                    });
                }
            }
            i = i + 1;
        }
        proof {
            assert(s.take(count as int) =~= s);
            assert(s.skip(count as int) =~= Seq::empty());
        }
        IouBufVec { bufs: v.bufs, io_vecs: copied(&self.io_vecs) }
    }

    /// Gives all the buffers up, the first one first.
    pub fn release(self, pool: &mut BufferPool)
        requires
            old(pool).wf(),
            covers(old(pool)@, self@.bufs),
        ensures
            final(pool).wf(),
            final(pool)@ == released_all(old(pool)@, self@.bufs),
    {
        let mut list = self;
        while bufs_of(&list.bufs).len() > 0
            invariant
                pool.wf(),
                covers(pool@, list@.bufs),
                released_all(pool@, list@.bufs) == released_all(old(pool)@, self@.bufs),
            decreases listed(list.bufs).len(),
        {
            let ghost before = list@.bufs;
            proof {
                assert(before[0] == listed(list.bufs)[0]@);
                assert(before[0].in_pool(pool@));
                lemma_released_first(pool@, before);
            }
            let buf = remove_buf(&mut list.bufs, 0);
            proof {
                assert(list@.bufs =~= before.drop_first());
            }
            buf.release(pool);
        }
    }
}

/// The places of the buffers of a list.
fn places_of(list: &BufList) -> (r: IoVecList)
    ensures
        recorded(r).map_values(|v: IoVec| v@) == listed(*list).map_values(|b: IouBuf| b@),
{
    let bufs: &[IouBuf] = bufs_of(list);
    let count: usize = bufs.len();
    let mut r: IoVecList = io_vec_list();
    let mut i: usize = 0;
    while i < count
        invariant
            i <= count,
            count == bufs@.len(),
            recorded(r).len() == i,
            forall|k: int| 0 <= k < i ==> (#[trigger] recorded(r)[k])@ == bufs@[k]@,
        decreases count - i,
    {
        push_io_vec(&mut r, bufs[i].place());
        i = i + 1;
    }
    proof {
        assert(recorded(r).map_values(|v: IoVec| v@) =~= bufs@.map_values(|b: IouBuf| b@));
    }
    r
}

/// A list of the same places.
fn copied(list: &IoVecList) -> (r: IoVecList)
    ensures
        recorded(r) == recorded(*list),
{
    let places: &[IoVec] = io_vecs_of(list);
    let count: usize = places.len();
    let mut r: IoVecList = io_vec_list();
    let mut i: usize = 0;
    while i < count
        invariant
            i <= count,
            count == places@.len(),
            recorded(r) == places@.take(i as int),
        decreases count - i,
    {
        push_io_vec(&mut r, places[i]);
        proof {
            assert(places@.take(i + 1) =~= places@.take(i as int).push(places@[i as int]));
        }
        i = i + 1;
    }
    proof {
        assert(places@.take(count as int) =~= places@);
    }
    r
}

} // verus!
