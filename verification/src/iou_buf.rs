//! `IouBuf` is a reference counted buffer that supports sub-slicing, to make it convenient to
//! reference serialized structs contained within the buffer.
//!
//! The bytes and the reference counts live in a [`BufferPool`], a free list and recycler of
//! backing buffers of multiple sizes. An `IouBuf` names a backing buffer of a pool and a part of
//! it, and stands for one of the references that the pool counts. Every operation that reads,
//! writes or counts takes the pool.
use vstd::prelude::*;
use vstd::utf8::{decode_utf8, valid_utf8};

use crate::class::{
    class_of, law_class_is_smallest_that_fits, lemma_class_in_range, lemma_class_sizes,
    lemma_rounded_class, rounded, LARGEST_BUFFER_SIZE,
};
use crate::effects::{
    law_edit_byte_by_byte, law_granted_slab_serves, law_refused_slab_changes_nothing,
    law_waiting_buffer_is_handed_out,
};
use crate::error::{decimal, AllocError, IoError};
use crate::foreign::{address_of, bytes_into_vec, held_bytes, vec_capacity};
use crate::iou_buf_pool::{handed_out, refusal, BufferPool};
use crate::iou_buf_vec::IoVec;
use crate::model::{
    filled, lemma_hand_out, lemma_pool_released, lemma_pool_with_owned, lemma_with_twice, replaced,
    zeros, HandlePtr, PoolState,
};
use crate::range::SliceRange;
use crate::slab::{subslice_mut, write_bytes, write_value};
use crate::view::{
    law_edit_is_local, law_retain_is_local, law_root_undoes_slices, law_slice_is_a_part,
    lemma_replaced, BufView,
};

verus! {

/// A reference counted buffer: a reference to a backing buffer of a pool, narrowed to a part.
pub struct IouBuf {
    inner: HandlePtr,
    start: usize,
    len: usize,
}

impl IouBuf {
    /// The part ends at a place that a `usize` can name.
    #[verifier::type_invariant]
    spec fn ends_in_memory(&self) -> bool {
        self.start + self.len <= usize::MAX
    }
}

impl View for IouBuf {
    type V = BufView;

    closed spec fn view(&self) -> BufView {
        BufView { inner: self.inner, start: self.start as nat, len: self.len as nat }
    }
}

impl IouBuf {
    /// Where a buffer begins and how long it is are `usize`s.
    pub proof fn lemma_bounds(&self)
        ensures
            self@.start <= usize::MAX,
            self@.len <= usize::MAX,
    {
    }
}

/// What getting a buffer for `size` bytes out of a slab does and gives, when `head` is then
/// written over its first bytes, and the system grants or does not grant the memory for another
/// slab where one is needed.
pub open spec fn obtained(
    before: PoolState,
    after: PoolState,
    size: nat,
    granted: bool,
    head: Seq<u8>,
    r: Result<IouBuf, AllocError>,
) -> bool {
    let l = class_of(size) as int;
    match r {
        Ok(buf) => {
            let h = before.hand_out(l, granted);
            &&& before.can_hand_out(l, granted)
            &&& buf@ == (BufView { inner: h, start: 0, len: size })
            &&& after == (BufView { inner: h, start: 0, len: head.len() }).edited(
                before.after_hand_out(l, granted),
                head,
            )
        },
        Err(e) => {
            &&& !before.can_hand_out(l, granted)
            &&& refusal(granted, e)
            &&& after == before.after_hand_out(l, granted)
        },
    }
}

/// A buffer that was obtained is new, and begins with what was written.
proof fn lemma_obtained(
    before: PoolState,
    after: PoolState,
    size: nat,
    granted: bool,
    head: Seq<u8>,
    r: Result<IouBuf, AllocError>,
)
    requires
        before.wf(),
        after.lists[class_of(size) as int].slabs.len() <= usize::MAX,
        size <= LARGEST_BUFFER_SIZE,
        head.len() <= rounded(size),
        obtained(before, after, size, granted, head, r),
    ensures
        after.wf(),
        r matches Ok(buf) ==> {
            &&& buf@.pooled_in(before, after, size)
            &&& after.at(buf@.inner).bytes.subrange(0, head.len() as int) == head
            &&& head.len() == size ==> buf@.content(after) == head
        },
{
    let l = class_of(size) as int;
    lemma_class_in_range(size);
    law_class_is_smallest_that_fits(size);
    let q = before.after_hand_out(l, granted);
    if let Ok(buf) = r {
        let h = before.hand_out(l, granted);
        let b = BufView { inner: h, start: 0, len: head.len() };
        assert(after.lists[l].slabs.len() == q.lists[l].slabs.len());
        lemma_hand_out(before, l, granted);
        law_edit_is_local(q, b, head);
        assert forall|x: HandlePtr| x != h && before.valid(x) implies #[trigger] after.valid(x)
            && after.at(x) == before.at(x) by {
            assert(q.valid(x));
        }
        assert(b.content(after) == head);
    } else {
        lemma_hand_out(before, l, granted);
    }
}

/// What making a buffer without bytes does to a pool and gives.
pub open spec fn made_empty(before: PoolState, after: PoolState, buf: BufView) -> bool {
    &&& buf == (BufView { inner: before.next_owned(), start: 0, len: 0 })
    &&& after == before.with_owned(Seq::empty())
}

/// What allocating `size` bytes does to a pool and gives, when `head` is written over the first
/// bytes: nothing is taken out of a slab for no bytes at all.
pub open spec fn allocated(
    before: PoolState,
    after: PoolState,
    size: nat,
    granted: bool,
    head: Seq<u8>,
    r: Result<IouBuf, AllocError>,
) -> bool {
    if size == 0 {
        r matches Ok(buf) && made_empty(before, after, buf@)
    } else {
        obtained(before, after, size, granted, head, r)
    }
}

/// What making a buffer gives, by the inputs. No bytes at all come out of no slab. Otherwise the
/// buffer is the one that waits longest in the class of its size, or else the first of a new slab.
/// It begins with what was written, and its other bytes are as they were left, or zero in a new
/// slab; it is held once, nobody held it before, and every other buffer is as it was. It fails only
/// where none waits: with the memory refused and nothing changed, or with slabs that have no
/// buffers.
pub proof fn law_allocation(
    before: PoolState,
    after: PoolState,
    size: nat,
    granted: bool,
    head: Seq<u8>,
    r: Result<IouBuf, AllocError>,
)
    requires
        before.wf(),
        after.wf(),
        size <= 131072,
        head.len() <= rounded(size),
        allocated(before, after, size, granted, head, r),
    ensures
        size == 0 ==> r is Ok,
        before.lists[class_of(size) as int].free.len() > 0 ==> r is Ok,
        r matches Ok(buf) ==> {
            let l = class_of(size) as int;
            let waiting = before.lists[l].free;
            let h = buf@.inner;
            &&& buf@.start == 0
            &&& buf@.len == size
            &&& !before.held(h)
            &&& after.valid(h)
            &&& after.at(h).refs == 1
            &&& forall|x: HandlePtr|
                x != h && before.valid(x) ==> #[trigger] after.valid(x) && after.at(x) == before.at(
                    x,
                )
            &&& size == 0 ==> h is Owned && after.at(h).bytes.len() == 0
            &&& size > 0 ==> {
                &&& h matches HandlePtr::Pooled { list, slab, index } && list == l && if waiting.len()
                    > 0 {
                    slab == waiting[0].0 && index == waiting[0].1
                } else {
                    slab == before.lists[l].slabs.len() && index == 0
                }
                &&& after.at(h).bytes.len() == rounded(size)
                &&& forall|i: int| 0 <= i < head.len() ==> after.at(h).bytes[i] == #[trigger] head[i]
                &&& forall|i: int|
                    head.len() <= i < rounded(size) ==> #[trigger] after.at(h).bytes[i]
                        == if waiting.len() > 0 {
                        before.at(h).bytes[i]
                    } else {
                        0
                    }
            }
        },
        r matches Err(e) ==> {
            let l = class_of(size) as int;
            &&& size > 0
            &&& before.lists[l].free.len() == 0
            &&& e is AllocFailed && after == before || e is OutOfBuffers
                && before.lists[l].slabs[0].len() == 0
        },
{
    let l = class_of(size) as int;
    lemma_class_in_range(size);
    law_class_is_smallest_that_fits(size);
    assert(before.lists[l].wf());
    if size == 0 {
        lemma_pool_with_owned_room(before, after);
        lemma_pool_with_owned(before, Seq::empty());
    } else {
        lemma_obtained_bounds(before, after, size, granted, head, r);
        lemma_obtained(before, after, size, granted, head, r);
        let k = before.lists[l];
        let q = before.after_hand_out(l, granted);
        if k.free.len() > 0 {
            assert(k.has(k.free[0].0 as int, k.free[0].1 as int));
            law_waiting_buffer_is_handed_out(before, l, granted);
        } else if granted {
            assert(q.lists[l].slabs.len() <= usize::MAX);
            lemma_rounded_class(l as nat);
            law_granted_slab_serves(before, l);
        } else {
            law_refused_slab_changes_nothing(before, l);
        }
        if let Ok(buf) = r {
            let h = buf@.inner;
            let b = BufView { inner: h, start: 0, len: head.len() };
            lemma_hand_out(before, l, granted);
            law_edit_byte_by_byte(q, b, head);
            lemma_class_sizes();
            lemma_rounded_class(l as nat);
            assert forall|i: int| 0 <= i < head.len() implies after.at(h).bytes[i]
                == #[trigger] head[i] by {
                assert(after.at(h).bytes[b.start + i] == head[i]);
            }
            if k.free.len() == 0 {
                let n = k.slabs.len() as int;
                assert forall|i: int| head.len() <= i < rounded(size) implies #[trigger] after.at(
                    h,
                ).bytes[i] == 0 by {
                    assert(after.at(h).bytes[i] == q.at(h).bytes[i]);
                    assert(q.lists[l].slabs[n][0].bytes[i] == 0);
                }
            }
        }
    }
}

/// A buffer that was obtained leaves its size class with as many slabs as a `usize` can count.
proof fn lemma_obtained_bounds(
    before: PoolState,
    after: PoolState,
    size: nat,
    granted: bool,
    head: Seq<u8>,
    r: Result<IouBuf, AllocError>,
)
    requires
        before.wf(),
        after.wf(),
        size <= LARGEST_BUFFER_SIZE,
        obtained(before, after, size, granted, head, r),
    ensures
        after.lists[class_of(size) as int].slabs.len() <= usize::MAX,
        before.after_hand_out(class_of(size) as int, granted).lists[class_of(size) as int].slabs.len()
            <= usize::MAX,
{
    let l = class_of(size) as int;
    lemma_class_in_range(size);
    assert(after.lists[l].wf());
    assert(after.lists[l].slabs.len() == before.after_hand_out(l, granted).lists[l].slabs.len());
}

/// A pool that took in a buffer from outside had room to count it.
proof fn lemma_pool_with_owned_room(before: PoolState, after: PoolState)
    requires
        after.wf(),
        after == before.with_owned(Seq::empty()),
    ensures
        before.owned.len() < usize::MAX,
{
    assert(after.owned.len() == before.owned.len() + 1);
}

/// Writing nothing changes nothing.
proof fn lemma_edit_nothing(p: PoolState, h: HandlePtr)
    requires
        p.valid(h),
    ensures
        (BufView { inner: h, start: 0, len: 0 }).edited(p, Seq::empty()) == p,
{
    assert(replaced(p.at(h).bytes, 0, 0, Seq::empty()) =~= p.at(h).bytes);
    lemma_with_twice(p, h, p.at(h), p.at(h));
}

/// Writing over a buffer that was just obtained.
proof fn lemma_obtained_then_written(
    before: PoolState,
    mid: PoolState,
    after: PoolState,
    size: nat,
    granted: bool,
    head: Seq<u8>,
    buf: IouBuf,
)
    requires
        before.wf(),
        mid.wf(),
        size <= LARGEST_BUFFER_SIZE,
        head.len() <= rounded(size),
        obtained(before, mid, size, granted, Seq::empty(), Ok(buf)),
        after == (BufView { inner: buf@.inner, start: 0, len: head.len() }).edited(mid, head),
    ensures
        obtained(before, after, size, granted, head, Ok(buf)),
        buf@.pooled_in(before, after, size),
        after.at(buf@.inner).bytes.subrange(0, head.len() as int) == head,
        head.len() == size ==> buf@.content(after) == head,
{
    let l = class_of(size) as int;
    let h = buf@.inner;
    lemma_class_in_range(size);
    let q = before.after_hand_out(l, granted);
    assert(mid.lists[l].wf());
    assert(mid.lists[l].slabs.len() == q.lists[l].slabs.len());
    lemma_hand_out(before, l, granted);
    lemma_edit_nothing(q, h);
    assert(after.lists[l].slabs.len() == mid.lists[l].slabs.len());
    lemma_obtained(before, after, size, granted, head, Ok(buf));
}

impl IouBuf {
    /// The part of a backing buffer that begins at its first byte and has `len` bytes.
    fn from_handle(inner: HandlePtr, len: usize) -> (buf: IouBuf)
        ensures
            buf@ == (BufView { inner, start: 0, len: len as nat }),
    {
        IouBuf { inner, start: 0, len }
    }

    /// Takes a buffer for `size` bytes out of a slab.
    fn take(pool: &mut BufferPool, size: usize) -> (r: Result<IouBuf, AllocError>)
        requires
            old(pool).wf(),
            size <= LARGEST_BUFFER_SIZE,
        ensures
            final(pool).wf(),
            exists|granted: bool| #[trigger]
                obtained(old(pool)@, final(pool)@, size as nat, granted, Seq::empty(), r),
            r matches Ok(buf) ==> buf@.pooled_in(old(pool)@, final(pool)@, size as nat),
    {
        let ghost before = pool@;
        let ghost l = class_of(size as nat) as int;
        let handle = pool.checkout(size);
        let ghost granted = choose|granted: bool| #[trigger]
            handed_out(before, pool@, l, granted, handle);
        proof {
            lemma_class_in_range(size as nat);
            assert(handed_out(before, pool@, l, granted, handle));
            assert(pool@.lists[l].wf());
            lemma_hand_out(before, l, granted);
        }
        match handle {
            Ok(h) => {
                let buf = Self::from_handle(h, size);
                proof {
                    lemma_edit_nothing(pool@, h);
                    let r: Result<IouBuf, AllocError> = Ok(buf);
                    assert(obtained(before, pool@, size as nat, granted, Seq::empty(), r));
                    lemma_obtained(before, pool@, size as nat, granted, Seq::empty(), r);
                }
                Ok(buf)
            },
            Err(e) => {
                proof {
                    let r: Result<IouBuf, AllocError> = Err(e);
                    assert(obtained(before, pool@, size as nat, granted, Seq::empty(), r));
                }
                Err(e)
            },
        }
    }
}

impl IouBuf {
    /// Writes `src` over the bytes of this buffer.
    fn overwrite(&self, pool: &mut BufferPool, src: &[u8])
        requires
            old(pool).wf(),
            self@.in_pool(old(pool)@),
            src@.len() == self@.len,
        ensures
            final(pool).wf(),
            final(pool)@ == self@.edited(old(pool)@, src@),
    {
        let bytes: &mut [u8] = pool.bytes_mut(self.inner);
        let part: &mut [u8] = subslice_mut(bytes, self.start, self.len);
        write_bytes(part, src);
    }

    /// Writes `value` over the bytes of this buffer.
    fn overwrite_value(&self, pool: &mut BufferPool, value: u8)
        requires
            old(pool).wf(),
            self@.in_pool(old(pool)@),
        ensures
            final(pool).wf(),
            final(pool)@ == self@.edited(old(pool)@, filled(value, self@.len)),
    {
        let bytes: &mut [u8] = pool.bytes_mut(self.inner);
        let part: &mut [u8] = subslice_mut(bytes, self.start, self.len);
        write_value(part, value);
    }

    /// Copies the contents of `src` into a fresh buffer and sizes it to them.
    pub fn from_slice(pool: &mut BufferPool, src: &[u8]) -> (r: Result<IouBuf, AllocError>)
        requires
            old(pool).wf(),
            src@.len() <= LARGEST_BUFFER_SIZE,
        ensures
            final(pool).wf(),
            exists|granted: bool| #[trigger]
                obtained(old(pool)@, final(pool)@, src@.len(), granted, src@, r),
            r matches Ok(buf) ==> {
                &&& buf@.pooled_in(old(pool)@, final(pool)@, src@.len())
                &&& buf@.content(final(pool)@) == src@
                &&& buf@.len == src@.len()
                &&& forall|i: int|
                    0 <= i < src@.len() ==> final(pool)@.at(buf@.inner).bytes[i] == #[trigger] src@[i]
            },
            old(pool)@.lists[class_of(src@.len()) as int].free.len() > 0 ==> r is Ok,
    {
        let ghost before = pool@;
        let len: usize = src.len();
        let r = Self::take(pool, len);
        let ghost mid = pool@;
        let ghost granted = choose|granted: bool| #[trigger]
            obtained(before, mid, len as nat, granted, Seq::empty(), r);
        proof {
            assert(obtained(before, mid, len as nat, granted, Seq::empty(), r));
        }
        match r {
            Ok(buf) => {
                buf.overwrite(pool, src);
                proof {
                    lemma_obtained_then_written(before, mid, pool@, len as nat, granted, src@, buf);
                    assert(obtained(before, pool@, len as nat, granted, src@, Ok(buf)));
                }
                Ok(buf)
            },
            Err(e) => {
                proof {
                    assert(obtained(before, pool@, len as nat, granted, src@, Err(e)));
                }
                Err(e)
            },
        }
    }

    /// Makes a buffer that is empty. It takes another allocation to get one that is not.
    pub fn empty(pool: &mut BufferPool) -> (buf: IouBuf)
        requires
            old(pool).wf(),
        ensures
            final(pool).wf(),
            made_empty(old(pool)@, final(pool)@, buf@),
            buf@.new_in(old(pool)@, final(pool)@, 0),
            buf@.capacity(final(pool)@) == 0,
    {
        let ghost before = pool@;
        let h = pool.empty_handle();
        proof {
            lemma_pool_with_owned(before, Seq::empty());
        }
        Self::from_handle(h, 0)
    }

    /// Makes a buffer of `size` bytes. What they hold at first is left over from before.
    pub fn allocate(pool: &mut BufferPool, size: usize) -> (r: Result<IouBuf, AllocError>)
        requires
            old(pool).wf(),
            size <= LARGEST_BUFFER_SIZE,
        ensures
            final(pool).wf(),
            exists|granted: bool| #[trigger]
                allocated(old(pool)@, final(pool)@, size as nat, granted, Seq::empty(), r),
            r matches Ok(buf) ==> {
                &&& buf@.new_in(old(pool)@, final(pool)@, size as nat)
                &&& size > 0 ==> buf@.pooled_in(old(pool)@, final(pool)@, size as nat)
                &&& buf@.start == 0
                &&& buf@.len == size
                &&& final(pool)@.at(buf@.inner).refs == 1
                &&& size > 0 ==> final(pool)@.at(buf@.inner).bytes.len() == rounded(size as nat)
            },
            size == 0 || old(pool)@.lists[class_of(size as nat) as int].free.len() > 0 ==> r is Ok,
    {
        let ghost before = pool@;
        if size == 0 {
            let buf = Self::empty(pool);
            proof {
                assert(allocated(before, pool@, 0, true, Seq::empty(), Ok(buf)));
            }
            Ok(buf)
        } else {
            let r = Self::take(pool, size);
            proof {
                let granted = choose|granted: bool| #[trigger]
                    obtained(before, pool@, size as nat, granted, Seq::empty(), r);
                assert(allocated(before, pool@, size as nat, granted, Seq::empty(), r));
            }
            r
        }
    }

    /// Makes a buffer of `size` bytes whose backing buffer is zero.
    pub fn alloc_zeroed(pool: &mut BufferPool, size: usize) -> (r: Result<IouBuf, AllocError>)
        requires
            old(pool).wf(),
            size <= LARGEST_BUFFER_SIZE,
        ensures
            final(pool).wf(),
            exists|granted: bool| #[trigger]
                allocated(
                    old(pool)@,
                    final(pool)@,
                    size as nat,
                    granted,
                    zeros(rounded(size as nat)),
                    r,
                ),
            r matches Ok(buf) ==> {
                &&& buf@.new_in(old(pool)@, final(pool)@, size as nat)
                &&& size > 0 ==> buf@.pooled_in(old(pool)@, final(pool)@, size as nat)
                &&& final(pool)@.at(buf@.inner).bytes == zeros(buf@.capacity(final(pool)@))
                &&& buf@.content(final(pool)@) == zeros(size as nat)
                &&& buf@.content(final(pool)@).len() == size
                &&& forall|i: int|
                    0 <= i < final(pool)@.at(buf@.inner).bytes.len() ==> #[trigger] final(pool)@.at(
                        buf@.inner,
                    ).bytes[i] == 0
            },
            size == 0 || old(pool)@.lists[class_of(size as nat) as int].free.len() > 0 ==> r is Ok,
    {
        let ghost before = pool@;
        let ghost head = zeros(rounded(size as nat));
        let r = Self::allocate(pool, size);
        let ghost mid = pool@;
        let ghost granted = choose|granted: bool| #[trigger]
            allocated(before, mid, size as nat, granted, Seq::empty(), r);
        proof {
            assert(allocated(before, mid, size as nat, granted, Seq::empty(), r));
        }
        match r {
            Ok(buf) => {
                if size == 0 {
                    proof {
                        assert(allocated(before, pool@, 0, granted, head, Ok(buf)));
                        assert(pool@.at(buf@.inner).bytes =~= zeros(0));
                        assert(buf@.content(pool@) =~= zeros(0));
                    }
                    return Ok(buf);
                }
                let whole = IouBuf { inner: buf.inner, start: 0, len: buf.capacity(pool) };
                whole.overwrite_value(pool, 0);
                proof {
                    lemma_obtained_then_written(before, mid, pool@, size as nat, granted, head, buf);
                    assert(allocated(before, pool@, size as nat, granted, head, Ok(buf)));
                    assert(pool@.at(buf@.inner).bytes =~= head);
                    assert(buf@.content(pool@) =~= zeros(size as nat));
                }
                Ok(buf)
            },
            Err(e) => {
                proof {
                    assert(allocated(before, pool@, size as nat, granted, head, Err(e)));
                }
                Err(e)
            },
        }
    }

    /// Makes a buffer of `size` bytes that hold `value`.
    pub fn fill(pool: &mut BufferPool, value: u8, size: usize) -> (r: Result<IouBuf, AllocError>)
        requires
            old(pool).wf(),
            size <= LARGEST_BUFFER_SIZE,
        ensures
            final(pool).wf(),
            exists|granted: bool| #[trigger]
                allocated(
                    old(pool)@,
                    final(pool)@,
                    size as nat,
                    granted,
                    filled(value, size as nat),
                    r,
                ),
            r matches Ok(buf) ==> {
                &&& buf@.new_in(old(pool)@, final(pool)@, size as nat)
                &&& size > 0 ==> buf@.pooled_in(old(pool)@, final(pool)@, size as nat)
                &&& buf@.content(final(pool)@) == filled(value, size as nat)
                &&& buf@.content(final(pool)@).len() == size
                &&& forall|i: int|
                    0 <= i < size ==> #[trigger] buf@.content(final(pool)@)[i] == value
            },
            size == 0 || old(pool)@.lists[class_of(size as nat) as int].free.len() > 0 ==> r is Ok,
    {
        let ghost before = pool@;
        let ghost head = filled(value, size as nat);
        let r = Self::allocate(pool, size);
        let ghost mid = pool@;
        let ghost granted = choose|granted: bool| #[trigger]
            allocated(before, mid, size as nat, granted, Seq::empty(), r);
        proof {
            assert(allocated(before, mid, size as nat, granted, Seq::empty(), r));
        }
        match r {
            Ok(buf) => {
                buf.overwrite_value(pool, value);
                proof {
                    if size == 0 {
                        lemma_edit_nothing(mid, buf@.inner);
                        assert(head =~= Seq::empty());
                        assert(buf@.content(pool@) =~= head);
                    } else {
                        lemma_obtained_then_written(
                            before,
                            mid,
                            pool@,
                            size as nat,
                            granted,
                            head,
                            buf,
                        );
                    }
                    assert(allocated(before, pool@, size as nat, granted, head, Ok(buf)));
                }
                Ok(buf)
            },
            Err(e) => {
                proof {
                    assert(allocated(before, pool@, size as nat, granted, head, Err(e)));
                }
                Err(e)
            },
        }
    }

    /// Makes a buffer that holds a copy of `src`.
    pub fn try_from(pool: &mut BufferPool, src: &[u8]) -> (r: Result<IouBuf, AllocError>)
        requires
            old(pool).wf(),
            src@.len() <= LARGEST_BUFFER_SIZE,
        ensures
            final(pool).wf(),
            exists|granted: bool| #[trigger]
                allocated(old(pool)@, final(pool)@, src@.len(), granted, src@, r),
            r matches Ok(buf) ==> {
                &&& buf@.new_in(old(pool)@, final(pool)@, src@.len())
                &&& src@.len() > 0 ==> buf@.pooled_in(old(pool)@, final(pool)@, src@.len())
                &&& buf@.content(final(pool)@) == src@
                &&& buf@.len == src@.len()
                &&& forall|i: int|
                    0 <= i < src@.len() ==> final(pool)@.at(buf@.inner).bytes[i] == #[trigger] src@[i]
            },
            src@.len() == 0 || old(pool)@.lists[class_of(src@.len()) as int].free.len() > 0 ==> r is Ok,
    {
        let ghost before = pool@;
        let len: usize = src.len();
        let r = Self::allocate(pool, len);
        let ghost mid = pool@;
        let ghost granted = choose|granted: bool| #[trigger]
            allocated(before, mid, len as nat, granted, Seq::empty(), r);
        proof {
            assert(allocated(before, mid, len as nat, granted, Seq::empty(), r));
        }
        match r {
            Ok(buf) => {
                buf.overwrite(pool, src);
                proof {
                    if len == 0 {
                        lemma_edit_nothing(mid, buf@.inner);
                        assert(src@ =~= Seq::empty());
                        assert(buf@.content(pool@) =~= src@);
                    } else {
                        lemma_obtained_then_written(
                            before,
                            mid,
                            pool@,
                            len as nat,
                            granted,
                            src@,
                            buf,
                        );
                    }
                    assert(allocated(before, pool@, len as nat, granted, src@, Ok(buf)));
                }
                Ok(buf)
            },
            Err(e) => {
                proof {
                    assert(allocated(before, pool@, len as nat, granted, src@, Err(e)));
                }
                Err(e)
            },
        }
    }

    /// The length of the backing buffer.
    pub fn capacity(&self, pool: &BufferPool) -> (n: usize)
        requires
            pool.wf(),
            self@.in_pool(pool@),
        ensures
            n == self@.capacity(pool@),
            n == pool@.at(self@.inner).bytes.len(),
    {
        pool.bytes(self.inner).len()
    }

    /// The bytes of this buffer.
    pub fn deref<'a>(&self, pool: &'a BufferPool) -> (bytes: &'a [u8])
        requires
            pool.wf(),
            self@.in_pool(pool@),
        ensures
            bytes@ == self@.content(pool@),
            bytes@.len() == self@.len,
            forall|i: int|
                0 <= i < self@.len ==> #[trigger] bytes@[i] == pool@.at(self@.inner).bytes[self@.start
                    + i],
    {
        let bytes: &[u8] = pool.bytes(self.inner);
        proof {
            assert(bytes@.len() == bytes.len());
        }
        vstd::slice::slice_subrange(bytes, self.start, self.start + self.len)
    }

    /// Makes a fresh buffer with a copy of the bytes of this one.
    pub fn deep_clone(&self, pool: &mut BufferPool) -> (r: Result<IouBuf, AllocError>)
        requires
            old(pool).wf(),
            self@.in_pool(old(pool)@),
            self@.len <= LARGEST_BUFFER_SIZE,
        ensures
            final(pool).wf(),
            exists|granted: bool| #[trigger]
                obtained(
                    old(pool)@,
                    final(pool)@,
                    self@.len,
                    granted,
                    self@.content(old(pool)@),
                    r,
                ),
            r matches Ok(buf) ==> {
                &&& buf@.pooled_in(old(pool)@, final(pool)@, self@.len)
                &&& buf@.content(final(pool)@) == self@.content(old(pool)@)
                &&& buf@.inner != self@.inner
                &&& buf@.len == self@.len
                &&& forall|i: int|
                    0 <= i < self@.len ==> #[trigger] final(pool)@.at(buf@.inner).bytes[i] == old(
                        pool,
                    )@.at(self@.inner).bytes[self@.start + i]
            },
            old(pool)@.lists[class_of(self@.len) as int].free.len() > 0 ==> r is Ok,
    {
        let src: Vec<u8> = vstd::slice::slice_to_vec(self.deref(pool));
        let r = Self::from_slice(pool, src.as_slice());
        proof {
            if r is Ok {
                let buf = r->Ok_0;
                assert forall|i: int| 0 <= i < self@.len implies #[trigger] pool@.at(
                    buf@.inner,
                ).bytes[i] == old(pool)@.at(self@.inner).bytes[self@.start + i] by {
                    assert(pool@.at(buf@.inner).bytes[i] == src@[i]);
                }
            }
        }
        r
    }
}

impl IouBuf {
    /// This buffer is empty.
    pub fn is_empty(&self) -> (r: bool)
        ensures
            r <==> self@.len == 0,
    {
        self.len == 0
    }

    /// The length of the part that this buffer is narrowed to, which may be smaller than the
    /// backing buffer.
    pub fn len(&self) -> (n: usize)
        ensures
            n == self@.len,
    {
        self.len
    }

    /// Where in the backing buffer this buffer begins.
    pub fn offset(&self) -> (n: usize)
        ensures
            n == self@.start,
    {
        self.start
    }

    /// The number of references to the backing buffer.
    pub fn refcount(&self, pool: &BufferPool) -> (n: usize)
        requires
            pool.wf(),
            self@.in_pool(pool@),
        ensures
            n == pool@.at(self@.inner).refs,
    {
        pool.refs(self.inner)
    }

    /// This is the only reference to the backing buffer.
    pub fn is_unique(&self, pool: &BufferPool) -> (r: bool)
        requires
            pool.wf(),
            self@.in_pool(pool@),
        ensures
            r <==> self@.unique(pool@),
            r <==> pool@.at(self@.inner).refs == 1,
    {
        let count: usize = self.refcount(pool);
        count == 1
    }

    /// Another reference to the same part.
    pub fn clone(&self, pool: &mut BufferPool) -> (buf: IouBuf)
        requires
            old(pool).wf(),
            self@.in_pool(old(pool)@),
            old(pool)@.at(self@.inner).refs <= isize::MAX,
        ensures
            final(pool).wf(),
            final(pool)@ == old(pool)@.retained(self@.inner),
            buf@ == self@,
            buf@.in_pool(final(pool)@),
            buf@.content(final(pool)@) == self@.content(old(pool)@),
            old(pool)@.kept_in(final(pool)@, self@.inner),
            final(pool)@.at(self@.inner).refs == old(pool)@.at(self@.inner).refs + 1,
            final(pool)@.at(self@.inner).bytes == old(pool)@.at(self@.inner).bytes,
    {
        proof {
            law_retain_is_local(pool@, self@);
        }
        pool.increment(self.inner);
        proof {
            use_type_invariant(self);
        }
        IouBuf { inner: self.inner, start: self.start, len: self.len }
    }

    /// Gives this reference up. The last one gives the backing buffer back, to its slab or to the
    /// allocator.
    pub fn release(self, pool: &mut BufferPool)
        requires
            old(pool).wf(),
            self@.in_pool(old(pool)@),
        ensures
            final(pool).wf(),
            final(pool)@ == old(pool)@.released(self@.inner),
            old(pool)@.kept_in(final(pool)@, self@.inner),
            old(pool)@.at(self@.inner).refs > 1 ==> {
                &&& final(pool)@.at(self@.inner).refs == old(pool)@.at(self@.inner).refs - 1
                &&& final(pool)@.at(self@.inner).bytes == old(pool)@.at(self@.inner).bytes
            },
            old(pool)@.at(self@.inner).refs == 1 ==> !final(pool)@.held(self@.inner),
            old(pool)@.at(self@.inner).refs == 1 && self@.inner is Pooled ==> final(pool)@.is_free(
                self@.inner,
            ),
    {
        proof {
            lemma_pool_released(pool@, self@.inner);
        }
        pool.decrement(self.inner);
    }

    /// Resets this buffer to the whole backing buffer.
    pub fn into_root(self, pool: &BufferPool) -> (buf: IouBuf)
        requires
            pool.wf(),
            self@.in_pool(pool@),
        ensures
            buf@ == self@.rooted(pool@),
            buf@.inner == self@.inner,
            buf@.start == 0,
            buf@.len == pool@.at(self@.inner).bytes.len(),
            buf@.in_pool(pool@),
            buf@.content(pool@) == pool@.at(self@.inner).bytes,
    {
        proof {
            law_root_undoes_slices(pool@, self@, 0, self@.len as int);
        }
        let len: usize = self.capacity(pool);
        Self::from_handle(self.inner, len)
    }

    /// Another reference, to the whole backing buffer.
    pub fn root(&self, pool: &mut BufferPool) -> (buf: IouBuf)
        requires
            old(pool).wf(),
            self@.in_pool(old(pool)@),
            old(pool)@.at(self@.inner).refs <= isize::MAX,
        ensures
            final(pool).wf(),
            final(pool)@ == old(pool)@.retained(self@.inner),
            buf@ == self@.rooted(old(pool)@),
            buf@.inner == self@.inner,
            buf@.start == 0,
            buf@.len == old(pool)@.at(self@.inner).bytes.len(),
            final(pool)@.at(self@.inner).refs == old(pool)@.at(self@.inner).refs + 1,
            buf@.in_pool(final(pool)@),
            buf@.content(final(pool)@) == old(pool)@.at(self@.inner).bytes,
            self@.in_pool(final(pool)@),
            old(pool)@.kept_in(final(pool)@, self@.inner),
    {
        proof {
            law_retain_is_local(pool@, self@);
            law_root_undoes_slices(pool@, self@, 0, self@.len as int);
        }
        let len: usize = self.capacity(pool);
        pool.increment(self.inner);
        Self::from_handle(self.inner, len)
    }

    /// Forces the length. The buffer has to be unique, and the bytes have to lie within the
    /// backing buffer.
    pub fn resize(&mut self, pool: &BufferPool, newlen: usize)
        requires
            pool.wf(),
            old(self)@.in_pool(pool@),
            old(self)@.unique(pool@),
            old(self)@.start + newlen <= old(self)@.capacity(pool@),
        ensures
            final(self)@ == (BufView { len: newlen as nat, ..old(self)@ }),
            final(self)@.in_pool(pool@),
    {
        // The capacity is a `usize`, so the place where the buffer ends is one too.
        let _capacity: usize = self.capacity(pool);
        self.len = newlen;
    }

    /// Narrows this buffer to the part of it that `range` gives. Nothing is copied.
    pub fn into_slice<R: SliceRange>(self, range: R) -> (buf: IouBuf)
        requires
            range.fits(self@.len as int),
        ensures
            buf@ == self@.sliced(range.lo(self@.len as int), range.hi(self@.len as int)),
            forall|p: PoolState| #[trigger] self@.in_pool(p) ==> buf@.in_pool(p),
    {
        let (lo, hi) = range.bounds(self.len);
        proof {
            use_type_invariant(&self);
        }
        IouBuf { inner: self.inner, start: self.start + lo, len: hi - lo }
    }
}

impl IouBuf {
    /// Narrows this buffer to what follows its first `lo` bytes.
    pub(crate) fn narrow_from(&mut self, lo: usize)
        requires
            lo <= old(self)@.len,
        ensures
            final(self)@ == old(self)@.sliced(lo as int, old(self)@.len as int),
    {
        proof {
            use_type_invariant(&*self);
        }
        self.len = self.len - lo;
        self.start = self.start + lo;
    }

    /// Where the bytes of this buffer lie.
    pub(crate) fn place(&self) -> (place: IoVec)
        ensures
            place@ == self@,
    {
        IoVec { inner: self.inner, start: self.start, len: self.len }
    }

    /// Another reference, to the part of this buffer that `range` gives.
    pub fn slice<R: SliceRange>(&self, pool: &mut BufferPool, range: R) -> (buf: IouBuf)
        requires
            old(pool).wf(),
            self@.in_pool(old(pool)@),
            old(pool)@.at(self@.inner).refs <= isize::MAX,
            range.fits(self@.len as int),
        ensures
            final(pool).wf(),
            final(pool)@ == old(pool)@.retained(self@.inner),
            buf@ == self@.sliced(range.lo(self@.len as int), range.hi(self@.len as int)),
            buf@.in_pool(final(pool)@),
            self@.in_pool(final(pool)@),
            self@.content(final(pool)@) == self@.content(old(pool)@),
            old(pool)@.kept_in(final(pool)@, self@.inner),
            buf@.inner == self@.inner,
            final(pool)@.at(self@.inner).refs == old(pool)@.at(self@.inner).refs + 1,
    {
        self.clone(pool).into_slice(range)
    }

    /// Another reference, to the part of this buffer that `closure` picks out of its bytes. Where
    /// the same bytes are there more than once, the address of what was picked tells which of them
    /// are meant.
    pub fn slice_fn<F: FnOnce(&[u8]) -> &[u8]>(&self, pool: &mut BufferPool, closure: F) -> (buf:
        IouBuf)
        requires
            old(pool).wf(),
            self@.in_pool(old(pool)@),
            old(pool)@.at(self@.inner).refs <= isize::MAX,
            forall|bytes: &[u8]|
                bytes@ == self@.content(old(pool)@) ==> #[trigger] call_requires(closure, (bytes,)),
            forall|bytes: &[u8], part: &[u8]|
                bytes@ == self@.content(old(pool)@) && #[trigger] call_ensures(
                    closure,
                    (bytes,),
                    part,
                ) ==> occurs(self@.content(old(pool)@), part@),
        ensures
            final(pool).wf(),
            final(pool)@ == old(pool)@.retained(self@.inner),
            buf@.in_pool(final(pool)@),
            self@.in_pool(final(pool)@),
            exists|bytes: &[u8], part: &[u8], k: int|
                {
                    &&& bytes@ == self@.content(old(pool)@)
                    &&& #[trigger] call_ensures(closure, (bytes,), part)
                    &&& #[trigger] occurs_at(self@.content(old(pool)@), k, part@)
                    &&& buf@ == self@.sliced(k, k + part@.len())
                    &&& buf@.content(final(pool)@) == part@
                },
    {
        let whole: &[u8] = self.deref(pool);
        let part: &[u8] = closure(whole);
        let n: usize = part.len();
        match place_of_part(whole, address_of(whole), part, address_of(part)) {
            Some(k) => {
                proof {
                    law_slice_is_a_part(pool@, self@, k as int, k + n);
                    law_retain_is_local(pool@, self@);
                    assert(occurs_at(self@.content(pool@), k as int, part@));
                }
                self.slice(pool, k..k + n)
            },
            None => vstd::pervasive::unreached(),
        }
    }

    /// Narrows this buffer, whose bytes lie at the address `base`, to the part at the addresses
    /// of `ptr_range`, which are a subset. Nothing is copied.
    pub fn into_slice_from_ptr_range_unchecked(
        self,
        base: usize,
        ptr_range: std::ops::Range<usize>,
    ) -> (buf: IouBuf)
        requires
            self@.placed(base as int, ptr_range) is Some,
        ensures
            self@.placed(base as int, ptr_range) == Some(buf@),
            buf@.inner == self@.inner,
            buf@.start == self@.start + (ptr_range.start - base),
            buf@.len == ptr_range.end - ptr_range.start,
            forall|p: PoolState| #[trigger] self@.in_pool(p) ==> buf@.in_pool(p),
    {
        let start: usize = ptr_range.start - base;
        let end: usize = ptr_range.end - base;
        self.into_slice(start..end)
    }

    /// Narrows this buffer, whose bytes lie at the address `base`, to the part at the addresses
    /// of `ptr_range`. Where these are not a subset, the reference is given up.
    pub fn into_slice_at(
        self,
        pool: &mut BufferPool,
        base: usize,
        ptr_range: std::ops::Range<usize>,
    ) -> (r: Option<IouBuf>)
        requires
            old(pool).wf(),
            self@.in_pool(old(pool)@),
        ensures
            final(pool).wf(),
            match r {
                Some(buf) => {
                    &&& self@.placed(base as int, ptr_range) == Some(buf@)
                    &&& base <= ptr_range.start <= ptr_range.end <= base + self@.len
                    &&& buf@.inner == self@.inner
                    &&& buf@.start == self@.start + (ptr_range.start - base)
                    &&& buf@.len == ptr_range.end - ptr_range.start
                    &&& final(pool)@ == old(pool)@
                },
                None => {
                    &&& self@.placed(base as int, ptr_range) is None
                    &&& !(base <= ptr_range.start <= ptr_range.end <= base + self@.len)
                    &&& final(pool)@ == old(pool)@.released(self@.inner)
                },
            },
    {
        if base <= ptr_range.start && ptr_range.start <= ptr_range.end && ptr_range.end - base
            <= self.len {
            Some(self.into_slice_from_ptr_range_unchecked(base, ptr_range))
        } else {
            self.release(pool);
            None
        }
    }

    /// Narrows this buffer to the part of it at the addresses of `ptr_range`. Nothing is copied.
    /// Where these are not a subset of the addresses of this buffer, the reference is given up.
    /// At which address the buffer lies is the machine's choice.
    pub fn into_slice_from_ptr_range(
        self,
        pool: &mut BufferPool,
        ptr_range: std::ops::Range<usize>,
    ) -> (r: Option<IouBuf>)
        requires
            old(pool).wf(),
            self@.in_pool(old(pool)@),
        ensures
            final(pool).wf(),
            exists|base: usize|
                base + self@.len <= usize::MAX && #[trigger] self@.placed(base as int, ptr_range)
                    == match r {
                    Some(buf) => Some(buf@),
                    None => None,
                },
            final(pool)@ == if r is Some {
                old(pool)@
            } else {
                old(pool)@.released(self@.inner)
            },
    {
        let base: usize = address_of(self.deref(pool));
        self.into_slice_at(pool, base, ptr_range)
    }

    /// The bytes of this buffer, for writing, when this is the only reference to the backing
    /// buffer.
    pub fn get_mut<'a>(&mut self, pool: &'a mut BufferPool) -> (r: Option<&'a mut [u8]>)
        requires
            old(pool).wf(),
            old(self)@.in_pool(old(pool)@),
        ensures
            final(self)@ == old(self)@,
            final(pool).wf(),
            final(self)@.in_pool(final(pool)@),
            match r {
                Some(bytes) => {
                    &&& old(self)@.unique(old(pool)@)
                    &&& bytes@ == old(self)@.content(old(pool)@)
                    &&& final(bytes)@.len() == bytes@.len()
                    &&& final(pool)@ == old(self)@.edited(old(pool)@, final(bytes)@)
                    &&& final(self)@.content(final(pool)@) == final(bytes)@
                    &&& forall|i: int|
                        0 <= i < bytes@.len() ==> final(pool)@.at(old(self)@.inner).bytes[old(
                            self,
                        )@.start + i] == #[trigger] final(bytes)@[i]
                    &&& forall|i: int|
                        0 <= i < old(self)@.start || old(self)@.start + old(self)@.len <= i < old(
                            pool,
                        )@.at(old(self)@.inner).bytes.len() ==> #[trigger] final(pool)@.at(
                            old(self)@.inner,
                        ).bytes[i] == old(pool)@.at(old(self)@.inner).bytes[i]
                },
                None => {
                    &&& !old(self)@.unique(old(pool)@)
                    &&& final(pool)@ == old(pool)@
                },
            },
    {
        if self.is_unique(pool) {
            Some(self.get_mut_unchecked(pool))
        } else {
            None
        }
    }

    /// The bytes of this buffer, for writing. There has to be no other reference to the backing
    /// buffer.
    pub fn get_mut_unchecked<'a>(&mut self, pool: &'a mut BufferPool) -> (bytes: &'a mut [u8])
        requires
            old(pool).wf(),
            old(self)@.in_pool(old(pool)@),
            old(self)@.unique(old(pool)@),
        ensures
            final(self)@ == old(self)@,
            final(pool).wf(),
            final(self)@.in_pool(final(pool)@),
            bytes@ == old(self)@.content(old(pool)@),
            final(bytes)@.len() == bytes@.len(),
            final(pool)@ == old(self)@.edited(old(pool)@, final(bytes)@),
            final(self)@.content(final(pool)@) == final(bytes)@,
            forall|i: int|
                0 <= i < bytes@.len() ==> final(pool)@.at(old(self)@.inner).bytes[old(self)@.start
                    + i] == #[trigger] final(bytes)@[i],
            forall|i: int|
                0 <= i < old(self)@.start || old(self)@.start + old(self)@.len <= i < old(pool)@.at(
                    old(self)@.inner,
                ).bytes.len() ==> #[trigger] final(pool)@.at(old(self)@.inner).bytes[i] == old(
                    pool,
                )@.at(old(self)@.inner).bytes[i],
    {
        let whole: &mut [u8] = pool.bytes_mut(self.inner);
        let bytes: &mut [u8] = subslice_mut(whole, self.start, self.len);
        proof {
            law_edit_is_local(old(pool)@, self@, final(bytes)@);
            law_edit_byte_by_byte(old(pool)@, self@, final(bytes)@);
        }
        bytes
    }

    /// The bytes of this buffer as text.
    pub fn as_str<'a>(&self, pool: &'a BufferPool) -> (r: Result<&'a str, std::str::Utf8Error>)
        requires
            pool.wf(),
            self@.in_pool(pool@),
        ensures
            r is Ok <==> valid_utf8(self@.content(pool@)),
            r matches Ok(text) ==> text@ == decode_utf8(self@.content(pool@)),
    {
        std::str::from_utf8(self.deref(pool))
    }
}

/// What appending `src` to `buf` does and gives.
pub open spec fn appended(
    before: PoolState,
    after: PoolState,
    buf: BufView,
    new: BufView,
    src: Seq<u8>,
    r: Result<usize, AllocError>,
) -> bool {
    if !buf.unique(before) {
        &&& r == Err::<usize, AllocError>(AllocError::NotUnique)
        &&& new == buf
        &&& after == before
    } else if buf.capacity(before) == buf.start + buf.len && buf.capacity(before) < buf.len
        + src.len() {
        &&& r == Err::<usize, AllocError>(AllocError::InvalidBufferSize(src.len() as usize))
        &&& new == buf
        &&& after == before
    } else {
        let room = buf.capacity(before) - (buf.start + buf.len);
        let n = if src.len() <= room {
            src.len() as int
        } else {
            room
        };
        &&& r == Ok::<usize, AllocError>(n as usize)
        &&& new == buf.extended(n as nat)
        &&& after == buf.following(n as nat).edited(before, src.take(n))
    }
}

/// A buffer to which something was appended reads as before, followed by what was appended; it
/// stays unique, and no byte changes but those that followed it.
pub proof fn law_append(
    before: PoolState,
    after: PoolState,
    buf: BufView,
    new: BufView,
    src: Seq<u8>,
    n: usize,
)
    requires
        before.wf(),
        buf.in_pool(before),
        buf.capacity(before) <= usize::MAX,
        appended(before, after, buf, new, src, Ok(n)),
    ensures
        after.wf(),
        new.in_pool(after),
        new.unique(after),
        n <= src.len(),
        new.content(after) == buf.content(before) + src.take(n as int),
        n < src.len() ==> new.start + new.len == new.capacity(after),
        before.kept_in(after, buf.inner),
        forall|i: int|
            #![trigger after.at(buf.inner).bytes[i]]
            0 <= i < buf.capacity(before) && !(buf.start + buf.len <= i < buf.start + buf.len + n)
                ==> after.at(buf.inner).bytes[i] == before.at(buf.inner).bytes[i],
{
    let tail = buf.following(n as nat);
    law_edit_is_local(before, tail, src.take(n as int));
    lemma_replaced(
        before.at(buf.inner).bytes,
        tail.start as int,
        (tail.start + tail.len) as int,
        src.take(n as int),
    );
    assert(new.content(after) =~= buf.content(before) + src.take(n as int));
}

/// What appending gives, by the inputs. A shared buffer is refused. Whatever fits behind a unique
/// buffer is appended as a whole; where it does not fit and there is some room, as much as the room
/// takes is appended. Where there is no room, what the whole backing buffer could not hold beside
/// the buffer is refused. A refusal changes nothing. Otherwise the buffer grows by what was
/// appended, these bytes stand behind it one for one, and no other byte and no count changes.
pub proof fn law_append_by_the_room(
    before: PoolState,
    after: PoolState,
    buf: BufView,
    new: BufView,
    src: Seq<u8>,
    r: Result<usize, AllocError>,
)
    requires
        before.wf(),
        buf.in_pool(before),
        buf.capacity(before) <= usize::MAX,
        src.len() <= usize::MAX,
        appended(before, after, buf, new, src, r),
    ensures
        ({
            let cap = before.at(buf.inner).bytes.len();
            let end = buf.start + buf.len;
            let unique = before.at(buf.inner).refs == 1;
            &&& !unique ==> r == Err::<usize, AllocError>(AllocError::NotUnique)
            &&& unique && end + src.len() <= cap ==> r == Ok::<usize, AllocError>(
                src.len() as usize,
            )
            &&& unique && end < cap && cap < end + src.len() ==> r == Ok::<usize, AllocError>(
                (cap - end) as usize,
            )
            &&& unique && end == cap && cap < buf.len + src.len() ==> r == Err::<
                usize,
                AllocError,
            >(AllocError::InvalidBufferSize(src.len() as usize))
            &&& unique && end == cap && buf.len + src.len() <= cap ==> r == Ok::<
                usize,
                AllocError,
            >(0)
            &&& r is Err ==> new == buf && after == before
            &&& r matches Ok(n) ==> {
                &&& new.inner == buf.inner
                &&& new.start == buf.start
                &&& new.len == buf.len + n
                &&& after == before.with(buf.inner, after.at(buf.inner))
                &&& after.at(buf.inner).refs == 1
                &&& after.at(buf.inner).bytes.len() == cap
                &&& forall|i: int|
                    0 <= i < n ==> after.at(buf.inner).bytes[end + i] == #[trigger] src[i]
                &&& forall|i: int|
                    0 <= i < end || end + n <= i < cap ==> #[trigger] after.at(buf.inner).bytes[i]
                        == before.at(buf.inner).bytes[i]
            }
        }),
{
    if let Ok(n) = r {
        let tail = buf.following(n as nat);
        law_edit_byte_by_byte(before, tail, src.take(n as int));
        assert forall|i: int| 0 <= i < n implies after.at(buf.inner).bytes[buf.start + buf.len + i]
            == #[trigger] src[i] by {
            assert(src.take(n as int)[i] == src[i]);
        }
    }
}

impl IouBuf {
    /// Appends a slice to the end of this buffer.
    ///
    /// This copies as much of `src` as there is room for behind this buffer in the backing
    /// buffer, and returns the amount. It takes that this is the only reference. Where there is
    /// no room at all, a slice that the whole backing buffer could not hold beside this buffer is
    /// an error.
    ///
    /// What was written behind this buffer before is overwritten.
    pub fn append_slice(&mut self, pool: &mut BufferPool, src: &[u8]) -> (r: Result<
        usize,
        AllocError,
    >)
        requires
            old(pool).wf(),
            old(self)@.in_pool(old(pool)@),
        ensures
            final(pool).wf(),
            final(self)@.in_pool(final(pool)@),
            appended(old(pool)@, final(pool)@, old(self)@, final(self)@, src@, r),
            r matches Ok(n) ==> final(self)@.content(final(pool)@) == old(self)@.content(
                old(pool)@,
            ) + src@.take(n as int),
            old(pool)@.at(old(self)@.inner).refs != 1 ==> r == Err::<usize, AllocError>(
                AllocError::NotUnique,
            ),
            old(pool)@.at(old(self)@.inner).refs == 1 && old(self)@.start + old(self)@.len
                + src@.len() <= old(pool)@.at(old(self)@.inner).bytes.len() ==> r == Ok::<
                usize,
                AllocError,
            >(src@.len() as usize),
            r matches Ok(n) ==> {
                &&& final(self)@.inner == old(self)@.inner
                &&& final(self)@.start == old(self)@.start
                &&& final(self)@.len == old(self)@.len + n
                &&& forall|i: int|
                    0 <= i < n ==> final(pool)@.at(old(self)@.inner).bytes[old(self)@.start + old(
                        self,
                    )@.len + i] == #[trigger] src@[i]
            },
            r is Err ==> final(self)@ == old(self)@ && final(pool)@ == old(pool)@,
    {
        if self.is_unique(pool) {
            let cap: usize = self.capacity(pool);
            let count: usize = src.len();
            let end: usize = self.start + self.len;
            if end == cap && cap - self.len < count {
                return Err(AllocError::InvalidBufferSize(count));
            }
            let remaining: usize = cap - end;
            let amt: usize = if count <= remaining {
                count
            } else {
                remaining
            };
            let whole: &mut [u8] = pool.bytes_mut(self.inner);
            let room: &mut [u8] = subslice_mut(whole, end, amt);
            write_bytes(room, vstd::slice::slice_subrange(src, 0, amt));
            proof {
                assert(src@.subrange(0, amt as int) =~= src@.take(amt as int));
            }
            self.len = self.len + amt;
            proof {
                law_append(old(pool)@, pool@, old(self)@, self@, src@, amt);
                law_append_by_the_room(old(pool)@, pool@, old(self)@, self@, src@, Ok(amt));
            }
            Ok(amt)
        } else {
            Err(AllocError::NotUnique)
        }
    }

    /// Appends to this buffer, as a stream is written to.
    pub fn write(&mut self, pool: &mut BufferPool, buf: &[u8]) -> (r: Result<usize, IoError>)
        requires
            old(pool).wf(),
            old(self)@.in_pool(old(pool)@),
        ensures
            final(pool).wf(),
            final(self)@.in_pool(final(pool)@),
            match r {
                Ok(n) => appended(old(pool)@, final(pool)@, old(self)@, final(self)@, buf@, Ok(n)),
                Err(e) => exists|a: AllocError|
                    e.tells(a) && #[trigger] appended(
                        old(pool)@,
                        final(pool)@,
                        old(self)@,
                        final(self)@,
                        buf@,
                        Err(a),
                    ),
            },
            old(pool)@.at(old(self)@.inner).refs != 1 ==> {
                &&& r is Err
                &&& r->Err_0.kind is AddrInUse
                &&& r->Err_0.message@ == "IouBuf was not unique"@
            },
            old(pool)@.at(old(self)@.inner).refs == 1 && old(self)@.start + old(self)@.len
                + buf@.len() <= old(pool)@.at(old(self)@.inner).bytes.len() ==> r is Ok && r->Ok_0
                == buf@.len(),
            old(pool)@.at(old(self)@.inner).refs == 1 && r is Err ==> {
                &&& r->Err_0.kind is Other
                &&& r->Err_0.message@ == "Invalid Buffer Size: "@ + decimal(buf@.len())
            },
            r matches Ok(n) ==> {
                &&& final(self)@.inner == old(self)@.inner
                &&& final(self)@.start == old(self)@.start
                &&& final(self)@.len == old(self)@.len + n
                &&& forall|i: int|
                    0 <= i < n ==> final(pool)@.at(old(self)@.inner).bytes[old(self)@.start + old(
                        self,
                    )@.len + i] == #[trigger] buf@[i]
            },
            r is Err ==> final(self)@ == old(self)@ && final(pool)@ == old(pool)@,
    {
        match self.append_slice(pool, buf) {
            Ok(amt) => Ok(amt),
            Err(e) => {
                proof {
                    assert(buf@.len() == buf.len());
                    assert(appended(old(pool)@, pool@, old(self)@, self@, buf@, Err(e)));
                }
                Err(IoError::from_alloc(e))
            },
        }
    }

    /// Nothing is held back, so there is nothing to flush.
    pub fn flush(&mut self) -> (r: Result<(), IoError>)
        ensures
            r is Ok,
            final(self)@ == old(self)@,
    {
        Ok(())
    }

    /// Takes a vector in as a buffer that holds its bytes, over a backing buffer of `cap` bytes.
    pub fn from_vec_sized(pool: &mut BufferPool, v: Vec<u8>, cap: usize) -> (buf: IouBuf)
        requires
            old(pool).wf(),
            cap >= v@.len(),
        ensures
            final(pool).wf(),
            buf@ == (BufView { inner: old(pool)@.next_owned(), start: 0, len: v@.len() }),
            final(pool)@ == old(pool)@.with_owned(v@ + zeros((cap - v@.len()) as nat)),
            buf@.new_in(old(pool)@, final(pool)@, v@.len()),
            buf@.content(final(pool)@) == v@,
            buf@.capacity(final(pool)@) == cap,
            final(pool)@.at(buf@.inner).bytes.len() == cap,
            forall|i: int|
                0 <= i < v@.len() ==> final(pool)@.at(buf@.inner).bytes[i] == #[trigger] v@[i],
            forall|i: int|
                v@.len() <= i < cap ==> #[trigger] final(pool)@.at(buf@.inner).bytes[i] == 0,
    {
        let ghost before = pool@;
        let len: usize = v.len();
        let inner = pool.adopt(v, cap);
        proof {
            let spare = zeros((cap - v@.len()) as nat);
            lemma_pool_with_owned(before, v@ + spare);
            assert((v@ + spare).subrange(0, len as int) =~= v@);
        }
        Self::from_handle(inner, len)
    }

    /// Takes a vector in as a buffer that holds its bytes. The backing buffer covers all that the
    /// vector has room for; how much that is the allocator decides.
    pub fn from_vec(pool: &mut BufferPool, v: Vec<u8>) -> (buf: IouBuf)
        requires
            old(pool).wf(),
        ensures
            final(pool).wf(),
            buf@ == (BufView { inner: old(pool)@.next_owned(), start: 0, len: v@.len() }),
            exists|spare: nat|
                final(pool)@ == old(pool)@.with_owned(v@ + #[trigger] zeros(spare)),
            buf@.new_in(old(pool)@, final(pool)@, v@.len()),
            buf@.content(final(pool)@) == v@,
    {
        let cap: usize = vec_capacity(&v);
        Self::from_vec_sized(pool, v, cap)
    }

    /// Takes the bytes of a `Bytes` in as a buffer. Where the `Bytes` is a reference counted
    /// vector, both conversions are without a copy.
    pub fn from_bytes(pool: &mut BufferPool, b: bytes::Bytes) -> (buf: IouBuf)
        requires
            old(pool).wf(),
        ensures
            final(pool).wf(),
            buf@ == (BufView {
                inner: old(pool)@.next_owned(),
                start: 0,
                len: held_bytes(b).len(),
            }),
            exists|spare: nat|
                final(pool)@ == old(pool)@.with_owned(held_bytes(b) + #[trigger] zeros(spare)),
            buf@.new_in(old(pool)@, final(pool)@, held_bytes(b).len()),
            buf@.content(final(pool)@) == held_bytes(b),
    {
        let v: Vec<u8> = bytes_into_vec(b);
        Self::from_vec(pool, v)
    }

    /// The bytes of this buffer.
    pub fn borrow<'a>(&self, pool: &'a BufferPool) -> (bytes: &'a [u8])
        requires
            pool.wf(),
            self@.in_pool(pool@),
        ensures
            bytes@ == self@.content(pool@),
            bytes@.len() == self@.len,
            forall|i: int|
                0 <= i < self@.len ==> #[trigger] bytes@[i] == pool@.at(self@.inner).bytes[self@.start
                    + i],
    {
        self.deref(pool)
    }

    /// Two buffers are equal when they hold the same bytes.
    pub fn eq(&self, pool: &BufferPool, other: &IouBuf) -> (r: bool)
        requires
            pool.wf(),
            self@.in_pool(pool@),
            other@.in_pool(pool@),
        ensures
            r <==> self@.content(pool@) == other@.content(pool@),
            r <==> self@.len == other@.len && forall|i: int|
                0 <= i < self@.len ==> #[trigger] pool@.at(self@.inner).bytes[self@.start + i]
                    == pool@.at(other@.inner).bytes[other@.start + i],
    {
        proof {
            law_equal_buffers_hold_the_same_bytes(pool@, self@, other@);
        }
        same_bytes(other.deref(pool), self.deref(pool))
    }
}

/// Two buffers read the same exactly when they are equally long and hold the same byte at every
/// place.
pub proof fn law_equal_buffers_hold_the_same_bytes(p: PoolState, a: BufView, b: BufView)
    requires
        a.in_pool(p),
        b.in_pool(p),
    ensures
        a.content(p) == b.content(p) <==> a.len == b.len && forall|i: int|
            0 <= i < a.len ==> #[trigger] p.at(a.inner).bytes[a.start + i] == p.at(
                b.inner,
            ).bytes[b.start + i],
{
    let x = a.content(p);
    let y = b.content(p);
    if x == y {
        assert(x.len() == y.len());
        assert forall|i: int| 0 <= i < a.len implies #[trigger] p.at(a.inner).bytes[a.start + i]
            == p.at(b.inner).bytes[b.start + i] by {
            assert(x[i] == y[i]);
        }
    } else if a.len == b.len && (forall|i: int|
        0 <= i < a.len ==> #[trigger] p.at(a.inner).bytes[a.start + i] == p.at(
            b.inner,
        ).bytes[b.start + i]) {
        assert forall|i: int| 0 <= i < a.len implies x[i] == y[i] by {
            assert(p.at(a.inner).bytes[a.start + i] == x[i]);
        }
        assert(x =~= y);
    }
}

/// A part is at a place exactly when it fits behind it and every one of its bytes is there.
pub proof fn law_occurs_byte_by_byte(whole: Seq<u8>, k: int, part: Seq<u8>)
    ensures
        occurs_at(whole, k, part) <==> 0 <= k && k + part.len() <= whole.len() && forall|i: int|
            0 <= i < part.len() ==> whole[k + i] == #[trigger] part[i],
        occurs_at(whole, k, part) ==> occurs(whole, part),
{
    if 0 <= k && k + part.len() <= whole.len() {
        let there = whole.subrange(k, k + part.len());
        if occurs_at(whole, k, part) {
            assert forall|i: int| 0 <= i < part.len() implies whole[k + i] == #[trigger] part[i] by {
                assert(there[i] == whole[k + i]);
            }
        } else if forall|i: int| 0 <= i < part.len() ==> whole[k + i] == #[trigger] part[i] {
            assert(there =~= part);
        }
    }
}

/// `part` is in `whole` from the place `k` on.
pub open spec fn occurs_at(whole: Seq<u8>, k: int, part: Seq<u8>) -> bool {
    &&& 0 <= k <= k + part.len() <= whole.len()
    &&& whole.subrange(k, k + part.len()) == part
}

/// `part` is somewhere in `whole`.
pub open spec fn occurs(whole: Seq<u8>, part: Seq<u8>) -> bool {
    exists|k: int| #[trigger] occurs_at(whole, k, part)
}

/// Tells whether `part` is in `whole` from the place `k` on.
fn is_at(whole: &[u8], k: usize, part: &[u8]) -> (r: bool)
    ensures
        r <==> occurs_at(whole@, k as int, part@),
{
    let n: usize = part.len();
    if k > whole.len() || n > whole.len() - k {
        return false;
    }
    same_bytes(vstd::slice::slice_subrange(whole, k, k + n), part)
}

/// Where `part`, which lies at the address `at`, is in `whole`, which lies at the address `base`.
/// That is where its address says if these bytes are there, and otherwise the first place where
/// they are.
pub fn place_of_part(whole: &[u8], base: usize, part: &[u8], at: usize) -> (r: Option<usize>)
    ensures
        match r {
            Some(k) => {
                &&& occurs_at(whole@, k as int, part@)
                &&& if occurs_at(whole@, at - base, part@) {
                    k == at - base
                } else {
                    forall|j: int| 0 <= j < k ==> !#[trigger] occurs_at(whole@, j, part@)
                }
            },
            None => !occurs(whole@, part@),
        },
{
    if base <= at && is_at(whole, at - base, part) {
        return Some(at - base);
    }
    let n: usize = whole.len();
    let mut k: usize = 0;
    while k < n
        invariant
            k <= n,
            n == whole@.len(),
            !occurs_at(whole@, at - base, part@),
            forall|j: int| 0 <= j < k ==> !#[trigger] occurs_at(whole@, j, part@),
        decreases n - k,
    {
        if is_at(whole, k, part) {
            return Some(k);
        }
        k = k + 1;
    }
    if is_at(whole, n, part) {
        return Some(n);
    }
    None
}

/// Two slices hold the same bytes.
fn same_bytes(a: &[u8], b: &[u8]) -> (r: bool)
    ensures
        r <==> a@ == b@,
{
    let n: usize = a.len();
    if n != b.len() {
        return false;
    }
    let mut i: usize = 0;
    while i < n
        invariant
            i <= n,
            n == a@.len(),
            n == b@.len(),
            forall|k: int| 0 <= k < i ==> a@[k] == b@[k],
        decreases n - i,
    {
        if a[i] != b[i] {
            return false;
        }
        i = i + 1;
    }
    proof {
        assert(a@ =~= b@);
    }
    true
}

} // verus!
