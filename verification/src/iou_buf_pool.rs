//! The pool: the size classes, and the buffers that came from outside.
use vstd::arithmetic::power2::{
    lemma2_to64, lemma_pow2_pos, lemma_pow2_strictly_increases, lemma_pow2_unfold, pow2,
};
use vstd::prelude::*;

use crate::class::{
    class_of, class_size, largest_buffer_size, law_class_is_the_least, lemma_class_in_range,
    lemma_class_monotone, lemma_class_sizes, lemma_rounded_class, lemma_rounding, page_align,
    CLASS_COUNT, LARGEST_BUFFER_SIZE, PAGE_ALIGN, SMALLEST_BUFFER_OFFSET,
};
use crate::error::AllocError;
use crate::foreign::vec_bytes_mut;
use crate::model::{
    law_free_iff_not_held, lemma_pool_refilled, lemma_pool_released, lemma_pool_taken,
    lemma_pool_with, lemma_pool_with_owned, lemma_popped, zeros, BufState, HandlePtr, ListState,
    PoolState,
};
use crate::slab::{
    buffer_area, buffer_at, buffer_in, handle_area, law_buffers_are_aligned_and_disjoint, lies_in,
    slab_bytes, HANDLE_SIZE,
};
use crate::slab_list::SlabList;

verus! {

/// The number of buffers in a slab, where nothing else is asked for.
pub const DEFAULT_SLAB_CAP: usize = 128;

/// A buffer that came from outside, with the count of the references to it.
pub struct OwnedBuffer {
    refcount: usize,
    data: Vec<u8>,
}

impl View for OwnedBuffer {
    type V = BufState;

    closed spec fn view(&self) -> BufState {
        BufState { refs: self.refcount as nat, bytes: self.data@ }
    }
}

/// A `BufferPool` is a collection of slabs of different sizes, and of the buffers that came from
/// outside.
pub struct BufferPool {
    slablists: Vec<SlabList>,
    owned: Vec<Option<OwnedBuffer>>,
}

impl View for BufferPool {
    type V = PoolState;

    closed spec fn view(&self) -> PoolState {
        PoolState {
            lists: Seq::new(self.slablists@.len(), |l: int| self.slablists@[l]@),
            owned: Seq::new(
                self.owned@.len(),
                |k: int|
                    match self.owned@[k] {
                        Some(b) => Some(b@),
                        None => None,
                    },
            ),
        }
    }
}

/// `e` is why no buffer was handed out: the memory for another slab was not granted, or the
/// slab has no buffers.
pub open spec fn refusal(granted: bool, e: AllocError) -> bool {
    if granted {
        e is OutOfBuffers
    } else {
        e is AllocFailed
    }
}

/// What asking the size class `l` for a buffer does to a pool and gives, when the system grants
/// or does not grant the memory for another slab.
pub open spec fn handed_out(
    before: PoolState,
    after: PoolState,
    l: int,
    granted: bool,
    r: Result<HandlePtr, AllocError>,
) -> bool {
    &&& after == before.after_hand_out(l, granted)
    &&& match r {
        Ok(h) => before.can_hand_out(l, granted) && h == before.hand_out(l, granted),
        Err(e) => !before.can_hand_out(l, granted) && refusal(granted, e),
    }
}

/// A size class hands a buffer out exactly when one waits, or the system grants it another slab
/// and a slab has buffers. Where it does not, the error tells that no memory was granted, or that
/// there are no buffers.
pub proof fn law_handed_out_or_told_why(
    before: PoolState,
    after: PoolState,
    l: int,
    granted: bool,
    r: Result<HandlePtr, AllocError>,
)
    requires
        0 <= l < before.lists.len(),
        handed_out(before, after, l, granted, r),
    ensures
        r is Ok <==> before.lists[l].free.len() > 0 || granted && before.lists[l].slabs[0].len()
            > 0,
        before.lists[l].free.len() > 0 ==> r == Ok::<HandlePtr, AllocError>(
            HandlePtr::Pooled {
                list: l as usize,
                slab: before.lists[l].free[0].0,
                index: before.lists[l].free[0].1,
            },
        ),
        r matches Err(e) ==> if granted {
            e is OutOfBuffers
        } else {
            e is AllocFailed && after == before
        },
{
}

/// What looking for a free buffer of the size class `l` does to a pool and gives: as
/// `handed_out`, before the reference to the buffer is counted.
spec fn found(
    before: PoolState,
    after: PoolState,
    l: int,
    granted: bool,
    r: Result<HandlePtr, AllocError>,
) -> bool {
    match r {
        Ok(h) => {
            &&& before.can_hand_out(l, granted)
            &&& h == before.hand_out(l, granted)
            &&& after == before.refilled(l, granted).popped(l)
        },
        Err(e) => {
            &&& !before.can_hand_out(l, granted)
            &&& refusal(granted, e)
            &&& after == before.refilled(l, granted)
        },
    }
}

impl BufferPool {
    /// Every size class is sound.
    pub closed spec fn lists_wf(&self) -> bool {
        forall|l: int| 0 <= l < self.slablists@.len() ==> (#[trigger] self.slablists@[l]).wf()
    }

    /// The pool is sound, inside and as what it holds.
    pub open spec fn wf(&self) -> bool {
        &&& self.lists_wf()
        &&& self@.wf()
    }

    /// The class of a request for `sz` bytes: the least one whose buffers hold it, among the
    /// classes that there are and those that there would be beyond them. The power of two that
    /// `sz` rounds up to has to be a `usize`.
    pub fn calc_slab_index(sz: usize) -> (idx: usize)
        requires
            sz <= usize::MAX / 2 + 1,
        ensures
            idx == class_of(sz as nat),
            forall|k: nat| idx <= k <==> sz <= #[trigger] class_size(k),
    {
        proof {
            lemma2_to64();
            lemma_pow2_unfold(64);
            assert(sz <= pow2(31) <= usize::MAX || sz <= pow2(63) <= usize::MAX);
        }
        let p: usize = sz.next_power_of_two();
        proof {
            let k = choose|k: nat| p == #[trigger] pow2(k);
            lemma_pow2_pos(k);
        }
        let e: u32 = p.ilog2();
        proof {
            let k = choose|k: nat| p == #[trigger] pow2(k);
            if k < e {
                lemma_pow2_strictly_increases(k, e as nat);
            } else if e + 1 < k {
                lemma_pow2_strictly_increases((e + 1) as nat, k);
            }
            lemma_rounding(sz as nat, p as nat);
            law_class_is_the_least(sz as nat);
        }
        e.saturating_sub(SMALLEST_BUFFER_OFFSET) as usize
    }

    /// Makes a pool with one slab of `capacity` buffers in each size class.
    pub fn init(capacity: usize) -> (r: Result<BufferPool, AllocError>)
        requires
            forall|l: nat|
                l < CLASS_COUNT && #[trigger] buffer_area(capacity as nat, class_size(l))
                    <= usize::MAX ==> slab_bytes(capacity as nat, class_size(l)) <= usize::MAX,
        ensures
            match r {
                Ok(pool) => {
                    &&& pool.wf()
                    &&& pool@ == PoolState::fresh(capacity as nat)
                    &&& buffer_area(capacity as nat, LARGEST_BUFFER_SIZE as nat) <= usize::MAX
                },
                Err(AllocError::AllocFailed(_)) => true,
                Err(AllocError::InvalidBufferSize(n)) => n == capacity && buffer_area(
                    capacity as nat,
                    LARGEST_BUFFER_SIZE as nat,
                ) > usize::MAX,
                Err(_) => false,
            },
            buffer_area(capacity as nat, class_size(0)) > usize::MAX ==> r == Err::<
                BufferPool,
                AllocError,
            >(AllocError::InvalidBufferSize(capacity)),
    {
        proof {
            lemma2_to64();
            lemma_class_sizes();
        }
        let smallest: usize = page_align();
        let largest: usize = largest_buffer_size();
        let high: u32 = largest.ilog2();
        let low: u32 = smallest.ilog2();
        proof {
            lemma_log(largest as nat, high as nat, 17);
            lemma_log(smallest as nat, low as nat, 12);
        }
        let slab_count: usize = (high - low) as usize;
        let mut slablists: Vec<SlabList> = Vec::new();
        let mut size: usize = smallest;
        let mut shift: usize = 0;
        while shift <= slab_count
            invariant
                slab_count == 5,
                0 <= shift <= slab_count + 1,
                slablists@.len() == shift,
                shift <= slab_count ==> size == class_size(shift as nat),
                forall|l: nat|
                    l < CLASS_COUNT && #[trigger] buffer_area(capacity as nat, class_size(l))
                        <= usize::MAX ==> slab_bytes(capacity as nat, class_size(l)) <= usize::MAX,
                forall|l: int|
                    0 <= l < shift ==> (#[trigger] slablists@[l]).wf() && slablists@[l]@
                        == ListState::fresh(class_size(l as nat), capacity as nat)
                        && slablists@[l]@.settled(),
                shift > 0 ==> buffer_area(capacity as nat, class_size(0)) <= usize::MAX,
                shift == slab_count + 1 ==> buffer_area(
                    capacity as nat,
                    LARGEST_BUFFER_SIZE as nat,
                ) <= usize::MAX,
            decreases slab_count + 1 - shift,
        {
            proof {
                lemma_class_sizes();
                lemma_class_monotone(shift as nat, 5);
                lemma_rounded_class(shift as nat);
                lemma_rounded_class(5);
                assert(class_size(shift as nat) * capacity <= class_size(5) * capacity)
                    by (nonlinear_arith)
                    requires
                        class_size(shift as nat) <= class_size(5),
                        capacity >= 0,
                ;
                lemma_pow2_unfold((shift + 1) as nat);
            }
            match SlabList::new(size, capacity) {
                Ok(list) => {
                    slablists.push(list);
                },
                Err(e) => {
                    return Err(e);
                },
            }
            shift = shift + 1;
            size = size * 2;
        }
        let pool = BufferPool { slablists, owned: Vec::new() };
        proof {
            assert(pool@.lists =~= PoolState::fresh(capacity as nat).lists);
            assert(pool@.owned =~= PoolState::fresh(capacity as nat).owned);
            assert forall|l: int| 0 <= l < pool@.lists.len() implies (#[trigger] pool@.lists[l]).wf()
                && pool@.lists[l].settled() by {
                pool.slablists@[l].lemma_wf();
            }
        }
        Ok(pool)
    }

    /// Takes the next buffer of the class that serves `sz` bytes. Where nothing waits, the class
    /// gets another slab first.
    fn next_buffer(&mut self, sz: usize) -> (r: Result<HandlePtr, AllocError>)
        requires
            old(self).wf(),
            sz <= LARGEST_BUFFER_SIZE,
        ensures
            final(self).lists_wf(),
            exists|granted: bool| #[trigger]
                found(old(self)@, final(self)@, class_of(sz as nat) as int, granted, r),
    {
        let idx: usize = Self::calc_slab_index(sz);
        proof {
            lemma_class_in_range(sz as nat);
        }
        let ghost before = self@;
        let ghost l = idx as int;
        let list: &mut SlabList = &mut self.slablists[idx];
        match list.next() {
            Ok((slab, index)) => {
                proof {
                    assert(before.refilled(l, true) == before);
                    assert(self@.lists =~= before.popped(l).lists);
                    assert(self@ =~= before.popped(l));
                    assert(found(before, self@, l, true, Ok(before.next_free(l))));
                }
                Ok(HandlePtr::Pooled { list: idx, slab, index })
            },
            Err(_) => {
                match list.append_slab() {
                    Ok(()) => {},
                    Err(e) => {
                        proof {
                            assert(self@.lists =~= before.lists);
                            assert(self@ =~= before.refilled(l, false));
                            assert(found(before, self@, l, false, Err(e)));
                        }
                        return Err(e);
                    },
                }
                let ghost grown = list@;
                match list.next() {
                    Ok((slab, index)) => {
                        proof {
                            let ready = before.refilled(l, true);
                            assert(ready.lists[l] == grown);
                            assert(self@.lists =~= ready.popped(l).lists);
                            assert(self@ =~= ready.popped(l));
                            assert(found(before, self@, l, true, Ok(ready.next_free(l))));
                        }
                        Ok(HandlePtr::Pooled { list: idx, slab, index })
                    },
                    Err(e) => {
                        proof {
                            let ready = before.refilled(l, true);
                            assert(self@.lists =~= ready.lists);
                            assert(self@ =~= ready);
                            assert(found(before, self@, l, true, Err(e)));
                        }
                        Err(e)
                    },
                }
            },
        }
    }
}

impl BufferPool {
    /// Makes a pool with slabs of the default capacity.
    pub fn new() -> (r: Result<BufferPool, AllocError>)
        ensures
            match r {
                Ok(pool) => {
                    &&& pool.wf()
                    &&& pool@ == PoolState::fresh(DEFAULT_SLAB_CAP as nat)
                    &&& pool@.lists.len() == 6
                    &&& forall|l: int|
                        0 <= l < 6 ==> (#[trigger] pool@.lists[l]).slabs.len() == 1
                            && pool@.lists[l].slabs[0].len() == 128
                            && pool@.lists[l].free.len() == 128
                    &&& pool@.owned.len() == 0
                },
                Err(e) => e is AllocFailed,
            },
    {
        proof {
            lemma_class_sizes();
            assert forall|l: nat|
                l < CLASS_COUNT && #[trigger] buffer_area(DEFAULT_SLAB_CAP as nat, class_size(l))
                    <= usize::MAX implies slab_bytes(DEFAULT_SLAB_CAP as nat, class_size(l))
                <= usize::MAX by {
                lemma_rounded_class(l);
                lemma_class_monotone(l, 5);
            }
            lemma_rounded_class(5);
        }
        Self::init(DEFAULT_SLAB_CAP)
    }

    /// Hands out a buffer that holds `sz` bytes, and counts one reference to it.
    pub(crate) fn checkout(&mut self, sz: usize) -> (r: Result<HandlePtr, AllocError>)
        requires
            old(self).wf(),
            sz <= LARGEST_BUFFER_SIZE,
        ensures
            final(self).wf(),
            exists|granted: bool| #[trigger]
                handed_out(old(self)@, final(self)@, class_of(sz as nat) as int, granted, r),
    {
        let ghost before = self@;
        let ghost l = class_of(sz as nat) as int;
        let r = self.next_buffer(sz);
        let ghost after = self@;
        let ghost granted = choose|granted: bool| #[trigger] found(before, after, l, granted, r);
        let ghost ready = before.refilled(l, granted);
        proof {
            assert(found(before, after, l, granted, r));
            lemma_class_in_range(sz as nat);
            assert(ready.lists.len() == before.lists.len());
            assert(after.lists.len() == self.slablists@.len());
            assert(after.lists[l].slabs.len() == ready.lists[l].slabs.len());
            assert(after.lists[l] == self.slablists@[l]@);
            self.slablists@[l].lemma_wf();
            lemma_pool_refilled(before, l, granted);
        }
        match r {
            Ok(h) => {
                if let HandlePtr::Pooled { list, slab, index } = h {
                    proof {
                        lemma_pool_taken(ready, l);
                        lemma_popped(ready.lists[l]);
                        assert(after.lists[l].has(slab as int, index as int));
                    }
                    let slablist: &mut SlabList = &mut self.slablists[list];
                    slablist.set_refs(slab, index, 1);
                    proof {
                        assert(self@.lists =~= ready.taken(l).lists);
                        assert(self@ =~= ready.taken(l));
                    }
                }
                proof {
                    assert(handed_out(before, self@, l, granted, Ok(h)));
                }
                Ok(h)
            },
            Err(e) => {
                proof {
                    assert(handed_out(before, self@, l, granted, Err(e)));
                }
                Err(e)
            },
        }
    }

    /// How many references to a buffer are held.
    pub(crate) fn refs(&self, h: HandlePtr) -> (n: usize)
        requires
            self.wf(),
            self@.held(h),
        ensures
            n == self@.at(h).refs,
    {
        match h {
            HandlePtr::Pooled { list, slab, index } => self.slablists[list].refs(slab, index),
            HandlePtr::Owned { slot } => match &self.owned[slot] {
                Some(b) => b.refcount,
                None => 0,
            },
        }
    }

    /// Sets how many references to a held buffer are held.
    fn set_refs(&mut self, h: HandlePtr, n: usize)
        requires
            old(self).wf(),
            old(self)@.held(h),
        ensures
            final(self).lists_wf(),
            final(self)@ == old(self)@.counted(h, n as nat),
    {
        proof {
            law_free_iff_not_held(self@, h);
        }
        match h {
            HandlePtr::Pooled { list, slab, index } => {
                let slablist: &mut SlabList = &mut self.slablists[list];
                slablist.set_refs(slab, index, n);
                proof {
                    assert(self@.lists =~= old(self)@.counted(h, n as nat).lists);
                }
            },
            HandlePtr::Owned { slot } => {
                match &mut self.owned[slot] {
                    Some(b) => {
                        b.refcount = n;
                    },
                    None => {},
                }
                proof {
                    assert(self@.owned =~= old(self)@.counted(h, n as nat).owned);
                }
            },
        }
        proof {
            assert(self@ =~= old(self)@.counted(h, n as nat));
        }
    }

    /// Counts one more reference to a buffer.
    pub(crate) fn increment(&mut self, h: HandlePtr)
        requires
            old(self).wf(),
            old(self)@.held(h),
            old(self)@.at(h).refs <= isize::MAX,
        ensures
            final(self).wf(),
            final(self)@ == old(self)@.retained(h),
    {
        let n: usize = self.refs(h);
        self.set_refs(h, n + 1);
        proof {
            lemma_pool_with(
                old(self)@,
                h,
                BufState { refs: old(self)@.at(h).refs + 1, ..old(self)@.at(h) },
            );
        }
    }

    /// Counts one reference to a buffer less; the last one gives the buffer up.
    pub(crate) fn decrement(&mut self, h: HandlePtr)
        requires
            old(self).wf(),
            old(self)@.held(h),
        ensures
            final(self).wf(),
            final(self)@ == old(self)@.released(h),
    {
        proof {
            lemma_pool_released(self@, h);
            law_free_iff_not_held(self@, h);
        }
        let n: usize = self.refs(h);
        self.set_refs(h, n - 1);
        if n != 1 {
            return ;
        }
        self.free(h);
    }

    /// Gives up a buffer to which no reference is held: it goes back into its queue, or to the
    /// allocator.
    fn free(&mut self, h: HandlePtr)
        requires
            old(self).lists_wf(),
            old(self)@.valid(h),
            old(self)@.at(h).refs == 0,
            !old(self)@.is_free(h),
        ensures
            final(self).lists_wf(),
            final(self)@ == old(self)@.freed(h),
    {
        match h {
            HandlePtr::Pooled { list, slab, index } => {
                let slablist: &mut SlabList = &mut self.slablists[list];
                slablist.recycle((slab, index));
                proof {
                    assert(self@.lists =~= old(self)@.freed(h).lists);
                }
            },
            HandlePtr::Owned { slot } => {
                self.owned[slot] = None;
                proof {
                    assert(self@.owned =~= old(self)@.freed(h).owned);
                }
            },
        }
        proof {
            assert(self@ =~= old(self)@.freed(h));
        }
    }

    /// The bytes of a whole backing buffer.
    pub(crate) fn bytes(&self, h: HandlePtr) -> (bytes: &[u8])
        requires
            self.wf(),
            self@.held(h),
        ensures
            bytes@ == self@.at(h).bytes,
    {
        match h {
            HandlePtr::Pooled { list, slab, index } => self.slablists[list].bytes(slab, index),
            HandlePtr::Owned { slot } => match &self.owned[slot] {
                Some(b) => b.data.as_slice(),
                None => &[],
            },
        }
    }

    /// Takes in a vector as a backing buffer of `cap` bytes, and counts one reference to it. What
    /// the vector did not hold is zero.
    pub(crate) fn adopt(&mut self, v: Vec<u8>, cap: usize) -> (h: HandlePtr)
        requires
            old(self).wf(),
            cap >= v@.len(),
        ensures
            final(self).wf(),
            h == old(self)@.next_owned(),
            final(self)@ == old(self)@.with_owned(v@ + zeros((cap - v@.len()) as nat)),
    {
        let mut data: Vec<u8> = v;
        data.resize(cap, 0);
        proof {
            assert(data@ =~= v@ + zeros((cap - v@.len()) as nat));
        }
        self.adopt_exact(data)
    }

    /// Takes in the bytes of a vector as a backing buffer, and counts one reference to it.
    pub(crate) fn adopt_exact(&mut self, data: Vec<u8>) -> (h: HandlePtr)
        requires
            old(self).wf(),
        ensures
            final(self).wf(),
            h == old(self)@.next_owned(),
            final(self)@ == old(self)@.with_owned(data@),
    {
        let slot: usize = self.owned.len();
        self.owned.push(Some(OwnedBuffer { refcount: 1, data }));
        proof {
            assert(self.owned@.len() == self.owned.len());
            assert(self@.owned =~= old(self)@.with_owned(data@).owned);
            assert(self@.lists =~= old(self)@.lists);
            lemma_pool_with_owned(old(self)@, data@);
        }
        HandlePtr::Owned { slot }
    }

    /// Takes in a buffer without bytes, and counts one reference to it.
    pub(crate) fn empty_handle(&mut self) -> (h: HandlePtr)
        requires
            old(self).wf(),
        ensures
            final(self).wf(),
            h == old(self)@.next_owned(),
            final(self)@ == old(self)@.with_owned(Seq::empty()),
    {
        self.adopt_exact(Vec::new())
    }

    /// The bytes of a whole backing buffer, for writing.
    pub(crate) fn bytes_mut(&mut self, h: HandlePtr) -> (bytes: &mut [u8])
        requires
            old(self).wf(),
            old(self)@.held(h),
        ensures
            bytes@ == old(self)@.at(h).bytes,
            final(bytes)@.len() == bytes@.len(),
            final(self).wf(),
            final(self)@ == old(self)@.written(h, final(bytes)@),
    {
        proof {
            law_free_iff_not_held(self@, h);
        }
        match h {
            HandlePtr::Pooled { list, slab, index } => {
                let slablist: &mut SlabList = &mut self.slablists[list];
                let bytes: &mut [u8] = slablist.bytes_mut(slab, index);
                proof {
                    let b = BufState { bytes: final(bytes)@, ..old(self)@.at(h) };
                    lemma_pool_with(old(self)@, h, b);
                    assert(after_borrow(*self)@.lists =~= old(self)@.with(h, b).lists);
                    assert(after_borrow(*self)@ =~= old(self)@.with(h, b));
                }
                bytes
            },
            HandlePtr::Owned { slot } => {
                let data: &mut Vec<u8> = self.owned_data(slot);
                vec_bytes_mut(data)
            },
        }
    }

    /// The bytes of a buffer that came from outside, for writing.
    fn owned_data(&mut self, slot: usize) -> (data: &mut Vec<u8>)
        requires
            old(self).wf(),
            old(self)@.held(HandlePtr::Owned { slot }),
        ensures
            data@ == old(self)@.at(HandlePtr::Owned { slot }).bytes,
            final(self).wf(),
            final(self)@ == old(self)@.written(HandlePtr::Owned { slot }, final(data)@),
    {
        let entry: &mut Option<OwnedBuffer> = &mut self.owned[slot];
        match entry {
            Some(b) => {
                let data: &mut Vec<u8> = &mut b.data;
                proof {
                    let h = HandlePtr::Owned { slot };
                    let b = BufState { bytes: final(data)@, ..old(self)@.at(h) };
                    lemma_pool_with(old(self)@, h, b);
                    assert(after_borrow(*self)@.owned =~= old(self)@.with(h, b).owned);
                    assert(after_borrow(*self)@ =~= old(self)@.with(h, b));
                }
                data
            },
            None => vstd::pervasive::unreached(),
        }
    }
}

impl BufferPool {
    /// Every buffer of a slab lies at a page boundary of the block of memory of its slab, behind
    /// the handles: its bytes and its count are read there.
    pub proof fn law_pooled_buffers_are_aligned(&self, list: usize, slab: usize, index: usize)
        requires
            self.wf(),
            self@.valid(HandlePtr::Pooled { list, slab, index }),
        ensures
            ({
                let buffers = self@.lists[list as int].slabs[slab as int];
                let size = class_size(list as nat);
                let first = handle_area(buffers.len()) as int;
                let at = buffer_at(first, size as int, index as int);
                &&& at % PAGE_ALIGN as int == 0
                &&& HANDLE_SIZE * buffers.len() <= at
                &&& exists|block: Seq<u8>|
                    {
                        &&& #[trigger] lies_in(buffers, size, block)
                        &&& at + size <= block.len()
                        &&& self@.at(HandlePtr::Pooled { list, slab, index }).bytes
                            == block.subrange(at, at + size)
                    }
            }),
    {
        let buffers = self@.lists[list as int].slabs[slab as int];
        let size = class_size(list as nat);
        let first = handle_area(buffers.len()) as int;
        lemma_rounded_class(list as nat);
        assert(self@.lists[list as int].wf());
        assert(self@.lists[list as int] == self.slablists@[list as int]@);
        self.slablists@[list as int].law_slabs_lie_in_blocks(slab as int);
        let block = choose|block: Seq<u8>| #[trigger] lies_in(buffers, size, block);
        law_buffers_are_aligned_and_disjoint(buffers.len(), size, index as int, index as int);
        assert(buffers[index as int] == buffer_in(block, first, size as int, index as int));
    }
}

/// The exponent of a power of two is its logarithm.
proof fn lemma_log(n: nat, e: nat, k: nat)
    requires
        n == pow2(k),
        pow2(e) <= n < pow2(e + 1),
    ensures
        e == k,
{
    if k < e {
        lemma_pow2_strictly_increases(k, e);
    } else if e + 1 < k {
        lemma_pow2_strictly_increases(e + 1, k);
    }
}

} // verus!
