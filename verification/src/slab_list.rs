//! The slabs of one size class, with the queue that their buffers share.
use vstd::prelude::*;

use crate::class::{rounded, LARGEST_BUFFER_SIZE};
use crate::error::AllocError;
use crate::model::{
    fresh_slab, lemma_fresh, lemma_grown, lemma_popped, lemma_pushed, lemma_with, names, BufState,
    ListState,
};
use crate::queue::RecycleQueue;
use crate::slab::{buffer_area, lies_in, slab_bytes, BufferSlab};

verus! {

/// A wrapper for a collection of `BufferSlab`s of the same size.
/// This unifies the queue for that size.
pub struct SlabList {
    queue: RecycleQueue,
    slabs: Vec<BufferSlab>,
    size: usize,
}

impl View for SlabList {
    type V = ListState;

    closed spec fn view(&self) -> ListState {
        ListState {
            size: self.size as nat,
            slabs: Seq::new(self.slabs@.len(), |s: int| self.slabs@[s]@),
            free: self.queue@,
        }
    }
}

impl SlabList {
    /// The slabs and the queue are sound, and so is what they hold.
    pub closed spec fn wf(&self) -> bool {
        &&& self.queue.wf()
        &&& self.size <= LARGEST_BUFFER_SIZE
        &&& forall|s: int|
            0 <= s < self.slabs@.len() ==> (#[trigger] self.slabs@[s]).wf()
                && self.slabs@[s].buffer_size() == rounded(self.size as nat)
        &&& self@.wf()
    }

    /// What a sound list holds is sound.
    pub proof fn lemma_wf(&self)
        requires
            self.wf(),
        ensures
            self@.wf(),
            self@.size <= LARGEST_BUFFER_SIZE,
            slab_bytes(self@.count(), self@.size) <= usize::MAX,
            forall|s: int, i: int| #[trigger]
                self@.has(s, i) ==> self@.at(s, i).refs <= usize::MAX,
    {
        self.slabs@[0].lemma_sizes();
        assert(self@.slabs[0] == self.slabs@[0]@);
        assert(rounded(self@.size) * self@.count() == buffer_area(self@.count(), self@.size));
        assert forall|s: int, i: int| #[trigger] self@.has(s, i) implies self@.at(s, i).refs
            <= usize::MAX by {
            self.slabs@[s].lemma_sizes();
            assert(self@.at(s, i) == self.slabs@[s]@[i]);
        }
    }

    /// Each slab of a list lies in one block of memory.
    pub proof fn law_slabs_lie_in_blocks(&self, s: int)
        requires
            self.wf(),
            0 <= s < self@.slabs.len(),
        ensures
            exists|block: Seq<u8>| #[trigger]
                lies_in(self@.slabs[s], rounded(self@.size), block),
    {
        assert(self@.slabs[s] == self.slabs@[s]@);
        let slab = self.slabs@[s];
        assert(slab.wf() && slab.buffer_size() == rounded(self@.size));
        slab.law_slab_lies_in_one_block();
        let block = choose|block: Seq<u8>| #[trigger] lies_in(slab@, slab.buffer_size(), block);
        assert(lies_in(self@.slabs[s], rounded(self@.size), block));
    }

    /// Makes a list for requests of `sz` bytes, with one slab of `capacity` buffers.
    pub fn new(sz: usize, capacity: usize) -> (r: Result<SlabList, AllocError>)
        requires
            sz <= LARGEST_BUFFER_SIZE && buffer_area(capacity as nat, sz as nat) <= usize::MAX
                ==> slab_bytes(capacity as nat, sz as nat) <= usize::MAX,
        ensures
            sz > LARGEST_BUFFER_SIZE ==> r == Err::<SlabList, AllocError>(
                AllocError::InvalidBufferSize(sz),
            ),
            sz <= LARGEST_BUFFER_SIZE && buffer_area(capacity as nat, sz as nat) > usize::MAX ==> r
                == Err::<SlabList, AllocError>(AllocError::InvalidBufferSize(capacity)),
            sz <= LARGEST_BUFFER_SIZE && buffer_area(capacity as nat, sz as nat) <= usize::MAX
                ==> (r is Ok || r->Err_0 is AllocFailed),
            r matches Ok(list) ==> list.wf() && list@ == ListState::fresh(
                sz as nat,
                capacity as nat,
            ) && list@.settled(),
    {
        let mut queue = RecycleQueue::new();
        match BufferSlab::new(capacity, sz, &mut queue, 0) {
            Ok(slab) => {
                let mut slabs: Vec<BufferSlab> = Vec::new();
                slabs.push(slab);
                let list = SlabList { queue, slabs, size: sz };
                proof {
                    assert(list@.slabs =~= seq![fresh_slab(capacity as nat, rounded(sz as nat))]);
                    assert(list@.free =~= names(0, capacity as nat));
                    lemma_fresh(sz as nat, capacity as nat);
                }
                Ok(list)
            },
            Err(e) => Err(e),
        }
    }

    /// Adds a slab like the first one.
    pub fn append_slab(&mut self) -> (r: Result<(), AllocError>)
        requires
            old(self).wf(),
        ensures
            final(self).wf(),
            match r {
                Ok(()) => final(self)@ == old(self)@.grown(),
                Err(e) => e is AllocFailed && final(self)@ == old(self)@,
            },
    {
        proof {
            self.lemma_wf();
        }
        let cap: usize = self.slabs[0].count();
        let number: usize = self.slabs.len();
        match BufferSlab::new(cap, self.size, &mut self.queue, number) {
            Ok(slab) => {
                self.slabs.push(slab);
                proof {
                    assert(self@.slabs =~= old(self)@.grown().slabs);
                    assert(self.slabs@.len() == self.slabs.len());
                    lemma_grown(old(self)@);
                }
                Ok(())
            },
            Err(e) => {
                proof {
                    assert(self@ =~= old(self)@);
                }
                Err(e)
            },
        }
    }

    /// Takes the buffer that waits longest.
    pub fn next(&mut self) -> (r: Result<(usize, usize), AllocError>)
        requires
            old(self).wf(),
        ensures
            final(self).wf(),
            old(self)@.free.len() > 0 ==> r == Ok::<(usize, usize), AllocError>(old(self)@.free[0])
                && final(self)@ == old(self)@.popped(),
            old(self)@.free.len() == 0 ==> r == Err::<(usize, usize), AllocError>(
                AllocError::OutOfBuffers,
            ) && final(self)@ == old(self)@,
    {
        match self.queue.pop() {
            Ok(buffer) => {
                proof {
                    assert(self@ =~= old(self)@.popped());
                    lemma_popped(old(self)@);
                }
                Ok(buffer)
            },
            Err(e) => {
                proof {
                    assert(self@ =~= old(self)@);
                }
                Err(AllocError::from(e))
            },
        }
    }

    /// Puts a buffer that nobody holds back into the queue.
    pub fn recycle(&mut self, buffer: (usize, usize))
        requires
            old(self).wf(),
            old(self)@.has(buffer.0 as int, buffer.1 as int),
            old(self)@.at(buffer.0 as int, buffer.1 as int).refs == 0,
            !old(self)@.free.contains(buffer),
        ensures
            final(self).wf(),
            final(self)@ == old(self)@.pushed(buffer.0, buffer.1),
    {
        self.queue.push(buffer);
        proof {
            assert(self@ =~= old(self)@.pushed(buffer.0, buffer.1));
            lemma_pushed(old(self)@, buffer.0, buffer.1);
        }
    }

    /// How many references to a buffer are held.
    pub fn refs(&self, s: usize, i: usize) -> (n: usize)
        requires
            self.wf(),
            self@.has(s as int, i as int),
        ensures
            n == self@.at(s as int, i as int).refs,
    {
        self.slabs[s].refs(i)
    }

    /// Sets how many references to a buffer are held.
    pub fn set_refs(&mut self, s: usize, i: usize, n: usize)
        requires
            old(self).wf(),
            old(self)@.has(s as int, i as int),
            !old(self)@.is_free(s as int, i as int),
        ensures
            final(self).wf(),
            final(self)@ == old(self)@.with(
                s as int,
                i as int,
                BufState { refs: n as nat, ..old(self)@.at(s as int, i as int) },
            ),
    {
        self.slabs[s].set_refs(i, n);
        proof {
            let b = BufState { refs: n as nat, ..old(self)@.at(s as int, i as int) };
            assert(self@.slabs =~= old(self)@.with(s as int, i as int, b).slabs);
            lemma_with(old(self)@, s as int, i as int, b);
        }
    }

    /// The bytes of a buffer.
    pub fn bytes(&self, s: usize, i: usize) -> (bytes: &[u8])
        requires
            self.wf(),
            self@.has(s as int, i as int),
        ensures
            bytes@ == self@.at(s as int, i as int).bytes,
    {
        self.slabs[s].bytes(i)
    }

    /// The bytes of a buffer, for writing.
    pub fn bytes_mut(&mut self, s: usize, i: usize) -> (bytes: &mut [u8])
        requires
            old(self).wf(),
            old(self)@.has(s as int, i as int),
            !old(self)@.is_free(s as int, i as int),
        ensures
            bytes@ == old(self)@.at(s as int, i as int).bytes,
            final(bytes)@.len() == old(self)@.at(s as int, i as int).bytes.len(),
            final(self).wf(),
            final(self)@ == old(self)@.with(
                s as int,
                i as int,
                BufState { bytes: final(bytes)@, ..old(self)@.at(s as int, i as int) },
            ),
    {
        let bytes: &mut [u8] = self.slabs[s].bytes_mut(i);
        proof {
            let b = BufState { bytes: final(bytes)@, ..old(self)@.at(s as int, i as int) };
            lemma_with(old(self)@, s as int, i as int, b);
            assert(after_borrow(*self)@.slabs =~= old(self)@.with(s as int, i as int, b).slabs);
            assert(after_borrow(*self)@ =~= old(self)@.with(s as int, i as int, b));
        }
        bytes
    }
}

} // verus!
