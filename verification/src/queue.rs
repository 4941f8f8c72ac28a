//! The queue through which free buffers wait to be handed out again.
use vstd::prelude::*;

use crate::foreign::{feeds, queued, send, try_recv, unbounded, RecvFailure};

verus! {

/// Both ends of a channel of free buffers. A buffer is named by the number of its slab and its
/// place in that slab.
pub struct RecycleQueue {
    recycler: flume::Sender<(usize, usize)>,
    buffers: flume::Receiver<(usize, usize)>,
}

impl View for RecycleQueue {
    type V = Seq<(usize, usize)>;

    closed spec fn view(&self) -> Seq<(usize, usize)> {
        queued(self.buffers)
    }
}

impl RecycleQueue {
    /// The two ends belong together.
    pub closed spec fn wf(&self) -> bool {
        feeds(self.recycler, self.buffers)
    }

    /// A queue in which no buffer waits.
    pub fn new() -> (queue: RecycleQueue)
        ensures
            queue.wf(),
            queue@ == Seq::<(usize, usize)>::empty(),
    {
        let (recycler, buffers) = unbounded();
        RecycleQueue { recycler, buffers }
    }

    /// Puts a buffer at the end of the queue.
    pub fn push(&mut self, buffer: (usize, usize))
        requires
            old(self).wf(),
        ensures
            final(self).wf(),
            final(self)@ == old(self)@.push(buffer),
    {
        let _ = send(&self.recycler, &mut self.buffers, buffer);
    }

    /// Takes the buffer that waits longest, or says that none waits.
    pub fn pop(&mut self) -> (r: Result<(usize, usize), RecvFailure>)
        requires
            old(self).wf(),
        ensures
            final(self).wf(),
            old(self)@.len() > 0 ==> r == Ok::<(usize, usize), RecvFailure>(old(self)@[0]) && final(self)@
                == old(self)@.drop_first(),
            old(self)@.len() == 0 ==> r == Err::<(usize, usize), RecvFailure>(RecvFailure::Empty)
                && final(self)@ == old(self)@,
    {
        try_recv(&self.recycler, &mut self.buffers)
    }
}

} // verus!
