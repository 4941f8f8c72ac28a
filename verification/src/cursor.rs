//! A reading position in an `IouBuf`.
use vstd::prelude::*;

use crate::iou_buf::IouBuf;
use crate::iou_buf_pool::BufferPool;
use crate::model::PoolState;
use crate::view::BufView;

verus! {

/// An `IouBuf` with a position, from which the bytes are read in order.
pub struct IouBufCursor {
    /// The buffer.
    pub buf: IouBuf,
    /// How many bytes of it were read.
    pub pos: u64,
}

/// What a cursor is: the buffer and the position.
#[verifier::ext_equal]
pub struct CursorView {
    /// The buffer.
    pub buf: BufView,
    /// How many bytes of it were read.
    pub pos: nat,
}

impl View for IouBufCursor {
    type V = CursorView;

    open spec fn view(&self) -> CursorView {
        CursorView { buf: self.buf@, pos: self.pos as nat }
    }
}

impl CursorView {
    /// The number of bytes that were not read yet. Past the end there are none.
    pub open spec fn left(self) -> nat {
        if self.pos >= self.buf.len {
            0
        } else {
            (self.buf.len - self.pos) as nat
        }
    }

    /// The bytes that were not read yet.
    pub open spec fn unread(self, p: PoolState) -> Seq<u8> {
        if self.pos >= self.buf.len {
            Seq::empty()
        } else {
            self.buf.content(p).skip(self.pos as int)
        }
    }

    /// The cursor once `cnt` more bytes were read.
    pub open spec fn advanced(self, cnt: nat) -> CursorView {
        CursorView { pos: self.pos + cnt, ..self }
    }
}

impl IouBufCursor {
    /// A cursor at the first byte of a buffer.
    pub fn new(buf: IouBuf) -> (cur: IouBufCursor)
        ensures
            cur@ == (CursorView { buf: buf@, pos: 0 }),
    {
        IouBufCursor { buf, pos: 0 }
    }

    /// The number of bytes that were not read yet.
    pub fn remaining(&self) -> (n: usize)
        ensures
            n == self@.left(),
            self@.pos <= self@.buf.len ==> n == self@.buf.len - self@.pos,
            self@.pos > self@.buf.len ==> n == 0,
    {
        let len: usize = self.buf.len();
        if self.pos >= len as u64 {
            return 0;
        }
        len - self.pos as usize
    }

    /// The bytes that were not read yet.
    pub fn chunk<'a>(&self, pool: &'a BufferPool) -> (bytes: &'a [u8])
        requires
            pool.wf(),
            self@.buf.in_pool(pool@),
        ensures
            bytes@ == self@.unread(pool@),
            self@.pos <= self@.buf.len ==> {
                &&& bytes@.len() == self@.buf.len - self@.pos
                &&& forall|i: int|
                    0 <= i < bytes@.len() ==> #[trigger] bytes@[i] == pool@.at(
                        self@.buf.inner,
                    ).bytes[self@.buf.start + self@.pos + i]
            },
            self@.pos > self@.buf.len ==> bytes@.len() == 0,
    {
        let len: usize = self.buf.len();
        if self.pos >= len as u64 {
            return &[];
        }
        let bytes: &[u8] = self.buf.deref(pool);
        vstd::slice::slice_subrange(bytes, self.pos as usize, len)
    }

    /// Steps over `cnt` bytes, of which there have to be that many.
    pub fn advance(&mut self, cnt: usize)
        requires
            old(self)@.pos + cnt <= old(self)@.buf.len,
        ensures
            final(self)@ == old(self)@.advanced(cnt as nat),
            final(self)@.buf == old(self)@.buf,
            final(self)@.pos == old(self)@.pos + cnt,
    {
        proof {
            self.buf.lemma_bounds();
        }
        let pos: usize = self.pos as usize + cnt;
        self.pos = pos as u64;
    }
}

impl IouBuf {
    /// A cursor at the first byte of this buffer.
    pub fn into_cursor(self) -> (cur: IouBufCursor)
        ensures
            cur@ == (CursorView { buf: self@, pos: 0 }),
    {
        IouBufCursor::new(self)
    }
}

/// The bytes that are left are as many as the cursor says, and stepping over some of them takes
/// these, in order, from the front.
pub proof fn law_cursor_reads_in_order(p: PoolState, c: CursorView, cnt: nat)
    requires
        c.buf.in_pool(p),
    ensures
        c.unread(p).len() == c.left(),
        c.pos + cnt <= c.buf.len ==> {
            &&& c.advanced(cnt).left() == c.left() - cnt
            &&& c.unread(p).take(cnt as int) + c.advanced(cnt).unread(p) == c.unread(p)
        },
{
    if c.pos + cnt <= c.buf.len {
        assert(c.unread(p).take(cnt as int) + c.advanced(cnt).unread(p) =~= c.unread(p));
    }
}

/// A cursor reads the content of its buffer from its position on: all of it at the first byte, and
/// nothing at the end or behind it. Stepping moves the position and nothing else.
pub proof fn law_cursor_reads_the_content(p: PoolState, c: CursorView, cnt: nat)
    requires
        c.buf.in_pool(p),
    ensures
        c.pos <= c.buf.len ==> {
            &&& c.left() == c.buf.len - c.pos
            &&& c.unread(p) == c.buf.content(p).skip(c.pos as int)
            &&& c.unread(p).len() == c.buf.len - c.pos
            &&& forall|i: int|
                0 <= i < c.buf.len - c.pos ==> #[trigger] c.unread(p)[i] == c.buf.content(p)[c.pos
                    + i]
        },
        c.pos == 0 ==> c.unread(p) == c.buf.content(p),
        c.pos >= c.buf.len ==> c.left() == 0 && c.unread(p).len() == 0,
        c.advanced(cnt).buf == c.buf,
        c.advanced(cnt).pos == c.pos + cnt,
{
    if c.pos <= c.buf.len {
        assert(c.unread(p) =~= c.buf.content(p).skip(c.pos as int));
        if c.pos == 0 {
            assert(c.buf.content(p).skip(0) =~= c.buf.content(p));
        }
    }
}

} // verus!
