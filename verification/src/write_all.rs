//! Writing the whole of a buffer, or of a list of buffers, through a writer that takes a buffer,
//! writes some of it and gives it back.
//!
//! The writer is not called here. Each step says which buffer to lend to it, and the next step is
//! told what came of that.
use vstd::prelude::*;

use crate::foreign::kind_of;
use crate::iou_buf::IouBuf;
use crate::iou_buf_pool::BufferPool;
use crate::iou_buf_vec::{
    covers, lemma_covers_one, lemma_release_one, lemma_used, lemma_uses_remove, uses,
};
use crate::model::{lemma_pool_with, lemma_with_twice, BufState, HandlePtr, PoolState};
use crate::view::{law_retain_is_local, law_slice_is_a_part, BufView};

verus! {

/// What came of a write.
#[derive(Debug)]
pub enum WriteOutcome {
    /// So many bytes were written.
    Wrote(usize),
    /// The write was interrupted before anything was written.
    Interrupted,
    /// The write failed.
    Failed(std::io::Error),
}

impl WriteOutcome {
    /// What came of a write that gave `result`.
    pub open spec fn of(result: Result<usize, std::io::Error>) -> WriteOutcome {
        match result {
            Ok(n) => WriteOutcome::Wrote(n),
            Err(e) => if kind_of(e) is Interrupted {
                WriteOutcome::Interrupted
            } else {
                WriteOutcome::Failed(e)
            },
        }
    }

    /// What came of a write, by its result: an interrupted write is no failure.
    pub fn from_result(result: Result<usize, std::io::Error>) -> (outcome: WriteOutcome)
        ensures
            outcome == WriteOutcome::of(result),
            result matches Ok(n) ==> outcome == WriteOutcome::Wrote(n),
            result matches Err(e) ==> outcome == if kind_of(e) is Interrupted {
                WriteOutcome::Interrupted
            } else {
                WriteOutcome::Failed(e)
            },
    {
        match result {
            Ok(n) => WriteOutcome::Wrote(n),
            Err(e) => match e.kind() {
                std::io::ErrorKind::Interrupted => WriteOutcome::Interrupted,
                _ => WriteOutcome::Failed(e),
            },
        }
    }
}

/// A write that returned a number wrote exactly so many bytes. One that returned an error was
/// interrupted exactly when that is the kind of the error, and failed with that error otherwise.
pub proof fn law_outcome_is_what_was_returned(result: Result<usize, std::io::Error>)
    ensures
        result matches Ok(n) ==> WriteOutcome::of(result) == WriteOutcome::Wrote(n),
        WriteOutcome::of(result) is Wrote ==> result is Ok,
        WriteOutcome::of(result) is Interrupted <==> result is Err && kind_of(
            result->Err_0,
        ) is Interrupted,
        WriteOutcome::of(result) matches WriteOutcome::Failed(e) ==> result == Err::<
            usize,
            std::io::Error,
        >(e),
{
}

/// How the writing ended.
#[derive(Debug)]
pub enum WriteEnd {
    /// Everything was written; so many bytes the writer took.
    Written(usize),
    /// The writer took no bytes.
    WriteZero,
    /// A write failed.
    Failed(std::io::Error),
}

/// The message of the error that a writer gets that took no bytes.
pub fn write_zero_message() -> (text: &'static str)
    ensures
        text@ == "failed to write whole buffer"@,
{
    "failed to write whole buffer"
}

/// A buffer that is being written.
pub struct WriteAll {
    orig: IouBuf,
    buf: IouBuf,
    written: usize,
}

/// What is being written: the whole buffer, the buffer that the writer gave back last, and how
/// many bytes were written.
#[verifier::ext_equal]
pub struct WriteView {
    /// The whole buffer.
    pub orig: BufView,
    /// What the writer gave back last; the whole buffer at first.
    pub buf: BufView,
    /// How many bytes were written.
    pub written: nat,
}

impl View for WriteAll {
    type V = WriteView;

    closed spec fn view(&self) -> WriteView {
        WriteView { orig: self.orig@, buf: self.buf@, written: self.written as nat }
    }
}

/// What to do next.
pub enum WriteStep {
    /// Lend the buffer to the writer, and go on with what came of it.
    Write(WriteAll, IouBuf),
    /// Stop, with the buffer to return.
    Done(WriteEnd, IouBuf),
}

impl WriteView {
    /// What is left to be written.
    pub open spec fn rest(self) -> BufView {
        self.orig.sliced(self.written as int, self.orig.len as int)
    }

    /// The next step is to write what is left, with another reference to the buffer, or to stop
    /// with the buffer that the writer gave back last when nothing is left.
    pub open spec fn goes_on(self, before: PoolState, after: PoolState, step: WriteStep) -> bool {
        if self.written < self.orig.len {
            &&& after == before.retained(self.orig.inner)
            &&& step matches WriteStep::Write(w, lent) && w@ == self && lent@ == self.rest()
        } else {
            &&& after == before.released(self.orig.inner)
            &&& step matches WriteStep::Done(WriteEnd::Written(n), buf) && n == self.written && buf@
                == self.buf
        }
    }

    /// What the next step is, once the writer gave `returned` back and said what came of it.
    pub open spec fn resumes(
        self,
        before: PoolState,
        after: PoolState,
        returned: BufView,
        outcome: WriteOutcome,
        step: WriteStep,
    ) -> bool {
        let mid = before.released(self.buf.inner);
        match outcome {
            WriteOutcome::Wrote(n) => if n == 0 {
                &&& after == mid.released(self.orig.inner)
                &&& step matches WriteStep::Done(WriteEnd::WriteZero, buf) && buf@ == returned
            } else {
                WriteView { buf: returned, written: self.written + n as nat, ..self }.goes_on(
                    mid,
                    after,
                    step,
                )
            },
            WriteOutcome::Interrupted => WriteView { buf: returned, ..self }.goes_on(
                mid,
                after,
                step,
            ),
            WriteOutcome::Failed(e) => {
                &&& after == mid.released(returned.inner)
                &&& step matches WriteStep::Done(WriteEnd::Failed(f), buf) && f == e && buf@
                    == self.orig
            },
        }
    }

    /// How many bytes are written once `outcome` came.
    pub open spec fn counted(self, outcome: WriteOutcome) -> nat {
        match outcome {
            WriteOutcome::Wrote(n) => self.written + n as nat,
            _ => self.written,
        }
    }

    /// The writer is lent a buffer again once `outcome` came.
    pub open spec fn lends_after(self, outcome: WriteOutcome) -> bool {
        match outcome {
            WriteOutcome::Wrote(n) => n > 0 && self.counted(outcome) < self.orig.len,
            WriteOutcome::Interrupted => self.written < self.orig.len,
            WriteOutcome::Failed(_) => false,
        }
    }
}

impl WriteStep {
    /// The pool counts a reference for each buffer that the step has.
    pub open spec fn covered(self, p: PoolState) -> bool {
        match self {
            WriteStep::Write(w, lent) => covers(p, seq![w@.orig, w@.buf, lent@]),
            WriteStep::Done(_, buf) => covers(p, seq![buf@]),
        }
    }
}

/// Another reference to a backing buffer covers one more buffer.
proof fn lemma_retain_one(p: PoolState, s: Seq<BufView>, b: BufView)
    requires
        p.wf(),
        covers(p, s),
        b.in_pool(p),
    ensures
        p.retained(b.inner).wf(),
        covers(p.retained(b.inner), s.push(b)),
{
    let h = b.inner;
    let t = s.push(b);
    let state = BufState { refs: p.at(h).refs + 1, ..p.at(h) };
    let q = p.retained(h);
    lemma_pool_with(p, h, state);
    assert forall|i: int| 0 <= i < t.len() implies (#[trigger] t[i]).in_pool(q) by {
        assert(i < s.len() ==> s[i].in_pool(p));
        assert(t[i].in_pool(p));
        assert(p.with(h, state).valid(t[i].inner) == p.valid(t[i].inner));
        assert(p.with(h, state).at(t[i].inner).bytes == p.at(t[i].inner).bytes);
    }
    assert forall|x: HandlePtr| #[trigger] uses(t, x) > 0 implies uses(t, x) <= q.at(x).refs by {
        lemma_uses_remove(t, s.len() as int, x);
        assert(t.remove(s.len() as int) =~= s);
        if uses(s, x) > 0 {
            let i = lemma_used(s, x);
            assert(s[i].in_pool(p));
        }
        assert(p.with(h, state).at(x) == if x == h {
            state
        } else {
            p.at(x)
        });
    }
}

impl WriteAll {
    /// Lends what is left, or stops.
    fn step(self, pool: &mut BufferPool) -> (step: WriteStep)
        requires
            old(pool).wf(),
            covers(old(pool)@, seq![self@.orig, self@.buf]),
            self@.written < self@.orig.len ==> old(pool)@.at(self@.orig.inner).refs <= isize::MAX,
        ensures
            final(pool).wf(),
            self@.goes_on(old(pool)@, final(pool)@, step),
            step.covered(final(pool)@),
    {
        let ghost s = seq![self@.orig, self@.buf];
        let ghost p = pool@;
        proof {
            assert(s[0].in_pool(p));
        }
        if self.written < self.orig.len() {
            proof {
                law_slice_is_a_part(p, self@.orig, self@.written as int, self@.orig.len as int);
                lemma_retain_one(p, s, self@.rest());
                assert(s.push(self@.rest()) =~= seq![self@.orig, self@.buf, self@.rest()]);
            }
            let lent = self.orig.slice(pool, self.written..);
            WriteStep::Write(self, lent)
        } else {
            proof {
                lemma_release_one(p, s, 0);
                assert(s.remove(0) =~= seq![self@.buf]);
            }
            self.orig.release(pool);
            WriteStep::Done(WriteEnd::Written(self.written), self.buf)
        }
    }

    /// Begins to write the whole of `orig`.
    pub fn start(pool: &mut BufferPool, orig: IouBuf) -> (step: WriteStep)
        requires
            old(pool).wf(),
            orig@.in_pool(old(pool)@),
            old(pool)@.at(orig@.inner).refs + (if orig@.len > 0 {
                1int
            } else {
                0int
            }) <= isize::MAX,
        ensures
            final(pool).wf(),
            (WriteView { orig: orig@, buf: orig@, written: 0 }).goes_on(
                old(pool)@.retained(orig@.inner),
                final(pool)@,
                step,
            ),
            step.covered(final(pool)@),
    {
        proof {
            let s = seq![orig@];
            lemma_covers_one(pool@, orig@);
            lemma_retain_one(pool@, s, orig@);
            assert(s.push(orig@) =~= seq![orig@, orig@]);
            lemma_with_twice(
                pool@,
                orig@.inner,
                BufState { refs: pool@.at(orig@.inner).refs + 1, ..pool@.at(orig@.inner) },
                pool@.at(orig@.inner),
            );
        }
        let buf = orig.clone(pool);
        WriteAll { orig, buf, written: 0 }.step(pool)
    }

    /// Goes on once the writer gave `returned` back and said what came of it.
    pub fn resume(self, pool: &mut BufferPool, returned: IouBuf, outcome: WriteOutcome) -> (step:
        WriteStep)
        requires
            old(pool).wf(),
            covers(old(pool)@, seq![self@.orig, self@.buf, returned@]),
            self@.counted(outcome) <= usize::MAX,
            self@.lends_after(outcome) ==> old(pool)@.released(self@.buf.inner).at(
                self@.orig.inner,
            ).refs <= isize::MAX,
        ensures
            final(pool).wf(),
            self@.resumes(old(pool)@, final(pool)@, returned@, outcome, step),
            step.covered(final(pool)@),
    {
        let ghost s = seq![self@.orig, self@.buf, returned@];
        let ghost t = seq![self@.orig, returned@];
        proof {
            assert(s[1].in_pool(pool@));
            lemma_release_one(pool@, s, 1);
            assert(s.remove(1) =~= t);
        }
        self.buf.release(pool);
        proof {
            assert(t[0].in_pool(pool@));
            assert(t[1].in_pool(pool@));
        }
        match outcome {
            WriteOutcome::Wrote(n) => {
                if n == 0 {
                    proof {
                        lemma_release_one(pool@, t, 0);
                        assert(t.remove(0) =~= seq![returned@]);
                    }
                    self.orig.release(pool);
                    WriteStep::Done(WriteEnd::WriteZero, returned)
                } else {
                    WriteAll { orig: self.orig, buf: returned, written: self.written + n }.step(
                        pool,
                    )
                }
            },
            WriteOutcome::Interrupted => {
                WriteAll { orig: self.orig, buf: returned, written: self.written }.step(pool)
            },
            WriteOutcome::Failed(e) => {
                proof {
                    lemma_release_one(pool@, t, 1);
                    assert(t.remove(1) =~= seq![self@.orig]);
                }
                returned.release(pool);
                WriteStep::Done(WriteEnd::Failed(e), self.orig)
            },
        }
    }
}

impl WriteAll {
    /// The number of references to the buffer that is being written.
    pub fn refcount(&self, pool: &BufferPool) -> (n: usize)
        requires
            pool.wf(),
            self@.orig.in_pool(pool@),
        ensures
            n == pool@.at(self@.orig.inner).refs,
    {
        self.orig.refcount(pool)
    }

    /// Gives the writing up, with the buffers that are not lent.
    pub fn release(self, pool: &mut BufferPool)
        requires
            old(pool).wf(),
            covers(old(pool)@, seq![self@.orig, self@.buf]),
        ensures
            final(pool).wf(),
            final(pool)@ == old(pool)@.released(self@.buf.inner).released(self@.orig.inner),
    {
        let ghost s = seq![self@.orig, self@.buf];
        proof {
            assert(s[1].in_pool(pool@));
            lemma_release_one(pool@, s, 1);
            assert(s.remove(1)[0] == self@.orig);
        }
        self.buf.release(pool);
        self.orig.release(pool);
    }
}

/// What a write does next, by what it has written: while bytes are left, the writer is lent another
/// reference to the buffer, from the first byte that was not written to the end; once none are
/// left, the writing ends with the number of bytes that the writer took and the buffer that it
/// gave back last, and the whole buffer is given up.
pub proof fn law_write_goes_on_by_what_is_written(
    w: WriteView,
    p: PoolState,
    q: PoolState,
    step: WriteStep,
)
    requires
        w.goes_on(p, q, step),
    ensures
        w.written < w.orig.len ==> {
            &&& step is Write
            &&& step->Write_0@.orig == w.orig
            &&& step->Write_0@.buf == w.buf
            &&& step->Write_0@.written == w.written
            &&& step->Write_1@.inner == w.orig.inner
            &&& step->Write_1@.start == w.orig.start + w.written
            &&& step->Write_1@.len == w.orig.len - w.written
            &&& q == p.retained(w.orig.inner)
        },
        w.written >= w.orig.len ==> {
            &&& step is Done
            &&& step->Done_0 is Written
            &&& step->Done_0->Written_0 == w.written
            &&& step->Done_1@ == w.buf
            &&& q == p.released(w.orig.inner)
        },
{
}

/// How a write resumes, by what came of the write: whatever the number of bytes, all of them
/// count, and the next step is that of a write which has written so many more. A writer that took
/// no bytes ends the writing with the buffer that it gave back, and one that failed ends it with
/// the whole buffer. One that was interrupted is lent the same bytes again.
pub proof fn law_write_resumes_by_the_outcome(
    w: WriteView,
    p: PoolState,
    q: PoolState,
    returned: BufView,
    outcome: WriteOutcome,
    step: WriteStep,
)
    requires
        w.resumes(p, q, returned, outcome, step),
    ensures
        ({
            let mid = p.released(w.buf.inner);
            match outcome {
                WriteOutcome::Wrote(n) => {
                    &&& n == 0 ==> {
                        &&& step is Done
                        &&& step->Done_0 is WriteZero
                        &&& step->Done_1@ == returned
                        &&& q == mid.released(w.orig.inner)
                    }
                    &&& 0 < n && w.written + n < w.orig.len ==> {
                        &&& step is Write
                        &&& step->Write_0@.orig == w.orig
                        &&& step->Write_0@.buf == returned
                        &&& step->Write_0@.written == w.written + n
                        &&& step->Write_1@.inner == w.orig.inner
                        &&& step->Write_1@.start == w.orig.start + w.written + n
                        &&& step->Write_1@.len == w.orig.len - w.written - n
                        &&& q == mid.retained(w.orig.inner)
                    }
                    &&& 0 < n && w.written + n >= w.orig.len ==> {
                        &&& step is Done
                        &&& step->Done_0 is Written
                        &&& step->Done_0->Written_0 == w.written + n
                        &&& step->Done_1@ == returned
                        &&& q == mid.released(w.orig.inner)
                    }
                },
                WriteOutcome::Interrupted => {
                    &&& w.written < w.orig.len ==> {
                        &&& step is Write
                        &&& step->Write_0@.orig == w.orig
                        &&& step->Write_0@.buf == returned
                        &&& step->Write_0@.written == w.written
                        &&& step->Write_1@.inner == w.orig.inner
                        &&& step->Write_1@.start == w.orig.start + w.written
                        &&& step->Write_1@.len == w.orig.len - w.written
                        &&& q == mid.retained(w.orig.inner)
                    }
                    &&& w.written >= w.orig.len ==> {
                        &&& step is Done
                        &&& step->Done_0 is Written
                        &&& step->Done_0->Written_0 == w.written
                        &&& step->Done_1@ == returned
                        &&& q == mid.released(w.orig.inner)
                    }
                },
                WriteOutcome::Failed(e) => {
                    &&& step is Done
                    &&& step->Done_0 is Failed
                    &&& step->Done_0->Failed_0 == e
                    &&& step->Done_1@ == w.orig
                    &&& q == mid.released(returned.inner)
                },
            }
        }),
{
}

/// The bytes that a write counts are those that it has written and those that the writer took now,
/// all of them; and the writer is lent a buffer again exactly when the next step says so.
pub proof fn law_write_counts_every_byte(
    w: WriteView,
    p: PoolState,
    q: PoolState,
    returned: BufView,
    outcome: WriteOutcome,
    step: WriteStep,
)
    requires
        w.resumes(p, q, returned, outcome, step),
    ensures
        outcome matches WriteOutcome::Wrote(n) ==> w.counted(outcome) == w.written + n,
        !(outcome is Wrote) ==> w.counted(outcome) == w.written,
        w.lends_after(outcome) <==> step is Write,
{
}

/// One turn of a write: the step that was given, and what the writer made of it.
pub struct WriteTurn {
    /// The step.
    pub step: WriteStep,
    /// The pool once the step was given.
    pub given: PoolState,
    /// The pool once the writer gave the buffer back.
    pub back: PoolState,
    /// What the writer gave back.
    pub returned: BufView,
    /// What came of the write.
    pub outcome: WriteOutcome,
}

impl WriteTurn {
    /// What is being written.
    pub open spec fn state(self) -> WriteView {
        self.step->Write_0@
    }

    /// The buffer that the writer was lent.
    pub open spec fn lent(self) -> BufView {
        self.step->Write_1@
    }

    /// The bytes that the writer took: as many as it says, from the front of what it was lent.
    pub open spec fn took(self) -> Seq<u8> {
        match self.outcome {
            WriteOutcome::Wrote(n) => self.lent().content(self.given).take(n as int),
            _ => Seq::empty(),
        }
    }

    /// The writer was lent a buffer and took no more than that. Meanwhile nobody gave up the
    /// references of the write, nor wrote over the buffer.
    pub open spec fn is_fair(self) -> bool {
        &&& self.step is Write
        &&& self.back.wf()
        &&& covers(self.back, seq![self.state().orig, self.state().buf, self.returned])
        &&& self.back.at(self.state().orig.inner).bytes == self.given.at(
            self.state().orig.inner,
        ).bytes
        &&& self.outcome matches WriteOutcome::Wrote(n) ==> n <= self.lent().len
    }
}

/// After `start` on `orig` in the pool `begun`, and a `resume` for each of the turns, the step is
/// `step` and the pool is `given`.
pub open spec fn write_run(
    begun: PoolState,
    orig: BufView,
    turns: Seq<WriteTurn>,
    given: PoolState,
    step: WriteStep,
) -> bool
    decreases turns.len(),
{
    if turns.len() == 0 {
        (WriteView { orig, buf: orig, written: 0 }).goes_on(
            begun.retained(orig.inner),
            given,
            step,
        )
    } else {
        let t = turns.last();
        &&& write_run(begun, orig, turns.drop_last(), t.given, t.step)
        &&& t.is_fair()
        &&& t.state().resumes(t.back, given, t.returned, t.outcome, step)
    }
}

/// The bytes that the writer took in all the turns, in order.
pub open spec fn taken(turns: Seq<WriteTurn>) -> Seq<u8>
    decreases turns.len(),
{
    if turns.len() == 0 {
        Seq::empty()
    } else {
        taken(turns.drop_last()) + turns.last().took()
    }
}

/// What holds once a write has come to `step`: while it goes on, the writer has been lent what it
/// did not take yet.
spec fn write_stands(
    begun: PoolState,
    orig: BufView,
    turns: Seq<WriteTurn>,
    given: PoolState,
    step: WriteStep,
) -> bool {
    let all = orig.content(begun);
    let took = taken(turns);
    &&& took.len() <= all.len()
    &&& took == all.take(took.len() as int)
    &&& match step {
        WriteStep::Write(w, lent) => {
            &&& w@.orig == orig
            &&& w@.written == took.len()
            &&& took.len() < all.len()
            &&& lent@ == w@.rest()
            &&& w@.buf == if turns.len() == 0 {
                orig
            } else {
                turns.last().returned
            }
            &&& orig.in_pool(given)
            &&& given.at(orig.inner).bytes == begun.at(orig.inner).bytes
        },
        WriteStep::Done(WriteEnd::Written(n), buf) => {
            &&& n == all.len()
            &&& took.len() == all.len()
            &&& buf@ == if turns.len() == 0 {
                orig
            } else {
                turns.last().returned
            }
        },
        WriteStep::Done(WriteEnd::WriteZero, buf) => {
            &&& took.len() < all.len()
            &&& turns.len() > 0
            &&& turns.last().outcome == WriteOutcome::Wrote(0)
            &&& buf@ == turns.last().returned
        },
        WriteStep::Done(WriteEnd::Failed(e), buf) => {
            &&& took.len() < all.len()
            &&& turns.len() > 0
            &&& turns.last().outcome == WriteOutcome::Failed(e)
            &&& buf@ == orig
        },
    }
}

/// Every run of a write comes to a step at which `write_stands`.
proof fn lemma_write_stands(
    begun: PoolState,
    orig: BufView,
    turns: Seq<WriteTurn>,
    given: PoolState,
    step: WriteStep,
)
    requires
        begun.wf(),
        orig.in_pool(begun),
        write_run(begun, orig, turns, given, step),
    ensures
        write_stands(begun, orig, turns, given, step),
    decreases turns.len(),
{
    let all = orig.content(begun);
    if turns.len() == 0 {
        law_retain_is_local(begun, orig);
        law_retain_is_local(begun.retained(orig.inner), orig);
        assert(all.take(0) =~= Seq::empty());
    } else {
        let t = turns.last();
        let before = turns.drop_last();
        lemma_write_stands(begun, orig, before, t.given, t.step);
        let done = taken(before);
        let state = t.state();
        let s = seq![state.orig, state.buf, t.returned];
        let mid = t.back.released(state.buf.inner);
        lemma_release_one(t.back, s, 1);
        assert(s.remove(1)[0] == orig);
        law_retain_is_local(mid, orig);
        law_slice_is_a_part(t.given, orig, done.len() as int, orig.len as int);
        assert(orig.content(t.given) == all);
        assert(t.lent().content(t.given) =~= all.skip(done.len() as int));
        assert(taken(turns) =~= all.take(taken(turns).len() as int));
    }
}

/// However a writer cuts the writes, and however often it is interrupted, it takes the bytes of
/// the buffer in order, each of them once. While the writing goes on, what the writer is lent is
/// what it did not take yet. The writing ends well exactly when the writer has taken all the
/// bytes; it ends before that only where the writer took nothing, or failed.
pub proof fn law_write_all_writes_all(
    begun: PoolState,
    orig: BufView,
    turns: Seq<WriteTurn>,
    given: PoolState,
    step: WriteStep,
)
    requires
        begun.wf(),
        orig.in_pool(begun),
        write_run(begun, orig, turns, given, step),
    ensures
        taken(turns).is_prefix_of(orig.content(begun)),
        step is Done && step->Done_0 is Written <==> taken(turns) == orig.content(begun),
        match step {
            WriteStep::Write(w, lent) => {
                &&& w@.written == taken(turns).len()
                &&& lent@.inner == orig.inner
                &&& lent@.start == orig.start + taken(turns).len()
                &&& lent@.len == orig.len - taken(turns).len()
                &&& taken(turns) + lent@.content(given) == orig.content(begun)
            },
            WriteStep::Done(WriteEnd::Written(n), buf) => {
                &&& n == orig.len
                &&& buf@ == if turns.len() == 0 {
                    orig
                } else {
                    turns.last().returned
                }
            },
            WriteStep::Done(WriteEnd::WriteZero, buf) => {
                &&& turns.len() > 0
                &&& turns.last().outcome == WriteOutcome::Wrote(0)
                &&& buf@ == turns.last().returned
            },
            WriteStep::Done(WriteEnd::Failed(e), buf) => {
                &&& turns.len() > 0
                &&& turns.last().outcome == WriteOutcome::Failed(e)
                &&& buf@ == orig
            },
        },
{
    lemma_write_stands(begun, orig, turns, given, step);
    let all = orig.content(begun);
    let took = taken(turns);
    assert(all.take(all.len() as int) =~= all);
    if let WriteStep::Write(_, lent) = step {
        law_slice_is_a_part(given, orig, took.len() as int, orig.len as int);
        assert(orig.content(given) == all);
        assert(took + lent@.content(given) =~= all);
    }
}

/// How many bytes the writer said in all that it wrote.
pub open spec fn reported(results: Seq<Result<usize, std::io::Error>>) -> nat
    decreases results.len(),
{
    if results.len() == 0 {
        0
    } else {
        reported(results.drop_last()) + match results.last() {
            Ok(n) => n as nat,
            Err(_) => 0nat,
        }
    }
}

/// The bytes that were taken are as many as the writer returned, every time and in all: none of
/// them is forgotten, and none counts that was not returned. The writing stops early only where
/// the last thing returned was no bytes, or an error that is no interruption; that error is the
/// one that is told.
pub proof fn law_write_all_follows_the_results(
    begun: PoolState,
    orig: BufView,
    turns: Seq<WriteTurn>,
    results: Seq<Result<usize, std::io::Error>>,
    given: PoolState,
    step: WriteStep,
)
    requires
        begun.wf(),
        orig.in_pool(begun),
        write_run(begun, orig, turns, given, step),
        results.len() == turns.len(),
        forall|i: int|
            0 <= i < turns.len() ==> (#[trigger] turns[i]).outcome == WriteOutcome::of(results[i]),
    ensures
        taken(turns).len() == reported(results),
        forall|i: int| #![trigger turns[i]]
            0 <= i < turns.len() ==> match results[i] {
                Ok(n) => turns[i].took().len() == n,
                Err(_) => turns[i].took().len() == 0,
            },
        match step {
            WriteStep::Write(w, lent) => {
                &&& w@.written == reported(results)
                &&& lent@.start == orig.start + reported(results)
                &&& lent@.len == orig.len - reported(results)
            },
            WriteStep::Done(WriteEnd::Written(n), _) => n == reported(results) && n == orig.len,
            WriteStep::Done(WriteEnd::WriteZero, _) => {
                &&& results.len() > 0
                &&& results.last() == Ok::<usize, std::io::Error>(0)
            },
            WriteStep::Done(WriteEnd::Failed(e), _) => {
                &&& results.len() > 0
                &&& results.last() == Err::<usize, std::io::Error>(e)
                &&& !(kind_of(e) is Interrupted)
            },
        },
    decreases turns.len(),
{
    law_write_all_writes_all(begun, orig, turns, given, step);
    if turns.len() > 0 {
        let k = turns.len() - 1;
        let t = turns[k];
        let before = turns.drop_last();
        assert forall|i: int| 0 <= i < before.len() implies (#[trigger] before[i]).outcome
            == WriteOutcome::of(results.drop_last()[i]) by {
            assert(before[i] == turns[i]);
        }
        law_write_all_follows_the_results(
            begun,
            orig,
            before,
            results.drop_last(),
            t.given,
            t.step,
        );
        law_write_all_writes_all(begun, orig, before, t.given, t.step);
        lemma_write_stands(begun, orig, before, t.given, t.step);
        law_slice_is_a_part(t.given, orig, taken(before).len() as int, orig.len as int);
        assert forall|i: int| #![trigger turns[i]] 0 <= i < turns.len() implies match results[i] {
            Ok(n) => turns[i].took().len() == n,
            Err(_) => turns[i].took().len() == 0,
        } by {
            if i < k {
                assert(before[i] == turns[i]);
                assert(results.drop_last()[i] == results[i]);
            }
        }
    }
}

} // verus!
