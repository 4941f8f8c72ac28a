//! Writing the whole of a list of buffers through a writer that takes a list, writes some of it
//! and gives it back.
use vstd::prelude::*;

use crate::foreign::kind_of;
use crate::iou_buf_pool::BufferPool;
use crate::iou_buf_vec::{
    after_consume, consumed, covers, gathered, law_clone_is_covered, law_consume,
    lemma_consume_beside, lemma_covers_parts, lemma_covers_swap, lemma_gathered_len,
    lemma_gathered_same, lemma_release_beside, lemma_retained_all, released_all, retained_all,
    total, uses, IouBufVec, VecView,
};
use crate::model::{HandlePtr, PoolState};
use crate::view::BufView;
use crate::write_all::{reported, WriteEnd, WriteOutcome};

verus! {

/// A list of buffers that is being written.
pub struct WritevAll {
    orig: IouBufVec,
    written: usize,
    len: usize,
}

impl WritevAll {
    /// The length of the list is known.
    #[verifier::type_invariant]
    spec fn knows_len(&self) -> bool {
        self.len == total(self.orig@.bufs)
    }
}

/// What is being written: the whole list, and how many bytes were written.
#[verifier::ext_equal]
pub struct WritevView {
    /// The whole list.
    pub orig: VecView,
    /// How many bytes were written.
    pub written: nat,
}

impl View for WritevAll {
    type V = WritevView;

    closed spec fn view(&self) -> WritevView {
        WritevView { orig: self.orig@, written: self.written as nat }
    }
}

/// What to do next.
pub enum WritevStep {
    /// Lend the list to the writer, and go on with what came of it.
    Write(WritevAll, IouBufVec),
    /// Stop, with the list to return.
    Done(WriteEnd, IouBufVec),
}

impl WritevView {
    /// The next step is to write `rest`, or to stop with the whole list and give `rest` up when
    /// everything was written.
    pub open spec fn goes_on(
        self,
        rest: VecView,
        before: PoolState,
        after: PoolState,
        step: WritevStep,
    ) -> bool {
        if self.written < total(self.orig.bufs) {
            &&& after == before
            &&& step matches WritevStep::Write(w, bufs) && w@ == self && bufs@ == rest
        } else {
            &&& after == released_all(before, rest.bufs)
            &&& step matches WritevStep::Done(WriteEnd::Written(n), bufs) && n == self.written
                && bufs@ == self.orig
        }
    }

    /// What the next step is, once the writer gave `returned` back and said what came of it.
    pub open spec fn resumes(
        self,
        before: PoolState,
        after: PoolState,
        returned: VecView,
        outcome: WriteOutcome,
        step: WritevStep,
    ) -> bool {
        match outcome {
            WriteOutcome::Wrote(n) => if n == 0 {
                &&& after == released_all(before, self.orig.bufs)
                &&& step matches WritevStep::Done(WriteEnd::WriteZero, bufs) && bufs@ == returned
            } else {
                WritevView { written: self.written + n as nat, ..self }.goes_on(
                    returned.without(n as nat),
                    after_consume(before, returned.bufs, n as nat),
                    after,
                    step,
                )
            },
            WriteOutcome::Interrupted => self.goes_on(returned, before, after, step),
            WriteOutcome::Failed(e) => {
                &&& after == released_all(before, self.orig.bufs)
                &&& step matches WritevStep::Done(WriteEnd::Failed(f), bufs) && f == e && bufs@
                    == returned
            },
        }
    }

    /// How many bytes are written once `outcome` came.
    pub open spec fn counted(self, outcome: WriteOutcome) -> nat {
        match outcome {
            WriteOutcome::Wrote(n) => self.written + n as nat,
            _ => self.written,
        }
    }
}

impl WritevStep {
    /// The pool counts a reference for each buffer that the step has.
    pub open spec fn covered(self, p: PoolState) -> bool {
        match self {
            WritevStep::Write(w, bufs) => covers(p, w@.orig.bufs + bufs@.bufs),
            WritevStep::Done(_, bufs) => covers(p, bufs@.bufs),
        }
    }
}

impl WritevAll {
    /// Lends what is left, or stops.
    fn step(self, pool: &mut BufferPool, rest: IouBufVec) -> (step: WritevStep)
        requires
            old(pool).wf(),
            covers(old(pool)@, self@.orig.bufs + rest@.bufs),
        ensures
            final(pool).wf(),
            self@.goes_on(rest@, old(pool)@, final(pool)@, step),
            step.covered(final(pool)@),
    {
        proof {
            use_type_invariant(&self);
        }
        if self.written < self.len {
            WritevStep::Write(self, rest)
        } else {
            proof {
                lemma_covers_parts(pool@, self@.orig.bufs, rest@.bufs);
                lemma_release_beside(pool@, self@.orig.bufs, rest@.bufs);
            }
            rest.release(pool);
            WritevStep::Done(WriteEnd::Written(self.written), self.orig)
        }
    }

    /// Begins to write the whole of `orig`.
    pub fn start(pool: &mut BufferPool, orig: IouBufVec) -> (step: WritevStep)
        requires
            old(pool).wf(),
            covers(old(pool)@, orig@.bufs),
            total(orig@.bufs) <= usize::MAX,
            forall|h: HandlePtr| #[trigger]
                uses(orig@.bufs, h) > 0 ==> old(pool)@.at(h).refs + uses(orig@.bufs, h)
                    <= isize::MAX + 1,
        ensures
            final(pool).wf(),
            (WritevView { orig: orig@, written: 0 }).goes_on(
                orig@,
                retained_all(old(pool)@, orig@.bufs),
                final(pool)@,
                step,
            ),
            step.covered(final(pool)@),
    {
        proof {
            law_clone_is_covered(pool@, orig@.bufs);
        }
        let len: usize = orig.len();
        let bufs = orig.clone(pool);
        WritevAll { orig, written: 0, len }.step(pool, bufs)
    }

    /// Goes on once the writer gave `returned` back and said what came of it.
    pub fn resume(self, pool: &mut BufferPool, returned: IouBufVec, outcome: WriteOutcome) -> (step:
        WritevStep)
        requires
            old(pool).wf(),
            covers(old(pool)@, self@.orig.bufs + returned@.bufs),
            self@.counted(outcome) <= usize::MAX,
        ensures
            final(pool).wf(),
            self@.resumes(old(pool)@, final(pool)@, returned@, outcome, step),
            step.covered(final(pool)@),
    {
        proof {
            use_type_invariant(&self);
            lemma_covers_parts(pool@, self@.orig.bufs, returned@.bufs);
            lemma_covers_swap(pool@, self@.orig.bufs, returned@.bufs);
            lemma_release_beside(pool@, returned@.bufs, self@.orig.bufs);
        }
        match outcome {
            WriteOutcome::Wrote(n) => {
                if n == 0 {
                    self.orig.release(pool);
                    WritevStep::Done(WriteEnd::WriteZero, returned)
                } else {
                    proof {
                        lemma_consume_beside(pool@, self@.orig.bufs, returned@.bufs, n as nat);
                    }
                    let mut rest = returned;
                    rest.consume(pool, n);
                    WritevAll { orig: self.orig, written: self.written + n, len: self.len }.step(
                        pool,
                        rest,
                    )
                }
            },
            WriteOutcome::Interrupted => self.step(pool, returned),
            WriteOutcome::Failed(e) => {
                self.orig.release(pool);
                WritevStep::Done(WriteEnd::Failed(e), returned)
            },
        }
    }
}

impl WritevAll {
    /// Gives the writing up, with the list that is not lent.
    pub fn release(self, pool: &mut BufferPool)
        requires
            old(pool).wf(),
            covers(old(pool)@, self@.orig.bufs),
        ensures
            final(pool).wf(),
            final(pool)@ == released_all(old(pool)@, self@.orig.bufs),
    {
        self.orig.release(pool);
    }
}

/// How a gathering write begins: while the list has bytes, the writer is lent other references to
/// all of its buffers; a list without bytes is returned at once.
pub proof fn law_writev_starts_by_the_length(
    p: PoolState,
    q: PoolState,
    orig: VecView,
    step: WritevStep,
)
    requires
        (WritevView { orig, written: 0 }).goes_on(orig, retained_all(p, orig.bufs), q, step),
    ensures
        total(orig.bufs) > 0 ==> {
            &&& step is Write
            &&& step->Write_0@.orig == orig
            &&& step->Write_0@.written == 0
            &&& step->Write_1@ == orig
            &&& q == retained_all(p, orig.bufs)
        },
        total(orig.bufs) == 0 ==> {
            &&& step is Done
            &&& step->Done_0 is Written
            &&& step->Done_0->Written_0 == 0
            &&& step->Done_1@ == orig
            &&& q == released_all(retained_all(p, orig.bufs), orig.bufs)
        },
{
}

/// How a gathering write resumes, by what came of the write: whatever the number of bytes, all
/// of them count and all of them leave the list that the writer gave back, which it is lent again
/// while bytes are left. A writer that took no bytes ends the writing, and so does one that
/// failed; then the list that it gave back is returned. One that was interrupted is lent the same
/// list again.
pub proof fn law_writev_resumes_by_the_outcome(
    w: WritevView,
    p: PoolState,
    q: PoolState,
    returned: VecView,
    outcome: WriteOutcome,
    step: WritevStep,
)
    requires
        w.resumes(p, q, returned, outcome, step),
    ensures
        outcome matches WriteOutcome::Wrote(n) ==> w.counted(outcome) == w.written + n,
        !(outcome is Wrote) ==> w.counted(outcome) == w.written,
        match outcome {
            WriteOutcome::Wrote(n) => {
                let rest = consumed(returned.bufs, n as nat);
                let mid = after_consume(p, returned.bufs, n as nat);
                &&& n == 0 ==> {
                    &&& step is Done
                    &&& step->Done_0 is WriteZero
                    &&& step->Done_1@ == returned
                    &&& q == released_all(p, w.orig.bufs)
                }
                &&& 0 < n && w.written + n < total(w.orig.bufs) ==> {
                    &&& step is Write
                    &&& step->Write_0@.orig == w.orig
                    &&& step->Write_0@.written == w.written + n
                    &&& step->Write_1@.bufs == rest
                    &&& step->Write_1@.io_vecs == rest
                    &&& q == mid
                }
                &&& 0 < n && w.written + n >= total(w.orig.bufs) ==> {
                    &&& step is Done
                    &&& step->Done_0 is Written
                    &&& step->Done_0->Written_0 == w.written + n
                    &&& step->Done_1@ == w.orig
                    &&& q == released_all(mid, rest)
                }
            },
            WriteOutcome::Interrupted => {
                &&& w.written < total(w.orig.bufs) ==> {
                    &&& step is Write
                    &&& step->Write_0@.orig == w.orig
                    &&& step->Write_0@.written == w.written
                    &&& step->Write_1@ == returned
                    &&& q == p
                }
                &&& w.written >= total(w.orig.bufs) ==> {
                    &&& step is Done
                    &&& step->Done_0 is Written
                    &&& step->Done_0->Written_0 == w.written
                    &&& step->Done_1@ == w.orig
                    &&& q == released_all(p, returned.bufs)
                }
            },
            WriteOutcome::Failed(e) => {
                &&& step is Done
                &&& step->Done_0 is Failed
                &&& step->Done_0->Failed_0 == e
                &&& step->Done_1@ == returned
                &&& q == released_all(p, w.orig.bufs)
            },
        },
{
}

/// A list that holds what is left to be written holds it after another write too: once the
/// writer took `n` more bytes of it, it holds what is left then.
pub proof fn law_writev_lends_the_rest(
    p: PoolState,
    orig: Seq<BufView>,
    lent: Seq<BufView>,
    written: nat,
    n: nat,
)
    requires
        p.wf(),
        covers(p, orig + lent),
        gathered(lent, p) == gathered(orig, p).skip(written as int),
        written + n <= total(orig),
    ensures
        ({
            let q = after_consume(p, lent, n);
            let rest = consumed(lent, n);
            &&& q.wf()
            &&& covers(q, orig + rest)
            &&& gathered(orig, q) == gathered(orig, p)
            &&& gathered(rest, q) == gathered(orig, q).skip((written + n) as int)
            &&& gathered(orig, p).take(written as int) + gathered(lent, p).take(n as int)
                == gathered(orig, p).take((written + n) as int)
        }),
{
    lemma_covers_parts(p, orig, lent);
    lemma_gathered_len(orig, p);
    lemma_gathered_len(lent, p);
    lemma_consume_beside(p, orig, lent, n);
    law_consume(p, lent, n);
    let all = gathered(orig, p);
    assert(all.skip(written as int).skip(n as int) =~= all.skip((written + n) as int));
    assert(all.take(written as int) + all.skip(written as int).take(n as int) =~= all.take(
        (written + n) as int,
    ));
}

/// One turn of a gathering write: the step that was given, and what the writer made of it.
pub struct WritevTurn {
    /// The step.
    pub step: WritevStep,
    /// The pool once the step was given.
    pub given: PoolState,
    /// The pool once the writer gave the list back.
    pub back: PoolState,
    /// What the writer gave back.
    pub returned: VecView,
    /// What came of the write.
    pub outcome: WriteOutcome,
}

impl WritevTurn {
    /// What is being written.
    pub open spec fn state(self) -> WritevView {
        self.step->Write_0@
    }

    /// The list that the writer was lent.
    pub open spec fn lent(self) -> VecView {
        self.step->Write_1@
    }

    /// The bytes that the writer took: as many as it says, from the front of what it was lent.
    pub open spec fn took(self) -> Seq<u8> {
        match self.outcome {
            WriteOutcome::Wrote(n) => gathered(self.lent().bufs, self.given).take(n as int),
            _ => Seq::empty(),
        }
    }

    /// The writer was lent a list, gave it back, and took no more than it holds. Meanwhile nobody
    /// gave up the references of the write, nor wrote over the buffers.
    pub open spec fn is_fair(self) -> bool {
        let all = self.state().orig.bufs + self.lent().bufs;
        &&& self.step is Write
        &&& self.returned == self.lent()
        &&& self.back.wf()
        &&& covers(self.back, all)
        &&& forall|i: int|
            0 <= i < all.len() ==> self.back.at((#[trigger] all[i]).inner).bytes == self.given.at(
                all[i].inner,
            ).bytes
        &&& self.outcome matches WriteOutcome::Wrote(n) ==> n <= total(self.lent().bufs)
    }
}

/// After `start` on `orig` in the pool `begun`, and a `resume` for each of the turns, the step is
/// `step` and the pool is `given`.
pub open spec fn writev_run(
    begun: PoolState,
    orig: VecView,
    turns: Seq<WritevTurn>,
    given: PoolState,
    step: WritevStep,
) -> bool
    decreases turns.len(),
{
    if turns.len() == 0 {
        (WritevView { orig, written: 0 }).goes_on(
            orig,
            retained_all(begun, orig.bufs),
            given,
            step,
        )
    } else {
        let t = turns.last();
        &&& writev_run(begun, orig, turns.drop_last(), t.given, t.step)
        &&& t.is_fair()
        &&& t.state().resumes(t.back, given, t.returned, t.outcome, step)
    }
}

/// The bytes that the writer took in all the turns, in order.
pub open spec fn gathered_by(turns: Seq<WritevTurn>) -> Seq<u8>
    decreases turns.len(),
{
    if turns.len() == 0 {
        Seq::empty()
    } else {
        gathered_by(turns.drop_last()) + turns.last().took()
    }
}

/// What holds once a gathering write has come to `step`: while it goes on, the writer has been
/// lent what it did not take yet.
spec fn writev_stands(
    begun: PoolState,
    orig: VecView,
    turns: Seq<WritevTurn>,
    given: PoolState,
    step: WritevStep,
) -> bool {
    let all = gathered(orig.bufs, begun);
    let took = gathered_by(turns);
    &&& took.len() <= all.len()
    &&& took == all.take(took.len() as int)
    &&& match step {
        WritevStep::Write(w, bufs) => {
            &&& w@.orig == orig
            &&& w@.written == took.len()
            &&& took.len() < all.len()
            &&& given.wf()
            &&& covers(given, orig.bufs + bufs@.bufs)
            &&& gathered(orig.bufs, given) == all
            &&& gathered(bufs@.bufs, given) == all.skip(took.len() as int)
        },
        WritevStep::Done(WriteEnd::Written(n), bufs) => {
            &&& n == all.len()
            &&& took.len() == all.len()
            &&& bufs@ == orig
        },
        WritevStep::Done(WriteEnd::WriteZero, bufs) => {
            &&& took.len() < all.len()
            &&& turns.len() > 0
            &&& turns.last().outcome == WriteOutcome::Wrote(0)
            &&& bufs@ == turns.last().returned
        },
        WritevStep::Done(WriteEnd::Failed(e), bufs) => {
            &&& took.len() < all.len()
            &&& turns.len() > 0
            &&& turns.last().outcome == WriteOutcome::Failed(e)
            &&& bufs@ == turns.last().returned
        },
    }
}

/// Every run of a gathering write comes to a step at which `writev_stands`.
proof fn lemma_writev_stands(
    begun: PoolState,
    orig: VecView,
    turns: Seq<WritevTurn>,
    given: PoolState,
    step: WritevStep,
)
    requires
        begun.wf(),
        covers(begun, orig.bufs),
        writev_run(begun, orig, turns, given, step),
    ensures
        writev_stands(begun, orig, turns, given, step),
    decreases turns.len(),
{
    let all = gathered(orig.bufs, begun);
    lemma_gathered_len(orig.bufs, begun);
    if turns.len() == 0 {
        lemma_retained_all(begun, orig.bufs);
        law_clone_is_covered(begun, orig.bufs);
        assert(all.take(0) =~= Seq::empty());
        assert(all.skip(0) =~= all);
    } else {
        let t = turns.last();
        let before = turns.drop_last();
        lemma_writev_stands(begun, orig, before, t.given, t.step);
        let done = gathered_by(before);
        let lent = t.lent().bufs;
        let both = orig.bufs + lent;
        assert forall|i: int| 0 <= i < orig.bufs.len() implies t.given.at(
            (#[trigger] orig.bufs[i]).inner,
        ).bytes == t.back.at(orig.bufs[i].inner).bytes by {
            assert(both[i] == orig.bufs[i]);
        }
        lemma_gathered_same(orig.bufs, t.given, t.back);
        assert forall|i: int| 0 <= i < lent.len() implies t.given.at(
            (#[trigger] lent[i]).inner,
        ).bytes == t.back.at(lent[i].inner).bytes by {
            assert(both[orig.bufs.len() + i] == lent[i]);
        }
        lemma_gathered_same(lent, t.given, t.back);
        lemma_covers_parts(t.back, orig.bufs, lent);
        lemma_gathered_len(lent, t.back);
        if let WriteOutcome::Wrote(n) = t.outcome {
            law_writev_lends_the_rest(t.back, orig.bufs, lent, done.len(), n as nat);
        }
        assert(gathered_by(turns) =~= all.take(gathered_by(turns).len() as int));
    }
}

/// However a writer cuts the writes, and however often it is interrupted, it takes the bytes of
/// the list in order, each of them once. While the writing goes on, what the writer is lent is
/// what it did not take yet. The writing ends well exactly when the writer has taken all the
/// bytes, and gives the whole list back; it ends before that only where the writer took nothing,
/// or failed.
pub proof fn law_writev_all_writes_all(
    begun: PoolState,
    orig: VecView,
    turns: Seq<WritevTurn>,
    given: PoolState,
    step: WritevStep,
)
    requires
        begun.wf(),
        covers(begun, orig.bufs),
        writev_run(begun, orig, turns, given, step),
    ensures
        gathered_by(turns).is_prefix_of(gathered(orig.bufs, begun)),
        step is Done && step->Done_0 is Written <==> gathered_by(turns) == gathered(
            orig.bufs,
            begun,
        ),
        match step {
            WritevStep::Write(w, bufs) => {
                &&& w@.written == gathered_by(turns).len()
                &&& gathered_by(turns) + gathered(bufs@.bufs, given) == gathered(orig.bufs, begun)
            },
            WritevStep::Done(WriteEnd::Written(n), bufs) => {
                &&& n == total(orig.bufs)
                &&& bufs@ == orig
            },
            WritevStep::Done(WriteEnd::WriteZero, bufs) => {
                &&& turns.len() > 0
                &&& turns.last().outcome == WriteOutcome::Wrote(0)
                &&& bufs@ == turns.last().returned
            },
            WritevStep::Done(WriteEnd::Failed(e), bufs) => {
                &&& turns.len() > 0
                &&& turns.last().outcome == WriteOutcome::Failed(e)
                &&& bufs@ == turns.last().returned
            },
        },
{
    lemma_writev_stands(begun, orig, turns, given, step);
    lemma_gathered_len(orig.bufs, begun);
    let all = gathered(orig.bufs, begun);
    assert(all.take(all.len() as int) =~= all);
    if let WritevStep::Write(_, bufs) = step {
        assert(gathered_by(turns) + gathered(bufs@.bufs, given) =~= all);
    }
}

/// The bytes that were taken are as many as the writer returned, every time and in all: none of
/// them is forgotten, and none counts that was not returned. The writing stops early only where
/// the last thing returned was no bytes, or an error that is no interruption; that error is the
/// one that is told.
pub proof fn law_writev_all_follows_the_results(
    begun: PoolState,
    orig: VecView,
    turns: Seq<WritevTurn>,
    results: Seq<Result<usize, std::io::Error>>,
    given: PoolState,
    step: WritevStep,
)
    requires
        begun.wf(),
        covers(begun, orig.bufs),
        writev_run(begun, orig, turns, given, step),
        results.len() == turns.len(),
        forall|i: int|
            0 <= i < turns.len() ==> (#[trigger] turns[i]).outcome == WriteOutcome::of(results[i]),
    ensures
        gathered_by(turns).len() == reported(results),
        forall|i: int| #![trigger turns[i]]
            0 <= i < turns.len() ==> match results[i] {
                Ok(n) => turns[i].took().len() == n,
                Err(_) => turns[i].took().len() == 0,
            },
        match step {
            WritevStep::Write(w, bufs) => {
                &&& w@.written == reported(results)
                &&& gathered(bufs@.bufs, given).len() == total(orig.bufs) - reported(results)
            },
            WritevStep::Done(WriteEnd::Written(n), _) => n == reported(results) && n == total(
                orig.bufs,
            ),
            WritevStep::Done(WriteEnd::WriteZero, _) => {
                &&& results.len() > 0
                &&& results.last() == Ok::<usize, std::io::Error>(0)
            },
            WritevStep::Done(WriteEnd::Failed(e), _) => {
                &&& results.len() > 0
                &&& results.last() == Err::<usize, std::io::Error>(e)
                &&& !(kind_of(e) is Interrupted)
            },
        },
    decreases turns.len(),
{
    law_writev_all_writes_all(begun, orig, turns, given, step);
    lemma_gathered_len(orig.bufs, begun);
    if turns.len() > 0 {
        let k = turns.len() - 1;
        let t = turns[k];
        let before = turns.drop_last();
        assert forall|i: int| 0 <= i < before.len() implies (#[trigger] before[i]).outcome
            == WriteOutcome::of(results.drop_last()[i]) by {
            assert(before[i] == turns[i]);
        }
        law_writev_all_follows_the_results(
            begun,
            orig,
            before,
            results.drop_last(),
            t.given,
            t.step,
        );
        lemma_writev_stands(begun, orig, before, t.given, t.step);
        lemma_covers_parts(t.given, orig.bufs, t.lent().bufs);
        lemma_gathered_len(t.lent().bufs, t.given);
        assert forall|i: int| #![trigger turns[i]] 0 <= i < turns.len() implies match results[i] {
            Ok(n) => turns[i].took().len() == n,
            Err(_) => turns[i].took().len() == 0,
        } by {
            if i < k {
                assert(before[i] == turns[i]);
                assert(results.drop_last()[i] == results[i]);
            }
        }
    }
}

} // verus!
