//! What an `IouBuf` is, as a mathematical value: a backing buffer and a part of it.
use vstd::prelude::*;

use crate::class::rounded;
use crate::model::{lemma_pool_with, replaced, BufState, HandlePtr, PoolState};

verus! {

/// A reference to a backing buffer of a pool, narrowed to a part of it.
#[verifier::ext_equal]
pub struct BufView {
    /// The backing buffer.
    pub inner: HandlePtr,
    /// Where in the backing buffer the part begins.
    pub start: nat,
    /// How long the part is.
    pub len: nat,
}

impl BufView {
    /// The backing buffer is held in `p`, and the part lies within it.
    pub open spec fn in_pool(self, p: PoolState) -> bool {
        &&& p.held(self.inner)
        &&& self.start + self.len <= p.at(self.inner).bytes.len()
    }

    /// The bytes of the part.
    pub open spec fn content(self, p: PoolState) -> Seq<u8> {
        p.at(self.inner).bytes.subrange(self.start as int, (self.start + self.len) as int)
    }

    /// The length of the backing buffer.
    pub open spec fn capacity(self, p: PoolState) -> nat {
        p.at(self.inner).bytes.len()
    }

    /// This is the only reference to the backing buffer.
    pub open spec fn unique(self, p: PoolState) -> bool {
        p.at(self.inner).refs == 1
    }

    /// The part of the part from `lo` up to `hi`.
    pub open spec fn sliced(self, lo: int, hi: int) -> BufView {
        BufView { start: (self.start + lo) as nat, len: (hi - lo) as nat, ..self }
    }

    /// The part that lies at the addresses of `range`, when this one lies at `base`: nothing
    /// where the range is not a subset of the addresses of this one.
    pub open spec fn placed(self, base: int, range: std::ops::Range<usize>) -> Option<BufView> {
        if base <= range.start <= range.end <= base + self.len {
            Some(self.sliced(range.start - base, range.end - base))
        } else {
            None
        }
    }

    /// The `n` bytes of the backing buffer that follow this part.
    pub open spec fn following(self, n: nat) -> BufView {
        BufView { start: self.start + self.len, len: n, ..self }
    }

    /// The part with the `n` bytes that follow it.
    pub open spec fn extended(self, n: nat) -> BufView {
        BufView { len: self.len + n, ..self }
    }

    /// The whole backing buffer.
    pub open spec fn rooted(self, p: PoolState) -> BufView {
        BufView { start: 0, len: self.capacity(p), ..self }
    }

    /// The pool with `new` in the place of the bytes of the part.
    pub open spec fn edited(self, p: PoolState, new: Seq<u8>) -> PoolState {
        p.written(
            self.inner,
            replaced(
                p.at(self.inner).bytes,
                self.start as int,
                (self.start + self.len) as int,
                new,
            ),
        )
    }

    /// A buffer of `size` bytes that `after` has and `before` did not: nobody held its backing
    /// buffer, this is the only reference to it now, the part is its first `size` bytes, and
    /// every other backing buffer is as it was.
    pub open spec fn new_in(self, before: PoolState, after: PoolState, size: nat) -> bool {
        &&& !before.held(self.inner)
        &&& self.in_pool(after)
        &&& self.unique(after)
        &&& self.start == 0
        &&& self.len == size
        &&& before.kept_in(after, self.inner)
    }

    /// As `new_in`, with a backing buffer that came out of a slab.
    pub open spec fn pooled_in(self, before: PoolState, after: PoolState, size: nat) -> bool {
        &&& self.new_in(before, after, size)
        &&& self.inner is Pooled
        &&& self.capacity(after) == rounded(size)
    }
}

/// The replaced part of `bytes` reads as what was put there, and the rest as before.
pub proof fn lemma_replaced(bytes: Seq<u8>, lo: int, hi: int, new: Seq<u8>)
    requires
        0 <= lo <= hi <= bytes.len(),
        new.len() == hi - lo,
    ensures
        replaced(bytes, lo, hi, new).len() == bytes.len(),
        replaced(bytes, lo, hi, new).subrange(lo, hi) == new,
        forall|i: int|
            #![trigger replaced(bytes, lo, hi, new)[i]]
            0 <= i < bytes.len() ==> replaced(bytes, lo, hi, new)[i] == if lo <= i < hi {
                new[i - lo]
            } else {
                bytes[i]
            },
{
    assert(replaced(bytes, lo, hi, new).subrange(lo, hi) =~= new);
}

/// Writing over a part keeps a pool sound, changes what that part reads as, and leaves the
/// number of references, the rest of the backing buffer and every other backing buffer.
pub proof fn law_edit_is_local(p: PoolState, b: BufView, new: Seq<u8>)
    requires
        p.wf(),
        b.in_pool(p),
        new.len() == b.len,
    ensures
        b.edited(p, new).wf(),
        b.in_pool(b.edited(p, new)),
        b.content(b.edited(p, new)) == new,
        b.capacity(b.edited(p, new)) == b.capacity(p),
        b.edited(p, new).at(b.inner).refs == p.at(b.inner).refs,
        p.kept_in(b.edited(p, new), b.inner),
        forall|i: int|
            #![trigger b.edited(p, new).at(b.inner).bytes[i]]
            0 <= i < b.capacity(p) && !(b.start <= i < b.start + b.len) ==> b.edited(p, new).at(
                b.inner,
            ).bytes[i] == p.at(b.inner).bytes[i],
{
    let lo = b.start as int;
    let hi = (b.start + b.len) as int;
    let bytes = p.at(b.inner).bytes;
    lemma_replaced(bytes, lo, hi, new);
    let state = BufState { bytes: replaced(bytes, lo, hi, new), ..p.at(b.inner) };
    lemma_pool_with(p, b.inner, state);
    let q = b.edited(p, new);
    assert(q.valid(b.inner) && q.at(b.inner) == state);
    assert forall|x: HandlePtr| x != b.inner && p.valid(x) implies #[trigger] q.valid(x) && q.at(x)
        == p.at(x) by {
        assert(p.with(b.inner, state).at(x) == p.at(x));
    }
}

/// Another reference to a backing buffer keeps a pool sound, and leaves all bytes and the number
/// of references to every other backing buffer.
pub proof fn law_retain_is_local(p: PoolState, b: BufView)
    requires
        p.wf(),
        b.in_pool(p),
    ensures
        p.retained(b.inner).wf(),
        b.in_pool(p.retained(b.inner)),
        b.content(p.retained(b.inner)) == b.content(p),
        p.retained(b.inner).at(b.inner) == (BufState {
            refs: p.at(b.inner).refs + 1,
            ..p.at(b.inner)
        }),
        p.kept_in(p.retained(b.inner), b.inner),
{
    let state = BufState { refs: p.at(b.inner).refs + 1, ..p.at(b.inner) };
    let q = p.retained(b.inner);
    lemma_pool_with(p, b.inner, state);
    assert(q.valid(b.inner) && q.at(b.inner) == state);
    assert forall|x: HandlePtr| x != b.inner && p.valid(x) implies #[trigger] q.valid(x) && q.at(x)
        == p.at(x) by {
        assert(p.with(b.inner, state).at(x) == p.at(x));
    }
}

/// Slicing twice is slicing once.
pub proof fn law_slices_compose(b: BufView, lo: int, hi: int, lo2: int, hi2: int)
    requires
        0 <= lo <= hi <= b.len,
        0 <= lo2 <= hi2 <= hi - lo,
    ensures
        b.sliced(lo, hi).sliced(lo2, hi2) == b.sliced(lo + lo2, lo + hi2),
{
}

/// What a slice reads as is that part of what the whole reads as, and a slice lies where the
/// whole does.
pub proof fn law_slice_is_a_part(p: PoolState, b: BufView, lo: int, hi: int)
    requires
        b.in_pool(p),
        0 <= lo <= hi <= b.len,
    ensures
        b.sliced(lo, hi).in_pool(p),
        b.sliced(lo, hi).content(p) == b.content(p).subrange(lo, hi),
{
    assert(b.sliced(lo, hi).content(p) =~= b.content(p).subrange(lo, hi));
}

/// The root of a slice is the root of the whole: it reads as the whole backing buffer, of which
/// every slice is a part.
pub proof fn law_root_undoes_slices(p: PoolState, b: BufView, lo: int, hi: int)
    requires
        b.in_pool(p),
        0 <= lo <= hi <= b.len,
    ensures
        b.sliced(lo, hi).rooted(p) == b.rooted(p),
        b.rooted(p).in_pool(p),
        b.rooted(p).content(p) == p.at(b.inner).bytes,
        b.rooted(p).sliced(b.start as int, (b.start + b.len) as int) == b,
{
    assert(b.rooted(p).content(p) =~= p.at(b.inner).bytes);
}

} // verus!
