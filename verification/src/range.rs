//! The ranges that a buffer can be sliced by.
use vstd::prelude::*;

use crate::model::PoolState;
use crate::view::BufView;

verus! {

/// A range of places in something that has a length.
pub trait SliceRange: Sized {
    /// The range lies within `len` places.
    spec fn fits(&self, len: int) -> bool;

    /// The first place.
    spec fn lo(&self, len: int) -> int;

    /// The place after the last.
    spec fn hi(&self, len: int) -> int;

    /// The first place and the place after the last.
    fn bounds(self, len: usize) -> (r: (usize, usize))
        requires
            self.fits(len as int),
        ensures
            r.0 == self.lo(len as int),
            r.1 == self.hi(len as int),
            r.0 <= r.1 <= len,
    ;
}

impl SliceRange for std::ops::Range<usize> {
    open spec fn fits(&self, len: int) -> bool {
        self.start <= self.end <= len
    }

    open spec fn lo(&self, len: int) -> int {
        self.start as int
    }

    open spec fn hi(&self, len: int) -> int {
        self.end as int
    }

    fn bounds(self, len: usize) -> (r: (usize, usize))
        ensures
            r.0 == self.start,
            r.1 == self.end,
    {
        (self.start, self.end)
    }
}

impl SliceRange for std::ops::RangeFrom<usize> {
    open spec fn fits(&self, len: int) -> bool {
        self.start <= len
    }

    open spec fn lo(&self, len: int) -> int {
        self.start as int
    }

    open spec fn hi(&self, len: int) -> int {
        len
    }

    fn bounds(self, len: usize) -> (r: (usize, usize))
        ensures
            r.0 == self.start,
            r.1 == len,
    {
        (self.start, len)
    }
}

impl SliceRange for std::ops::RangeTo<usize> {
    open spec fn fits(&self, len: int) -> bool {
        self.end <= len
    }

    open spec fn lo(&self, len: int) -> int {
        0
    }

    open spec fn hi(&self, len: int) -> int {
        self.end as int
    }

    fn bounds(self, len: usize) -> (r: (usize, usize))
        ensures
            r.0 == 0,
            r.1 == self.end,
    {
        (0, self.end)
    }
}

impl SliceRange for std::ops::RangeToInclusive<usize> {
    open spec fn fits(&self, len: int) -> bool {
        self.end < len
    }

    open spec fn lo(&self, len: int) -> int {
        0
    }

    open spec fn hi(&self, len: int) -> int {
        self.end + 1
    }

    fn bounds(self, len: usize) -> (r: (usize, usize))
        ensures
            r.0 == 0,
            r.1 == self.end + 1,
    {
        (0, self.end + 1)
    }
}

impl SliceRange for std::ops::RangeFull {
    open spec fn fits(&self, len: int) -> bool {
        true
    }

    open spec fn lo(&self, len: int) -> int {
        0
    }

    open spec fn hi(&self, len: int) -> int {
        len
    }

    fn bounds(self, len: usize) -> (r: (usize, usize))
        ensures
            r.0 == 0,
            r.1 == len,
    {
        (0, len)
    }
}

impl SliceRange for std::ops::RangeInclusive<usize> {
    open spec fn fits(&self, len: int) -> bool {
        !self@.exhausted && self@.start <= self@.end + 1 <= len
    }

    open spec fn lo(&self, len: int) -> int {
        self@.start as int
    }

    open spec fn hi(&self, len: int) -> int {
        self@.end + 1
    }

    fn bounds(self, len: usize) -> (r: (usize, usize))
        ensures
            r.0 == self@.start,
            r.1 == self@.end + 1,
    {
        (*self.start(), *self.end() + 1)
    }
}

impl SliceRange for (std::ops::Bound<usize>, std::ops::Bound<usize>) {
    open spec fn fits(&self, len: int) -> bool {
        self.lo(len) <= self.hi(len) <= len
    }

    open spec fn lo(&self, len: int) -> int {
        match self.0 {
            std::ops::Bound::Included(start) => start as int,
            std::ops::Bound::Excluded(start) => start + 1,
            std::ops::Bound::Unbounded => 0,
        }
    }

    open spec fn hi(&self, len: int) -> int {
        match self.1 {
            std::ops::Bound::Included(end) => end + 1,
            std::ops::Bound::Excluded(end) => end as int,
            std::ops::Bound::Unbounded => len,
        }
    }

    fn bounds(self, len: usize) -> (r: (usize, usize))
        ensures
            match self.0 {
                std::ops::Bound::Included(start) => r.0 == start,
                std::ops::Bound::Excluded(start) => r.0 == start + 1,
                std::ops::Bound::Unbounded => r.0 == 0,
            },
            match self.1 {
                std::ops::Bound::Included(end) => r.1 == end + 1,
                std::ops::Bound::Excluded(end) => r.1 == end,
                std::ops::Bound::Unbounded => r.1 == len,
            },
    {
        let lo: usize = match self.0 {
            std::ops::Bound::Included(start) => start,
            std::ops::Bound::Excluded(start) => start + 1,
            std::ops::Bound::Unbounded => 0,
        };
        let hi: usize = match self.1 {
            std::ops::Bound::Included(end) => end + 1,
            std::ops::Bound::Excluded(end) => end,
            std::ops::Bound::Unbounded => len,
        };
        (lo, hi)
    }
}

/// What slicing by a range does to a buffer that is in a pool: the part begins `lo` bytes further
/// and ends `hi` bytes behind where the buffer begins, and reads as those of its bytes.
proof fn lemma_sliced_reads<R: SliceRange>(p: PoolState, b: BufView, range: R, lo: int, hi: int)
    requires
        b.in_pool(p),
        0 <= lo <= hi <= b.len,
        range.lo(b.len as int) == lo,
        range.hi(b.len as int) == hi,
    ensures
        ({
            let part = b.sliced(range.lo(b.len as int), range.hi(b.len as int));
            &&& part.inner == b.inner
            &&& part.start == b.start + lo
            &&& part.len == hi - lo
            &&& part.in_pool(p)
            &&& part.content(p).len() == hi - lo
            &&& forall|i: int|
                0 <= i < hi - lo ==> #[trigger] part.content(p)[i] == b.content(p)[lo + i]
        }),
{
}

/// Slicing by `start..end` gives the bytes from `start` up to `end`.
pub proof fn law_slice_from_start_to_end(p: PoolState, b: BufView, range: std::ops::Range<usize>)
    requires
        b.in_pool(p),
    ensures
        range.fits(b.len as int) <==> range.start <= range.end && range.end <= b.len,
        range.fits(b.len as int) ==> {
            let part = b.sliced(range.lo(b.len as int), range.hi(b.len as int));
            &&& part.inner == b.inner
            &&& part.start == b.start + range.start
            &&& part.len == range.end - range.start
            &&& part.in_pool(p)
            &&& part.content(p).len() == range.end - range.start
            &&& forall|i: int|
                0 <= i < range.end - range.start ==> #[trigger] part.content(p)[i] == b.content(
                    p,
                )[range.start + i]
        },
{
    if range.fits(b.len as int) {
        lemma_sliced_reads(p, b, range, range.start as int, range.end as int);
    }
}

/// Slicing by `start..` gives the bytes from `start` on.
pub proof fn law_slice_from_start(p: PoolState, b: BufView, range: std::ops::RangeFrom<usize>)
    requires
        b.in_pool(p),
    ensures
        range.fits(b.len as int) <==> range.start <= b.len,
        range.fits(b.len as int) ==> {
            let part = b.sliced(range.lo(b.len as int), range.hi(b.len as int));
            &&& part.inner == b.inner
            &&& part.start == b.start + range.start
            &&& part.len == b.len - range.start
            &&& part.in_pool(p)
            &&& part.content(p).len() == b.len - range.start
            &&& forall|i: int|
                0 <= i < b.len - range.start ==> #[trigger] part.content(p)[i] == b.content(
                    p,
                )[range.start + i]
        },
{
    if range.fits(b.len as int) {
        lemma_sliced_reads(p, b, range, range.start as int, b.len as int);
    }
}

/// Slicing by `..end` gives the first `end` bytes.
pub proof fn law_slice_up_to_end(p: PoolState, b: BufView, range: std::ops::RangeTo<usize>)
    requires
        b.in_pool(p),
    ensures
        range.fits(b.len as int) <==> range.end <= b.len,
        range.fits(b.len as int) ==> {
            let part = b.sliced(range.lo(b.len as int), range.hi(b.len as int));
            &&& part.inner == b.inner
            &&& part.start == b.start
            &&& part.len == range.end
            &&& part.in_pool(p)
            &&& part.content(p).len() == range.end
            &&& forall|i: int|
                0 <= i < range.end ==> #[trigger] part.content(p)[i] == b.content(p)[i]
        },
{
    if range.fits(b.len as int) {
        lemma_sliced_reads(p, b, range, 0, range.end as int);
    }
}

/// Slicing by `..=end` gives the bytes up to that at `end`, with it.
pub proof fn law_slice_through_end(
    p: PoolState,
    b: BufView,
    range: std::ops::RangeToInclusive<usize>,
)
    requires
        b.in_pool(p),
    ensures
        range.fits(b.len as int) <==> range.end < b.len,
        range.fits(b.len as int) ==> {
            let part = b.sliced(range.lo(b.len as int), range.hi(b.len as int));
            &&& part.inner == b.inner
            &&& part.start == b.start
            &&& part.len == range.end + 1
            &&& part.in_pool(p)
            &&& part.content(p).len() == range.end + 1
            &&& forall|i: int|
                0 <= i < range.end + 1 ==> #[trigger] part.content(p)[i] == b.content(p)[i]
        },
{
    if range.fits(b.len as int) {
        lemma_sliced_reads(p, b, range, 0, range.end + 1);
    }
}

/// Slicing by `..` gives all the bytes.
pub proof fn law_slice_all(p: PoolState, b: BufView, range: std::ops::RangeFull)
    requires
        b.in_pool(p),
    ensures
        range.fits(b.len as int),
        range.fits(b.len as int) ==> {
            let part = b.sliced(range.lo(b.len as int), range.hi(b.len as int));
            &&& part.inner == b.inner
            &&& part.start == b.start
            &&& part.len == b.len
            &&& part.in_pool(p)
            &&& part.content(p).len() == b.len
            &&& forall|i: int|
                0 <= i < b.len ==> #[trigger] part.content(p)[i] == b.content(p)[i]
        },
{
    if range.fits(b.len as int) {
        lemma_sliced_reads(p, b, range, 0, b.len as int);
    }
}

/// Slicing by `start..=end` gives the bytes from `start` up to that at `end`, with it.
pub proof fn law_slice_from_start_through_end(
    p: PoolState,
    b: BufView,
    range: std::ops::RangeInclusive<usize>,
)
    requires
        b.in_pool(p),
    ensures
        range.fits(b.len as int) <==> !range@.exhausted && range@.start <= range@.end + 1
            && range@.end < b.len,
        range.fits(b.len as int) ==> {
            let part = b.sliced(range.lo(b.len as int), range.hi(b.len as int));
            &&& part.inner == b.inner
            &&& part.start == b.start + range@.start
            &&& part.len == (range@.end + 1) - range@.start
            &&& part.in_pool(p)
            &&& part.content(p).len() == (range@.end + 1) - range@.start
            &&& forall|i: int|
                0 <= i < (range@.end + 1) - range@.start ==> #[trigger] part.content(p)[i]
                    == b.content(p)[range@.start + i]
        },
{
    if range.fits(b.len as int) {
        lemma_sliced_reads(p, b, range, range@.start as int, (range@.end + 1) as int);
    }
}

/// Slicing by a pair of bounds gives the bytes from the first bound up to the second, without an
/// excluded first one and with an included last one.
pub proof fn law_slice_between_bounds(
    p: PoolState,
    b: BufView,
    start: std::ops::Bound<usize>,
    end: std::ops::Bound<usize>,
    lo: int,
    hi: int,
)
    requires
        b.in_pool(p),
        match start {
            std::ops::Bound::Included(s) => lo == s,
            std::ops::Bound::Excluded(s) => lo == s + 1,
            std::ops::Bound::Unbounded => lo == 0,
        },
        match end {
            std::ops::Bound::Included(e) => hi == e + 1,
            std::ops::Bound::Excluded(e) => hi == e,
            std::ops::Bound::Unbounded => hi == b.len,
        },
    ensures
        (start, end).fits(b.len as int) <==> lo <= hi && hi <= b.len,
        (start, end).fits(b.len as int) ==> {
            let part = b.sliced((start, end).lo(b.len as int), (start, end).hi(b.len as int));
            &&& part.inner == b.inner
            &&& part.start == b.start + lo
            &&& part.len == hi - lo
            &&& part.in_pool(p)
            &&& part.content(p).len() == hi - lo
            &&& forall|i: int|
                0 <= i < hi - lo ==> #[trigger] part.content(p)[i] == b.content(p)[lo + i]
        },
{
    if (start, end).fits(b.len as int) {
        lemma_sliced_reads(p, b, (start, end), lo, hi);
    }
}

} // verus!
