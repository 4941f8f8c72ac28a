//! A slab: one mapping that holds many buffers of one size, and the handles that count the
//! references to them.
use vstd::bytes::{
    lemma_auto_spec_u64_to_from_le_bytes, spec_u64_from_le_bytes, spec_u64_to_le_bytes,
    spec_u64_to_le_bytes_to_open, u64_from_le_bytes, u64_to_le_bytes,
};
use vstd::prelude::*;

use crate::class::{
    class_of, largest_buffer_size, lemma_class_in_range, lemma_class_monotone, lemma_class_sizes,
    lemma_rounding, page_align, rounded, LARGEST_BUFFER_SIZE, PAGE_ALIGN, SMALLEST_BUFFER_SIZE,
};
use crate::error::AllocError;
use crate::foreign::{map_anon, mapped, mapped_bytes, mapped_bytes_mut, words_layout};
use crate::model::{filled, fresh_slab, names, replaced, zeros, BufState};
use crate::queue::RecycleQueue;

verus! {

/// The bytes that one handle takes in a mapping.
pub const HANDLE_SIZE: usize = 8;

/// The bytes at the front of a mapping that are set aside for `count` handles: they fill whole
/// pages.
pub open spec fn handle_area(count: nat) -> nat {
    ((HANDLE_SIZE * count + PAGE_ALIGN - 1) / PAGE_ALIGN as int * PAGE_ALIGN) as nat
}

/// The bytes that the buffers of a slab take, for `count` requests of `size` bytes.
pub open spec fn buffer_area(count: nat, size: nat) -> nat {
    rounded(size) * count
}

/// A buffer takes a page at least.
pub proof fn lemma_buffer_area(count: nat, size: nat)
    ensures
        buffer_area(count, size) >= SMALLEST_BUFFER_SIZE * count,
{
    lemma_class_sizes();
    lemma_class_monotone(0, class_of(size));
    assert(rounded(size) * count >= SMALLEST_BUFFER_SIZE * count) by (nonlinear_arith)
        requires
            rounded(size) >= SMALLEST_BUFFER_SIZE,
    ;
}

/// The bytes of a whole slab.
pub open spec fn slab_bytes(count: nat, size: nat) -> nat {
    handle_area(count) + buffer_area(count, size)
}

/// The memory of a slab: `| handles | padding to a page | buffers |`.
pub struct SlabLayout {
    /// The size of each buffer.
    pub size: usize,
    /// Where the first buffer starts.
    pub first: usize,
    /// The bytes in all.
    pub total: usize,
}

impl SlabLayout {
    /// The layout of a slab of `count` buffers for requests of `size` bytes.
    pub open spec fn describes(self, count: nat, size: nat) -> bool {
        &&& self.size == rounded(size)
        &&& self.first == handle_area(count)
        &&& self.total == slab_bytes(count, size)
    }

    /// Lays out a slab of `count` buffers, each large enough for `size` bytes.
    pub fn plan(count: usize, size: usize) -> (r: Result<SlabLayout, AllocError>)
        requires
            size <= LARGEST_BUFFER_SIZE && buffer_area(count as nat, size as nat) <= usize::MAX
                ==> slab_bytes(count as nat, size as nat) <= usize::MAX,
        ensures
            match r {
                Ok(layout) => {
                    &&& size <= LARGEST_BUFFER_SIZE
                    &&& buffer_area(count as nat, size as nat) <= usize::MAX
                    &&& layout.describes(count as nat, size as nat)
                    &&& layout.size == rounded(size as nat)
                    &&& 8 * count <= layout.first < 8 * count + 4096
                    &&& layout.first % 4096 == 0
                    &&& layout.total == layout.first + layout.size * count
                },
                Err(AllocError::InvalidBufferSize(n)) => {
                    ||| size > LARGEST_BUFFER_SIZE && n == size
                    ||| size <= LARGEST_BUFFER_SIZE && buffer_area(count as nat, size as nat)
                        > usize::MAX && n == count
                },
                Err(_) => false,
            },
    {
        let page: usize = page_align();
        proof {
            lemma_class_in_range(size as nat);
            vstd::arithmetic::power2::lemma2_to64();
        }
        let power: usize = match size.checked_next_power_of_two() {
            Some(power) => power,
            None => {
                proof {
                    assert(size > LARGEST_BUFFER_SIZE) by {
                        assert(vstd::arithmetic::power2::pow2(17) <= usize::MAX);
                    }
                }
                return Err(AllocError::InvalidBufferSize(size));
            },
        };
        proof {
            lemma_rounding(size as nat, power as nat);
            lemma_buffer_area(count as nat, size as nat);
        }
        if power > largest_buffer_size() {
            return Err(AllocError::InvalidBufferSize(size));
        }
        let size: usize = if power > SMALLEST_BUFFER_SIZE {
            power
        } else {
            SMALLEST_BUFFER_SIZE
        };
        let buffers: usize = match size.checked_mul(count) {
            Some(buffers) => buffers,
            None => {
                return Err(AllocError::InvalidBufferSize(count));
            },
        };
        let handles: usize = match words_layout(count) {
            Ok(handles) => handles,
            Err(e) => {
                return Err(AllocError::from(e));
            },
        };
        let over: usize = handles % page;
        let padding: usize = if over == 0 {
            0
        } else {
            page - over
        };
        proof {
            assert(handles + padding == handle_area(count as nat));
        }
        Ok(SlabLayout { size, first: handles + padding, total: handles + padding + buffers })
    }
}

/// Where the buffer at `i` starts, when the first starts at `first` and each takes `size` bytes.
pub open spec fn buffer_at(first: int, size: int, i: int) -> int {
    first + i * size
}

/// The count that the handle at `i` holds.
pub open spec fn handle_count(bytes: Seq<u8>, i: int) -> nat {
    spec_u64_from_le_bytes(bytes.subrange(HANDLE_SIZE * i, HANDLE_SIZE * i + HANDLE_SIZE)) as nat
}

/// The buffer at `i`, as the bytes of a mapping hold it.
pub open spec fn buffer_in(bytes: Seq<u8>, first: int, size: int, i: int) -> BufState {
    BufState {
        refs: handle_count(bytes, i),
        bytes: bytes.subrange(buffer_at(first, size, i), buffer_at(first, size, i) + size),
    }
}

/// The buffers of a slab, each of `size` bytes, lie in `block` as the layout has it.
pub open spec fn lies_in(buffers: Seq<BufState>, size: nat, block: Seq<u8>) -> bool {
    let first = handle_area(buffers.len()) as int;
    &&& block.len() == first + size * buffers.len()
    &&& forall|i: int|
        0 <= i < buffers.len() ==> #[trigger] buffers[i] == buffer_in(block, first, size as int, i)
}

/// Bytes that a write does not touch stay.
proof fn lemma_replaced_elsewhere(bytes: Seq<u8>, at: int, new: Seq<u8>, lo: int, hi: int)
    requires
        0 <= at,
        at + new.len() <= bytes.len(),
        0 <= lo <= hi <= bytes.len(),
        hi <= at || at + new.len() <= lo,
    ensures
        replaced(bytes, at, at + new.len(), new).subrange(lo, hi) == bytes.subrange(lo, hi),
{
    assert(replaced(bytes, at, at + new.len(), new).subrange(lo, hi) =~= bytes.subrange(lo, hi));
}

/// Bytes that a write covers are the new ones.
proof fn lemma_replaced_there(bytes: Seq<u8>, at: int, new: Seq<u8>)
    requires
        0 <= at,
        at + new.len() <= bytes.len(),
    ensures
        replaced(bytes, at, at + new.len(), new).subrange(at, at + new.len()) == new,
{
    assert(replaced(bytes, at, at + new.len(), new).subrange(at, at + new.len()) =~= new);
}

/// The handles take eight bytes each and are filled up to the next page, so by less than one, and
/// the buffers take as many bytes as they have together.
pub proof fn law_slab_by_the_byte(count: nat, size: nat)
    ensures
        8 * count <= handle_area(count) < 8 * count + 4096,
        handle_area(count) % 4096 == 0,
        buffer_area(0, size) == 0,
        buffer_area(count + 1, size) == buffer_area(count, size) + rounded(size),
        slab_bytes(count, size) == handle_area(count) + buffer_area(count, size),
{
    assert(rounded(size) * 0 == 0) by (nonlinear_arith);
    assert(rounded(size) * (count + 1) == rounded(size) * count + rounded(size))
        by (nonlinear_arith);
}

/// The layout of a slab by its fields.
pub proof fn law_layout_by_its_fields(layout: SlabLayout, count: nat, size: nat)
    ensures
        layout.describes(count, size) <==> {
            &&& layout.size == rounded(size)
            &&& 8 * count <= layout.first < 8 * count + 4096
            &&& layout.first % 4096 == 0
            &&& layout.total == layout.first + layout.size * count
        },
{
    law_slab_by_the_byte(count, size);
}

/// The buffers of a slab follow each other without gaps, the first one at `first`.
pub proof fn law_buffers_follow_each_other(first: int, size: int, i: int)
    ensures
        buffer_at(first, size, 0) == first,
        buffer_at(first, size, i + 1) == buffer_at(first, size, i) + size,
{
    assert(0 * size == 0) by (nonlinear_arith);
    assert((i + 1) * size == i * size + size) by (nonlinear_arith);
}

/// A buffer of a slab has the bytes of the block that lie in its place, and the count that the
/// eight bytes of its handle spell, the lowest byte first.
pub proof fn law_buffer_is_read_in_the_block(
    block: Seq<u8>,
    first: int,
    size: int,
    count: int,
    i: int,
)
    requires
        0 <= size,
        0 <= i < count,
        8 * count <= first,
        block.len() == first + size * count,
    ensures
        buffer_in(block, first, size, i).bytes.len() == size,
        forall|j: int|
            0 <= j < size ==> #[trigger] buffer_in(block, first, size, i).bytes[j] == block[first + i
                * size + j],
        buffer_in(block, first, size, i).refs <= u64::MAX,
        forall|j: int|
            0 <= j < 8 ==> #[trigger] spec_u64_to_le_bytes(
                buffer_in(block, first, size, i).refs as u64,
            )[j] == block[8 * i + j],
{
    lemma_places(count, size, i, i);
    lemma_auto_spec_u64_to_from_le_bytes();
    let word = block.subrange(8 * i, 8 * i + 8);
    assert(spec_u64_to_le_bytes(spec_u64_from_le_bytes(word)) == word);
}

/// Every buffer of a slab starts at a page boundary of its mapping, behind the handles, ends
/// inside the mapping, and shares no byte with another.
pub proof fn law_buffers_are_aligned_and_disjoint(count: nat, size: nat, i: int, j: int)
    requires
        0 <= i < count,
        0 <= j < count,
    ensures
        ({
            let first = handle_area(count) as int;
            let n = rounded(size) as int;
            &&& HANDLE_SIZE * count <= first
            &&& buffer_at(first, n, i) % PAGE_ALIGN as int == 0
            &&& HANDLE_SIZE * count <= buffer_at(first, n, i)
            &&& buffer_at(first, n, i) + n <= slab_bytes(count, size)
            &&& i < j ==> buffer_at(first, n, i) + n <= buffer_at(first, n, j)
            &&& j < i ==> buffer_at(first, n, j) + n <= buffer_at(first, n, i)
        }),
{
    let n = rounded(size) as int;
    let p = vstd::arithmetic::power2::pow2(class_of(size)) as int;
    lemma_places(count as int, n, i, j);
    assert(i * (4096 * p) == 4096 * (i * p)) by (nonlinear_arith);
    assert((4096 * (i * p)) % 4096 == 0);
}

/// Equal pieces in a row lie apart and inside the row.
proof fn lemma_places(count: int, n: int, i: int, j: int)
    by (nonlinear_arith)
    requires
        0 <= n,
        0 <= i < count,
        0 <= j < count,
    ensures
        0 <= i * n,
        i * n + n <= n * count,
        i < j ==> i * n + n <= j * n,
        j < i ==> j * n + n <= i * n,
{
}

/// A handle of zero bytes counts no reference.
proof fn lemma_zero_handle()
    ensures
        spec_u64_from_le_bytes(zeros(8)) == 0,
{
    lemma_auto_spec_u64_to_from_le_bytes();
    spec_u64_to_le_bytes_to_open(0);
    assert(0u64 & 0xff == 0 && (0u64 >> 8) & 0xff == 0 && (0u64 >> 16) & 0xff == 0 && (0u64 >> 24)
        & 0xff == 0 && (0u64 >> 32) & 0xff == 0 && (0u64 >> 40) & 0xff == 0 && (0u64 >> 48) & 0xff
        == 0 && (0u64 >> 56) & 0xff == 0) by (bit_vector);
    assert(spec_u64_to_le_bytes(0) =~= zeros(8));
}

/// A recycling pool of buffers, and a place for the buffers' handles.
///
/// One mapping holds both: `| HANDLE_SIZE * count | padding to a page | size * count |`.
pub struct BufferSlab {
    size: usize,
    count: usize,
    first: usize,
    mmap: memmap2::MmapMut,
}

impl View for BufferSlab {
    type V = Seq<BufState>;

    closed spec fn view(&self) -> Seq<BufState> {
        Seq::new(
            self.count as nat,
            |i: int| buffer_in(mapped(self.mmap), self.first as int, self.size as int, i),
        )
    }
}

impl BufferSlab {
    /// The mapping has the slab's layout, and its counts fit a machine word.
    pub closed spec fn wf(&self) -> bool {
        &&& self.first == handle_area(self.count as nat)
        &&& mapped(self.mmap).len() == self.first + self.size * self.count
        &&& self.first + self.size * self.count <= usize::MAX
        &&& forall|i: int|
            0 <= i < self.count ==> #[trigger] handle_count(mapped(self.mmap), i) <= usize::MAX
    }

    /// The size of each buffer.
    pub closed spec fn buffer_size(&self) -> nat {
        self.size as nat
    }

    /// Each buffer is as long as the slab says, and all of it fits the address space.
    pub proof fn lemma_sizes(&self)
        requires
            self.wf(),
        ensures
            forall|i: int|
                0 <= i < self@.len() ==> (#[trigger] self@[i]).bytes.len() == self.buffer_size() && self@[i].refs
                    <= usize::MAX,
            self@.len() <= usize::MAX,
            handle_area(self@.len()) + self.buffer_size() * self@.len() <= usize::MAX,
    {
        assert forall|i: int| 0 <= i < self@.len() implies (#[trigger] self@[i]).bytes.len()
            == self.buffer_size() && self@[i].refs <= usize::MAX by {
            lemma_places(self.count as int, self.size as int, i, i);
            assert(handle_count(mapped(self.mmap), i) <= usize::MAX);
        }
    }

    /// The memory of a slab is one block of bytes: the handles, padding to a page, and the buffers
    /// one after the other. Every count and every byte that the slab holds is read there.
    pub proof fn law_slab_lies_in_one_block(&self)
        requires
            self.wf(),
        ensures
            exists|block: Seq<u8>| #[trigger] lies_in(self@, self.buffer_size(), block),
    {
        let block = mapped(self.mmap);
        assert(self.first + self.size * self.count == handle_area(self@.len()) + self.buffer_size()
            * self@.len());
        assert(lies_in(self@, self.buffer_size(), block));
    }

    /// The number of buffers.
    pub fn count(&self) -> (n: usize)
        ensures
            n == self@.len(),
    {
        self.count
    }

    /// Makes a slab of `count` buffers, each large enough for `size` bytes, in fresh memory.
    /// Every buffer goes into the queue, under the number `slab`.
    pub fn new(
        count: usize,
        size: usize,
        queue: &mut RecycleQueue,
        slab: usize,
    ) -> (r: Result<BufferSlab, AllocError>)
        requires
            old(queue).wf(),
            size <= LARGEST_BUFFER_SIZE && buffer_area(count as nat, size as nat) <= usize::MAX
                ==> slab_bytes(count as nat, size as nat) <= usize::MAX,
        ensures
            final(queue).wf(),
            size > LARGEST_BUFFER_SIZE ==> r == Err::<BufferSlab, AllocError>(
                AllocError::InvalidBufferSize(size),
            ),
            size <= LARGEST_BUFFER_SIZE && buffer_area(count as nat, size as nat) > usize::MAX
                ==> r == Err::<BufferSlab, AllocError>(AllocError::InvalidBufferSize(count)),
            size <= LARGEST_BUFFER_SIZE && buffer_area(count as nat, size as nat) <= usize::MAX
                ==> (r is Ok || r->Err_0 is AllocFailed),
            match r {
                Ok(s) => {
                    &&& s.wf()
                    &&& s.buffer_size() == rounded(size as nat)
                    &&& s@ == fresh_slab(count as nat, rounded(size as nat))
                    &&& final(queue)@ == old(queue)@ + names(slab, count as nat)
                },
                Err(_) => final(queue)@ == old(queue)@,
            },
    {
        match SlabLayout::plan(count, size) {
            Ok(layout) => {
                let mapping = map_anon(layout.total);
                BufferSlab::in_mapping(count, size, layout, mapping, queue, slab)
            },
            Err(e) => Err(e),
        }
    }

    /// Makes a slab in the memory that the system granted, or tells why it did not.
    pub fn in_mapping(
        count: usize,
        size: usize,
        layout: SlabLayout,
        mapping: Result<memmap2::MmapMut, std::io::Error>,
        queue: &mut RecycleQueue,
        slab: usize,
    ) -> (r: Result<BufferSlab, AllocError>)
        requires
            old(queue).wf(),
            layout.describes(count as nat, size as nat),
            mapping matches Ok(m) ==> mapped(m).len() == layout.total,
        ensures
            final(queue).wf(),
            match mapping {
                Ok(_) => {
                    &&& r is Ok
                    &&& r->Ok_0.wf()
                    &&& r->Ok_0.buffer_size() == rounded(size as nat)
                    &&& r->Ok_0@ == fresh_slab(count as nat, rounded(size as nat))
                    &&& final(queue)@ == old(queue)@ + names(slab, count as nat)
                },
                Err(e) => {
                    &&& r == Err::<BufferSlab, AllocError>(AllocError::AllocFailed(e))
                    &&& final(queue)@ == old(queue)@
                },
            },
    {
        let mut mmap = match mapping {
            Ok(mmap) => mmap,
            Err(e) => {
                return Err(AllocError::from(e));
            },
        };
        let bytes: &mut [u8] = mapped_bytes_mut(&mut mmap);
        write_value(bytes, 0);
        let made = BufferSlab { size: layout.size, count, first: layout.first, mmap };
        proof {
            let all = mapped(made.mmap);
            assert(all =~= zeros(layout.total as nat));
            lemma_zero_handle();
            assert forall|i: int| 0 <= i < count implies #[trigger] handle_count(all, i) == 0 by {
                lemma_places(count as int, layout.size as int, i, i);
                assert(all.subrange(HANDLE_SIZE * i, HANDLE_SIZE * i + HANDLE_SIZE) =~= zeros(8));
            }
            assert forall|i: int| 0 <= i < count implies #[trigger] made@[i]
                == fresh_slab(count as nat, layout.size as nat)[i] by {
                lemma_places(count as int, layout.size as int, i, i);
                assert(handle_count(all, i) == 0);
                assert(made@[i].bytes =~= zeros(layout.size as nat));
            }
            assert(made@ =~= fresh_slab(count as nat, layout.size as nat));
        }
        let mut idx: usize = 0;
        while idx < count
            invariant
                idx <= count,
                queue.wf(),
                queue@ =~= old(queue)@ + names(slab, idx as nat),
            decreases count - idx,
        {
            queue.push((slab, idx));
            idx = idx + 1;
        }
        Ok(made)
    }

    /// How many references to the buffer at `i` are held.
    pub fn refs(&self, i: usize) -> (n: usize)
        requires
            self.wf(),
            i < self@.len(),
        ensures
            n == self@[i as int].refs,
    {
        proof {
            lemma_places(self.count as int, self.size as int, i as int, i as int);
            assert(handle_count(mapped(self.mmap), i as int) <= usize::MAX);
        }
        let at: usize = HANDLE_SIZE * i;
        let bytes: &[u8] = mapped_bytes(&self.mmap);
        let word: &[u8] = vstd::slice::slice_subrange(bytes, at, at + HANDLE_SIZE);
        u64_from_le_bytes(word) as usize
    }

    /// Sets how many references to the buffer at `i` are held.
    pub fn set_refs(&mut self, i: usize, n: usize)
        requires
            old(self).wf(),
            i < old(self)@.len(),
        ensures
            final(self).wf(),
            final(self).buffer_size() == old(self).buffer_size(),
            final(self)@ == old(self)@.update(
                i as int,
                BufState { refs: n as nat, ..old(self)@[i as int] },
            ),
    {
        proof {
            lemma_places(self.count as int, self.size as int, i as int, i as int);
        }
        let ghost before = mapped(self.mmap);
        let at: usize = HANDLE_SIZE * i;
        let word: Vec<u8> = u64_to_le_bytes(n as u64);
        let bytes: &mut [u8] = mapped_bytes_mut(&mut self.mmap);
        let area: &mut [u8] = subslice_mut(bytes, at, HANDLE_SIZE);
        write_bytes(area, word.as_slice());
        proof {
            let after = mapped(self.mmap);
            assert(after == replaced(before, at as int, at + HANDLE_SIZE, word@));
            lemma_auto_spec_u64_to_from_le_bytes();
            lemma_replaced_there(before, at as int, word@);
            assert(handle_count(after, i as int) == n);
            assert forall|j: int| 0 <= j < self.count && j != i implies #[trigger] handle_count(
                after,
                j,
            ) == handle_count(before, j) by {
                lemma_places(self.count as int, self.size as int, i as int, j);
                lemma_replaced_elsewhere(
                    before,
                    at as int,
                    word@,
                    HANDLE_SIZE * j,
                    HANDLE_SIZE * j + HANDLE_SIZE,
                );
            }
            assert forall|j: int| 0 <= j < self.count implies #[trigger] self@[j].bytes == old(
                self,
            )@[j].bytes by {
                lemma_places(self.count as int, self.size as int, j, j);
                let lo = buffer_at(self.first as int, self.size as int, j);
                lemma_replaced_elsewhere(before, at as int, word@, lo, lo + self.size);
            }
            assert forall|j: int| 0 <= j < self.count implies #[trigger] self@[j] == old(
                self,
            )@.update(i as int, BufState { refs: n as nat, ..old(self)@[i as int] })[j] by {
                assert(self@[j].bytes == old(self)@[j].bytes);
                if j != i {
                    assert(handle_count(after, j) == handle_count(before, j));
                }
            }
            assert(self@ =~= old(self)@.update(
                i as int,
                BufState { refs: n as nat, ..old(self)@[i as int] },
            ));
        }
    }

    /// The bytes of the buffer at `i`.
    pub fn bytes(&self, i: usize) -> (bytes: &[u8])
        requires
            self.wf(),
            i < self@.len(),
        ensures
            bytes@ == self@[i as int].bytes,
    {
        proof {
            lemma_places(self.count as int, self.size as int, i as int, i as int);
            assert(i * self.size == self.size * i) by (nonlinear_arith);
        }
        let at: usize = self.first + self.size * i;
        vstd::slice::slice_subrange(mapped_bytes(&self.mmap), at, at + self.size)
    }

    /// The bytes of the buffer at `i`, for writing.
    pub fn bytes_mut(&mut self, i: usize) -> (bytes: &mut [u8])
        requires
            old(self).wf(),
            i < old(self)@.len(),
        ensures
            bytes@ == old(self)@[i as int].bytes,
            final(bytes)@.len() == old(self)@[i as int].bytes.len(),
            final(self).wf(),
            final(self).buffer_size() == old(self).buffer_size(),
            final(self)@ == old(self)@.update(
                i as int,
                BufState { bytes: final(bytes)@, ..old(self)@[i as int] },
            ),
    {
        proof {
            lemma_places(self.count as int, self.size as int, i as int, i as int);
            assert(i * self.size == self.size * i) by (nonlinear_arith);
        }
        let ghost before = mapped(self.mmap);
        let at: usize = self.first + self.size * i;
        let bytes: &mut [u8] = mapped_bytes_mut(&mut self.mmap);
        let area: &mut [u8] = subslice_mut(bytes, at, self.size);
        proof {
            lemma_buffer_written(
                before,
                self.first as int,
                self.size as int,
                self.count as int,
                i as int,
                final(area)@,
            );
        }
        area
    }
}

/// A write into one buffer leaves the other buffers and all the handles as they were.
proof fn lemma_buffer_written(
    before: Seq<u8>,
    first: int,
    size: int,
    count: int,
    i: int,
    new: Seq<u8>,
)
    requires
        0 <= size,
        0 <= i < count,
        HANDLE_SIZE * count <= first,
        before.len() == first + size * count,
        new.len() == size,
    ensures
        ({
            let at = buffer_at(first, size, i);
            let after = replaced(before, at, at + size, new);
            &&& forall|j: int|
                0 <= j < count ==> #[trigger] handle_count(after, j) == handle_count(before, j)
            &&& forall|j: int|
                0 <= j < count ==> #[trigger] buffer_in(after, first, size, j) == if j == i {
                    BufState { refs: handle_count(before, i), bytes: new }
                } else {
                    buffer_in(before, first, size, j)
                }
        }),
{
    let at = buffer_at(first, size, i);
    let after = replaced(before, at, at + size, new);
    lemma_places(count, size, i, i);
    lemma_replaced_there(before, at, new);
    assert forall|j: int| 0 <= j < count implies #[trigger] handle_count(after, j) == handle_count(
        before,
        j,
    ) by {
        lemma_replaced_elsewhere(before, at, new, HANDLE_SIZE * j, HANDLE_SIZE * j + HANDLE_SIZE);
    }
    assert forall|j: int| 0 <= j < count implies #[trigger] buffer_in(after, first, size, j) == if j
        == i {
        BufState { refs: handle_count(before, i), bytes: new }
    } else {
        buffer_in(before, first, size, j)
    } by {
        assert(handle_count(after, j) == handle_count(before, j));
        if j != i {
            lemma_places(count, size, i, j);
            lemma_places(count, size, j, j);
            let lo = buffer_at(first, size, j);
            lemma_replaced_elsewhere(before, at, new, lo, lo + size);
        }
    }
}

/// The `n` bytes of `bytes` from `lo` on, for writing.
pub fn subslice_mut(bytes: &mut [u8], lo: usize, n: usize) -> (part: &mut [u8])
    requires
        lo + n <= old(bytes)@.len(),
    ensures
        part@ == old(bytes)@.subrange(lo as int, lo + n),
        final(bytes)@ == replaced(old(bytes)@, lo as int, lo + n, final(part)@),
{
    let (_before, rest) = bytes.split_at_mut(lo);
    let (part, _after) = rest.split_at_mut(n);
    part
}

/// Copies `src` over `dst`.
pub fn write_bytes(dst: &mut [u8], src: &[u8])
    requires
        old(dst)@.len() == src@.len(),
    ensures
        final(dst)@ == src@,
{
    let n: usize = src.len();
    let mut i: usize = 0;
    while i < n
        invariant
            i <= n,
            n == src@.len(),
            n == dst@.len(),
            forall|k: int| 0 <= k < i ==> dst@[k] == src@[k],
        decreases n - i,
    {
        dst[i] = src[i];
        i = i + 1;
    }
    proof {
        assert(dst@ =~= src@);
    }
}

/// Writes `value` into every byte.
pub fn write_value(bytes: &mut [u8], value: u8)
    ensures
        final(bytes)@ == filled(value, old(bytes)@.len()),
        final(bytes)@.len() == old(bytes)@.len(),
        forall|k: int| 0 <= k < old(bytes)@.len() ==> #[trigger] final(bytes)@[k] == value,
{
    let n: usize = bytes.len();
    let mut i: usize = 0;
    while i < n
        invariant
            i <= n,
            n == bytes@.len(),
            n == old(bytes)@.len(),
            forall|k: int| 0 <= k < i ==> bytes@[k] == value,
        decreases n - i,
    {
        bytes[i] = value;
        i = i + 1;
    }
    proof {
        assert(bytes@ =~= filled(value, n as nat));
    }
}

} // verus!
