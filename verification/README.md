# ioubuf

Reference counted buffers over page aligned, recycled memory, written in Rust and verified with
Verus.

An `IouBuf` names a part of a backing buffer. Backing buffers come out of slabs, each of which is
one anonymous mapping: the reference counts of its buffers, padding to a page, and the buffers.
There is a list of slabs for each size class, from 4 KiB to 128 KiB in powers of two, and each
list has a queue of the buffers that nobody holds. The last reference to a buffer puts it back
into the queue. A vector can be taken in as a backing buffer too; it goes back to the allocator.

All of this lives in a `BufferPool`, which is an ordinary value. What reads, writes or counts
takes the pool, and an `IouBuf` gives its reference up by `release`.

## Layout

- `src/` is the verified library.
  - `iou_buf`, `cursor`, `iou_buf_vec`: buffers, a reading position in one, and lists of them.
  - `iou_buf_pool`, `slab_list`, `slab`, `queue`, `class`: the pool, from the top down.
  - `write_all`, `writev_all`: writing the whole of a buffer or a list, one step at a time.
  - `model`, `view`: what a pool and a buffer are, as mathematical values.
  - `laws`, `accounting`: what holds over several operations.
  - `error`, `range`: errors, and the ranges that buffers are sliced by.
  - `foreign`: everything that is believed of other crates and of std, and nothing else.
- `tests/` runs the library with the real crates behind it.
- `app/` has a pool for each thread, behind a lock that its buffers share, and gives buffers that
  release themselves, the traits of std and of other crates, and asynchronous writers.

## What is proved

The contracts speak of a pool as a value: for each size class the slabs, the bytes and the number
of references of every buffer, and the queue in order. Every operation says exactly what it makes
of that value. What the machine decides is left open: which memory the system grants, at which
addresses it lies, and how much more room a vector has than it holds.
