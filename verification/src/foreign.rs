//! The functions of other crates, and of std, that this crate calls without a proof.
//!
//! Everything in this file is believed by the verifier as it is written. Nothing here decides
//! anything: each function hands its arguments to one outside function and hands the result
//! back.
use vstd::arithmetic::power2::pow2;
use vstd::prelude::*;

use crate::iou_buf::IouBuf;
use crate::iou_buf_vec::IoVec;

verus! {

/// `p` is the smallest power of two that is not below `n`.
pub open spec fn is_next_power_of_two(n: int, p: int) -> bool {
    &&& n <= p
    &&& exists|k: nat| p == #[trigger] pow2(k)
    &&& forall|k: nat| n <= #[trigger] pow2(k) ==> p <= pow2(k)
}

/// `usize::next_power_of_two`: the smallest power of two that is not below `n`. It overflows
/// when there is none in range, so such an `n` is left out.
pub assume_specification[ usize::next_power_of_two ](n: usize) -> (p: usize)
    requires
        exists|k: nat| n <= #[trigger] pow2(k) <= usize::MAX,
    ensures
        is_next_power_of_two(n as int, p as int),
;

/// `usize::checked_next_power_of_two`: the smallest power of two that is not below `n`, or
/// `None` when a `usize` cannot hold it.
pub assume_specification[ usize::checked_next_power_of_two ](n: usize) -> (p: Option<usize>)
    ensures
        match p {
            Some(p) => is_next_power_of_two(n as int, p as int),
            None => forall|k: nat| n <= #[trigger] pow2(k) ==> usize::MAX < pow2(k),
        },
;

/// `usize::ilog2`: the exponent of the largest power of two that is not above `n`. It panics
/// on zero.
pub assume_specification[ usize::ilog2 ](n: usize) -> (e: u32)
    requires
        n > 0,
    ensures
        pow2(e as nat) <= n < pow2((e + 1) as nat),
;

/// `ubyte::ByteUnit::Kibibyte` and `as_u64`: the number of bytes in `n` KiB. The conversion
/// saturates, so an `n` whose bytes exceed a `u64` is left out.
#[verifier::external_body]
pub(crate) fn kibibytes(n: u64) -> (bytes: u64)
    requires
        n * 1024 <= u64::MAX,
    ensures
        bytes == n * 1024,
{
    ubyte::ByteUnit::Kibibyte(n).as_u64()
}

/// `Vec::capacity`: the number of bytes that the vector has room for, which is what it holds or
/// more. How much more is the allocator's choice.
#[verifier::external_body]
pub(crate) fn vec_capacity(v: &Vec<u8>) -> (n: usize)
    ensures
        n >= v@.len(),
{
    v.capacity()
}

/// `DerefMut` of `Vec`: the bytes of the vector, for writing. Once the borrow ends, the vector
/// holds what was written; a slice has a fixed length.
#[verifier::external_body]
pub(crate) fn vec_bytes_mut(v: &mut Vec<u8>) -> (bytes: &mut [u8])
    ensures
        bytes@ == old(v)@,
        final(v)@ == final(bytes)@,
        final(v)@.len() == old(v)@.len(),
{
    std::ops::DerefMut::deref_mut(v)
}

/// `memmap2::MmapMut`: a block of private anonymous memory.
#[verifier::external_type_specification]
#[verifier::external_body]
pub struct ExMmapMut(memmap2::MmapMut);

/// `std::io::Error`, which a refused mapping comes with.
#[verifier::external_type_specification]
#[verifier::external_body]
pub struct ExIoError(std::io::Error);

/// `std::io::ErrorKind`, with its public variants.
#[verifier::external_type_specification]
pub struct ExErrorKind(std::io::ErrorKind);

/// The kind that an I/O error has.
pub uninterp spec fn kind_of(e: std::io::Error) -> std::io::ErrorKind;

/// `std::io::Error::kind`: the kind of the error.
pub assume_specification[ std::io::Error::kind ](e: &std::io::Error) -> (kind: std::io::ErrorKind)
    ensures
        kind == kind_of(*e),
;

/// `std::alloc::LayoutError`, which a layout that is too large comes with.
#[verifier::external_type_specification]
#[verifier::external_body]
pub struct ExLayoutError(std::alloc::LayoutError);

/// `std::alloc::Layout::array`: the bytes that `count` words of a `u64` take, or the error when
/// they exceed `isize::MAX`.
#[verifier::external_body]
pub(crate) fn words_layout(count: usize) -> (r: Result<usize, std::alloc::LayoutError>)
    ensures
        r is Ok <==> 8 * count <= isize::MAX,
        r matches Ok(bytes) ==> bytes == 8 * count,
{
    std::alloc::Layout::array::<u64>(count).map(|layout| layout.size())
}

/// The bytes that a mapping holds.
pub uninterp spec fn mapped(m: memmap2::MmapMut) -> Seq<u8>;

/// `memmap2::MmapMut::map_anon`: a mapping of `len` bytes, or the error of the system call.
/// Whether the system grants it, and what the bytes are at first, is left open.
#[verifier::external_body]
pub(crate) fn map_anon(len: usize) -> (r: Result<memmap2::MmapMut, std::io::Error>)
    ensures
        r matches Ok(m) ==> mapped(m).len() == len,
{
    memmap2::MmapMut::map_anon(len)
}

/// `Deref` of `memmap2::MmapMut`: the bytes of the mapping.
#[verifier::external_body]
pub(crate) fn mapped_bytes(m: &memmap2::MmapMut) -> (bytes: &[u8])
    ensures
        bytes@ == mapped(*m),
{
    &m[..]
}

/// `DerefMut` of `memmap2::MmapMut`: the bytes of the mapping, for writing. Once the borrow
/// ends, the mapping holds what was written; its length is fixed.
#[verifier::external_body]
pub(crate) fn mapped_bytes_mut(m: &mut memmap2::MmapMut) -> (bytes: &mut [u8])
    ensures
        bytes@ == mapped(*old(m)),
        mapped(*final(m)) == final(bytes)@,
        mapped(*final(m)).len() == mapped(*old(m)).len(),
{
    &mut m[..]
}

/// `flume::Sender`: the end of a channel that takes messages.
#[verifier::external_type_specification]
#[verifier::external_body]
#[verifier::reject_recursive_types(T)]
pub struct ExSender<T>(flume::Sender<T>);

/// `flume::Receiver`: the end of a channel that gives messages.
#[verifier::external_type_specification]
#[verifier::external_body]
#[verifier::reject_recursive_types(T)]
pub struct ExReceiver<T>(flume::Receiver<T>);

/// The messages that wait in the channel of a receiver, the oldest first.
pub uninterp spec fn queued(rx: flume::Receiver<(usize, usize)>) -> Seq<(usize, usize)>;

/// The two are the ends, and the only ends, of one unbounded channel.
pub uninterp spec fn feeds(
    tx: flume::Sender<(usize, usize)>,
    rx: flume::Receiver<(usize, usize)>,
) -> bool;

/// Why nothing was received.
#[derive(Debug, Clone, Copy, PartialEq, Eq, Structural)]
pub enum RecvFailure {
    /// No message waits.
    Empty,
    /// No message waits, and no sender is left that could send one.
    Disconnected,
}

/// `flume::unbounded`: the two ends of a fresh channel, in which nothing waits.
#[verifier::external_body]
pub(crate) fn unbounded() -> (ends: (
    flume::Sender<(usize, usize)>,
    flume::Receiver<(usize, usize)>,
))
    ensures
        feeds(ends.0, ends.1),
        queued(ends.1) == Seq::<(usize, usize)>::empty(),
{
    flume::unbounded()
}

/// `flume::Sender::send`: the message joins the end of the queue. It fails only when the
/// receiver is gone; the exclusive borrow of the receiver says that it is not, and that nobody
/// takes a message meanwhile.
#[verifier::external_body]
pub(crate) fn send(
    tx: &flume::Sender<(usize, usize)>,
    rx: &mut flume::Receiver<(usize, usize)>,
    message: (usize, usize),
) -> (r: Result<(), (usize, usize)>)
    requires
        feeds(*tx, *old(rx)),
    ensures
        r is Ok,
        feeds(*tx, *final(rx)),
        queued(*final(rx)) == queued(*old(rx)).push(message),
{
    let _ = rx;
    tx.send(message).map_err(|e| e.0)
}

/// `flume::Receiver::try_recv`: the oldest message, or the failure when none waits. The failure
/// is `Disconnected` only when no sender is left; the borrow of the sender says that one is.
#[verifier::external_body]
pub(crate) fn try_recv(
    tx: &flume::Sender<(usize, usize)>,
    rx: &mut flume::Receiver<(usize, usize)>,
) -> (r: Result<(usize, usize), RecvFailure>)
    requires
        feeds(*tx, *old(rx)),
    ensures
        feeds(*tx, *final(rx)),
        match r {
            Ok(message) => {
                &&& queued(*old(rx)).len() > 0
                &&& message == queued(*old(rx))[0]
                &&& queued(*final(rx)) == queued(*old(rx)).drop_first()
            },
            Err(e) => {
                &&& e is Empty
                &&& queued(*old(rx)).len() == 0
                &&& queued(*final(rx)) == queued(*old(rx))
            },
        },
{
    let _ = tx;
    rx.try_recv().map_err(|e| match e {
        flume::TryRecvError::Empty => RecvFailure::Empty,
        flume::TryRecvError::Disconnected => RecvFailure::Disconnected,
    })
}

/// `std::ops::RangeFrom`, with its public field.
#[verifier::external_type_specification]
pub struct ExRangeFrom<Idx>(std::ops::RangeFrom<Idx>);

/// `std::ops::RangeTo`, with its public field.
#[verifier::external_type_specification]
pub struct ExRangeTo<Idx>(std::ops::RangeTo<Idx>);

/// `std::ops::RangeToInclusive`, with its public field.
#[verifier::external_type_specification]
pub struct ExRangeToInclusive<Idx>(std::ops::RangeToInclusive<Idx>);

/// `std::ops::RangeFull`, which has no fields.
#[verifier::external_type_specification]
pub struct ExRangeFull(std::ops::RangeFull);

/// `std::ops::Bound`, with its public variants.
#[verifier::external_type_specification]
pub struct ExBound<T>(std::ops::Bound<T>);

/// `RangeInclusive::start`: the lower bound. It is unspecified once the range was iterated to
/// its end.
pub assume_specification<Idx>[ std::ops::RangeInclusive::<Idx>::start ](
    r: &std::ops::RangeInclusive<Idx>,
) -> (x: &Idx)
    ensures
        !r@.exhausted ==> *x == r@.start,
;

/// `RangeInclusive::end`: the upper bound. It is unspecified once the range was iterated to its
/// end.
pub assume_specification<Idx>[ std::ops::RangeInclusive::<Idx>::end ](
    r: &std::ops::RangeInclusive<Idx>,
) -> (x: &Idx)
    ensures
        !r@.exhausted ==> *x == r@.end,
;

/// `std::str::Utf8Error`, which bytes that are no text come with.
#[verifier::external_type_specification]
#[verifier::external_body]
pub struct ExUtf8Error(std::str::Utf8Error);

/// `std::str::from_utf8`: the text whose UTF-8 encoding the bytes are, or the error when they
/// encode no text.
pub assume_specification[ std::str::from_utf8 ](v: &[u8]) -> (r: Result<
    &str,
    std::str::Utf8Error,
>)
    ensures
        r is Ok <==> vstd::utf8::valid_utf8(v@),
        r matches Ok(s) ==> s@ == vstd::utf8::decode_utf8(v@),
;

/// `slice::as_ptr`: the address of the first byte. It is the machine's choice; what is said of
/// it is that a slice does not wrap around the address space.
#[verifier::external_body]
pub(crate) fn address_of(bytes: &[u8]) -> (address: usize)
    ensures
        address + bytes@.len() <= usize::MAX,
{
    bytes.as_ptr() as usize
}

/// `bytes::Bytes`: a piece of contiguous memory.
#[verifier::external_type_specification]
#[verifier::external_body]
pub struct ExBytes(bytes::Bytes);

/// The bytes that a `Bytes` holds.
pub uninterp spec fn held_bytes(b: bytes::Bytes) -> Seq<u8>;

/// `From<bytes::Bytes>` of `Vec<u8>`: a vector with the same bytes. Whether they are copied, and
/// how much more the vector has room for, is left open.
#[verifier::external_body]
pub(crate) fn bytes_into_vec(b: bytes::Bytes) -> (v: Vec<u8>)
    ensures
        v@ == held_bytes(b),
{
    b.into()
}

/// `smallvec::SmallVec` of buffers. Up to four of them lie in the list itself.
#[verifier::external_body]
pub struct BufList {
    items: smallvec::SmallVec<[IouBuf; 4]>,
}

/// The buffers that a list holds, in order.
pub uninterp spec fn listed(list: BufList) -> Seq<IouBuf>;

/// `smallvec::SmallVec::new`: a list without buffers.
#[verifier::external_body]
pub(crate) fn buf_list() -> (list: BufList)
    ensures
        listed(list) == Seq::<IouBuf>::empty(),
{
    BufList { items: smallvec::SmallVec::new() }
}

/// `smallvec::SmallVec::push`: the buffer joins the end of the list.
#[verifier::external_body]
pub(crate) fn push_buf(list: &mut BufList, buf: IouBuf)
    ensures
        listed(*final(list)) == listed(*old(list)).push(buf),
{
    list.items.push(buf)
}

/// `smallvec::SmallVec::remove`: takes the buffer at `index` out; those after it move up. It
/// panics where there is none.
#[verifier::external_body]
pub(crate) fn remove_buf(list: &mut BufList, index: usize) -> (buf: IouBuf)
    requires
        index < listed(*old(list)).len(),
    ensures
        buf == listed(*old(list))[index as int],
        listed(*final(list)) == listed(*old(list)).remove(index as int),
{
    list.items.remove(index)
}

/// `Deref` of `smallvec::SmallVec`: the buffers of the list.
#[verifier::external_body]
pub(crate) fn bufs_of(list: &BufList) -> (bufs: &[IouBuf])
    ensures
        bufs@ == listed(*list),
{
    std::ops::Deref::deref(&list.items)
}

/// `DerefMut` of `smallvec::SmallVec`: the buffers of the list, for writing. Once the borrow
/// ends, the list holds what was written; a slice has a fixed length.
#[verifier::external_body]
pub(crate) fn bufs_of_mut(list: &mut BufList) -> (bufs: &mut [IouBuf])
    ensures
        bufs@ == listed(*old(list)),
        listed(*final(list)) == final(bufs)@,
        listed(*final(list)).len() == listed(*old(list)).len(),
{
    std::ops::DerefMut::deref_mut(&mut list.items)
}

/// `smallvec::SmallVec` of places. Up to four of them lie in the list itself.
#[verifier::external_body]
pub struct IoVecList {
    items: smallvec::SmallVec<[IoVec; 4]>,
}

/// The places that a list holds, in order.
pub uninterp spec fn recorded(list: IoVecList) -> Seq<IoVec>;

/// `smallvec::SmallVec::new`: a list without places.
#[verifier::external_body]
pub(crate) fn io_vec_list() -> (list: IoVecList)
    ensures
        recorded(list) == Seq::<IoVec>::empty(),
{
    IoVecList { items: smallvec::SmallVec::new() }
}

/// `smallvec::SmallVec::push`: the place joins the end of the list.
#[verifier::external_body]
pub(crate) fn push_io_vec(list: &mut IoVecList, place: IoVec)
    ensures
        recorded(*final(list)) == recorded(*old(list)).push(place),
{
    list.items.push(place)
}

/// `Deref` of `smallvec::SmallVec`: the places of the list.
#[verifier::external_body]
pub(crate) fn io_vecs_of(list: &IoVecList) -> (places: &[IoVec])
    ensures
        places@ == recorded(*list),
{
    std::ops::Deref::deref(&list.items)
}

} // verus!
