use ioubuf::error::IoError;
use ioubuf::foreign::RecvFailure;
use ioubuf::queue::RecycleQueue;
use ioubuf::slab::{BufferSlab, SlabLayout};
use ioubuf::slab_list::SlabList;
use ioubuf::{AllocError, BufferPool, IouBuf};
use std::io::ErrorKind;

fn refused() -> std::io::Error {
    std::io::Error::new(ErrorKind::PermissionDenied, "no memory for you")
}

fn layout_error() -> std::alloc::LayoutError {
    std::alloc::Layout::array::<u64>(usize::MAX).unwrap_err()
}

#[test]
fn messages() {
    let cases: Vec<(AllocError, String)> = vec![
        (AllocError::AllocFailed(refused()), "Allocation failed".to_string()),
        (AllocError::MaxPoolLimitReached, "Maximum pool limited reached".to_string()),
        (AllocError::InvalidBufferSize(0), "Invalid Buffer Size: 0".to_string()),
        (AllocError::InvalidBufferSize(120703), "Invalid Buffer Size: 120703".to_string()),
        (
            AllocError::InvalidBufferSize(usize::MAX),
            format!("Invalid Buffer Size: {}", usize::MAX),
        ),
        (AllocError::LayoutError(layout_error()), format!("Invalid Layout: {}", layout_error())),
        (AllocError::FatalError("why"), "Fatal Error: why".to_string()),
        (AllocError::OutOfBuffers, "Out of Buffers".to_string()),
        (
            AllocError::NotUnique,
            "IouBuf operation requires uniqueness, but the refcount is > 1".to_string(),
        ),
        (AllocError::General("what".to_string()), "Error : what".to_string()),
    ];
    for (error, text) in cases {
        assert_eq!(error.message(), text);
    }
}

#[test]
fn as_io_errors() {
    let e = IoError::from_alloc(AllocError::AllocFailed(refused()));
    assert_eq!(e.kind, ErrorKind::PermissionDenied);
    assert_eq!(e.message, "Allocation failed");
    let e = IoError::from_alloc(AllocError::MaxPoolLimitReached);
    assert_eq!(e.kind, ErrorKind::OutOfMemory);
    let e = IoError::from_alloc(AllocError::OutOfBuffers);
    assert_eq!(e.kind, ErrorKind::OutOfMemory);
    assert_eq!(e.message, "Out of Buffers");
    let e = IoError::from_alloc(AllocError::LayoutError(layout_error()));
    assert_eq!(e.kind, ErrorKind::Other);
    let e = IoError::from_alloc(AllocError::InvalidBufferSize(7));
    assert_eq!(e.kind, ErrorKind::Other);
    assert_eq!(e.message, "Invalid Buffer Size: 7");
    let e = IoError::from_alloc(AllocError::FatalError("x"));
    assert_eq!(e.kind, ErrorKind::Other);
    let e = IoError::from_alloc(AllocError::General("y".to_string()));
    assert_eq!(e.kind, ErrorKind::Other);
    assert_eq!(e.message, "Error : y");
    let e = IoError::from_alloc(AllocError::NotUnique);
    assert_eq!(e.kind, ErrorKind::AddrInUse);
    assert_eq!(e.message, "IouBuf was not unique");
}

#[test]
fn why_nothing_was_received() {
    assert!(matches!(AllocError::from(RecvFailure::Empty), AllocError::OutOfBuffers));
    match AllocError::from(RecvFailure::Disconnected) {
        AllocError::FatalError(text) => {
            assert_eq!(text, "BufferPool recycling queue failed. Sender(s) Disconnected")
        }
        _ => panic!("a queue without senders is fatal"),
    }
}

#[test]
fn outside_errors_as_allocation_errors() {
    assert!(matches!(AllocError::from(refused()), AllocError::AllocFailed(_)));
    assert!(matches!(AllocError::from(layout_error()), AllocError::LayoutError(_)));
}

#[test]
fn a_queue_gives_what_it_got_in_order() {
    let mut queue = RecycleQueue::new();
    assert_eq!(queue.pop(), Err(RecvFailure::Empty));
    queue.push((1, 2));
    queue.push((3, 4));
    assert_eq!(queue.pop(), Ok((1, 2)));
    queue.push((5, 6));
    assert_eq!(queue.pop(), Ok((3, 4)));
    assert_eq!(queue.pop(), Ok((5, 6)));
    assert_eq!(queue.pop(), Err(RecvFailure::Empty));
}

#[test]
fn slab_layouts() {
    let layout = SlabLayout::plan(16, 1000).unwrap();
    assert_eq!((layout.size, layout.first, layout.total), (4096, 4096, 4096 + 16 * 4096));
    let layout = SlabLayout::plan(1000, 5000).unwrap();
    assert_eq!((layout.size, layout.first, layout.total), (8192, 8192, 8192 + 1000 * 8192));
    let layout = SlabLayout::plan(512, 0).unwrap();
    assert_eq!((layout.size, layout.first, layout.total), (4096, 4096, 4096 + 512 * 4096));
    let layout = SlabLayout::plan(1, 131072).unwrap();
    assert_eq!((layout.size, layout.first, layout.total), (131072, 4096, 4096 + 131072));
    assert!(matches!(SlabLayout::plan(1, 131073), Err(AllocError::InvalidBufferSize(131073))));
    assert!(matches!(
        SlabLayout::plan(1, usize::MAX),
        Err(AllocError::InvalidBufferSize(usize::MAX))
    ));
    assert!(matches!(
        SlabLayout::plan(usize::MAX / 2, 1),
        Err(AllocError::InvalidBufferSize(n)) if n == usize::MAX / 2
    ));
}

#[test]
fn refused_memory() {
    let mut queue = RecycleQueue::new();
    let layout = SlabLayout::plan(2, 1).unwrap();
    match BufferSlab::in_mapping(2, 1, layout, Err(refused()), &mut queue, 0) {
        Err(AllocError::AllocFailed(e)) => {
            assert_eq!(e.kind(), ErrorKind::PermissionDenied)
        }
        _ => panic!("there was no memory"),
    }
    assert_eq!(queue.pop(), Err(RecvFailure::Empty));
}

#[test]
fn pools_of_odd_capacities() {
    // Slabs without buffers have none to hand out.
    let mut pool = BufferPool::init(0).unwrap();
    assert!(matches!(IouBuf::allocate(&mut pool, 1), Err(AllocError::OutOfBuffers)));
    assert!(IouBuf::allocate(&mut pool, 0).is_ok());
    assert!(matches!(
        BufferPool::init(usize::MAX),
        Err(AllocError::InvalidBufferSize(usize::MAX))
    ));
    assert!(matches!(
        BufferPool::init(usize::MAX / 2),
        Err(AllocError::InvalidBufferSize(n)) if n == usize::MAX / 2
    ));
}

#[test]
fn a_slab_in_memory() {
    let mut queue = RecycleQueue::new();
    let mut slab = BufferSlab::new(3, 100, &mut queue, 7).unwrap();
    assert_eq!(slab.count(), 3);
    assert_eq!(queue.pop(), Ok((7, 0)));
    assert_eq!(queue.pop(), Ok((7, 1)));
    assert_eq!(queue.pop(), Ok((7, 2)));
    assert_eq!(queue.pop(), Err(RecvFailure::Empty));
    for i in 0..3 {
        assert_eq!(slab.refs(i), 0);
        assert_eq!(slab.bytes(i), &[0u8; 4096][..]);
        slab.set_refs(i, 1000 + i);
        slab.bytes_mut(i).fill(i as u8 + 1);
    }
    slab.set_refs(1, usize::MAX);
    assert_eq!((slab.refs(0), slab.refs(1), slab.refs(2)), (1000, usize::MAX, 1002));
    assert_eq!(slab.bytes(0), &[1u8; 4096][..]);
    assert_eq!(slab.bytes(1), &[2u8; 4096][..]);
    assert_eq!(slab.bytes(2), &[3u8; 4096][..]);
}

#[test]
fn a_list_without_buffers_left() {
    let mut list = SlabList::new(4096, 1).unwrap();
    assert_eq!(list.next().unwrap(), (0, 0));
    assert!(matches!(list.next(), Err(AllocError::OutOfBuffers)));
    list.append_slab().unwrap();
    assert_eq!(list.next().unwrap(), (1, 0));
    assert!(matches!(list.next(), Err(AllocError::OutOfBuffers)));
    assert!(matches!(SlabList::new(200000, 1), Err(AllocError::InvalidBufferSize(200000))));
}
