use ioubuf::iou_buf::place_of_part;
use ioubuf::{AllocError, BufferPool, IouBuf};
use std::io::ErrorKind;
use std::ops::Bound;

fn small_pool() -> BufferPool {
    BufferPool::init(2).unwrap()
}

fn assert_send_and_sync<T: Send + Sync>(_: &T) {}

#[test]
fn a_request_gets_the_smallest_class_that_fits() {
    let mut pool = small_pool();
    let sizes = [
        (1usize, 4096usize),
        (4095, 4096),
        (4096, 4096),
        (4097, 8192),
        (8192, 8192),
        (8193, 16384),
        (16385, 32768),
        (32769, 65536),
        (65537, 131072),
        (131072, 131072),
    ];
    for (size, capacity) in sizes {
        let buf = IouBuf::allocate(&mut pool, size).unwrap();
        assert_eq!(buf.len(), size);
        assert_eq!(buf.capacity(&pool), capacity);
        assert_eq!(buf.refcount(&pool), 1);
        buf.release(&mut pool);
    }
}

#[test]
fn slab_buffers_are_page_aligned_and_apart() {
    let mut pool = small_pool();
    let mut seen: Vec<(usize, usize)> = vec![];
    for size in [100usize, 4096, 5000, 20000, 131072] {
        for _ in 0..3 {
            let buf = IouBuf::allocate(&mut pool, size).unwrap();
            let at = buf.deref(&pool).as_ptr() as usize;
            let end = at + buf.capacity(&pool);
            assert_eq!(at % 4096, 0);
            for (a, e) in seen.iter() {
                assert!(end <= *a || *e <= at);
            }
            seen.push((at, end));
        }
    }
}

#[test]
fn zeroed_and_filled_buffers() {
    let mut pool = small_pool();
    for _ in 0..2 {
        let mut dirty = IouBuf::allocate(&mut pool, 4096).unwrap();
        dirty.get_mut(&mut pool).unwrap().fill(7);
        dirty.release(&mut pool);
    }
    let zeroed = IouBuf::alloc_zeroed(&mut pool, 10).unwrap();
    assert_eq!(zeroed.len(), 10);
    let whole = zeroed.into_root(&pool);
    assert_eq!(whole.deref(&pool), &[0u8; 4096][..]);

    let filled = IouBuf::fill(&mut pool, 9, 5).unwrap();
    assert_eq!(filled.deref(&pool), &[9, 9, 9, 9, 9]);
    let whole = filled.root(&mut pool);
    assert_eq!(&whole.deref(&pool)[5..], &[7u8; 4091][..]);

    let none = IouBuf::alloc_zeroed(&mut pool, 0).unwrap();
    assert_eq!(none.capacity(&pool), 0);
    let none = IouBuf::fill(&mut pool, 9, 0).unwrap();
    assert!(none.is_empty());
    assert_eq!(none.capacity(&pool), 0);
}

#[test]
fn copies_of_nothing() {
    let mut pool = small_pool();
    let sliced = IouBuf::from_slice(&mut pool, b"").unwrap();
    assert_eq!(sliced.len(), 0);
    assert_eq!(sliced.capacity(&pool), 4096);
    let tried = IouBuf::try_from(&mut pool, b"").unwrap();
    assert_eq!(tried.len(), 0);
    assert_eq!(tried.capacity(&pool), 0);
    let cloned = tried.deep_clone(&mut pool).unwrap();
    assert_eq!(cloned.len(), 0);
    assert_eq!(cloned.capacity(&pool), 4096);
}

#[test]
fn a_deep_clone_is_another_buffer() {
    let mut pool = small_pool();
    let one = IouBuf::from_slice(&mut pool, b"hello world").unwrap();
    let part = one.slice(&mut pool, 6..);
    let mut copy = part.deep_clone(&mut pool).unwrap();
    assert_eq!(copy.deref(&pool), b"world");
    assert!(copy.eq(&pool, &part));
    copy.get_mut(&mut pool).unwrap()[0] = b'W';
    assert_eq!(copy.deref(&pool), b"World");
    assert_eq!(part.deref(&pool), b"world");
    assert!(!copy.eq(&pool, &part));
}

#[test]
fn shared_buffers_cannot_be_written() {
    let mut pool = small_pool();
    let mut one = IouBuf::from_slice(&mut pool, b"abc").unwrap();
    let mut two = one.clone(&mut pool);
    assert_eq!(one.refcount(&pool), 2);
    assert!(!one.is_unique(&pool));
    assert!(one.get_mut(&mut pool).is_none());
    assert!(two.get_mut(&mut pool).is_none());
    assert!(matches!(one.append_slice(&mut pool, b"d"), Err(AllocError::NotUnique)));
    two.release(&mut pool);
    assert!(one.is_unique(&pool));
    one.get_mut(&mut pool).unwrap()[1] = b'X';
    assert_eq!(one.deref(&pool), b"aXc");
}

#[test]
fn the_last_release_recycles_in_order() {
    let mut pool = small_pool();
    let one = IouBuf::from_slice(&mut pool, b"one").unwrap();
    let two = IouBuf::from_slice(&mut pool, b"two").unwrap();
    let at_one = one.deref(&pool).as_ptr() as usize;
    let at_two = two.deref(&pool).as_ptr() as usize;
    assert_ne!(at_one, at_two);
    let again = two.clone(&mut pool);
    two.release(&mut pool);
    again.release(&mut pool);
    one.release(&mut pool);
    let first = IouBuf::allocate(&mut pool, 3).unwrap();
    assert_eq!(first.deref(&pool).as_ptr() as usize, at_two);
    assert_eq!(first.deref(&pool), b"two");
    let second = IouBuf::allocate(&mut pool, 3).unwrap();
    assert_eq!(second.deref(&pool).as_ptr() as usize, at_one);
    assert_eq!(second.deref(&pool), b"one");
}

#[test]
fn an_exhausted_class_gets_another_slab() {
    let mut pool = BufferPool::init(1).unwrap();
    let first = IouBuf::from_slice(&mut pool, b"first").unwrap();
    let second = IouBuf::from_slice(&mut pool, b"second").unwrap();
    let third = IouBuf::from_slice(&mut pool, b"third").unwrap();
    assert_eq!(first.deref(&pool), b"first");
    assert_eq!(second.deref(&pool), b"second");
    assert_eq!(third.deref(&pool), b"third");
}

#[test]
fn ranges_of_every_kind() {
    let mut pool = small_pool();
    let buf = IouBuf::from_slice(&mut pool, b"0123456789").unwrap();
    assert_eq!(buf.slice(&mut pool, 2..5).deref(&pool), b"234");
    assert_eq!(buf.slice(&mut pool, 7..).deref(&pool), b"789");
    assert_eq!(buf.slice(&mut pool, ..3).deref(&pool), b"012");
    assert_eq!(buf.slice(&mut pool, ..=3).deref(&pool), b"0123");
    assert_eq!(buf.slice(&mut pool, 4..=6).deref(&pool), b"456");
    assert_eq!(buf.slice(&mut pool, ..).deref(&pool), b"0123456789");
    assert_eq!(buf.slice(&mut pool, 10..).deref(&pool), b"");
    let pair = (Bound::Excluded(2), Bound::Included(4));
    assert_eq!(buf.slice(&mut pool, pair).deref(&pool), b"34");
    let pair = (Bound::Included(6), Bound::Excluded(8));
    assert_eq!(buf.slice(&mut pool, pair).deref(&pool), b"67");
    let pair = (Bound::Unbounded, Bound::Unbounded);
    assert_eq!(buf.slice(&mut pool, pair).len(), 10);
    assert_eq!(buf.refcount(&pool), 11);
    let inner = buf.into_slice(2..8).into_slice(1..=2);
    assert_eq!(inner.deref(&pool), b"34");
    assert_eq!(&inner.into_root(&pool).deref(&pool)[..10], b"0123456789");
}

#[test]
fn a_closure_picks_the_part() {
    let mut pool = small_pool();
    let buf = IouBuf::from_slice(&mut pool, b"key=value").unwrap();
    let value = buf.slice_fn(&mut pool, |bytes| {
        let at = bytes.iter().position(|b| *b == b'=').unwrap();
        &bytes[at + 1..]
    });
    assert_eq!(value.as_str(&pool).unwrap(), "value");
    assert_eq!(buf.refcount(&pool), 2);
    // The address tells equal parts apart.
    let twice = IouBuf::from_slice(&mut pool, b"abab").unwrap();
    let second = twice.slice_fn(&mut pool, |bytes| &bytes[2..]);
    assert_eq!(second.deref(&pool), b"ab");
    assert_eq!(second.offset(), 2);
    let none = twice.slice_fn(&mut pool, |bytes| &bytes[3..3]);
    assert_eq!((none.len(), none.offset()), (0, 3));
    // What lies elsewhere is found by its bytes.
    let found = twice.slice_fn(&mut pool, |_| &b"ba"[..]);
    assert_eq!(found.offset(), 1);
    let found = twice.slice_fn(&mut pool, |_| &[]);
    assert_eq!((found.len(), found.offset()), (0, 0));
    assert_eq!(twice.refcount(&pool), 5);
}

#[test]
fn places_of_parts() {
    assert_eq!(place_of_part(b"abcabc", 100, b"bc", 104), Some(4));
    assert_eq!(place_of_part(b"abcabc", 100, b"bc", 103), Some(1));
    assert_eq!(place_of_part(b"abcabc", 100, b"bc", 7), Some(1));
    assert_eq!(place_of_part(b"abcabc", 100, b"bc", 900), Some(1));
    assert_eq!(place_of_part(b"abcabc", 100, b"", 106), Some(6));
    assert_eq!(place_of_part(b"abcabc", 100, b"", 107), Some(0));
    assert_eq!(place_of_part(b"", 100, b"", 0), Some(0));
    assert_eq!(place_of_part(b"abcabc", 100, b"cb", 102), None);
    assert_eq!(place_of_part(b"abc", 100, b"abca", 100), None);
}

#[test]
fn parts_by_address() {
    let mut pool = small_pool();
    let buf = IouBuf::from_slice(&mut pool, b"0123456789").unwrap().into_slice(2..8);
    let at = buf.deref(&pool).as_ptr() as usize;
    let part = buf.clone(&mut pool).into_slice_from_ptr_range(&mut pool, at + 1..at + 3).unwrap();
    assert_eq!(part.deref(&pool), b"34");
    let all = buf.clone(&mut pool).into_slice_from_ptr_range(&mut pool, at..at + 6).unwrap();
    assert_eq!(all.deref(&pool), b"234567");
    assert_eq!(buf.refcount(&pool), 3);
    assert!(buf.clone(&mut pool).into_slice_from_ptr_range(&mut pool, at..at + 7).is_none());
    assert!(buf.clone(&mut pool).into_slice_from_ptr_range(&mut pool, at - 1..at + 2).is_none());
    assert_eq!(buf.refcount(&pool), 3);
    let known = buf.clone(&mut pool).into_slice_from_ptr_range_unchecked(1000, 1002..1006);
    assert_eq!(known.deref(&pool), b"4567");
    assert_eq!(buf.into_slice_at(&mut pool, 1000, 1005..1006).unwrap().deref(&pool), b"7");
}

#[test]
fn resizing_within_the_backing_buffer() {
    let mut pool = small_pool();
    let mut buf = IouBuf::from_slice(&mut pool, b"0123456789").unwrap().into_slice(2..4);
    assert_eq!(buf.offset(), 2);
    buf.resize(&pool, 5);
    assert_eq!(buf.deref(&pool), b"23456");
    buf.resize(&pool, 4094);
    assert_eq!(buf.len(), 4094);
    buf.resize(&pool, 0);
    assert!(buf.is_empty());
}

#[test]
fn appending_up_to_the_end() {
    let mut pool = small_pool();
    let mut buf = IouBuf::fill(&mut pool, 1, 4090).unwrap();
    assert_eq!(buf.append_slice(&mut pool, &[2; 6]).unwrap(), 6);
    assert_eq!(buf.len(), 4096);
    assert_eq!(&buf.deref(&pool)[4088..], &[1, 1, 2, 2, 2, 2, 2, 2]);
    assert_eq!(buf.append_slice(&mut pool, &[]).unwrap(), 0);
    match buf.append_slice(&mut pool, &[3]) {
        Err(AllocError::InvalidBufferSize(n)) => assert_eq!(n, 1),
        _ => panic!("there is no room"),
    }
    // A part that does not begin at the front takes only what fits behind it.
    let mut tail = buf.into_slice(4000..4094);
    assert_eq!(tail.append_slice(&mut pool, &[5; 100]).unwrap(), 2);
    assert_eq!(tail.len(), 96);
    assert_eq!(&tail.deref(&pool)[92..], &[2, 2, 5, 5]);
}

#[test]
fn appending_as_much_as_it_can() {
    let mut pool = small_pool();
    let v = b"0123456789".to_vec();
    assert_eq!(v.capacity(), 10);
    let mut head = IouBuf::from_vec(&mut pool, v.clone()).into_slice(..8);
    assert_eq!(head.append_slice(&mut pool, b"abcd").unwrap(), 2);
    assert_eq!(head.deref(&pool), b"01234567ab");
    let mut part = IouBuf::from_vec(&mut pool, v.clone()).into_slice(6..8);
    assert_eq!(part.append_slice(&mut pool, b"abcd").unwrap(), 2);
    assert_eq!(part.deref(&pool), b"67ab");
    // Nothing fits behind a buffer that ends where its backing buffer ends.
    assert_eq!(part.append_slice(&mut pool, b"abcd").unwrap(), 0);
    assert_eq!(part.deref(&pool), b"67ab");
    assert!(matches!(
        part.append_slice(&mut pool, b"abcdefg"),
        Err(AllocError::InvalidBufferSize(7))
    ));
    let mut none = IouBuf::empty(&mut pool);
    assert_eq!(none.append_slice(&mut pool, b"").unwrap(), 0);
    assert!(matches!(
        none.append_slice(&mut pool, b"x"),
        Err(AllocError::InvalidBufferSize(1))
    ));
}

#[test]
fn writing_as_a_stream_tells_io_errors() {
    let mut pool = small_pool();
    let mut buf = IouBuf::from_slice(&mut pool, b"ab").unwrap();
    assert_eq!(buf.write(&mut pool, b"cd").unwrap(), 2);
    assert!(buf.flush().is_ok());
    assert_eq!(buf.borrow(&pool), b"abcd");
    assert_eq!(buf.write(&mut pool, &[7; 5000]).unwrap(), 4092);
    assert_eq!(buf.len(), 4096);
    assert_eq!(&buf.deref(&pool)[..6], b"abcd\x07\x07");
    let e = buf.write(&mut pool, &[0; 5000]).unwrap_err();
    assert_eq!(e.kind, ErrorKind::Other);
    assert_eq!(e.message, "Invalid Buffer Size: 5000");
    let mut buf = buf.into_slice(..4);
    let other = buf.clone(&mut pool);
    let e = buf.write(&mut pool, b"e").unwrap_err();
    assert_eq!(e.kind, ErrorKind::AddrInUse);
    assert_eq!(e.message, "IouBuf was not unique");
    assert_eq!(other.deref(&pool), b"abcd");
}

#[test]
fn text_and_what_is_no_text() {
    let mut pool = small_pool();
    let buf = IouBuf::from_slice(&mut pool, "gr\u{fc}n".as_bytes()).unwrap();
    assert_eq!(buf.as_str(&pool).unwrap(), "gr\u{fc}n");
    let cut = buf.slice(&mut pool, ..3);
    assert!(cut.as_str(&pool).is_err());
}

#[test]
fn vectors_come_with_their_room() {
    let mut pool = small_pool();
    let mut v = Vec::with_capacity(32);
    v.extend_from_slice(b"room");
    let room = v.capacity();
    let at = v.as_ptr() as usize;
    let mut buf = IouBuf::from_vec(&mut pool, v);
    assert_eq!(buf.len(), 4);
    assert_eq!(buf.capacity(&pool), room);
    assert_eq!(buf.deref(&pool).as_ptr() as usize, at);
    assert_eq!(buf.append_slice(&mut pool, b"ier").unwrap(), 3);
    buf.get_mut(&mut pool).unwrap()[0] = b'R';
    assert_eq!(buf.deref(&pool), b"Roomier");
    buf.release(&mut pool);
}

#[test]
fn vectors_with_a_given_room() {
    let mut pool = small_pool();
    let buf = IouBuf::from_vec_sized(&mut pool, b"abc".to_vec(), 5);
    assert_eq!(buf.len(), 3);
    assert_eq!(buf.capacity(&pool), 5);
    assert!(buf.is_unique(&pool));
    assert_eq!(buf.into_root(&pool).deref(&pool), b"abc\0\0");
}

#[test]
fn class_indices() {
    let cases = [
        (0usize, 0usize),
        (4096, 0),
        (4097, 1),
        (8192, 1),
        (65537, 5),
        (131072, 5),
        (131073, 6),
        (usize::MAX / 2 + 1, 51),
    ];
    for (size, index) in cases {
        assert_eq!(BufferPool::calc_slab_index(size), index);
    }
}

#[test]
fn bytes_become_a_buffer() {
    let mut pool = small_pool();
    let bytes = bytes::Bytes::from_static(b"static bytes");
    let buf = IouBuf::from_bytes(&mut pool, bytes.slice(7..));
    assert_eq!(buf.deref(&pool), b"bytes");
    let buf = IouBuf::from_bytes(&mut pool, bytes::Bytes::from(vec![1u8, 2, 3]));
    assert_eq!(buf.deref(&pool), &[1, 2, 3]);
}

#[test]
fn a_cursor_reads_in_order() {
    let mut pool = small_pool();
    let mut cur = IouBuf::from_slice(&mut pool, b"0123456789").unwrap().into_slice(3..8).into_cursor();
    assert_eq!(cur.remaining(), 5);
    assert_eq!(cur.chunk(&pool), b"34567");
    cur.advance(2);
    assert_eq!(cur.remaining(), 3);
    assert_eq!(cur.chunk(&pool), b"567");
    cur.advance(3);
    assert_eq!(cur.remaining(), 0);
    assert_eq!(cur.chunk(&pool), b"");
    cur.pos = 99;
    assert_eq!(cur.remaining(), 0);
    assert_eq!(cur.chunk(&pool), b"");
}

#[test]
fn buffers_and_pools_can_go_to_other_threads() {
    let mut pool = small_pool();
    let buf = IouBuf::empty(&mut pool);
    assert_send_and_sync(&pool);
    assert_send_and_sync(&buf);
}
