use ioubuf::{BufferPool, IouBuf, IouBufVec};

fn small_pool() -> BufferPool {
    BufferPool::init(8).unwrap()
}

fn list(pool: &mut BufferPool, parts: &[&[u8]]) -> IouBufVec {
    let mut v = IouBufVec::default();
    for part in parts {
        v.push(IouBuf::from_slice(pool, part).unwrap());
    }
    v
}

fn gathered(pool: &BufferPool, v: &IouBufVec) -> Vec<u8> {
    v.bufs().iter().flat_map(|b| b.deref(pool).to_vec()).collect()
}

#[test]
fn lengths_and_presence() {
    let mut pool = small_pool();
    let mut v = IouBufVec::default();
    assert_eq!(v.len(), 0);
    assert!(!v.is_empty());
    v.push(IouBuf::empty(&mut pool));
    assert_eq!(v.len(), 0);
    assert!(!v.is_empty());
    v.push(IouBuf::from_slice(&mut pool, b"abc").unwrap());
    v.push(IouBuf::from_slice(&mut pool, b"de").unwrap());
    assert_eq!(v.len(), 5);
    assert!(v.is_empty());
}

#[test]
fn more_buffers_than_fit_in_place() {
    let mut pool = small_pool();
    let bufs: Vec<IouBuf> = (0..7u8).map(|i| IouBuf::fill(&mut pool, i, 10).unwrap()).collect();
    let mut v = list(&mut pool, &[b"first"]);
    v.extend(bufs);
    assert_eq!(v.len(), 75);
    assert_eq!(v.io_vecs().len(), 8);
    assert_eq!(v.io_vecs()[0].len, 5);
    assert_eq!(v.io_vecs()[7].len, 10);
}

#[test]
fn consuming_pops_and_narrows() {
    let mut pool = small_pool();
    let kept = IouBuf::from_slice(&mut pool, b"hello ").unwrap();
    let mut v = IouBufVec::default();
    v.push(kept.clone(&mut pool));
    v.push(IouBuf::from_slice(&mut pool, b"wide ").unwrap());
    v.push(IouBuf::from_slice(&mut pool, b"world").unwrap());
    assert_eq!(kept.refcount(&pool), 2);
    v.consume(&mut pool, 0);
    assert_eq!(v.len(), 16);
    assert_eq!(kept.refcount(&pool), 2);
    v.consume(&mut pool, 2);
    assert_eq!(gathered(&pool, &v), b"llo wide world");
    assert_eq!(v.len(), 14);
    assert_eq!(kept.refcount(&pool), 2);
    v.consume(&mut pool, 6);
    assert_eq!(gathered(&pool, &v), b"de world");
    assert_eq!(v.bufs().len(), 2);
    assert_eq!(v.len(), 8);
    assert_eq!(kept.refcount(&pool), 1);
    // The places follow the buffers.
    assert_eq!(v.io_vecs().len(), 2);
    assert_eq!((v.io_vecs()[0].start, v.io_vecs()[0].len), (2, 3));
    assert_eq!((v.io_vecs()[1].start, v.io_vecs()[1].len), (0, 5));
    v.consume(&mut pool, 100);
    assert_eq!(v.len(), 0);
    assert!(!v.is_empty());
    assert_eq!(v.io_vecs().len(), 0);
}

#[test]
fn consuming_at_a_border_takes_the_whole_buffer() {
    let mut pool = small_pool();
    let first = IouBuf::from_slice(&mut pool, b"abc").unwrap();
    let mut v = IouBufVec::default();
    v.push(first.clone(&mut pool));
    v.push(IouBuf::from_slice(&mut pool, b"de").unwrap());
    v.consume(&mut pool, 3);
    assert_eq!(gathered(&pool, &v), b"de");
    assert_eq!(v.len(), 2);
    assert_eq!(first.refcount(&pool), 1);
}

#[test]
fn cloning_and_giving_up_a_list() {
    let mut pool = small_pool();
    let one = IouBuf::from_slice(&mut pool, b"abc").unwrap();
    let mut v = IouBufVec::default();
    v.push(one.clone(&mut pool));
    v.push(one.slice(&mut pool, 1..));
    v.push(IouBuf::empty(&mut pool));
    assert_eq!(one.refcount(&pool), 3);
    let w = v.clone(&mut pool);
    assert_eq!(w.len(), 5);
    assert_eq!(gathered(&pool, &w), b"abcbc");
    assert_eq!(w.io_vecs().len(), 3);
    assert_eq!(w.io_vecs()[1].start, 1);
    assert_eq!(one.refcount(&pool), 5);
    w.release(&mut pool);
    assert_eq!(one.refcount(&pool), 3);
    v.release(&mut pool);
    assert_eq!(one.refcount(&pool), 1);
}

#[test]
fn consuming_twice_is_consuming_once() {
    for (a, b) in [(0usize, 0usize), (0, 4), (2, 3), (3, 3), (4, 1), (5, 4), (7, 9)] {
        let mut pool = small_pool();
        let kept = IouBuf::from_slice(&mut pool, b"abc").unwrap();
        let mut twice = IouBufVec::default();
        twice.push(kept.clone(&mut pool));
        twice.push(IouBuf::from_slice(&mut pool, b"defgh").unwrap());
        let mut once = twice.clone(&mut pool);
        twice.consume(&mut pool, a);
        twice.consume(&mut pool, b);
        once.consume(&mut pool, a + b);
        assert_eq!(gathered(&pool, &twice), gathered(&pool, &once));
        assert_eq!(twice.bufs().len(), once.bufs().len());
        let held = if a + b < 3 { 3 } else { 1 };
        assert_eq!(kept.refcount(&pool), held);
    }
}
