use ioubuf::write_all::{write_zero_message, WriteAll, WriteEnd, WriteOutcome, WriteStep};
use ioubuf::writev_all::{WritevAll, WritevStep};
use ioubuf::{BufferPool, IouBuf, IouBufVec};

fn small_pool() -> BufferPool {
    BufferPool::init(8).unwrap()
}

fn broken() -> std::io::Error {
    std::io::Error::new(std::io::ErrorKind::BrokenPipe, "gone")
}

/// Writes `orig` through a writer that takes up to `most` bytes at a time and is interrupted
/// before every other write.
fn write_through(pool: &mut BufferPool, orig: IouBuf, most: usize) -> (Vec<u8>, usize, IouBuf) {
    let mut out: Vec<u8> = vec![];
    let mut calls = 0;
    let mut step = WriteAll::start(pool, orig);
    loop {
        match step {
            WriteStep::Write(state, lent) => {
                calls += 1;
                let outcome = if calls % 2 == 0 {
                    WriteOutcome::Interrupted
                } else {
                    let n = std::cmp::min(most, lent.len());
                    out.extend_from_slice(&lent.deref(pool)[..n]);
                    WriteOutcome::Wrote(n)
                };
                step = state.resume(pool, lent, outcome);
            }
            WriteStep::Done(WriteEnd::Written(n), buf) => return (out, n, buf),
            WriteStep::Done(_, _) => panic!("nothing failed"),
        }
    }
}

#[test]
fn everything_is_written_however_it_is_cut() {
    for most in [1usize, 2, 3, 5, 100] {
        let mut pool = small_pool();
        let text = b"the quick brown fox";
        let keep = IouBuf::from_slice(&mut pool, text).unwrap();
        let orig = keep.clone(&mut pool);
        let (out, n, last) = write_through(&mut pool, orig, most);
        assert_eq!(out, text);
        assert_eq!(n, text.len());
        let left = (text.len() - 1) / most * most;
        assert_eq!(last.deref(&pool), &text[left..]);
        assert_eq!(keep.refcount(&pool), 2);
        last.release(&mut pool);
        assert!(keep.is_unique(&pool));
    }
}

#[test]
fn nothing_to_write() {
    let mut pool = small_pool();
    let keep = IouBuf::from_slice(&mut pool, b"").unwrap();
    let orig = keep.clone(&mut pool);
    match WriteAll::start(&mut pool, orig) {
        WriteStep::Done(WriteEnd::Written(0), buf) => {
            assert!(buf.is_empty());
            assert_eq!(keep.refcount(&pool), 2);
        }
        _ => panic!("there is nothing to write"),
    }
}

#[test]
fn a_writer_that_takes_nothing() {
    let mut pool = small_pool();
    let orig = IouBuf::from_slice(&mut pool, b"abc").unwrap();
    let keep = orig.clone(&mut pool);
    match WriteAll::start(&mut pool, orig) {
        WriteStep::Write(state, lent) => {
            assert_eq!(keep.refcount(&pool), 4);
            let step = state.resume(&mut pool, lent, WriteOutcome::Wrote(1));
            match step {
                WriteStep::Write(state, lent) => {
                    match state.resume(&mut pool, lent, WriteOutcome::Wrote(0)) {
                        WriteStep::Done(WriteEnd::WriteZero, buf) => {
                            assert_eq!(buf.deref(&pool), b"bc");
                            assert_eq!(keep.refcount(&pool), 2);
                        }
                        _ => panic!("nothing was taken"),
                    }
                }
                _ => panic!("there is more to write"),
            }
        }
        _ => panic!("there is something to write"),
    }
    assert_eq!(write_zero_message(), "failed to write whole buffer");
}

#[test]
fn a_write_that_fails() {
    let mut pool = small_pool();
    let orig = IouBuf::from_slice(&mut pool, b"abc").unwrap();
    let keep = orig.clone(&mut pool);
    match WriteAll::start(&mut pool, orig) {
        WriteStep::Write(state, lent) => {
            match state.resume(&mut pool, lent, WriteOutcome::Failed(broken())) {
                WriteStep::Done(WriteEnd::Failed(e), buf) => {
                    assert_eq!(e.kind(), std::io::ErrorKind::BrokenPipe);
                    assert_eq!(buf.deref(&pool), b"abc");
                    assert_eq!(keep.refcount(&pool), 2);
                }
                _ => panic!("the write failed"),
            }
        }
        _ => panic!("there is something to write"),
    }
}

#[test]
fn results_of_writes() {
    assert!(matches!(WriteOutcome::from_result(Ok(3)), WriteOutcome::Wrote(3)));
    let interrupted = std::io::Error::from(std::io::ErrorKind::Interrupted);
    assert!(matches!(WriteOutcome::from_result(Err(interrupted)), WriteOutcome::Interrupted));
    match WriteOutcome::from_result(Err(broken())) {
        WriteOutcome::Failed(e) => assert_eq!(e.kind(), std::io::ErrorKind::BrokenPipe),
        _ => panic!("the write failed"),
    }
}

fn three(pool: &mut BufferPool) -> IouBufVec {
    let mut v = IouBufVec::default();
    v.push(IouBuf::from_slice(pool, b"hello ").unwrap());
    v.push(IouBuf::from_slice(pool, b"wide ").unwrap());
    v.push(IouBuf::from_slice(pool, b"world").unwrap());
    v
}

#[test]
fn a_list_is_written_however_it_is_cut() {
    for most in [1usize, 4, 6, 7, 16] {
        let mut pool = small_pool();
        let v = three(&mut pool);
        let mut out: Vec<u8> = vec![];
        let mut step = WritevAll::start(&mut pool, v);
        loop {
            match step {
                WritevStep::Write(state, lent) => {
                    let n = std::cmp::min(most, lent.len());
                    let all: Vec<u8> =
                        lent.bufs().iter().flat_map(|b| b.deref(&pool).to_vec()).collect();
                    out.extend_from_slice(&all[..n]);
                    let outcome = WriteOutcome::Wrote(n);
                    step = state.resume(&mut pool, lent, outcome);
                }
                WritevStep::Done(WriteEnd::Written(n), bufs) => {
                    assert_eq!(n, 16);
                    assert_eq!(bufs.len(), 16);
                    break;
                }
                WritevStep::Done(_, _) => panic!("nothing failed"),
            }
        }
        assert_eq!(out, b"hello wide world");
    }
}

#[test]
fn a_list_write_that_is_interrupted_fails_or_takes_nothing() {
    let mut pool = small_pool();
    let v = three(&mut pool);
    let w = v.clone(&mut pool);
    match WritevAll::start(&mut pool, v) {
        WritevStep::Write(state, lent) => {
            let step = state.resume(&mut pool, lent, WriteOutcome::Interrupted);
            match step {
                WritevStep::Write(state, lent) => {
                    assert_eq!(lent.len(), 16);
                    match state.resume(&mut pool, lent, WriteOutcome::Wrote(0)) {
                        WritevStep::Done(WriteEnd::WriteZero, bufs) => assert_eq!(bufs.len(), 16),
                        _ => panic!("nothing was taken"),
                    }
                }
                _ => panic!("nothing was written"),
            }
        }
        _ => panic!("there is something to write"),
    }
    match WritevAll::start(&mut pool, w) {
        WritevStep::Write(state, lent) => {
            match state.resume(&mut pool, lent, WriteOutcome::Failed(broken())) {
                WritevStep::Done(WriteEnd::Failed(e), bufs) => {
                    assert_eq!(e.kind(), std::io::ErrorKind::BrokenPipe);
                    assert_eq!(bufs.len(), 16);
                }
                _ => panic!("the write failed"),
            }
        }
        _ => panic!("there is something to write"),
    }
}

#[test]
fn writing_can_be_given_up() {
    let mut pool = small_pool();
    let keep = IouBuf::from_slice(&mut pool, b"abc").unwrap();
    let orig = keep.clone(&mut pool);
    if let WriteStep::Write(state, lent) = WriteAll::start(&mut pool, orig) {
        assert_eq!(keep.refcount(&pool), 4);
        lent.release(&mut pool);
        state.release(&mut pool);
    }
    assert!(keep.is_unique(&pool));
    let mut v = IouBufVec::default();
    v.push(keep.clone(&mut pool));
    if let WritevStep::Write(state, lent) = WritevAll::start(&mut pool, v) {
        assert_eq!(keep.refcount(&pool), 3);
        lent.release(&mut pool);
        state.release(&mut pool);
    }
    assert!(keep.is_unique(&pool));
}

#[test]
fn an_empty_list_is_written_at_once() {
    let mut pool = small_pool();
    match WritevAll::start(&mut pool, IouBufVec::default()) {
        WritevStep::Done(WriteEnd::Written(0), bufs) => assert_eq!(bufs.len(), 0),
        _ => panic!("there is nothing to write"),
    }
}
