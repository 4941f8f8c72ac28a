use bytes::Buf;
use ioubuf::{BufferPool, IouBuf, IouBufCursor};
use std::io::{BufWriter, Write};

/// A pool with the buffer that reads from it.
struct PooledCursor {
    pool: BufferPool,
    cur: IouBufCursor,
}

impl Buf for PooledCursor {
    fn remaining(&self) -> usize {
        self.cur.remaining()
    }

    fn chunk(&self) -> &[u8] {
        self.cur.chunk(&self.pool)
    }

    fn advance(&mut self, cnt: usize) {
        assert!(cnt <= self.cur.remaining());
        self.cur.advance(cnt)
    }
}

/// A pool with the buffer that is written to.
struct PooledWriter {
    pool: BufferPool,
    buf: IouBuf,
}

impl Write for PooledWriter {
    fn write(&mut self, buf: &[u8]) -> std::io::Result<usize> {
        self.buf
            .write(&mut self.pool, buf)
            .map_err(|e| std::io::Error::new(std::io::ErrorKind::Other, e.message))
    }

    fn flush(&mut self) -> std::io::Result<()> {
        self.buf
            .flush()
            .map_err(|e| std::io::Error::new(std::io::ErrorKind::Other, e.message))
    }
}

#[test]
fn buf_basics() {
    let mut pool = BufferPool::new().unwrap();
    let buf = IouBuf::allocate(&mut pool, 444).unwrap();
    let mut subset = buf.into_slice(..5);
    {
        let writable = subset.get_mut(&mut pool).unwrap();
        writable.fill(42);
    }
    // Return the scope back to the root
    let root = subset.into_root(&pool);
    let mut subset = root.into_slice(5..10);
    {
        let writable = subset.get_mut(&mut pool).unwrap();
        writable.fill(84);
    }
    let root = subset.root(&mut pool);
    let new_subset = root.slice(&mut pool, 0..10);
    assert_eq!(new_subset.deref(&pool), &[42, 42, 42, 42, 42, 84, 84, 84, 84, 84]);
}

#[test]
fn vec_vec_buffs() {
    let mut pool = BufferPool::new().unwrap();
    let mut v: Vec<Vec<IouBuf>> = vec![];
    for _ in 0..10 {
        let v1 = (0..4).map(|_| IouBuf::allocate(&mut pool, 444).unwrap()).collect();
        v.push(v1);
    }
    for i in v.iter() {
        for j in i.iter() {
            assert_eq!(j.len(), 444);
            assert_eq!(j.capacity(&pool), 4096); // nearest power of 2 slabs
        }
    }
}

#[test]
fn vec_vec_from_slice() {
    let mut pool = BufferPool::new().unwrap();
    let mut v: Vec<Vec<IouBuf>> = vec![];
    for _ in 0..10 {
        let v1 = (0..4)
            .map(|_| IouBuf::try_from(&mut pool, &b"Wat Wat Wat"[..]).unwrap())
            .collect();
        v.push(v1);
    }
    for i in v.iter() {
        for j in i.iter() {
            assert_eq!(j.len(), 11);
            assert_eq!(j.capacity(&pool), 4096);
        }
    }
}

#[test]
fn vec_vec_from_vec() {
    let mut pool = BufferPool::new().unwrap();
    let mut v: Vec<Vec<IouBuf>> = vec![];
    for _ in 0..10 {
        let v1 = (0..4)
            .map(|_| {
                let vc = b"Wat Wat Wat".to_vec();
                IouBuf::from_vec(&mut pool, vc)
            })
            .collect();
        v.push(v1);
    }
    for i in v.iter() {
        for j in i.iter() {
            assert_eq!(j.len(), 11);
            assert_eq!(j.capacity(&pool), 11);
        }
    }
}

#[test]
fn vec_vec_chunks() {
    let mut pool = BufferPool::new().unwrap();
    let strip_count = 4;
    let chunk_size = 4096;
    let strip_size = 4096 * 4;

    let mut strips = Vec::with_capacity(strip_count);
    for _strip_id in 0..strip_count {
        let stride = strip_size / chunk_size;
        let mut strip = Vec::with_capacity(stride as usize);
        let mut buf_pattern: u8 = 65u8;
        for chunk_num in 0..stride {
            let reserve = (chunk_size - 3) as usize;
            let buf = if chunk_num == 0 {
                vec![vec![91u8; 3], vec![buf_pattern; reserve]]
                    .into_iter()
                    .flatten()
                    .collect()
            } else if chunk_num == stride - 1 {
                vec![vec![buf_pattern; reserve], vec![93u8; 3]]
                    .into_iter()
                    .flatten()
                    .collect()
            } else {
                vec![buf_pattern; chunk_size as usize]
            };
            strip.push(IouBuf::from_vec(&mut pool, buf));
            buf_pattern += 1;
            buf_pattern %= 90u8;
        }
        strips.push(strip);
    }

    let mut clones: Vec<Vec<IouBuf>> = vec![];
    for i in strips.iter() {
        let mut row = vec![];
        for j in i.iter() {
            row.push(j.clone(&mut pool));
        }
        clones.push(row);
    }
    for i in clones.iter() {
        for j in i.iter() {
            assert_eq!(j.len(), 4096);
        }
    }
}

#[test]
fn bytes_buf_roundtrip() {
    let mut pool = BufferPool::new().unwrap();
    let buf = IouBuf::allocate(&mut pool, 444).unwrap();
    let mut subset = buf.into_slice(..5);
    {
        let writable = subset.get_mut(&mut pool).unwrap();
        writable.fill(42);
    }
    // Return the scope back to the root
    let root = subset.into_root(&pool);
    let mut subset = root.into_slice(5..10);
    {
        let writable = subset.get_mut(&mut pool).unwrap();
        writable.fill(84);
    }
    let root = subset.root(&mut pool);
    let new_subset = root.slice(&mut pool, 0..10);
    assert_eq!(new_subset.deref(&pool), &[42, 42, 42, 42, 42, 84, 84, 84, 84, 84]);
}

#[test]
fn buf_is_cursor() {
    fn read_buf<B: Buf>(mut buf: B) -> bool {
        assert_eq!(b'h', buf.get_u8());
        assert_eq!(b'e', buf.get_u8());
        assert_eq!(b'l', buf.get_u8());

        let mut rest = [0; 8];
        buf.copy_to_slice(&mut rest);

        assert_eq!(&rest[..], &b"lo world"[..]);
        true
    }

    let mut pool = BufferPool::new().unwrap();
    let iou = IouBuf::try_from(&mut pool, &b"hello world"[..]).unwrap();
    let cur = iou.into_cursor();
    read_buf(PooledCursor { pool, cur });
}

#[test]
fn append_buf() {
    let mut pool = BufferPool::new().unwrap();
    let mut buf1 = IouBuf::from_slice(&mut pool, b"1234").unwrap();
    buf1.append_slice(&mut pool, b"567").unwrap();
    let d = IouBuf::from_slice(&mut pool, b"1234567").unwrap();
    assert!(buf1.eq(&pool, &d));

    let mut buf3 = {
        let tmpbuf = IouBuf::from_slice(&mut pool, b"0123456789").unwrap();
        let part = tmpbuf.slice(&mut pool, 2..7);
        tmpbuf.release(&mut pool);
        part
    };
    buf3.append_slice(&mut pool, b"abc").unwrap();
    let d = IouBuf::from_slice(&mut pool, b"23456abc").unwrap();
    println!("{}", buf3.as_str(&pool).unwrap());
    assert!(buf3.eq(&pool, &d));
}

#[test]
fn write_buf() {
    let mut pool = BufferPool::new().unwrap();
    let buf1 = IouBuf::from_slice(&mut pool, b"").unwrap();
    let mut stream = BufWriter::new(PooledWriter { pool, buf: buf1 });
    let chars: Vec<u8> = (0..10).map(|i| i + 48).collect();
    for i in 0..chars.len() {
        stream.write_all(&chars[i..(i + 1)]).unwrap();
    }
    stream.flush().unwrap();
    let inner = match stream.into_inner() {
        Ok(inner) => inner,
        Err(_) => panic!("the stream could not be flushed"),
    };
    assert_eq!(inner.buf.as_str(&inner.pool).unwrap(), "0123456789");
}

#[test]
fn empty() {
    let mut pool = BufferPool::new().unwrap();
    let buf1 = IouBuf::allocate(&mut pool, 0).unwrap();
    let buf2 = IouBuf::empty(&mut pool);
    assert_eq!(buf1.deref(&pool).as_ptr(), buf2.deref(&pool).as_ptr());
    assert_eq!(buf1.len(), 0);
    assert_eq!(buf2.capacity(&pool), 0);
}
