use ioubuf::slab_list::SlabList;

#[test]
fn return_queue_works() {
    let mut slablist = SlabList::new(1000, 16).unwrap();
    let mut v = Vec::<(usize, usize)>::new();
    while let Ok(hnd) = slablist.next() {
        v.push(hnd);
    }
    assert_eq!(v.len(), 16);
    v.drain(..).for_each(|hnd| slablist.recycle(hnd));
    assert_eq!(v.len(), 0);
    while let Ok(hnd) = slablist.next() {
        v.push(hnd);
    }
    assert_eq!(v.len(), 16);
}
