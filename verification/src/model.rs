//! What a pool holds, as mathematical values: the contracts of this crate speak of these.
use vstd::prelude::*;

use crate::class::{class_size, lemma_rounded_class, rounded, CLASS_COUNT};

verus! {

/// `n` bytes of the given value.
pub open spec fn filled(value: u8, n: nat) -> Seq<u8> {
    Seq::new(n, |i: int| value)
}

/// `n` zero bytes.
pub open spec fn zeros(n: nat) -> Seq<u8> {
    filled(0, n)
}

/// `bytes` with `new` in the place of the part from `lo` up to `hi`.
pub open spec fn replaced(bytes: Seq<u8>, lo: int, hi: int, new: Seq<u8>) -> Seq<u8> {
    bytes.subrange(0, lo) + new + bytes.subrange(hi, bytes.len() as int)
}

/// A backing buffer: how many references to it are held, and its bytes.
#[verifier::ext_equal]
pub struct BufState {
    /// How many references are held.
    pub refs: nat,
    /// The bytes of the whole buffer.
    pub bytes: Seq<u8>,
}

/// `count` buffers of `size` bytes that nobody holds, all zero.
pub open spec fn fresh_slab(count: nat, size: nat) -> Seq<BufState> {
    Seq::new(count, |i: int| BufState { refs: 0, bytes: zeros(size) })
}

/// The names of the `count` buffers of the slab with the number `slab`.
pub open spec fn names(slab: usize, count: nat) -> Seq<(usize, usize)> {
    Seq::new(count, |i: int| (slab, i as usize))
}

/// The slabs of one size class, and the buffers that wait to be handed out, the next one first.
#[verifier::ext_equal]
pub struct ListState {
    /// The size of the requests that the list was made for.
    pub size: nat,
    /// The slabs, in the order in which they were added.
    pub slabs: Seq<Seq<BufState>>,
    /// The free buffers, each as the number of its slab and its place in it.
    pub free: Seq<(usize, usize)>,
}

impl ListState {
    /// There is a slab `s` with a buffer `i`.
    pub open spec fn has(self, s: int, i: int) -> bool {
        0 <= s < self.slabs.len() && 0 <= i < self.slabs[s].len()
    }

    /// The buffer `i` of the slab `s`.
    pub open spec fn at(self, s: int, i: int) -> BufState {
        self.slabs[s][i]
    }

    /// How many buffers each slab has.
    pub open spec fn count(self) -> nat {
        self.slabs[0].len()
    }

    /// A buffer waits to be handed out.
    pub open spec fn is_free(self, s: int, i: int) -> bool {
        self.free.contains((s as usize, i as usize))
    }

    /// The list with another buffer in the place of one.
    pub open spec fn with(self, s: int, i: int, b: BufState) -> ListState {
        ListState { slabs: self.slabs.update(s, self.slabs[s].update(i, b)), ..self }
    }

    /// The list without the buffer that was next.
    pub open spec fn popped(self) -> ListState {
        ListState { free: self.free.drop_first(), ..self }
    }

    /// The list with one more buffer waiting.
    pub open spec fn pushed(self, s: usize, i: usize) -> ListState {
        ListState { free: self.free.push((s, i)), ..self }
    }

    /// The list with one more slab, all of whose buffers wait.
    pub open spec fn grown(self) -> ListState {
        ListState {
            slabs: self.slabs.push(fresh_slab(self.count(), rounded(self.size))),
            free: self.free + names(self.slabs.len() as usize, self.count()),
            ..self
        }
    }

    /// There is a slab, the slabs are alike, every buffer has the size of its class, and what
    /// waits is a buffer that nobody holds, once.
    pub open spec fn wf(self) -> bool {
        &&& 1 <= self.slabs.len() <= usize::MAX
        &&& self.count() <= usize::MAX
        &&& forall|s: int| 0 <= s < self.slabs.len() ==> (#[trigger] self.slabs[s]).len() == self.count()
        &&& forall|s: int, i: int| #[trigger]
            self.has(s, i) ==> self.at(s, i).bytes.len() == rounded(self.size)
        &&& forall|k: int|
            0 <= k < self.free.len() ==> self.has(
                (#[trigger] self.free[k]).0 as int,
                self.free[k].1 as int,
            ) && self.at(self.free[k].0 as int, self.free[k].1 as int).refs == 0
        &&& self.free.no_duplicates()
    }

    /// Every buffer that nobody holds waits.
    pub open spec fn settled(self) -> bool {
        forall|s: int, i: int| #[trigger]
            self.has(s, i) && self.at(s, i).refs == 0 ==> self.is_free(s, i)
    }

    /// A list that was just made.
    pub open spec fn fresh(size: nat, count: nat) -> ListState {
        ListState {
            size,
            slabs: seq![fresh_slab(count, rounded(size))],
            free: names(0, count),
        }
    }
}

/// A fresh list is sound, and all of it waits.
pub proof fn lemma_fresh(size: nat, count: nat)
    requires
        count <= usize::MAX,
    ensures
        ListState::fresh(size, count).wf(),
        ListState::fresh(size, count).settled(),
{
    let l = ListState::fresh(size, count);
    assert forall|s: int, i: int| #[trigger] l.has(s, i) && l.at(s, i).refs == 0 implies l.is_free(
        s,
        i,
    ) by {
        assert(l.free[i] == (s as usize, i as usize));
    }
}

/// Taking the next buffer keeps a list sound, and what was taken waits no more.
pub proof fn lemma_popped(l: ListState)
    requires
        l.wf(),
        l.free.len() > 0,
    ensures
        l.popped().wf(),
        !l.popped().free.contains(l.free[0]),
        forall|x: (usize, usize)|
            x != l.free[0] ==> #[trigger] l.popped().free.contains(x) == l.free.contains(x),
{
    let p = l.popped();
    assert forall|k: int| 0 <= k < p.free.len() implies p.has(
        (#[trigger] p.free[k]).0 as int,
        p.free[k].1 as int,
    ) && p.at(p.free[k].0 as int, p.free[k].1 as int).refs == 0 by {
        assert(p.free[k] == l.free[k + 1]);
        assert(l.has(l.free[k + 1].0 as int, l.free[k + 1].1 as int));
    }
    assert forall|s: int, i: int| #[trigger] p.has(s, i) implies p.at(s, i).bytes.len() == rounded(
        p.size,
    ) by {
        assert(l.has(s, i));
    }
    assert forall|x: (usize, usize)| x != l.free[0] implies #[trigger] p.free.contains(x)
        == l.free.contains(x) by {
        if l.free.contains(x) {
            let k = choose|k: int| 0 <= k < l.free.len() && l.free[k] == x;
            assert(p.free[k - 1] == x);
        }
        if p.free.contains(x) {
            let k = choose|k: int| 0 <= k < p.free.len() && p.free[k] == x;
            assert(l.free[k + 1] == x);
        }
    }
}

/// Putting a buffer back that nobody holds keeps a list sound.
pub proof fn lemma_pushed(l: ListState, s: usize, i: usize)
    requires
        l.wf(),
        l.has(s as int, i as int),
        l.at(s as int, i as int).refs == 0,
        !l.free.contains((s, i)),
    ensures
        l.pushed(s, i).wf(),
        l.pushed(s, i).free.contains((s, i)),
        forall|x: (usize, usize)|
            x != (s, i) ==> #[trigger] l.pushed(s, i).free.contains(x) == l.free.contains(x),
{
    let p = l.pushed(s, i);
    assert(p.free[l.free.len() as int] == (s, i));
    assert forall|k: int| 0 <= k < p.free.len() implies p.has(
        (#[trigger] p.free[k]).0 as int,
        p.free[k].1 as int,
    ) && p.at(p.free[k].0 as int, p.free[k].1 as int).refs == 0 by {
        if k < l.free.len() {
            assert(p.free[k] == l.free[k]);
            assert(l.has(l.free[k].0 as int, l.free[k].1 as int));
        }
    }
    assert forall|a: int, b: int| #[trigger] p.has(a, b) implies p.at(a, b).bytes.len() == rounded(
        p.size,
    ) by {
        assert(l.has(a, b));
    }
    assert forall|x: (usize, usize)| x != (s, i) implies #[trigger] p.free.contains(x)
        == l.free.contains(x) by {
        if l.free.contains(x) {
            let k = choose|k: int| 0 <= k < l.free.len() && l.free[k] == x;
            assert(p.free[k] == x);
        }
        if p.free.contains(x) {
            let k = choose|k: int| 0 <= k < p.free.len() && p.free[k] == x;
            assert(l.free[k] == x);
        }
    }
}

/// Changing a buffer that does not wait keeps a list sound.
pub proof fn lemma_with(l: ListState, s: int, i: int, b: BufState)
    requires
        l.wf(),
        l.has(s, i),
        !l.is_free(s, i),
        b.bytes.len() == l.at(s, i).bytes.len(),
    ensures
        l.with(s, i, b).wf(),
        forall|a: int, c: int| #[trigger] l.with(s, i, b).has(a, c) == l.has(a, c),
        forall|a: int, c: int|
            l.has(a, c) ==> #[trigger] l.with(s, i, b).at(a, c) == if a == s && c == i {
                b
            } else {
                l.at(a, c)
            },
{
    let w = l.with(s, i, b);
    assert forall|a: int, c: int| #[trigger] w.has(a, c) implies w.at(a, c).bytes.len() == rounded(
        w.size,
    ) by {
        assert(l.has(a, c));
    }
    assert forall|k: int| 0 <= k < w.free.len() implies w.has(
        (#[trigger] w.free[k]).0 as int,
        w.free[k].1 as int,
    ) && w.at(w.free[k].0 as int, w.free[k].1 as int).refs == 0 by {
        assert(l.has(l.free[k].0 as int, l.free[k].1 as int));
        assert(l.free.contains(l.free[k]));
    }
}

/// Adding a slab keeps a list sound, adds nothing but what waits, and leaves the rest.
pub proof fn lemma_grown(l: ListState)
    requires
        l.wf(),
        l.slabs.len() < usize::MAX,
    ensures
        l.grown().wf(),
        l.settled() ==> l.grown().settled(),
        forall|s: int, i: int| #[trigger]
            l.has(s, i) ==> l.grown().has(s, i) && l.grown().at(s, i) == l.at(s, i),
        l.free.len() == 0 ==> l.grown().free == names(l.slabs.len() as usize, l.count()),
{
    let g = l.grown();
    let n = l.slabs.len() as int;
    assert forall|s: int, i: int| #[trigger] g.has(s, i) implies g.at(s, i).bytes.len() == rounded(
        g.size,
    ) by {
        if s < n {
            assert(l.has(s, i));
        }
    }
    assert forall|k: int| 0 <= k < g.free.len() implies g.has(
        (#[trigger] g.free[k]).0 as int,
        g.free[k].1 as int,
    ) && g.at(g.free[k].0 as int, g.free[k].1 as int).refs == 0 by {
        if k < l.free.len() {
            assert(g.free[k] == l.free[k]);
            assert(l.has(l.free[k].0 as int, l.free[k].1 as int));
        }
    }
    assert forall|j: int, k: int| 0 <= j < g.free.len() && 0 <= k < g.free.len() && j
        != k implies g.free[j] != g.free[k] by {
        if j < l.free.len() {
            assert(l.has(l.free[j].0 as int, l.free[j].1 as int));
        }
        if k < l.free.len() {
            assert(l.has(l.free[k].0 as int, l.free[k].1 as int));
        }
    }
    if l.settled() {
        assert forall|s: int, i: int| #[trigger] g.has(s, i) && g.at(s, i).refs
            == 0 implies g.is_free(s, i) by {
            if s < n {
                assert(l.has(s, i));
                let k = choose|k: int|
                    0 <= k < l.free.len() && l.free[k] == (s as usize, i as usize);
                assert(g.free[k] == (s as usize, i as usize));
            } else {
                assert(g.free[l.free.len() + i] == (s as usize, i as usize));
            }
        }
    }
    if l.free.len() == 0 {
        assert(g.free =~= names(l.slabs.len() as usize, l.count()));
    }
}

/// Names a backing buffer of a pool.
#[derive(Debug, Clone, Copy, PartialEq, Eq, Structural)]
pub enum HandlePtr {
    /// A buffer of a slab.
    Pooled {
        /// The size class.
        list: usize,
        /// The slab.
        slab: usize,
        /// The place in the slab.
        index: usize,
    },
    /// A buffer that came from outside and goes back to the allocator.
    Owned {
        /// The place among those.
        slot: usize,
    },
}

/// What a pool holds.
#[verifier::ext_equal]
pub struct PoolState {
    /// The size classes, the smallest first.
    pub lists: Seq<ListState>,
    /// The buffers that came from outside; `None` where one has gone back.
    pub owned: Seq<Option<BufState>>,
}

impl PoolState {
    /// `h` names a buffer.
    pub open spec fn valid(self, h: HandlePtr) -> bool {
        match h {
            HandlePtr::Pooled { list, slab, index } => list < self.lists.len()
                && self.lists[list as int].has(slab as int, index as int),
            HandlePtr::Owned { slot } => slot < self.owned.len() && self.owned[slot as int] is Some,
        }
    }

    /// The buffer that `h` names.
    pub open spec fn at(self, h: HandlePtr) -> BufState {
        match h {
            HandlePtr::Pooled { list, slab, index } => self.lists[list as int].at(
                slab as int,
                index as int,
            ),
            HandlePtr::Owned { slot } => self.owned[slot as int]->Some_0,
        }
    }

    /// `h` names a buffer to which a reference is held.
    pub open spec fn held(self, h: HandlePtr) -> bool {
        self.valid(h) && self.at(h).refs >= 1
    }

    /// `h` names a buffer that waits to be handed out.
    pub open spec fn is_free(self, h: HandlePtr) -> bool {
        match h {
            HandlePtr::Pooled { list, slab, index } => list < self.lists.len()
                && self.lists[list as int].free.contains((slab, index)),
            HandlePtr::Owned { .. } => false,
        }
    }

    /// The pool with another buffer in the place of one.
    pub open spec fn with(self, h: HandlePtr, b: BufState) -> PoolState {
        match h {
            HandlePtr::Pooled { list, slab, index } => PoolState {
                lists: self.lists.update(
                    list as int,
                    self.lists[list as int].with(slab as int, index as int, b),
                ),
                ..self
            },
            HandlePtr::Owned { slot } => PoolState {
                owned: self.owned.update(slot as int, Some(b)),
                ..self
            },
        }
    }

    /// The pool with another number of references to a buffer.
    pub open spec fn counted(self, h: HandlePtr, n: nat) -> PoolState {
        self.with(h, BufState { refs: n, ..self.at(h) })
    }

    /// The pool with other bytes in a buffer.
    pub open spec fn written(self, h: HandlePtr, bytes: Seq<u8>) -> PoolState {
        self.with(h, BufState { bytes, ..self.at(h) })
    }

    /// The pool with one more reference to a buffer.
    pub open spec fn retained(self, h: HandlePtr) -> PoolState {
        self.counted(h, self.at(h).refs + 1)
    }

    /// The pool with a buffer given up that nobody holds any more: it waits to be handed out
    /// again, or goes back to the allocator.
    pub open spec fn freed(self, h: HandlePtr) -> PoolState {
        match h {
            HandlePtr::Pooled { list, slab, index } => PoolState {
                lists: self.lists.update(list as int, self.lists[list as int].pushed(slab, index)),
                ..self
            },
            HandlePtr::Owned { slot } => PoolState {
                owned: self.owned.update(slot as int, None),
                ..self
            },
        }
    }

    /// The pool with one reference less to a buffer; the last one gives the buffer up.
    pub open spec fn released(self, h: HandlePtr) -> PoolState {
        if self.at(h).refs == 1 {
            self.counted(h, 0).freed(h)
        } else {
            self.counted(h, (self.at(h).refs - 1) as nat)
        }
    }

    /// The pool with a buffer that came from outside, to which one reference is held.
    pub open spec fn with_owned(self, bytes: Seq<u8>) -> PoolState {
        PoolState { owned: self.owned.push(Some(BufState { refs: 1, bytes })), ..self }
    }

    /// The name of the next buffer that comes from outside.
    pub open spec fn next_owned(self) -> HandlePtr {
        HandlePtr::Owned { slot: self.owned.len() as usize }
    }

    /// The pool once the size class `l` was asked for a buffer: it gets another slab when
    /// nothing waits, if the system grants the memory.
    pub open spec fn refilled(self, l: int, granted: bool) -> PoolState {
        if self.lists[l].free.len() == 0 && granted {
            PoolState { lists: self.lists.update(l, self.lists[l].grown()), ..self }
        } else {
            self
        }
    }

    /// The name of the buffer that the size class `l` hands out next.
    pub open spec fn next_free(self, l: int) -> HandlePtr {
        HandlePtr::Pooled {
            list: l as usize,
            slab: self.lists[l].free[0].0,
            index: self.lists[l].free[0].1,
        }
    }

    /// The pool without the buffer that the size class `l` hands out next.
    pub open spec fn popped(self, l: int) -> PoolState {
        PoolState { lists: self.lists.update(l, self.lists[l].popped()), ..self }
    }

    /// The pool once the size class `l` has handed out a buffer, to which one reference is held.
    pub open spec fn taken(self, l: int) -> PoolState {
        self.popped(l).counted(self.next_free(l), 1)
    }

    /// The size class `l` has a buffer to hand out, perhaps one of a slab that it gets.
    pub open spec fn can_hand_out(self, l: int, granted: bool) -> bool {
        self.refilled(l, granted).lists[l].free.len() > 0
    }

    /// The name of the buffer that the size class `l` hands out when asked.
    pub open spec fn hand_out(self, l: int, granted: bool) -> HandlePtr {
        self.refilled(l, granted).next_free(l)
    }

    /// The pool once the size class `l` was asked for a buffer and handed one out if it could.
    pub open spec fn after_hand_out(self, l: int, granted: bool) -> PoolState {
        if self.can_hand_out(l, granted) {
            self.refilled(l, granted).taken(l)
        } else {
            self.refilled(l, granted)
        }
    }

    /// Every buffer of `self` but `h` is in `other` too, as it is.
    pub open spec fn kept_in(self, other: PoolState, h: HandlePtr) -> bool {
        forall|x: HandlePtr|
            x != h && self.valid(x) ==> #[trigger] other.valid(x) && other.at(x) == self.at(x)
    }

    /// The six size classes are there and each is sound, and what came from outside is held.
    pub open spec fn sound(self) -> bool {
        &&& self.lists.len() == CLASS_COUNT
        &&& forall|l: int|
            0 <= l < self.lists.len() ==> (#[trigger] self.lists[l]).wf() && self.lists[l].size
                == class_size(l as nat)
        &&& self.owned.len() <= usize::MAX
        &&& forall|k: int|
            0 <= k < self.owned.len() && (#[trigger] self.owned[k]) is Some
                ==> self.owned[k]->Some_0.refs >= 1
    }

    /// The pool is sound, and every buffer that nobody holds waits to be handed out.
    pub open spec fn wf(self) -> bool {
        &&& self.sound()
        &&& forall|l: int| 0 <= l < self.lists.len() ==> (#[trigger] self.lists[l]).settled()
    }

    /// A pool that was just made, with slabs of `count` buffers.
    pub open spec fn fresh(count: nat) -> PoolState {
        PoolState {
            lists: Seq::new(
                CLASS_COUNT as nat,
                |l: int| ListState::fresh(class_size(l as nat), count),
            ),
            owned: Seq::empty(),
        }
    }
}

/// A buffer that nobody holds waits, and one that waits is held by nobody.
pub proof fn law_free_iff_not_held(p: PoolState, h: HandlePtr)
    requires
        p.wf(),
        p.valid(h),
    ensures
        p.is_free(h) <==> p.at(h).refs == 0,
        p.is_free(h) <==> !p.held(h),
{
    match h {
        HandlePtr::Pooled { list, slab, index } => {
            let l = p.lists[list as int];
            assert(l.settled());
            assert(l.has(slab as int, index as int));
            if l.free.contains((slab, index)) {
                let k = choose|k: int| 0 <= k < l.free.len() && l.free[k] == (slab, index);
                assert(l.at(l.free[k].0 as int, l.free[k].1 as int).refs == 0);
            }
        },
        HandlePtr::Owned { slot } => {
            assert(p.owned[slot as int] is Some);
        },
    }
}

/// Changing a held buffer keeps a pool sound and leaves every other buffer.
pub proof fn lemma_pool_with(p: PoolState, h: HandlePtr, b: BufState)
    requires
        p.wf(),
        p.held(h),
        b.refs >= 1,
        h is Pooled ==> b.bytes.len() == p.at(h).bytes.len(),
    ensures
        p.with(h, b).wf(),
        forall|x: HandlePtr| #[trigger] p.with(h, b).valid(x) == p.valid(x),
        forall|x: HandlePtr|
            p.valid(x) ==> #[trigger] p.with(h, b).at(x) == if x == h {
                b
            } else {
                p.at(x)
            },
{
    law_free_iff_not_held(p, h);
    let w = p.with(h, b);
    match h {
        HandlePtr::Pooled { list, slab, index } => {
            let l = p.lists[list as int];
            assert(l.wf());
            lemma_with(l, slab as int, index as int, b);
            let m = l.with(slab as int, index as int, b);
            assert forall|s: int, i: int| #[trigger] m.has(s, i) && m.at(s, i).refs
                == 0 implies m.is_free(s, i) by {
                assert(l.settled());
                assert(l.has(s, i));
            }
            assert forall|x: HandlePtr| #[trigger] w.valid(x) == p.valid(x) by {
                if let HandlePtr::Pooled { list: l2, slab: s2, index: i2 } = x {
                    assert(m.has(s2 as int, i2 as int) == l.has(s2 as int, i2 as int));
                }
            }
            assert forall|x: HandlePtr| p.valid(x) implies #[trigger] w.at(x) == if x == h {
                b
            } else {
                p.at(x)
            } by {
                if let HandlePtr::Pooled { list: l2, slab: s2, index: i2 } = x {
                    if l2 == list {
                        assert(l.has(s2 as int, i2 as int));
                        assert(m.at(s2 as int, i2 as int) == if s2 == slab && i2 == index {
                            b
                        } else {
                            l.at(s2 as int, i2 as int)
                        });
                    }
                }
            }
        },
        HandlePtr::Owned { slot } => {},
    }
}

/// Giving up a reference keeps a pool sound and leaves every other buffer. The last one gives
/// the buffer up; before that the buffer keeps its bytes and loses a reference.
pub proof fn lemma_pool_released(p: PoolState, h: HandlePtr)
    requires
        p.wf(),
        p.held(h),
    ensures
        p.released(h).wf(),
        forall|x: HandlePtr|
            x != h && p.valid(x) ==> #[trigger] p.released(h).valid(x) && p.released(h).at(x)
                == p.at(x),
        p.at(h).refs > 1 ==> p.released(h).held(h) && p.released(h).at(h) == (BufState {
            refs: (p.at(h).refs - 1) as nat,
            ..p.at(h)
        }),
        p.at(h).refs == 1 ==> !p.released(h).held(h),
        p.at(h).refs == 1 && h is Pooled ==> p.released(h).valid(h) && p.released(h).is_free(h)
            && p.released(h).at(h) == (BufState { refs: 0, ..p.at(h) }),
        p.at(h).refs == 1 && h is Owned ==> !p.released(h).valid(h),
{
    if p.at(h).refs > 1 {
        lemma_pool_with(p, h, BufState { refs: (p.at(h).refs - 1) as nat, ..p.at(h) });
        let q = p.counted(h, (p.at(h).refs - 1) as nat);
        assert(q.valid(h) && q.at(h).refs == p.at(h).refs - 1);
    } else {
        law_free_iff_not_held(p, h);
        match h {
            HandlePtr::Pooled { list, slab, index } => {
                let l = p.lists[list as int];
                let b = BufState { refs: 0, ..p.at(h) };
                assert(l.wf());
                assert(l.settled());
                lemma_with(l, slab as int, index as int, b);
                let m = l.with(slab as int, index as int, b);
                assert(m.has(slab as int, index as int) == l.has(slab as int, index as int));
                assert(m.at(slab as int, index as int) == b);
                lemma_pushed(m, slab, index);
                let n = m.pushed(slab, index);
                let q = p.released(h);
                assert(q.lists =~= p.lists.update(list as int, n));
                assert forall|s: int, i: int| #[trigger] n.has(s, i) && n.at(s, i).refs
                    == 0 implies n.is_free(s, i) by {
                    assert(m.has(s, i));
                    if s != slab || i != index {
                        assert(l.has(s, i));
                        assert(n.free.contains((s as usize, i as usize)) == m.free.contains(
                            (s as usize, i as usize),
                        ));
                    }
                }
                assert forall|x: HandlePtr| x != h && p.valid(x) implies #[trigger] q.valid(x)
                    && q.at(x) == p.at(x) by {
                    if let HandlePtr::Pooled { list: l2, slab: s2, index: i2 } = x {
                        if l2 == list {
                            assert(l.has(s2 as int, i2 as int));
                            assert(m.has(s2 as int, i2 as int));
                            assert(m.at(s2 as int, i2 as int) == l.at(s2 as int, i2 as int));
                        }
                    }
                }
            },
            HandlePtr::Owned { slot } => {
                let q = p.released(h);
                assert(q.owned =~= p.owned.update(slot as int, None));
            },
        }
    }
}

/// Adding a slab where nothing waits keeps a pool sound and leaves every buffer.
pub proof fn lemma_pool_refilled(p: PoolState, l: int, granted: bool)
    requires
        p.wf(),
        0 <= l < p.lists.len(),
        p.refilled(l, granted).lists[l].slabs.len() <= usize::MAX,
    ensures
        p.refilled(l, granted).wf(),
        forall|x: HandlePtr|
            p.valid(x) ==> #[trigger] p.refilled(l, granted).valid(x) && p.refilled(l, granted).at(
                x,
            ) == p.at(x),
{
    let q = p.refilled(l, granted);
    assert(p.lists[l].settled());
    if p.lists[l].free.len() == 0 && granted {
        lemma_grown(p.lists[l]);
    }
    assert forall|x: HandlePtr| p.valid(x) implies #[trigger] q.valid(x) && q.at(x) == p.at(x) by {
        if let HandlePtr::Pooled { list: l2, slab: s2, index: i2 } = x {
            if l2 == l {
                assert(p.lists[l].has(s2 as int, i2 as int));
            }
        }
    }
}

/// Handing out the next buffer keeps a pool sound, makes a buffer held that was not, and leaves
/// every other buffer.
pub proof fn lemma_pool_taken(p: PoolState, l: int)
    requires
        p.wf(),
        0 <= l < p.lists.len(),
        p.lists[l].free.len() > 0,
    ensures
        p.taken(l).wf(),
        p.valid(p.next_free(l)),
        !p.held(p.next_free(l)),
        p.taken(l).held(p.next_free(l)),
        p.taken(l).at(p.next_free(l)) == (BufState { refs: 1, ..p.at(p.next_free(l)) }),
        p.at(p.next_free(l)).bytes.len() == class_size(l as nat),
        forall|x: HandlePtr|
            x != p.next_free(l) && p.valid(x) ==> #[trigger] p.taken(l).valid(x) && p.taken(l).at(x)
                == p.at(x),
{
    let h = p.next_free(l);
    let t = p.taken(l);
    let a = p.lists[l];
    let (s, i) = a.free[0];
    assert(a.wf());
    assert(a.has(a.free[0].0 as int, a.free[0].1 as int));
    lemma_popped(a);
    let m = a.popped();
    let b = BufState { refs: 1, ..p.at(h) };
    assert(m.has(s as int, i as int));
    lemma_with(m, s as int, i as int, b);
    let n = m.with(s as int, i as int, b);
    assert(t.lists =~= p.lists.update(l, n));
    lemma_rounded_class(l as nat);
    assert forall|c: int, d: int| #[trigger] n.has(c, d) && n.at(c, d).refs == 0 implies n.is_free(
        c,
        d,
    ) by {
        assert(m.has(c, d));
        assert(a.settled());
        assert(a.has(c, d));
        assert((c as usize, d as usize) != a.free[0]);
        assert(m.free.contains((c as usize, d as usize)) == a.free.contains(
            (c as usize, d as usize),
        ));
    }
    assert(n.at(s as int, i as int) == b);
    assert(n.has(s as int, i as int));
    assert forall|x: HandlePtr| x != h && p.valid(x) implies #[trigger] t.valid(x) && t.at(x)
        == p.at(x) by {
        if let HandlePtr::Pooled { list: l2, slab: s2, index: i2 } = x {
            if l2 == l {
                assert(m.has(s2 as int, i2 as int));
                assert(n.has(s2 as int, i2 as int));
                assert(n.at(s2 as int, i2 as int) == m.at(s2 as int, i2 as int));
            }
        }
    }
}

/// Taking in a buffer from outside keeps a pool sound, adds one held buffer, and leaves every
/// other.
pub proof fn lemma_pool_with_owned(p: PoolState, bytes: Seq<u8>)
    requires
        p.wf(),
        p.owned.len() < usize::MAX,
    ensures
        p.with_owned(bytes).wf(),
        !p.valid(p.next_owned()),
        p.with_owned(bytes).held(p.next_owned()),
        p.with_owned(bytes).at(p.next_owned()) == (BufState { refs: 1, bytes }),
        forall|x: HandlePtr|
            p.valid(x) ==> #[trigger] p.with_owned(bytes).valid(x) && p.with_owned(bytes).at(x)
                == p.at(x),
{
}

/// A pool that was asked for a buffer is sound; the buffer that it hands out was held by nobody,
/// is held once now, and has the size of its class; every other buffer is as it was.
pub proof fn lemma_hand_out(p: PoolState, l: int, granted: bool)
    requires
        p.wf(),
        0 <= l < p.lists.len(),
        p.after_hand_out(l, granted).lists[l].slabs.len() <= usize::MAX,
    ensures
        p.after_hand_out(l, granted).wf(),
        p.kept_in(p.after_hand_out(l, granted), p.hand_out(l, granted)),
        p.can_hand_out(l, granted) ==> {
            let h = p.hand_out(l, granted);
            let q = p.after_hand_out(l, granted);
            &&& h is Pooled
            &&& !p.held(h)
            &&& q.held(h)
            &&& q.at(h).refs == 1
            &&& q.at(h).bytes.len() == class_size(l as nat)
            &&& p.valid(h) ==> q.at(h).bytes == p.at(h).bytes
        },
        !p.can_hand_out(l, granted) ==> forall|x: HandlePtr|
            p.valid(x) ==> #[trigger] p.after_hand_out(l, granted).valid(x) && p.after_hand_out(
                l,
                granted,
            ).at(x) == p.at(x),
{
    let ready = p.refilled(l, granted);
    let h = p.hand_out(l, granted);
    let q = p.after_hand_out(l, granted);
    assert(ready.lists.len() == p.lists.len());
    if p.can_hand_out(l, granted) {
        assert(q.lists[l].slabs.len() == ready.lists[l].slabs.len());
    }
    lemma_pool_refilled(p, l, granted);
    if p.can_hand_out(l, granted) {
        lemma_pool_taken(ready, l);
        assert(p.valid(h) ==> ready.valid(h));
    }
    assert forall|x: HandlePtr| x != h && p.valid(x) implies #[trigger] q.valid(x) && q.at(x)
        == p.at(x) by {
        assert(ready.valid(x));
    }
}

/// Changing two buffers gives the same in either order.
pub proof fn lemma_with_commutes(p: PoolState, a: HandlePtr, x: BufState, b: HandlePtr, y: BufState)
    requires
        p.valid(a),
        p.valid(b),
        a != b,
    ensures
        p.with(a, x).with(b, y) == p.with(b, y).with(a, x),
{
    let u = p.with(a, x).with(b, y);
    let v = p.with(b, y).with(a, x);
    match (a, b) {
        (
            HandlePtr::Pooled { list: l, slab: s, index: i },
            HandlePtr::Pooled { list: m, slab: t, index: j },
        ) => {
            let k = p.lists[l as int];
            if l == m {
                if s == t {
                    assert(k.slabs[s as int].update(i as int, x).update(j as int, y)
                        =~= k.slabs[s as int].update(j as int, y).update(i as int, x));
                }
                assert(u.lists[l as int].slabs =~= v.lists[l as int].slabs);
            }
            assert(u.lists =~= v.lists);
        },
        (HandlePtr::Owned { slot: _ }, HandlePtr::Owned { slot: _ }) => {
            assert(u.owned =~= v.owned);
        },
        _ => {},
    }
}

/// Of two changes to one buffer the second one stays.
pub proof fn lemma_with_twice(p: PoolState, h: HandlePtr, x: BufState, y: BufState)
    requires
        p.valid(h),
    ensures
        p.with(h, x).with(h, y) == p.with(h, y),
        p.with(h, p.at(h)) == p,
        p.with(h, x).at(h) == x,
{
    match h {
        HandlePtr::Pooled { list, slab, index } => {
            let k = p.lists[list as int];
            let s = k.slabs[slab as int];
            assert(s.update(index as int, x).update(index as int, y) =~= s.update(index as int, y));
            assert(k.slabs.update(slab as int, s.update(index as int, x)).update(
                slab as int,
                s.update(index as int, y),
            ) =~= k.slabs.update(slab as int, s.update(index as int, y)));
            assert(p.with(h, x).with(h, y).lists =~= p.with(h, y).lists);
            assert(s.update(index as int, p.at(h)) =~= s);
            assert(k.slabs.update(slab as int, s) =~= k.slabs);
            assert(p.with(h, p.at(h)).lists =~= p.lists);
        },
        HandlePtr::Owned { slot } => {
            assert(p.with(h, x).with(h, y).owned =~= p.with(h, y).owned);
            assert(p.with(h, p.at(h)).owned =~= p.owned);
        },
    }
}

/// Giving up a reference that was just taken leaves the pool as it was.
pub proof fn law_clone_then_release(p: PoolState, h: HandlePtr)
    requires
        p.held(h),
    ensures
        p.retained(h).released(h) == p,
{
    let n = p.at(h).refs;
    lemma_with_twice(
        p,
        h,
        BufState { refs: n + 1, ..p.at(h) },
        BufState { refs: n, ..p.at(h) },
    );
}

} // verus!
