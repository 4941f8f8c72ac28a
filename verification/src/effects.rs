//! What each change to a pool does, slab by slab, buffer by buffer and byte by byte.
//!
//! These laws speak of the fields of a pool alone: the slabs of each size class, the queue of
//! each, and the buffers that came from outside.
use vstd::prelude::*;

use crate::class::{class_size, lemma_class_sizes, lemma_rounded_class, rounded};
use crate::model::{
    filled, fresh_slab, names, replaced, zeros, BufState, HandlePtr, ListState, PoolState,
};
use crate::view::BufView;

verus! {

/// Filled bytes are as many as asked for, and each of them is the value; zero bytes are zero.
pub proof fn law_every_byte_is_filled(value: u8, n: nat)
    ensures
        filled(value, n).len() == n,
        forall|i: int| 0 <= i < n ==> #[trigger] filled(value, n)[i] == value,
        zeros(n).len() == n,
        forall|i: int| 0 <= i < n ==> #[trigger] zeros(n)[i] == 0,
{
}

/// Where bytes are replaced, the new ones stand one for one, and no other byte changes.
pub proof fn law_only_the_part_is_replaced(bytes: Seq<u8>, lo: int, new: Seq<u8>)
    requires
        0 <= lo,
        lo + new.len() <= bytes.len(),
    ensures
        ({
            let after = replaced(bytes, lo, lo + new.len(), new);
            &&& after.len() == bytes.len()
            &&& forall|i: int| 0 <= i < new.len() ==> after[lo + i] == #[trigger] new[i]
            &&& forall|i: int|
                0 <= i < lo || lo + new.len() <= i < bytes.len() ==> #[trigger] after[i] == bytes[i]
        }),
{
    let after = replaced(bytes, lo, lo + new.len(), new);
    assert forall|i: int| 0 <= i < new.len() implies after[lo + i] == #[trigger] new[i] by {}
}

/// A new slab has its buffers one after the other; nobody holds them, and every byte is zero.
pub proof fn law_new_slab_is_zero(slab: usize, count: nat, size: nat)
    requires
        count <= usize::MAX,
    ensures
        fresh_slab(count, size).len() == count,
        forall|i: int|
            0 <= i < count ==> (#[trigger] fresh_slab(count, size)[i]).refs == 0 && fresh_slab(
                count,
                size,
            )[i].bytes.len() == size,
        forall|i: int, k: int|
            0 <= i < count && 0 <= k < size ==> #[trigger] fresh_slab(count, size)[i].bytes[k] == 0,
        names(slab, count).len() == count,
        forall|i: int|
            0 <= i < count ==> (#[trigger] names(slab, count)[i]).0 == slab && names(
                slab,
                count,
            )[i].1 == i,
{
}

/// Taking the next buffer out of a queue moves every other one up, and touches no slab.
pub proof fn law_pop_moves_up(l: ListState)
    requires
        l.free.len() > 0,
    ensures
        l.popped().free.len() == l.free.len() - 1,
        forall|k: int| 0 < k < l.free.len() ==> l.popped().free[k - 1] == #[trigger] l.free[k],
        l.popped().slabs == l.slabs,
        l.popped().size == l.size,
{
}

/// Putting a buffer back lets it wait behind all the others, and touches no slab.
pub proof fn law_push_waits_last(l: ListState, s: usize, i: usize)
    ensures
        l.pushed(s, i).free.len() == l.free.len() + 1,
        l.pushed(s, i).free[l.free.len() as int] == (s, i),
        forall|k: int| 0 <= k < l.free.len() ==> l.pushed(s, i).free[k] == #[trigger] l.free[k],
        l.pushed(s, i).slabs == l.slabs,
        l.pushed(s, i).size == l.size,
{
}

/// A list that grows keeps its slabs and its queue, and gets one slab behind them, as large as the
/// first, whose zero buffers wait in order behind all the others.
pub proof fn law_growing_adds_one_slab(l: ListState)
    requires
        l.slabs.len() < usize::MAX,
        l.slabs[0].len() <= usize::MAX,
    ensures
        ({
            let g = l.grown();
            let n = l.slabs.len() as int;
            let count = l.slabs[0].len();
            &&& g.size == l.size
            &&& g.slabs.len() == n + 1
            &&& forall|s: int| 0 <= s < n ==> #[trigger] g.slabs[s] == l.slabs[s]
            &&& g.slabs[n].len() == count
            &&& forall|i: int|
                0 <= i < count ==> (#[trigger] g.slabs[n][i]).refs == 0 && g.slabs[n][i].bytes.len()
                    == rounded(l.size)
            &&& forall|i: int, k: int|
                0 <= i < count && 0 <= k < rounded(l.size) ==> #[trigger] g.slabs[n][i].bytes[k] == 0
            &&& g.free.len() == l.free.len() + count
            &&& forall|k: int| 0 <= k < l.free.len() ==> #[trigger] g.free[k] == l.free[k]
            &&& forall|i: int|
                l.free.len() <= i < l.free.len() + count ==> (#[trigger] g.free[i]).0 == n
                    && g.free[i].1 == i - l.free.len()
        }),
{
    law_new_slab_is_zero(l.slabs.len() as usize, l.slabs[0].len(), rounded(l.size));
}

/// A fresh pool has six size classes, from a page up in powers of two. Each has one slab of zero
/// buffers that nobody holds, and they wait in order. Nothing came from outside yet.
pub proof fn law_fresh_pool_is_all_free(count: nat)
    requires
        count <= usize::MAX,
    ensures
        ({
            let p = PoolState::fresh(count);
            &&& p.owned.len() == 0
            &&& p.lists.len() == 6
            &&& p.lists[0].size == 4096
            &&& p.lists[1].size == 8192
            &&& p.lists[2].size == 16384
            &&& p.lists[3].size == 32768
            &&& p.lists[4].size == 65536
            &&& p.lists[5].size == 131072
            &&& forall|l: int|
                0 <= l < 6 ==> {
                    &&& (#[trigger] p.lists[l]).slabs.len() == 1
                    &&& p.lists[l].slabs[0].len() == count
                    &&& p.lists[l].free.len() == count
                }
            &&& forall|l: int, i: int|
                0 <= l < 6 && 0 <= i < count ==> {
                    &&& (#[trigger] p.lists[l].slabs[0][i]).refs == 0
                    &&& p.lists[l].slabs[0][i].bytes.len() == p.lists[l].size
                }
            &&& forall|l: int, i: int, k: int|
                0 <= l < 6 && 0 <= i < count && 0 <= k < p.lists[l].size ==> #[trigger]
                    p.lists[l].slabs[0][i].bytes[k] == 0
            &&& forall|l: int, i: int|
                0 <= l < 6 && 0 <= i < count ==> (#[trigger] p.lists[l].free[i]).0 == 0
                    && p.lists[l].free[i].1 == i
        }),
{
    lemma_class_sizes();
    assert forall|l: int| 0 <= l < 6 implies rounded(#[trigger] class_size(l as nat)) == class_size(
        l as nat,
    ) by {
        lemma_rounded_class(l as nat);
    }
    let p = PoolState::fresh(count);
    assert forall|l: int| 0 <= l < 6 implies #[trigger] p.lists[l] == ListState::fresh(
        class_size(l as nat),
        count,
    ) && rounded(p.lists[l].size) == p.lists[l].size by {
        assert(rounded(class_size(l as nat)) == class_size(l as nat));
    }
}

/// What names a buffer of a slab finds it there, and what names a buffer from outside finds it
/// there.
pub proof fn law_names_find_their_buffers(p: PoolState, list: usize, slab: usize, index: usize)
    ensures
        ({
            let h = HandlePtr::Pooled { list, slab, index };
            &&& p.valid(h) <==> list < p.lists.len() && slab < p.lists[list as int].slabs.len()
                && index < p.lists[list as int].slabs[slab as int].len()
            &&& p.at(h) == p.lists[list as int].slabs[slab as int][index as int]
            &&& p.held(h) <==> p.valid(h) && p.lists[list as int].slabs[slab as int][index as int].refs
                > 0
            &&& p.is_free(h) <==> list < p.lists.len() && exists|k: int|
                0 <= k < p.lists[list as int].free.len() && p.lists[list as int].free[k] == (
                    slab,
                    index,
                )
        }),
        ({
            let h = HandlePtr::Owned { slot: index };
            &&& p.valid(h) <==> index < p.owned.len() && p.owned[index as int] is Some
            &&& p.valid(h) ==> p.owned[index as int] == Some(p.at(h))
            &&& p.held(h) <==> p.valid(h) && p.at(h).refs > 0
            &&& !p.is_free(h)
        }),
{
}

/// Changing a buffer of a slab puts the new one there, and leaves every other buffer, every queue
/// and what came from outside.
pub proof fn law_change_is_there_alone(
    p: PoolState,
    list: usize,
    slab: usize,
    index: usize,
    b: BufState,
)
    requires
        p.valid(HandlePtr::Pooled { list, slab, index }),
    ensures
        ({
            let q = p.with(HandlePtr::Pooled { list, slab, index }, b);
            let k = p.lists[list as int];
            let m = q.lists[list as int];
            &&& q.owned == p.owned
            &&& q.lists.len() == p.lists.len()
            &&& forall|l: int|
                0 <= l < p.lists.len() && l != list ==> #[trigger] q.lists[l] == p.lists[l]
            &&& m.size == k.size
            &&& m.free == k.free
            &&& m.slabs.len() == k.slabs.len()
            &&& forall|s: int|
                0 <= s < k.slabs.len() && s != slab ==> #[trigger] m.slabs[s] == k.slabs[s]
            &&& m.slabs[slab as int].len() == k.slabs[slab as int].len()
            &&& forall|i: int|
                0 <= i < k.slabs[slab as int].len() && i != index ==> #[trigger] m.slabs[slab as int][i]
                    == k.slabs[slab as int][i]
            &&& m.slabs[slab as int][index as int] == b
        }),
{
}

/// Changing a buffer that came from outside puts the new one there, and leaves every other buffer.
pub proof fn law_owned_change_is_there_alone(p: PoolState, slot: usize, b: BufState)
    requires
        p.valid(HandlePtr::Owned { slot }),
    ensures
        ({
            let q = p.with(HandlePtr::Owned { slot }, b);
            &&& q.lists == p.lists
            &&& q.owned.len() == p.owned.len()
            &&& q.owned[slot as int] == Some(b)
            &&& forall|k: int|
                0 <= k < p.owned.len() && k != slot ==> #[trigger] q.owned[k] == p.owned[k]
        }),
{
}

/// Another reference raises the count of one buffer by one and leaves its bytes; it is that change
/// and no other.
pub proof fn law_retain_counts_one_more(p: PoolState, h: HandlePtr)
    requires
        p.valid(h),
    ensures
        p.retained(h).at(h).refs == p.at(h).refs + 1,
        p.retained(h).at(h).bytes == p.at(h).bytes,
        p.retained(h) == p.with(h, p.retained(h).at(h)),
{
}

/// Writing puts the new bytes into one buffer and leaves its count; it is that change and no other.
pub proof fn law_write_puts_the_bytes(p: PoolState, h: HandlePtr, bytes: Seq<u8>)
    requires
        p.valid(h),
    ensures
        p.written(h, bytes).at(h).bytes == bytes,
        p.written(h, bytes).at(h).refs == p.at(h).refs,
        p.written(h, bytes) == p.with(h, p.written(h, bytes).at(h)),
{
}

/// A reference that is not the last lowers the count of one buffer by one and leaves its bytes; it
/// is that change and no other.
pub proof fn law_release_counts_one_less(p: PoolState, h: HandlePtr)
    requires
        p.valid(h),
        p.at(h).refs > 1,
    ensures
        p.released(h).at(h).refs == p.at(h).refs - 1,
        p.released(h).at(h).bytes == p.at(h).bytes,
        p.released(h) == p.with(h, p.released(h).at(h)),
{
}

/// The last reference to a buffer of a slab sets its count to zero, leaves its bytes, and lets it
/// wait behind all the others of its size class. Nothing else changes.
pub proof fn law_last_release_waits_last(p: PoolState, list: usize, slab: usize, index: usize)
    requires
        p.valid(HandlePtr::Pooled { list, slab, index }),
        p.at(HandlePtr::Pooled { list, slab, index }).refs == 1,
    ensures
        ({
            let h = HandlePtr::Pooled { list, slab, index };
            let q = p.released(h);
            let k = p.lists[list as int];
            let m = q.lists[list as int];
            &&& q.owned == p.owned
            &&& q.lists.len() == p.lists.len()
            &&& forall|l: int|
                0 <= l < p.lists.len() && l != list ==> #[trigger] q.lists[l] == p.lists[l]
            &&& m.size == k.size
            &&& m.slabs.len() == k.slabs.len()
            &&& forall|s: int|
                0 <= s < k.slabs.len() && s != slab ==> #[trigger] m.slabs[s] == k.slabs[s]
            &&& m.slabs[slab as int].len() == k.slabs[slab as int].len()
            &&& forall|i: int|
                0 <= i < k.slabs[slab as int].len() && i != index ==> #[trigger] m.slabs[slab as int][i]
                    == k.slabs[slab as int][i]
            &&& m.slabs[slab as int][index as int].refs == 0
            &&& m.slabs[slab as int][index as int].bytes
                == k.slabs[slab as int][index as int].bytes
            &&& m.free.len() == k.free.len() + 1
            &&& m.free[k.free.len() as int] == (slab, index)
            &&& forall|j: int| 0 <= j < k.free.len() ==> #[trigger] m.free[j] == k.free[j]
        }),
{
}

/// The last reference to a buffer that came from outside lets it go. Nothing else changes.
pub proof fn law_last_release_lets_go(p: PoolState, slot: usize)
    requires
        p.valid(HandlePtr::Owned { slot }),
        p.at(HandlePtr::Owned { slot }).refs == 1,
    ensures
        ({
            let q = p.released(HandlePtr::Owned { slot });
            &&& q.lists == p.lists
            &&& q.owned.len() == p.owned.len()
            &&& q.owned[slot as int] is None
            &&& forall|k: int|
                0 <= k < p.owned.len() && k != slot ==> #[trigger] q.owned[k] == p.owned[k]
        }),
{
}

/// Taking in a buffer from outside puts it behind all the others, with one reference to it and
/// its bytes as they came. Nothing else changes.
pub proof fn law_owned_comes_last(p: PoolState, bytes: Seq<u8>)
    requires
        p.owned.len() <= usize::MAX,
    ensures
        ({
            let q = p.with_owned(bytes);
            let n = p.owned.len();
            &&& q.lists == p.lists
            &&& q.owned.len() == n + 1
            &&& q.owned[n as int] == Some(BufState { refs: 1, bytes })
            &&& forall|k: int| 0 <= k < n ==> #[trigger] q.owned[k] == p.owned[k]
            &&& p.next_owned() matches HandlePtr::Owned { slot } && slot == n
        }),
{
}

/// Where a buffer waits in a size class, asking for one gives the one that waits longest. It is
/// held once then, with its bytes as they were; the others move up, and nothing else changes.
pub proof fn law_waiting_buffer_is_handed_out(p: PoolState, l: int, granted: bool)
    requires
        0 <= l < p.lists.len() <= usize::MAX,
        p.lists[l].free.len() > 0,
        p.lists[l].has(p.lists[l].free[0].0 as int, p.lists[l].free[0].1 as int),
    ensures
        p.can_hand_out(l, granted),
        ({
            let (s, i) = p.lists[l].free[0];
            let q = p.after_hand_out(l, granted);
            let k = p.lists[l];
            let m = q.lists[l];
            &&& p.hand_out(l, granted) matches HandlePtr::Pooled { list, slab, index } && list == l
                && slab == s && index == i
            &&& q.owned == p.owned
            &&& q.lists.len() == p.lists.len()
            &&& forall|j: int|
                0 <= j < p.lists.len() && j != l ==> #[trigger] q.lists[j] == p.lists[j]
            &&& m.size == k.size
            &&& m.slabs.len() == k.slabs.len()
            &&& forall|a: int| 0 <= a < k.slabs.len() && a != s ==> #[trigger] m.slabs[a] == k.slabs[a]
            &&& m.slabs[s as int].len() == k.slabs[s as int].len()
            &&& forall|c: int|
                0 <= c < k.slabs[s as int].len() && c != i ==> #[trigger] m.slabs[s as int][c]
                    == k.slabs[s as int][c]
            &&& m.slabs[s as int][i as int].refs == 1
            &&& m.slabs[s as int][i as int].bytes == k.slabs[s as int][i as int].bytes
            &&& m.free.len() == k.free.len() - 1
            &&& forall|j: int| 0 < j < k.free.len() ==> m.free[j - 1] == #[trigger] k.free[j]
        }),
{
    let (s, i) = p.lists[l].free[0];
    let q = p.after_hand_out(l, granted);
    assert(p.refilled(l, granted) == p);
    assert(q.lists[l].free == p.lists[l].popped().free);
    assert forall|j: int| 0 < j < p.lists[l].free.len() implies q.lists[l].free[j - 1]
        == #[trigger] p.lists[l].free[j] by {}
}

/// Where none waits and the memory for a slab is granted, the class gets one slab of zero buffers,
/// as many as the others have, and the first of them is handed out, held once; the rest wait in
/// order. A class whose slabs have no buffers hands none out. Nothing else changes.
pub proof fn law_granted_slab_serves(p: PoolState, l: int)
    requires
        0 <= l < p.lists.len() <= usize::MAX,
        p.lists[l].free.len() == 0,
        p.lists[l].slabs.len() < usize::MAX,
        p.lists[l].slabs[0].len() <= usize::MAX,
    ensures
        ({
            let k = p.lists[l];
            let n = k.slabs.len() as int;
            let count = k.slabs[0].len();
            let q = p.after_hand_out(l, true);
            let m = q.lists[l];
            &&& p.can_hand_out(l, true) <==> count > 0
            &&& q.owned == p.owned
            &&& q.lists.len() == p.lists.len()
            &&& forall|j: int|
                0 <= j < p.lists.len() && j != l ==> #[trigger] q.lists[j] == p.lists[j]
            &&& m.size == k.size
            &&& m.slabs.len() == n + 1
            &&& forall|a: int| 0 <= a < n ==> #[trigger] m.slabs[a] == k.slabs[a]
            &&& m.slabs[n].len() == count
            &&& forall|i: int|
                0 <= i < count ==> (#[trigger] m.slabs[n][i]).bytes.len() == rounded(k.size)
                    && m.slabs[n][i].refs == if i == 0 {
                    1nat
                } else {
                    0nat
                }
            &&& forall|i: int, x: int|
                0 <= i < count && 0 <= x < rounded(k.size) ==> #[trigger] m.slabs[n][i].bytes[x] == 0
            &&& count > 0 ==> {
                &&& p.hand_out(l, true) matches HandlePtr::Pooled { list, slab, index } && list == l
                    && slab == n && index == 0
                &&& m.free.len() == count - 1
                &&& forall|j: int|
                    0 <= j < count - 1 ==> (#[trigger] m.free[j]).0 == n && m.free[j].1 == j + 1
            }
            &&& count == 0 ==> m.free.len() == 0
        }),
{
    let k = p.lists[l];
    let n = k.slabs.len() as int;
    let count = k.slabs[0].len();
    law_growing_adds_one_slab(k);
    let ready = p.refilled(l, true);
    assert(ready.lists[l] == k.grown());
    if count > 0 {
        let g = k.grown();
        assert(g.free[0].0 == n && g.free[0].1 == 0);
        let q = p.after_hand_out(l, true);
        let m = q.lists[l];
        assert(m.free == g.popped().free);
        assert forall|j: int| 0 <= j < count - 1 implies (#[trigger] m.free[j]).0 == n && m.free[j].1
            == j + 1 by {
            assert(m.free[j] == g.free[j + 1]);
        }
        assert forall|a: int| 0 <= a < n implies #[trigger] m.slabs[a] == k.slabs[a] by {
            assert(g.slabs[a] == k.slabs[a]);
        }
        assert forall|i: int| 0 <= i < count implies (#[trigger] m.slabs[n][i]).bytes.len()
            == rounded(k.size) && m.slabs[n][i].refs == if i == 0 {
            1nat
        } else {
            0nat
        } by {
            assert(g.slabs[n][i].refs == 0);
        }
        assert forall|i: int, x: int|
            0 <= i < count && 0 <= x < rounded(k.size) implies #[trigger] m.slabs[n][i].bytes[x]
            == 0 by {
            assert(g.slabs[n][i].bytes[x] == 0);
        }
    }
}

/// Where none waits and the memory is not granted, none is handed out and nothing changes.
pub proof fn law_refused_slab_changes_nothing(p: PoolState, l: int)
    requires
        p.lists[l].free.len() == 0,
    ensures
        !p.can_hand_out(l, false),
        p.after_hand_out(l, false) == p,
{
}

/// A buffer reads as the bytes of its backing buffer from where it begins, as many as it is long;
/// its capacity is all of them, and it is the only one when the count is one.
pub proof fn law_buffer_reads_its_part(p: PoolState, b: BufView)
    requires
        b.start + b.len <= p.at(b.inner).bytes.len(),
    ensures
        b.content(p).len() == b.len,
        forall|i: int|
            0 <= i < b.len ==> #[trigger] b.content(p)[i] == p.at(b.inner).bytes[b.start + i],
        b.capacity(p) == p.at(b.inner).bytes.len(),
        b.unique(p) <==> p.at(b.inner).refs == 1,
        b.in_pool(p) <==> p.valid(b.inner) && p.at(b.inner).refs > 0,
{
}

/// Slicing, the root, and the parts behind a buffer, by their places.
pub proof fn law_parts_by_their_places(p: PoolState, b: BufView, lo: int, hi: int, n: nat)
    requires
        0 <= lo <= hi,
    ensures
        b.sliced(lo, hi).inner == b.inner,
        b.sliced(lo, hi).start == b.start + lo,
        b.sliced(lo, hi).len == hi - lo,
        b.rooted(p).inner == b.inner,
        b.rooted(p).start == 0,
        b.rooted(p).len == p.at(b.inner).bytes.len(),
        b.following(n).inner == b.inner,
        b.following(n).start == b.start + b.len,
        b.following(n).len == n,
        b.extended(n).inner == b.inner,
        b.extended(n).start == b.start,
        b.extended(n).len == b.len + n,
{
}

/// A range of addresses is a part of a buffer exactly when it begins and ends within it, and the
/// part begins as far behind the first byte as the addresses are apart.
pub proof fn law_addresses_place_the_part(b: BufView, base: int, range: std::ops::Range<usize>)
    ensures
        b.placed(base, range) is Some <==> base <= range.start && range.start <= range.end
            && range.end <= base + b.len,
        b.placed(base, range) matches Some(part) ==> {
            &&& part.inner == b.inner
            &&& part.start == b.start + (range.start - base)
            &&& part.len == range.end - range.start
        },
{
}

/// Writing over a part puts each new byte in its place, changes no other byte of the backing
/// buffer and not its count; it is a change to that backing buffer and no other.
pub proof fn law_edit_byte_by_byte(p: PoolState, b: BufView, new: Seq<u8>)
    requires
        p.valid(b.inner),
        b.start + b.len <= p.at(b.inner).bytes.len(),
        new.len() == b.len,
    ensures
        ({
            let q = b.edited(p, new);
            let before = p.at(b.inner);
            let after = q.at(b.inner);
            &&& q == p.with(b.inner, after)
            &&& after.refs == before.refs
            &&& after.bytes.len() == before.bytes.len()
            &&& forall|i: int| 0 <= i < b.len ==> after.bytes[b.start + i] == #[trigger] new[i]
            &&& forall|i: int|
                0 <= i < b.start || b.start + b.len <= i < before.bytes.len()
                    ==> #[trigger] after.bytes[i] == before.bytes[i]
        }),
{
    law_only_the_part_is_replaced(p.at(b.inner).bytes, b.start as int, new);
}

} // verus!
