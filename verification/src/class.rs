//! The size classes that buffers come in: a page, and each doubling of it up to the largest.
use vstd::arithmetic::power2::{
    lemma2_to64, lemma_pow2_adds, lemma_pow2_pos, lemma_pow2_strictly_increases, lemma_pow2_unfold,
    pow2,
};
use vstd::prelude::*;

use crate::foreign::{is_next_power_of_two, kibibytes};

verus! {

/// Every pooled buffer starts at a multiple of this many bytes.
pub const PAGE_ALIGN: usize = 4096;

/// The smallest size that a pooled buffer has.
pub const SMALLEST_BUFFER_SIZE: usize = 4096;

/// The largest size that a pooled buffer has.
pub const LARGEST_BUFFER_SIZE: usize = 131072;

/// The binary logarithm of `SMALLEST_BUFFER_SIZE`.
pub const SMALLEST_BUFFER_OFFSET: u32 = 12;

/// The number of size classes.
pub const CLASS_COUNT: usize = 6;

/// The size of the buffers of class `k`.
pub open spec fn class_size(k: nat) -> nat {
    SMALLEST_BUFFER_SIZE as nat * pow2(k)
}

/// The class that serves a request for `size` bytes: how often a page has to be doubled until
/// the request fits.
pub open spec fn class_of(size: nat) -> nat
    decreases size,
{
    if size <= SMALLEST_BUFFER_SIZE {
        0
    } else {
        1 + class_of(((size + 1) / 2) as nat)
    }
}

/// The size of the buffer that serves a request for `size` bytes.
pub open spec fn rounded(size: nat) -> nat {
    class_size(class_of(size))
}

/// The class sizes, written out.
pub proof fn lemma_class_sizes()
    ensures
        class_size(0) == 4096,
        class_size(1) == 8192,
        class_size(2) == 16384,
        class_size(3) == 32768,
        class_size(4) == 65536,
        class_size(5) == LARGEST_BUFFER_SIZE,
{
    lemma2_to64();
}

/// The class of a request is the smallest one whose buffers hold it.
pub proof fn law_class_is_smallest_that_fits(size: nat)
    ensures
        size <= rounded(size),
        class_of(size) > 0 ==> class_size((class_of(size) - 1) as nat) < size,
    decreases size,
{
    lemma2_to64();
    if size > SMALLEST_BUFFER_SIZE {
        let half = ((size + 1) / 2) as nat;
        law_class_is_smallest_that_fits(half);
        lemma_pow2_unfold(class_of(size));
        if class_of(half) > 0 {
            lemma_pow2_unfold(class_of(half));
        }
    }
}

/// No other class is the smallest that holds a request.
pub proof fn lemma_class_unique(size: nat, k: nat)
    requires
        size <= class_size(k),
        k > 0 ==> class_size((k - 1) as nat) < size,
    ensures
        k == class_of(size),
{
    law_class_is_smallest_that_fits(size);
    let c = class_of(size);
    if k < c {
        lemma_class_monotone(k, (c - 1) as nat);
    } else if c < k {
        lemma_class_monotone(c, (k - 1) as nat);
    }
}

/// Later classes hold no smaller buffers.
pub proof fn lemma_class_monotone(j: nat, k: nat)
    requires
        j <= k,
    ensures
        class_size(j) <= class_size(k),
{
    if j < k {
        lemma_pow2_strictly_increases(j, k);
    }
}

/// The buffers of a class hold a request exactly when the class is not below that of the request:
/// the class of a request is the least that holds it.
pub proof fn law_class_is_the_least(size: nat)
    ensures
        forall|k: nat| class_of(size) <= k <==> size <= #[trigger] class_size(k),
{
    law_class_is_smallest_that_fits(size);
    let c = class_of(size);
    assert forall|k: nat| c <= k <==> size <= #[trigger] class_size(k) by {
        if c <= k {
            lemma_class_monotone(c, k);
        } else {
            lemma_class_monotone(k, (c - 1) as nat);
        }
    }
}

/// A larger request has no smaller class.
pub proof fn law_class_is_monotone(a: nat, b: nat)
    requires
        a <= b,
    ensures
        class_of(a) <= class_of(b),
        rounded(a) <= rounded(b),
{
    law_class_is_the_least(a);
    law_class_is_smallest_that_fits(b);
    lemma_class_monotone(class_of(a), class_of(b));
}

/// The sizes by their numbers: a request that a slab can serve gets the least of the powers of two
/// from 4096 to 131072 that holds it, so less than twice what it asks for where that is more than
/// 4096. The least class is 0, and each doubling is one class further.
pub proof fn law_sizes_are_powers_of_two(size: nat)
    ensures
        PAGE_ALIGN == 4096,
        SMALLEST_BUFFER_SIZE == 4096,
        LARGEST_BUFFER_SIZE == 131072,
        CLASS_COUNT == 6,
        class_size(0) == 4096,
        forall|k: nat| #[trigger] class_size(k + 1) == 2 * class_size(k),
        rounded(size) == class_size(class_of(size)),
        size <= rounded(size),
        size <= 4096 ==> rounded(size) == 4096 && class_of(size) == 0,
        size > 4096 ==> rounded(size) < 2 * size,
        size <= 131072 ==> {
            ||| rounded(size) == 4096
            ||| rounded(size) == 8192
            ||| rounded(size) == 16384
            ||| rounded(size) == 32768
            ||| rounded(size) == 65536
            ||| rounded(size) == 131072
        },
{
    lemma2_to64();
    lemma_class_sizes();
    law_class_is_smallest_that_fits(size);
    lemma_class_in_range(size);
    assert forall|k: nat| #[trigger] class_size(k + 1) == 2 * class_size(k) by {
        lemma_pow2_unfold(k + 1);
    }
    let c = class_of(size);
    if c > 0 {
        assert(class_size((c - 1) as nat + 1) == 2 * class_size((c - 1) as nat));
    }
}

/// A request for exactly the size of a class is served by that class.
pub proof fn lemma_rounded_class(k: nat)
    ensures
        class_of(class_size(k)) == k,
        rounded(class_size(k)) == class_size(k),
{
    if k > 0 {
        lemma_pow2_unfold(k);
        lemma_pow2_pos((k - 1) as nat);
    }
    lemma_class_unique(class_size(k), k);
}

/// The requests that a pooled buffer can serve are those of the six classes.
pub proof fn lemma_class_in_range(size: nat)
    ensures
        size <= LARGEST_BUFFER_SIZE <==> class_of(size) < CLASS_COUNT,
        size <= LARGEST_BUFFER_SIZE <==> rounded(size) <= LARGEST_BUFFER_SIZE,
{
    lemma_class_sizes();
    law_class_is_smallest_that_fits(size);
    let c = class_of(size);
    if c < CLASS_COUNT {
        lemma_class_monotone(c, 5);
    } else {
        lemma_class_monotone(5, (c - 1) as nat);
    }
}

/// The power of two that a request rounds up to, raised to a page, is the size of its class.
pub proof fn lemma_rounding(size: nat, p: nat)
    requires
        is_next_power_of_two(size as int, p as int),
    ensures
        rounded(size) == if p <= SMALLEST_BUFFER_SIZE {
            SMALLEST_BUFFER_SIZE as nat
        } else {
            p
        },
        forall|e: nat|
            p == #[trigger] pow2(e) ==> class_of(size) == if e <= SMALLEST_BUFFER_OFFSET {
                0nat
            } else {
                (e - SMALLEST_BUFFER_OFFSET) as nat
            },
{
    let k = choose|k: nat| p == #[trigger] pow2(k);
    lemma2_to64();
    assert forall|e: nat| p == #[trigger] pow2(e) implies e == k by {
        if e < k {
            lemma_pow2_strictly_increases(e, k);
        } else if k < e {
            lemma_pow2_strictly_increases(k, e);
        }
    }
    if k <= 12 {
        if k < 12 {
            lemma_pow2_strictly_increases(k, 12);
        }
    } else {
        let j = (k - 12) as nat;
        lemma_pow2_adds(12, j);
        lemma_pow2_strictly_increases(12, k);
        lemma_pow2_unfold(k);
        lemma_pow2_unfold(j);
        lemma_pow2_pos((k - 1) as nat);
        assert(pow2((k - 1) as nat) < size);
        lemma_class_unique(size, j);
    }
}

/// The page alignment, in bytes.
pub fn page_align() -> (bytes: usize)
    ensures
        bytes == PAGE_ALIGN,
{
    kibibytes(4) as usize
}

/// The largest size of a pooled buffer, in bytes.
pub fn largest_buffer_size() -> (bytes: usize)
    ensures
        bytes == LARGEST_BUFFER_SIZE,
{
    kibibytes(128) as usize
}

} // verus!
