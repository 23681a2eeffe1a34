//! A bump allocator: hands out memory linearly and only reclaims it when
//! every allocation has been freed.
use vstd::prelude::*;

use super::{align_up, align_up_spec, is_pow2};

verus! {

/// A simple allocator that allocates memory linearly and ignores
/// deallocation until the number of live allocations drops to zero.
///
/// Addresses are plain integers; `0` stands for the null pointer.
pub struct BumpAllocator {
    heap_start: usize,
    heap_end: usize,
    next: usize,
    allocations: usize,
}

/// Abstract state of a bump allocator.
pub struct BumpState {
    pub heap_start: nat,
    pub heap_end: nat,
    pub next: nat,
    pub allocations: nat,
}

/// Outcome of one allocation request on an abstract bump state: the new state
/// and the returned address (`0` when the request cannot be served).
pub open spec fn bump_alloc_spec(s: BumpState, size: nat, align: nat) -> (BumpState, nat) {
    let start = align_up_spec(s.next as int, align as int);
    if start + size > usize::MAX || start + size > s.heap_end {
        (s, 0)
    } else {
        (
            BumpState {
                heap_start: s.heap_start,
                heap_end: s.heap_end,
                next: (start + size) as nat,
                allocations: s.allocations + 1,
            },
            start as nat,
        )
    }
}

/// Outcome of one deallocation on an abstract bump state.
pub open spec fn bump_dealloc_spec(s: BumpState) -> BumpState {
    let n = (s.allocations - 1) as nat;
    BumpState {
        heap_start: s.heap_start,
        heap_end: s.heap_end,
        next: if n == 0 { s.heap_start } else { s.next },
        allocations: n,
    }
}

/// The request succeeds on this state.
pub open spec fn bump_fits(s: BumpState, size: nat, align: nat) -> bool {
    let start = align_up_spec(s.next as int, align as int);
    start + size <= usize::MAX && start + size <= s.heap_end
}

/// A successful bump allocation is aligned, starts at or after the bump
/// pointer, ends inside the heap, and moves the bump pointer to its end.
pub proof fn law_bump_alloc_in_heap(s: BumpState, size: nat, align: nat)
    requires
        is_pow2(align),
        bump_fits(s, size, align),
    ensures
        ({
            let (t, r) = bump_alloc_spec(s, size, align);
            &&& r % align == 0
            &&& s.next <= r
            &&& r + size <= s.heap_end
            &&& t.next == r + size
        }),
{
    super::lemma_pow2_positive(align);
    super::lemma_round_up_multiple(s.next as int, align as int);
}

/// A request is served at the first address at or after the bump pointer
/// that has the requested alignment, `a`, exactly when the block ends inside
/// the heap; the bump pointer then moves to the block's end and one more
/// allocation is live. Otherwise `0` is returned and nothing changes.
pub proof fn law_bump_serves_what_fits(s: BumpState, size: nat, align: nat, a: int)
    requires
        is_pow2(align),
        s.heap_end <= usize::MAX,
        a % (align as int) == 0,
        s.next <= a < s.next + align,
    ensures
        ({
            let (t, r) = bump_alloc_spec(s, size, align);
            if a + size <= s.heap_end {
                &&& r == a
                &&& t == BumpState {
                    heap_start: s.heap_start,
                    heap_end: s.heap_end,
                    next: (a + size) as nat,
                    allocations: s.allocations + 1,
                }
            } else {
                r == 0 && t == s
            }
        }),
{
    super::lemma_pow2_positive(align);
    super::lemma_align_up_unique(s.next as int, align as int, a);
}

/// Two successful allocations in a row hand out disjoint memory: the second
/// block starts at or after the end of the first.
pub proof fn law_bump_allocations_disjoint(
    s: BumpState,
    size1: nat,
    align1: nat,
    size2: nat,
    align2: nat,
)
    requires
        is_pow2(align1),
        is_pow2(align2),
        bump_fits(s, size1, align1),
        bump_fits(bump_alloc_spec(s, size1, align1).0, size2, align2),
    ensures
        ({
            let (t, r1) = bump_alloc_spec(s, size1, align1);
            let (_u, r2) = bump_alloc_spec(t, size2, align2);
            r1 + size1 <= r2
        }),
{
    law_bump_alloc_in_heap(s, size1, align1);
    law_bump_alloc_in_heap(bump_alloc_spec(s, size1, align1).0, size2, align2);
}

/// Freeing the last live allocation makes the whole heap available again:
/// the bump pointer returns to the start of the heap.
pub proof fn law_bump_last_free_resets(s: BumpState)
    requires
        s.allocations == 1,
    ensures
        bump_dealloc_spec(s).next == s.heap_start,
        bump_dealloc_spec(s).allocations == 0,
{
}

impl View for BumpAllocator {
    type V = BumpState;

    closed spec fn view(&self) -> BumpState {
        BumpState {
            heap_start: self.heap_start as nat,
            heap_end: self.heap_end as nat,
            next: self.next as nat,
            allocations: self.allocations as nat,
        }
    }
}

impl BumpAllocator {
    /// Creates a new empty bump allocator.
    pub fn new() -> (r: Self)
        ensures
            r@ == (BumpState { heap_start: 0, heap_end: 0, next: 0, allocations: 0 }),
    {
        BumpAllocator { heap_start: 0, heap_end: 0, next: 0, allocations: 0 }
    }

    /// Initializes the bump allocator with the given heap bounds.
    ///
    /// The end of the heap saturates at `usize::MAX`.
    pub fn init(&mut self, heap_start: usize, heap_size: usize)
        ensures
            final(self)@.heap_start == heap_start,
            final(self)@.heap_end == if heap_start + heap_size > usize::MAX {
                usize::MAX as int
            } else {
                heap_start + heap_size
            },
            final(self)@.next == heap_start,
            final(self)@.allocations == old(self)@.allocations,
    {
        self.heap_start = heap_start;
        self.heap_end = heap_start.saturating_add(heap_size);
        self.next = heap_start;
    }

    /// The next free address.
    pub fn next_addr(&self) -> (r: usize)
        ensures
            r == self@.next,
    {
        self.next
    }

    /// The number of live allocations.
    pub fn allocation_count(&self) -> (r: usize)
        ensures
            r == self@.allocations,
    {
        self.allocations
    }

    /// Whether a request of `size` bytes aligned to `align` would be served:
    /// its aligned end stays inside the heap.
    pub fn fits(&self, size: usize, align: usize) -> (r: bool)
        requires
            is_pow2(align as nat),
            self@.next + align - 1 <= usize::MAX,
        ensures
            r == bump_fits(self@, size as nat, align as nat),
    {
        let alloc_start = align_up(self.next, align);
        match alloc_start.checked_add(size) {
            Some(end) => end <= self.heap_end,
            None => false,
        }
    }

    /// Allocates `size` bytes aligned to `align`, returning the start address,
    /// or `0` when the heap cannot hold the request.
    pub fn allocate(&mut self, size: usize, align: usize) -> (r: usize)
        requires
            is_pow2(align as nat),
            old(self)@.next + align - 1 <= usize::MAX,
            bump_fits(old(self)@, size as nat, align as nat) ==> old(self)@.allocations < usize::MAX,
        ensures
            (final(self)@, r as nat) == bump_alloc_spec(old(self)@, size as nat, align as nat),
    {
        let alloc_start = align_up(self.next, align);
        let alloc_end = match alloc_start.checked_add(size) {
            Some(end) => end,
            None => return 0,
        };
        if alloc_end > self.heap_end {
            0
        } else {
            self.next = alloc_end;
            self.allocations = self.allocations + 1;
            alloc_start
        }
    }

    /// Frees one allocation; the whole heap becomes free again once the
    /// number of live allocations reaches zero.
    pub fn deallocate(&mut self, ptr: usize, size: usize, align: usize)
        requires
            old(self)@.allocations > 0,
        ensures
            final(self)@ == bump_dealloc_spec(old(self)@),
    {
        self.allocations = self.allocations - 1;
        if self.allocations == 0 {
            self.next = self.heap_start;
        }
    }
}

} // verus!
