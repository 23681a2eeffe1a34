//! A fixed-size block allocator: one free list per block size, backed by a
//! linked-list heap for requests no block size can serve.
use vstd::prelude::*;

use linked_list_allocator::Heap;

use core::mem::MaybeUninit;

use super::align_up_spec;
use super::first_fit::{layout_valid, max_int};

verus! {

#[verifier::external_type_specification]
#[verifier::external_body]
pub struct ExHeap(Heap);

/// Number of block sizes.
pub const BLOCK_SIZE_COUNT: usize = 9;

/// The block sizes, in bytes: the powers of two from 8 to 2048. They double
/// as block alignments.
pub open spec fn block_size_spec(i: int) -> int {
    if i == 0 {
        8
    } else if i == 1 {
        16
    } else if i == 2 {
        32
    } else if i == 3 {
        64
    } else if i == 4 {
        128
    } else if i == 5 {
        256
    } else if i == 6 {
        512
    } else if i == 7 {
        1024
    } else {
        2048
    }
}

/// The block sizes start at eight bytes and double from one class to the
/// next, up to 2048 bytes for the last class.
pub proof fn law_block_sizes_double(i: int)
    requires
        0 <= i < BLOCK_SIZE_COUNT - 1,
    ensures
        block_size_spec(0) == 8,
        block_size_spec(i + 1) == 2 * block_size_spec(i),
        block_size_spec(BLOCK_SIZE_COUNT - 1) == 2048,
{
}

/// Size in bytes of the blocks of class `i`.
pub fn block_size(i: usize) -> (r: usize)
    requires
        i < BLOCK_SIZE_COUNT,
    ensures
        r == block_size_spec(i as int),
{
    if i == 0 {
        8
    } else if i == 1 {
        16
    } else if i == 2 {
        32
    } else if i == 3 {
        64
    } else if i == 4 {
        128
    } else if i == 5 {
        256
    } else if i == 6 {
        512
    } else if i == 7 {
        1024
    } else {
        2048
    }
}

/// The class for a request of `size` bytes aligned to `align`: the first
/// block size at least as large as both, if any.
pub open spec fn list_index_spec(size: int, align: int) -> Option<int> {
    let required = if size >= align { size } else { align };
    if exists|i: int| 0 <= i < BLOCK_SIZE_COUNT && block_size_spec(i) >= required {
        Some(
            choose|i: int|
                0 <= i < BLOCK_SIZE_COUNT && block_size_spec(i) >= required && forall|j: int|
                    0 <= j < i ==> block_size_spec(j) < required,
        )
    } else {
        None
    }
}

/// Chooses a block class for a request of `size` bytes aligned to `align`:
/// the index of the smallest block size that is at least as large as both,
/// or `None` when the request is larger than every block size.
pub fn list_index(size: usize, align: usize) -> (r: Option<usize>)
    ensures
        r matches Some(i) ==> list_index_spec(size as int, align as int) == Some(i as int),
        r is None ==> list_index_spec(size as int, align as int) is None,
        r matches Some(i) ==> i < BLOCK_SIZE_COUNT,
{
    let required = if size >= align {
        size
    } else {
        align
    };
    let mut i: usize = 0;
    while i < BLOCK_SIZE_COUNT
        invariant
            0 <= i <= BLOCK_SIZE_COUNT,
            required == (if size >= align { size } else { align }),
            forall|j: int| 0 <= j < i ==> block_size_spec(j) < required,
        decreases BLOCK_SIZE_COUNT - i,
    {
        if block_size(i) >= required {
            proof {
                let k = choose|k: int|
                    0 <= k < BLOCK_SIZE_COUNT && block_size_spec(k) >= required && forall|j: int|
                        0 <= j < k ==> block_size_spec(j) < required;
                assert(0 <= i < BLOCK_SIZE_COUNT && block_size_spec(i as int) >= required && forall|j: int|
                    0 <= j < i ==> block_size_spec(j) < required);
                if k < i {
                    assert(block_size_spec(k) < required);
                } else if k > i {
                    assert(block_size_spec(i as int) < required);
                }
            }
            return Some(i);
        }
        i = i + 1;
    }
    None
}

/// The class chosen for a request has blocks large enough for its size and
/// its alignment, and no smaller class would do; a request has no class
/// exactly when it is larger than the largest block size.
pub proof fn law_class_fits_request(size: int, align: int)
    ensures
        list_index_spec(size, align) matches Some(i) ==> {
            &&& 0 <= i < BLOCK_SIZE_COUNT
            &&& block_size_spec(i) >= size
            &&& block_size_spec(i) >= align
            &&& forall|j: int| 0 <= j < i ==> block_size_spec(j) < size || block_size_spec(j) < align
        },
        list_index_spec(size, align) is None <==> (size > 2048 || align > 2048),
{
    let required = if size >= align { size } else { align };
    if size <= 2048 && align <= 2048 {
        assert(0 <= 8 < BLOCK_SIZE_COUNT && block_size_spec(8) >= required);
    }
    if list_index_spec(size, align) is Some {
        let w = choose|i: int| 0 <= i < BLOCK_SIZE_COUNT && block_size_spec(i) >= required;
        lemma_exists_smallest_class(required, w);
    }
}

/// Some class at or below `w` is the smallest one holding `required` bytes.
proof fn lemma_exists_smallest_class(required: int, w: int)
    requires
        0 <= w < BLOCK_SIZE_COUNT,
        block_size_spec(w) >= required,
    ensures
        exists|i: int|
            0 <= i < BLOCK_SIZE_COUNT && block_size_spec(i) >= required && forall|j: int|
                0 <= j < i ==> block_size_spec(j) < required,
    decreases w,
{
    if forall|j: int| 0 <= j < w ==> block_size_spec(j) < required {
        assert(0 <= w < BLOCK_SIZE_COUNT && block_size_spec(w) >= required && forall|j: int|
            0 <= j < w ==> block_size_spec(j) < required);
    } else {
        let k = choose|k: int| 0 <= k < w && !(block_size_spec(k) < required);
        lemma_exists_smallest_class(required, k);
    }
}

/// Freeing a block of a class and then allocating for the same class hands
/// the same block out again and leaves the lists as they were.
pub proof fn law_free_then_alloc_returns_block(lists: Seq<Seq<usize>>, i: int, ptr: usize)
    requires
        0 <= i < lists.len(),
    ensures
        ({
            let freed = lists.update(i, lists[i].push(ptr));
            &&& freed[i].len() > 0
            &&& freed[i].last() == ptr
            &&& freed.update(i, freed[i].drop_last()) == lists
        }),
{
    let freed = lists.update(i, lists[i].push(ptr));
    assert(freed[i].drop_last() =~= lists[i]);
    assert(freed.update(i, freed[i].drop_last()) =~= lists);
}

/// The address a fallback heap's answer stands for: the chunk it handed out,
/// or `0` (the null pointer) when it could not serve the request.
pub open spec fn fallback_address(answer: Result<usize, ()>) -> usize {
    match answer {
        Ok(addr) => addr,
        Err(()) => 0,
    }
}

/// Turns a fallback heap's answer into an address (`fallback_address`).
pub fn fallback_result(answer: Result<usize, ()>) -> (r: usize)
    ensures
        r == fallback_address(answer),
{
    match answer {
        Ok(addr) => addr,
        Err(()) => 0,
    }
}

/// The free memory of a `linked_list_allocator` heap: its holes as
/// `(address, size)` pairs, in the order of the heap's hole list.
pub uninterp spec fn heap_holes(h: Heap) -> Seq<(usize, usize)>;

/// The end of the memory a `linked_list_allocator` heap manages (what
/// `Heap::top` reports: its bottom address plus its size). The crate keeps
/// every hole inside the heap's memory, below this address.
pub uninterp spec fn heap_top(h: Heap) -> usize;

/// What `Heap::allocate_first_fit` of `linked_list_allocator` does to a hole
/// list for a request of `size` bytes aligned to `align`: its answer (the
/// address handed out, or `Err`) and the hole list afterwards. It walks the
/// holes in order and carves the request out of the first that can hold it.
pub uninterp spec fn heap_first_fit(holes: Seq<(usize, usize)>, size: usize, align: usize) -> (
    Result<usize, ()>,
    Seq<(usize, usize)>,
);

/// The smallest memory `linked_list_allocator` turns into a heap: two
/// machine words (`HoleList::min_size`).
pub open spec fn heap_min_size() -> int {
    (usize::BITS as int) / 4
}

/// `Heap::empty` of `linked_list_allocator`: a heap without memory, so with
/// no holes, whose bottom and size are `0`.
#[verifier::external_body]
fn heap_empty() -> (r: Heap)
    ensures
        heap_holes(r) == Seq::<(usize, usize)>::empty(),
        heap_top(r) == 0,
{
    Heap::empty()
}

/// `Heap::from_slice` of `linked_list_allocator`: a heap that manages the
/// given memory. A slice shorter than two machine words gives an empty heap
/// (no holes, top `0`). Otherwise the heap has one hole, which ends where the
/// slice ends (the heap's top) and starts at the slice's start rounded up to
/// a machine word, so it loses less than two words of the slice. The slice's
/// address itself is not stated.
#[verifier::external_body]
fn heap_from_slice(mem: &'static mut [MaybeUninit<u8>]) -> (r: Heap)
    ensures
        old(mem)@.len() < heap_min_size() ==> heap_holes(r).len() == 0 && heap_top(r) == 0,
        old(mem)@.len() >= heap_min_size() ==> {
            &&& heap_holes(r).len() == 1
            &&& heap_holes(r)[0].0 + heap_holes(r)[0].1 == heap_top(r)
            &&& heap_holes(r)[0].1 <= old(mem)@.len() < heap_holes(r)[0].1 + heap_min_size()
        },
{
    Heap::from_slice(mem)
}

/// `Heap::top` of `linked_list_allocator`: the end address of the heap's
/// memory. A heap's memory is a Rust allocation or none, and an allocation
/// never reaches past the end of the address space, so the sum does not
/// overflow.
#[verifier::external_body]
fn heap_top_of(heap: &Heap) -> (r: usize)
    ensures
        r == heap_top(*heap),
{
    heap.top()
}

/// The heap's own padding of a request stays a valid layout: the size,
/// raised to at least sixteen bytes and rounded up to eight, still fits an
/// `isize` when rounded up to `align` (the heap unwraps that layout).
pub open spec fn heap_request_ok(size: int, align: int) -> bool {
    &&& layout_valid(size, align)
    &&& layout_valid(align_up_spec(max_int(size, 16), 8), align)
}

/// The heap's search for a request of `size` bytes aligned to `align` stays
/// inside the address space: it adds the request's size, its alignment and
/// some padding to hole addresses, which lie below the heap's top.
pub open spec fn heap_fits(h: Heap, size: int, align: int) -> bool {
    heap_top(h) + size + align + 64 <= usize::MAX
}

/// `Heap::allocate_first_fit` of `linked_list_allocator`, called with the
/// layout of `size` bytes aligned to `align` and the returned pointer taken
/// as an address. The answer and the new hole list are `heap_first_fit` of
/// the old hole list and the request. The crate aligns the chunk it hands out
/// to the layout's alignment and returns it as a `NonNull`, so an address
/// handed out is a non-zero multiple of `align`. A failed search changes no
/// hole, and a heap without holes always fails. The heap's top is not
/// changed by an allocation.
#[verifier::external_body]
fn heap_allocate_first_fit(heap: &mut Heap, size: usize, align: usize) -> (r: Result<usize, ()>)
    requires
        heap_request_ok(size as int, align as int),
        heap_fits(*old(heap), size as int, align as int),
    ensures
        (r, heap_holes(*final(heap))) == heap_first_fit(heap_holes(*old(heap)), size, align),
        r matches Ok(addr) ==> addr != 0 && addr % align == 0,
        r is Err ==> heap_holes(*final(heap)) == heap_holes(*old(heap)),
        heap_holes(*old(heap)).len() == 0 ==> r is Err,
        heap_top(*final(heap)) == heap_top(*old(heap)),
{
    let layout = core::alloc::Layout::from_size_align(size, align).unwrap();
    match heap.allocate_first_fit(layout) {
        Ok(ptr) => Ok(ptr.as_ptr() as usize),
        Err(()) => Err(()),
    }
}

/// Every block size is a power of two, so a block of a class can be
/// requested with its own size as alignment, from the fallback heap too.
pub proof fn law_block_sizes_are_alignments(i: int)
    requires
        0 <= i < BLOCK_SIZE_COUNT,
    ensures
        layout_valid(block_size_spec(i), block_size_spec(i)),
        heap_request_ok(block_size_spec(i), block_size_spec(i)),
{
    reveal_with_fuel(super::is_pow2, 13);
    let b = block_size_spec(i);
    assert(b % b == 0);
    assert(align_up_spec(b, b) == b);
    let p = align_up_spec(max_int(b, 16), 8);
    assert(max_int(b, 16) % 8 == 0);
    assert(p == max_int(b, 16));
    assert(p % b == 0);
}

/// Free blocks in the first `k` classes.
pub open spec fn total_blocks(lists: Seq<Seq<usize>>, k: int) -> nat
    decreases k,
{
    if k <= 0 {
        0
    } else {
        total_blocks(lists, k - 1) + lists[k - 1].len()
    }
}

/// Free bytes in the blocks of the first `k` classes.
pub open spec fn total_bytes(lists: Seq<Seq<usize>>, k: int) -> nat
    decreases k,
{
    if k <= 0 {
        0
    } else {
        total_bytes(lists, k - 1) + lists[k - 1].len() * (block_size_spec(k - 1) as nat)
    }
}

/// Counting blocks never exceeds counting their bytes, and both only grow
/// with more classes.
proof fn lemma_totals_grow(lists: Seq<Seq<usize>>, j: int, k: int)
    requires
        0 <= j <= k <= BLOCK_SIZE_COUNT,
    ensures
        total_blocks(lists, j) <= total_bytes(lists, j),
        total_bytes(lists, j) <= total_bytes(lists, k),
    decreases k,
{
    if j < k {
        lemma_totals_grow(lists, j, k - 1);
        assert(lists[k - 1].len() * (block_size_spec(k - 1) as nat) >= 0) by (nonlinear_arith);
    } else if j > 0 {
        lemma_totals_grow(lists, j - 1, j - 1);
        assert(lists[j - 1].len() * (block_size_spec(j - 1) as nat) >= lists[j - 1].len()) by (nonlinear_arith)
            requires
                block_size_spec(j - 1) >= 1,
        ;
    }
}

/// Allocator with one free list per block size. A freed block goes to the
/// list of its class; an allocation takes the most recently freed block of
/// its class, or asks the fallback heap for a new block of the class's size.
/// Requests larger than every block size go to the fallback heap directly.
pub struct FixedSizeBlockAllocator {
    list_heads: Vec<Vec<usize>>,
    fallback_allocator: Heap,
}

/// The request the fallback heap gets for a request of `size` bytes aligned
/// to `align`: a block of its class's size and alignment, or, without a
/// class, the request itself.
pub open spec fn fallback_request(size: usize, align: usize) -> (usize, usize) {
    match list_index_spec(size as int, align as int) {
        Some(i) => (block_size_spec(i) as usize, block_size_spec(i) as usize),
        None => (size, align),
    }
}

impl FixedSizeBlockAllocator {
    /// The free blocks of every class; the last block of a list is the one
    /// handed out next.
    pub closed spec fn lists(&self) -> Seq<Seq<usize>> {
        Seq::new(self.list_heads@.len(), |i: int| self.list_heads@[i]@)
    }

    /// The fallback heap.
    pub closed spec fn fallback(&self) -> Heap {
        self.fallback_allocator
    }

    /// The holes of the fallback heap.
    pub open spec fn fallback_holes(&self) -> Seq<(usize, usize)> {
        heap_holes(self.fallback())
    }

    /// The end of the memory the fallback heap manages.
    pub open spec fn fallback_top(&self) -> usize {
        heap_top(self.fallback())
    }

    /// One list per block size.
    pub open spec fn wf(&self) -> bool {
        self.lists().len() == BLOCK_SIZE_COUNT
    }

    /// Whether a request of `size` bytes aligned to `align` goes to the
    /// fallback heap: it has no class, or its class's list is empty.
    pub open spec fn needs_fallback(&self, size: usize, align: usize) -> bool {
        match list_index_spec(size as int, align as int) {
            Some(i) => self.lists()[i].len() == 0,
            None => true,
        }
    }

    /// What an allocation of `size` bytes aligned to `align` does, from
    /// `self` to `after`, returning `r`. With a non-empty class list, its
    /// last block is returned and removed, and the heap is untouched.
    /// Otherwise the fallback heap is asked for `fallback_request(size,
    /// align)`: its answer, as an address (`0` for failure), is returned and
    /// its hole list becomes the one the search leaves; the lists are kept.
    pub open spec fn allocation(&self, after: &Self, size: usize, align: usize, r: usize) -> bool {
        &&& after.wf()
        &&& after.fallback_top() == self.fallback_top()
        &&& if self.needs_fallback(size, align) {
            let (fsize, falign) = fallback_request(size, align);
            let (answer, holes) = heap_first_fit(self.fallback_holes(), fsize, falign);
            &&& r == fallback_address(answer)
            &&& after.fallback_holes() == holes
            &&& after.lists() == self.lists()
        } else {
            let i = list_index_spec(size as int, align as int)->0;
            &&& r == self.lists()[i].last()
            &&& after.lists() == self.lists().update(i, self.lists()[i].drop_last())
            &&& after.fallback() == self.fallback()
        }
    }

    /// Creates an allocator with empty block lists and a fallback heap that
    /// holds no memory.
    pub fn new() -> (r: Self)
        ensures
            r.wf(),
            forall|i: int| 0 <= i < BLOCK_SIZE_COUNT ==> (#[trigger] r.lists()[i]).len() == 0,
            r.fallback_holes().len() == 0,
            r.fallback_top() == 0,
    {
        let mut list_heads: Vec<Vec<usize>> = Vec::new();
        let mut i: usize = 0;
        while i < BLOCK_SIZE_COUNT
            invariant
                0 <= i <= BLOCK_SIZE_COUNT,
                list_heads@.len() == i,
                forall|j: int| 0 <= j < i ==> (#[trigger] list_heads@[j])@.len() == 0,
            decreases BLOCK_SIZE_COUNT - i,
        {
            list_heads.push(Vec::new());
            i = i + 1;
        }
        FixedSizeBlockAllocator { list_heads, fallback_allocator: heap_empty() }
    }

    /// Hands the memory `mem` to the fallback heap (the heap made by
    /// `Heap::from_slice`); the block lists are kept. Memory shorter than two
    /// machine words gives a heap without holes; otherwise the heap has one
    /// hole, ending at the heap's top and losing less than two words of
    /// `mem` to alignment.
    pub fn init(&mut self, mem: &'static mut [MaybeUninit<u8>])
        ensures
            final(self).lists() == old(self).lists(),
            old(mem)@.len() < heap_min_size() ==> final(self).fallback_holes().len() == 0
                && final(self).fallback_top() == 0,
            old(mem)@.len() >= heap_min_size() ==> {
                let holes = final(self).fallback_holes();
                &&& holes.len() == 1
                &&& holes[0].0 + holes[0].1 == final(self).fallback_top()
                &&& holes[0].1 <= old(mem)@.len() < holes[0].1 + heap_min_size()
            },
    {
        self.fallback_allocator = heap_from_slice(mem);
    }

    /// Asks the fallback heap for `size` bytes aligned to `align` and
    /// returns the address it gives (`fallback_result` of its answer); the
    /// lists are kept.
    fn fallback_alloc(&mut self, size: usize, align: usize) -> (r: usize)
        requires
            heap_request_ok(size as int, align as int),
            heap_fits(old(self).fallback(), size as int, align as int),
        ensures
            ({
                let (answer, holes) = heap_first_fit(old(self).fallback_holes(), size, align);
                &&& r == fallback_address(answer)
                &&& final(self).fallback_holes() == holes
            }),
            final(self).fallback_top() == old(self).fallback_top(),
            final(self).list_heads@ == old(self).list_heads@,
    {
        let answer = heap_allocate_first_fit(&mut self.fallback_allocator, size, align);
        fallback_result(answer)
    }

    /// Allocates memory for a request of `size` bytes aligned to `align` and
    /// returns its address, `0` meaning failure (see `allocation`).
    ///
    /// When the request has a block class whose list is not empty, the last
    /// block of that list is returned and removed from it. Otherwise the
    /// fallback heap is asked for a block of the class's size and alignment,
    /// or, without a class, for the request itself.
    pub fn allocate(&mut self, size: usize, align: usize) -> (r: usize)
        requires
            old(self).wf(),
            layout_valid(size as int, align as int),
            list_index_spec(size as int, align as int) is None ==> heap_request_ok(size as int, align as int),
            old(self).needs_fallback(size, align) ==> heap_fits(
                old(self).fallback(),
                fallback_request(size, align).0 as int,
                fallback_request(size, align).1 as int,
            ),
        ensures
            old(self).allocation(&*final(self), size, align, r),
    {
        match list_index(size, align) {
            Some(index) => {
                let popped = self.list_heads[index].pop();
                match popped {
                    Some(addr) => {
                        assert(self.lists() =~= old(self).lists().update(index as int, old(self).lists()[index as int].drop_last()));
                        addr
                    },
                    None => {
                        assert(self.lists() =~= old(self).lists());
                        let bs = block_size(index);
                        proof {
                            law_block_sizes_are_alignments(index as int);
                        }
                        let r = self.fallback_alloc(bs, bs);
                        assert(self.lists() =~= old(self).lists());
                        r
                    },
                }
            },
            None => {
                let r = self.fallback_alloc(size, align);
                assert(self.lists() =~= old(self).lists());
                r
            },
        }
    }

    /// Like `allocate`, for callers that cannot tell where the fallback
    /// heap's memory lies: when the request would go to the fallback heap and
    /// the heap's search could run past the end of the address space, nothing
    /// changes and `None` is returned; otherwise `Some` of what `allocate`
    /// returns.
    pub fn try_allocate(&mut self, size: usize, align: usize) -> (r: Option<usize>)
        requires
            old(self).wf(),
            layout_valid(size as int, align as int),
            list_index_spec(size as int, align as int) is None ==> heap_request_ok(size as int, align as int),
        ensures
            r is None <==> old(self).needs_fallback(size, align) && !heap_fits(
                old(self).fallback(),
                fallback_request(size, align).0 as int,
                fallback_request(size, align).1 as int,
            ),
            r is None ==> *final(self) == *old(self),
            r matches Some(addr) ==> old(self).allocation(&*final(self), size, align, addr),
    {
        let (fsize, falign, needs) = match list_index(size, align) {
            Some(index) => {
                let bs = block_size(index);
                (bs, bs, self.list_heads[index].len() == 0)
            },
            None => (size, align, true),
        };
        if needs {
            let top = heap_top_of(&self.fallback_allocator);
            let fits = match top.checked_add(fsize) {
                Some(a) => match a.checked_add(falign) {
                    Some(b) => b.checked_add(64).is_some(),
                    None => false,
                },
                None => false,
            };
            if !fits {
                return None;
            }
        }
        Some(self.allocate(size, align))
    }

    /// Frees the block at `ptr`, allocated for a request of `size` bytes
    /// aligned to `align`. A block with a class is pushed on its class's list
    /// and `true` is returned. A block without a class belongs to the
    /// fallback heap: the lists are unchanged and `false` is returned, and
    /// the caller gives it back through `fallback_heap`.
    pub fn deallocate(&mut self, ptr: usize, size: usize, align: usize) -> (r: bool)
        requires
            old(self).wf(),
        ensures
            final(self).wf(),
            r == list_index_spec(size as int, align as int) is Some,
            match list_index_spec(size as int, align as int) {
                Some(i) => final(self).lists() == old(self).lists().update(i, old(self).lists()[i].push(ptr)),
                None => final(self).lists() == old(self).lists(),
            },
    {
        match list_index(size, align) {
            Some(index) => {
                self.list_heads[index].push(ptr);
                assert(self.lists() =~= old(self).lists().update(index as int, old(self).lists()[index as int].push(ptr)));
                true
            },
            None => false,
        }
    }

    /// The number of free blocks of each class, the total number of free
    /// blocks, and the total number of free bytes in them.
    pub fn free_block_stats(&self) -> (r: (Vec<usize>, usize, usize))
        requires
            self.wf(),
            total_bytes(self.lists(), BLOCK_SIZE_COUNT as int) <= usize::MAX,
        ensures
            r.0@.len() == BLOCK_SIZE_COUNT,
            forall|i: int| 0 <= i < BLOCK_SIZE_COUNT ==> r.0@[i] == #[trigger] self.lists()[i].len(),
            r.1 == total_blocks(self.lists(), BLOCK_SIZE_COUNT as int),
            r.2 == total_bytes(self.lists(), BLOCK_SIZE_COUNT as int),
    {
        let mut counts: Vec<usize> = Vec::new();
        let mut total_blocks_so_far: usize = 0;
        let mut total_memory: usize = 0;
        let mut i: usize = 0;
        while i < BLOCK_SIZE_COUNT
            invariant
                0 <= i <= BLOCK_SIZE_COUNT,
                self.wf(),
                total_bytes(self.lists(), BLOCK_SIZE_COUNT as int) <= usize::MAX,
                counts@.len() == i,
                forall|k: int| 0 <= k < i ==> counts@[k] == #[trigger] self.lists()[k].len(),
                total_blocks_so_far == total_blocks(self.lists(), i as int),
                total_memory == total_bytes(self.lists(), i as int),
            decreases BLOCK_SIZE_COUNT - i,
        {
            let count = self.list_heads[i].len();
            let size = block_size(i);
            proof {
                lemma_totals_grow(self.lists(), i + 1, BLOCK_SIZE_COUNT as int);
                assert(self.lists()[i as int].len() == count);
            }
            counts.push(count);
            total_blocks_so_far = total_blocks_so_far + count;
            total_memory = total_memory + count * size;
            i = i + 1;
        }
        (counts, total_blocks_so_far, total_memory)
    }

    /// The fallback heap, for giving back blocks that have no class: a
    /// reference to the allocator's own heap, through which the heap may
    /// change while the block lists stay as they are.
    pub fn fallback_heap(&mut self) -> (r: &mut Heap)
        ensures
            *r == old(self).fallback(),
            final(self).fallback() == *final(r),
            final(self).lists() == old(self).lists(),
            final(self).wf() == old(self).wf(),
    {
        &mut self.fallback_allocator
    }
}

} // verus!
