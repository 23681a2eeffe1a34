//! A first-fit allocator over an address-ordered list of free regions, with
//! coalescing of neighbouring regions on free.
use vstd::prelude::*;

use super::{
    align_up, align_up_spec, is_pow2, lemma_positive_multiple_at_least, lemma_pow2_positive,
    lemma_round_up_multiple,
};

verus! {

/// A free region of the heap: `size` bytes starting at address `addr`.
#[derive(Clone, Copy, Debug)]
pub struct ListNode {
    pub addr: usize,
    pub size: usize,
}

/// One past the last address of a region.
pub open spec fn node_end(n: ListNode) -> int {
    n.addr + n.size
}

impl ListNode {
    /// A region of `size` bytes at `addr`.
    pub fn new(addr: usize, size: usize) -> (r: ListNode)
        ensures
            r.addr == addr,
            r.size == size,
    {
        ListNode { addr, size }
    }

    /// First address of the region.
    pub fn start_addr(&self) -> (r: usize)
        ensures
            r == self.addr,
    {
        self.addr
    }

    /// One past the last address of the region.
    pub fn end_addr(&self) -> (r: usize)
        requires
            node_end(*self) <= usize::MAX,
        ensures
            r == node_end(*self),
    {
        self.addr + self.size
    }
}

// ---------------------------------------------------------------------------
// The free list, as a sequence of regions in list order.
// ---------------------------------------------------------------------------

/// Every region ends inside the address space.
pub open spec fn ends_fit(rs: Seq<ListNode>) -> bool {
    forall|i: int| 0 <= i < rs.len() ==> node_end(#[trigger] rs[i]) <= usize::MAX
}

/// A sorted free list: non-empty regions that end inside the address space,
/// in address order and pairwise disjoint; neighbours may touch.
pub open spec fn free_list_sorted(rs: Seq<ListNode>) -> bool {
    &&& ends_fit(rs)
    &&& forall|i: int| 0 <= i < rs.len() ==> (#[trigger] rs[i]).size > 0
    &&& forall|i: int| 0 <= i < rs.len() - 1 ==> node_end(#[trigger] rs[i]) <= rs[i + 1].addr
}

/// Neighbouring regions do not touch: there is a gap between them.
pub open spec fn regions_apart(rs: Seq<ListNode>) -> bool {
    forall|i: int| 0 <= i < rs.len() - 1 ==> node_end(#[trigger] rs[i]) < rs[i + 1].addr
}

/// A well-formed free list: sorted, with a gap between neighbours (the list
/// a heap reaches when neighbouring free regions are always merged).
pub open spec fn free_list_wf(rs: Seq<ListNode>) -> bool {
    &&& free_list_sorted(rs)
    &&& regions_apart(rs)
}

/// Address `a` lies in region `n`.
pub open spec fn in_region(n: ListNode, a: int) -> bool {
    n.addr <= a < node_end(n)
}

/// Address `a` is free according to the list.
pub open spec fn is_free(rs: Seq<ListNode>, a: int) -> bool {
    exists|j: int| 0 <= j < rs.len() && in_region(#[trigger] rs[j], a)
}

/// The set of free addresses.
pub open spec fn free_set(rs: Seq<ListNode>) -> Set<int> {
    Set::new(|a: int| is_free(rs, a))
}

// ---------------------------------------------------------------------------
// Freeing a region.
// ---------------------------------------------------------------------------

/// While walking the list to free `[addr, addr + size)`, the walk stops at a
/// region that follows the freed range directly, that ends where the freed
/// range starts, or that starts above it.
pub open spec fn stops_at(n: ListNode, addr: int, size: int) -> bool {
    n.addr == addr + size || node_end(n) == addr || n.addr > addr
}

/// `i` is the first region where the walk stops.
pub open spec fn is_first_stop(rs: Seq<ListNode>, addr: int, size: int, i: int) -> bool {
    &&& 0 <= i < rs.len()
    &&& stops_at(rs[i], addr, size)
    &&& forall|j: int| 0 <= j < i ==> !stops_at(#[trigger] rs[j], addr, size)
}

/// Index of the first region where the walk stops, or the length of the list
/// when it never stops.
pub open spec fn first_stop(rs: Seq<ListNode>, addr: int, size: int) -> int {
    if exists|i: int| is_first_stop(rs, addr, size, i) {
        choose|i: int| is_first_stop(rs, addr, size, i)
    } else {
        rs.len() as int
    }
}

/// The free list after `[addr, addr + size)` has been returned to it:
/// merged into the region it precedes, appended to the region it follows
/// (merging that region with the next one when they now touch), or inserted
/// as a region of its own before the first region above it or at the end.
pub open spec fn free_list_insert(rs: Seq<ListNode>, addr: int, size: int) -> Seq<ListNode> {
    let i = first_stop(rs, addr, size);
    if i == rs.len() {
        rs.push(ListNode { addr: addr as usize, size: size as usize })
    } else if rs[i].addr == addr + size {
        rs.update(i, ListNode { addr: addr as usize, size: (size + rs[i].size) as usize })
    } else if node_end(rs[i]) == addr {
        if i + 1 < rs.len() && addr + size == rs[i + 1].addr {
            rs.update(
                i,
                ListNode { addr: rs[i].addr, size: (rs[i].size + size + rs[i + 1].size) as usize },
            ).remove(i + 1)
        } else {
            rs.update(i, ListNode { addr: rs[i].addr, size: (rs[i].size + size) as usize })
        }
    } else {
        rs.insert(i, ListNode { addr: addr as usize, size: size as usize })
    }
}

/// The first stop is unique.
pub proof fn lemma_first_stop_is(rs: Seq<ListNode>, addr: int, size: int, i: int)
    requires
        is_first_stop(rs, addr, size, i),
    ensures
        first_stop(rs, addr, size) == i,
{
    let k = first_stop(rs, addr, size);
    assert(is_first_stop(rs, addr, size, k));
    if k < i {
        assert(!stops_at(rs[k], addr, size));
    } else if k > i {
        assert(!stops_at(rs[i], addr, size));
    }
}

/// When the walk never stops, the first stop is the end of the list.
pub proof fn lemma_first_stop_none(rs: Seq<ListNode>, addr: int, size: int)
    requires
        forall|j: int| 0 <= j < rs.len() ==> !stops_at(#[trigger] rs[j], addr, size),
    ensures
        first_stop(rs, addr, size) == rs.len(),
{
    if exists|i: int| is_first_stop(rs, addr, size, i) {
        let i = choose|i: int| is_first_stop(rs, addr, size, i);
        assert(!stops_at(rs[i], addr, size));
    }
}

/// No address of `[addr, addr + size)` is free.
pub open spec fn range_unused(rs: Seq<ListNode>, addr: int, size: int) -> bool {
    forall|a: int| addr <= a < addr + size ==> !is_free(rs, a)
}

/// The first stop exists and is the index `first_stop` returns, or the walk
/// never stops.
proof fn lemma_first_stop_cases(rs: Seq<ListNode>, addr: int, size: int)
    ensures
        0 <= first_stop(rs, addr, size) <= rs.len(),
        first_stop(rs, addr, size) < rs.len() ==> is_first_stop(rs, addr, size, first_stop(rs, addr, size)),
        first_stop(rs, addr, size) == rs.len() ==> forall|j: int|
            0 <= j < rs.len() ==> !stops_at(#[trigger] rs[j], addr, size),
{
    if exists|i: int| is_first_stop(rs, addr, size, i) {
        let i = choose|i: int| is_first_stop(rs, addr, size, i);
        assert(is_first_stop(rs, addr, size, i));
    } else {
        assert forall|j: int| 0 <= j < rs.len() implies !stops_at(#[trigger] rs[j], addr, size) by {
            if stops_at(rs[j], addr, size) {
                // the smallest stopping index would be a first stop
                lemma_exists_first_stop(rs, addr, size, j);
            }
        }
    }
}

/// Some stop at or before `j` is a first stop.
proof fn lemma_exists_first_stop(rs: Seq<ListNode>, addr: int, size: int, j: int)
    requires
        0 <= j < rs.len(),
        stops_at(rs[j], addr, size),
    ensures
        exists|i: int| is_first_stop(rs, addr, size, i),
    decreases j,
{
    if forall|k: int| 0 <= k < j ==> !stops_at(#[trigger] rs[k], addr, size) {
        assert(is_first_stop(rs, addr, size, j));
    } else {
        let k = choose|k: int| 0 <= k < j && stops_at(#[trigger] rs[k], addr, size);
        lemma_exists_first_stop(rs, addr, size, k);
    }
}

/// Regions passed over by the walk end strictly below the freed range.
proof fn lemma_before_stop_below(rs: Seq<ListNode>, addr: int, size: int, j: int)
    requires
        free_list_sorted(rs),
        size > 0,
        range_unused(rs, addr, size),
        0 <= j < rs.len(),
        !stops_at(rs[j], addr, size),
    ensures
        node_end(rs[j]) < addr,
{
    if node_end(rs[j]) > addr {
        assert(in_region(rs[j], addr));
        assert(is_free(rs, addr));
    }
}

/// Facts shared by every way of returning `[addr, addr + size)` at index `i`.
pub open spec fn insert_context(rs: Seq<ListNode>, addr: int, size: int, i: int) -> bool {
    &&& free_list_sorted(rs)
    &&& addr >= 0
    &&& size > 0
    &&& addr + size <= usize::MAX
    &&& range_unused(rs, addr, size)
    &&& 0 <= i <= rs.len()
    &&& forall|j: int| 0 <= j < i ==> node_end(#[trigger] rs[j]) < addr
}

/// `nw` is sorted, keeps its neighbours apart when `rs` does, and holds
/// exactly the free memory of `rs` plus `[addr, addr + size)`.
pub open spec fn inserted_exactly(rs: Seq<ListNode>, nw: Seq<ListNode>, addr: int, size: int) -> bool {
    &&& free_list_sorted(nw)
    &&& regions_apart(rs) ==> regions_apart(nw)
    &&& forall|a: int| #[trigger] is_free(nw, a) <==> (is_free(rs, a) || addr <= a < addr + size)
}

/// Appending the range behind every region.
proof fn lemma_insert_at_end(rs: Seq<ListNode>, addr: int, size: int)
    requires
        insert_context(rs, addr, size, rs.len() as int),
    ensures
        inserted_exactly(rs, rs.push(ListNode { addr: addr as usize, size: size as usize }), addr, size),
{
    let nw = rs.push(ListNode { addr: addr as usize, size: size as usize });
    assert forall|a: int| #[trigger] is_free(nw, a) <==> (is_free(rs, a) || addr <= a < addr + size) by {
        if is_free(nw, a) {
            let j = choose|j: int| 0 <= j < nw.len() && in_region(#[trigger] nw[j], a);
            if j < rs.len() {
                assert(in_region(rs[j], a));
            }
        }
        if is_free(rs, a) {
            let j = choose|j: int| 0 <= j < rs.len() && in_region(#[trigger] rs[j], a);
            assert(in_region(nw[j], a));
        }
        if addr <= a < addr + size {
            assert(in_region(nw[rs.len() as int], a));
        }
    }
    assert forall|j: int| 0 <= j < nw.len() - 1 implies node_end(#[trigger] nw[j]) <= nw[j + 1].addr && (regions_apart(rs) ==> node_end(nw[j]) < nw[j + 1].addr) by {
        if j < rs.len() - 1 {
            assert(node_end(rs[j]) <= rs[j + 1].addr);
        }
    }
}

/// Merging the range into the region that starts where it ends.
proof fn lemma_insert_merge_next(rs: Seq<ListNode>, addr: int, size: int, i: int)
    requires
        insert_context(rs, addr, size, i),
        i < rs.len(),
        rs[i].addr == addr + size,
    ensures
        inserted_exactly(
            rs,
            rs.update(i, ListNode { addr: addr as usize, size: (size + rs[i].size) as usize }),
            addr,
            size,
        ),
{
    let nw = rs.update(i, ListNode { addr: addr as usize, size: (size + rs[i].size) as usize });
    assert forall|a: int| #[trigger] is_free(nw, a) <==> (is_free(rs, a) || addr <= a < addr + size) by {
        if is_free(nw, a) {
            let j = choose|j: int| 0 <= j < nw.len() && in_region(#[trigger] nw[j], a);
            if j != i {
                assert(in_region(rs[j], a));
            } else if a >= addr + size {
                assert(in_region(rs[i], a));
            }
        }
        if is_free(rs, a) {
            let j = choose|j: int| 0 <= j < rs.len() && in_region(#[trigger] rs[j], a);
            assert(in_region(nw[j], a));
        }
        if addr <= a < addr + size {
            assert(in_region(nw[i], a));
        }
    }
    assert forall|j: int| 0 <= j < nw.len() - 1 implies node_end(#[trigger] nw[j]) <= nw[j + 1].addr && (regions_apart(rs) ==> node_end(nw[j]) < nw[j + 1].addr) by {
        if j == i - 1 {
            assert(node_end(rs[j]) < addr);
        } else {
            assert(node_end(rs[j]) <= rs[j + 1].addr);
        }
    }
}

/// Appending the range to the region that ends where it starts, when the
/// next region does not touch the result.
proof fn lemma_insert_merge_prev(rs: Seq<ListNode>, addr: int, size: int, i: int)
    requires
        insert_context(rs, addr, size, i),
        i < rs.len(),
        node_end(rs[i]) == addr,
        !(i + 1 < rs.len() && addr + size == rs[i + 1].addr),
    ensures
        inserted_exactly(
            rs,
            rs.update(i, ListNode { addr: rs[i].addr, size: (rs[i].size + size) as usize }),
            addr,
            size,
        ),
{
    let nw = rs.update(i, ListNode { addr: rs[i].addr, size: (rs[i].size + size) as usize });
    if i + 1 < rs.len() {
        assert(node_end(rs[i]) <= rs[i + 1].addr);
        if rs[i + 1].addr < addr + size {
            assert(in_region(rs[i + 1], rs[i + 1].addr as int));
            assert(is_free(rs, rs[i + 1].addr as int));
        }
    }
    assert forall|a: int| #[trigger] is_free(nw, a) <==> (is_free(rs, a) || addr <= a < addr + size) by {
        if is_free(nw, a) {
            let j = choose|j: int| 0 <= j < nw.len() && in_region(#[trigger] nw[j], a);
            if j != i {
                assert(in_region(rs[j], a));
            } else if a < addr {
                assert(in_region(rs[i], a));
            }
        }
        if is_free(rs, a) {
            let j = choose|j: int| 0 <= j < rs.len() && in_region(#[trigger] rs[j], a);
            assert(in_region(nw[j], a));
        }
        if addr <= a < addr + size {
            assert(in_region(nw[i], a));
        }
    }
    assert forall|j: int| 0 <= j < nw.len() - 1 implies node_end(#[trigger] nw[j]) <= nw[j + 1].addr && (regions_apart(rs) ==> node_end(nw[j]) < nw[j + 1].addr) by {
        assert(node_end(rs[j]) <= rs[j + 1].addr);
    }
}

/// Filling the gap between two regions: the range joins both.
proof fn lemma_insert_merge_both(rs: Seq<ListNode>, addr: int, size: int, i: int)
    requires
        insert_context(rs, addr, size, i),
        i + 1 < rs.len(),
        node_end(rs[i]) == addr,
        addr + size == rs[i + 1].addr,
    ensures
        inserted_exactly(
            rs,
            rs.update(
                i,
                ListNode { addr: rs[i].addr, size: (rs[i].size + size + rs[i + 1].size) as usize },
            ).remove(i + 1),
            addr,
            size,
        ),
{
    let m = ListNode { addr: rs[i].addr, size: (rs[i].size + size + rs[i + 1].size) as usize };
    let nw = rs.update(i, m).remove(i + 1);
    assert(node_end(rs[i + 1]) <= usize::MAX);
    assert forall|j: int| 0 <= j < nw.len() implies nw[j] == (if j < i {
        rs[j]
    } else if j == i {
        m
    } else {
        rs[j + 1]
    }) by {}
    assert forall|a: int| #[trigger] is_free(nw, a) <==> (is_free(rs, a) || addr <= a < addr + size) by {
        if is_free(nw, a) {
            let j = choose|j: int| 0 <= j < nw.len() && in_region(#[trigger] nw[j], a);
            if j < i {
                assert(in_region(rs[j], a));
            } else if j > i {
                assert(in_region(rs[j + 1], a));
            } else if a < addr {
                assert(in_region(rs[i], a));
            } else if a >= addr + size {
                assert(in_region(rs[i + 1], a));
            }
        }
        if is_free(rs, a) {
            let j = choose|j: int| 0 <= j < rs.len() && in_region(#[trigger] rs[j], a);
            if j < i {
                assert(in_region(nw[j], a));
            } else if j > i + 1 {
                assert(in_region(nw[j - 1], a));
            } else {
                assert(in_region(nw[i], a));
            }
        }
        if addr <= a < addr + size {
            assert(in_region(nw[i], a));
        }
    }
    assert forall|j: int| 0 <= j < nw.len() implies (#[trigger] nw[j]).size > 0 && node_end(nw[j]) <= usize::MAX by {
        if j > i {
            assert(nw[j] == rs[j + 1]);
        }
    }
    assert forall|j: int| 0 <= j < nw.len() - 1 implies node_end(#[trigger] nw[j]) <= nw[j + 1].addr && (regions_apart(rs) ==> node_end(nw[j]) < nw[j + 1].addr) by {
        if j < i {
            assert(node_end(rs[j]) <= rs[j + 1].addr);
        } else if j == i {
            assert(node_end(rs[i + 1]) <= rs[i + 2].addr);
        } else {
            assert(node_end(rs[j + 1]) <= rs[j + 2].addr);
        }
    }
}

/// Inserting the range as a region of its own before the first region above
/// it.
proof fn lemma_insert_before(rs: Seq<ListNode>, addr: int, size: int, i: int)
    requires
        insert_context(rs, addr, size, i),
        i < rs.len(),
        rs[i].addr > addr,
        rs[i].addr != addr + size,
    ensures
        inserted_exactly(rs, rs.insert(i, ListNode { addr: addr as usize, size: size as usize }), addr, size),
{
    let n = ListNode { addr: addr as usize, size: size as usize };
    let nw = rs.insert(i, n);
    if rs[i].addr < addr + size {
        assert(in_region(rs[i], rs[i].addr as int));
        assert(is_free(rs, rs[i].addr as int));
    }
    assert forall|j: int| 0 <= j < nw.len() implies nw[j] == (if j < i {
        rs[j]
    } else if j == i {
        n
    } else {
        rs[j - 1]
    }) by {}
    assert forall|a: int| #[trigger] is_free(nw, a) <==> (is_free(rs, a) || addr <= a < addr + size) by {
        if is_free(nw, a) {
            let j = choose|j: int| 0 <= j < nw.len() && in_region(#[trigger] nw[j], a);
            if j < i {
                assert(in_region(rs[j], a));
            } else if j > i {
                assert(in_region(rs[j - 1], a));
            }
        }
        if is_free(rs, a) {
            let j = choose|j: int| 0 <= j < rs.len() && in_region(#[trigger] rs[j], a);
            if j < i {
                assert(in_region(nw[j], a));
            } else {
                assert(in_region(nw[j + 1], a));
            }
        }
        if addr <= a < addr + size {
            assert(in_region(nw[i], a));
        }
    }
    assert forall|j: int| 0 <= j < nw.len() implies (#[trigger] nw[j]).size > 0 && node_end(nw[j]) <= usize::MAX by {
        if j > i {
            assert(nw[j] == rs[j - 1]);
        }
    }
    assert forall|j: int| 0 <= j < nw.len() - 1 implies node_end(#[trigger] nw[j]) <= nw[j + 1].addr && (regions_apart(rs) ==> node_end(nw[j]) < nw[j + 1].addr) by {
        if j < i - 1 {
            assert(node_end(rs[j]) <= rs[j + 1].addr);
        } else if j == i - 1 {
            assert(node_end(rs[j]) < addr);
        } else if j > i {
            assert(node_end(rs[j - 1]) <= rs[j].addr);
        }
    }
}

/// The exact membership statement, as a set equation.
proof fn lemma_inserted_set(rs: Seq<ListNode>, nw: Seq<ListNode>, addr: int, size: int)
    requires
        inserted_exactly(rs, nw, addr, size),
    ensures
        free_set(nw) == free_set(rs).union(vstd::set_lib::set_int_range(addr, addr + size)),
{
    assert(free_set(nw) =~= free_set(rs).union(vstd::set_lib::set_int_range(addr, addr + size)));
}

/// The walk for an unused range stops at index `first_stop`, and every
/// region before it ends strictly below the range.
proof fn lemma_insert_context(rs: Seq<ListNode>, addr: int, size: int)
    requires
        free_list_sorted(rs),
        addr >= 0,
        size > 0,
        addr + size <= usize::MAX,
        range_unused(rs, addr, size),
    ensures
        insert_context(rs, addr, size, first_stop(rs, addr, size)),
        first_stop(rs, addr, size) < rs.len() ==> stops_at(rs[first_stop(rs, addr, size)], addr, size),
{
    let i = first_stop(rs, addr, size);
    lemma_first_stop_cases(rs, addr, size);
    assert forall|j: int| 0 <= j < i implies node_end(#[trigger] rs[j]) < addr by {
        lemma_before_stop_below(rs, addr, size, j);
    }
}

/// Some region of `rs` ends at `addr`.
pub open spec fn has_region_ending_at(rs: Seq<ListNode>, addr: int) -> bool {
    exists|j: int| 0 <= j < rs.len() && node_end(#[trigger] rs[j]) == addr
}

/// Some region of `rs` starts at `addr`.
pub open spec fn has_region_starting_at(rs: Seq<ListNode>, addr: int) -> bool {
    exists|j: int| 0 <= j < rs.len() && (#[trigger] rs[j]).addr == addr
}

/// `1` for `true`, `0` for `false`.
pub open spec fn count_if(b: bool) -> int {
    if b { 1 } else { 0 }
}

/// Freeing an unused, non-empty range into a sorted list keeps it sorted,
/// keeps neighbours apart when they were, and adds exactly that range to
/// the free memory. The range is merged with a region ending where it
/// starts and with a region starting where it ends, so the list grows by
/// one region less one for each such neighbour.
pub proof fn law_free_adds_range(rs: Seq<ListNode>, addr: int, size: int)
    requires
        free_list_sorted(rs),
        addr >= 0,
        size > 0,
        addr + size <= usize::MAX,
        range_unused(rs, addr, size),
    ensures
        free_list_sorted(free_list_insert(rs, addr, size)),
        regions_apart(rs) ==> regions_apart(free_list_insert(rs, addr, size)),
        free_set(free_list_insert(rs, addr, size)) == free_set(rs).union(
            vstd::set_lib::set_int_range(addr, addr + size),
        ),
        free_list_insert(rs, addr, size).len() == rs.len() + 1 - count_if(has_region_ending_at(rs, addr))
            - count_if(has_region_starting_at(rs, addr + size)),
{
    let nw = free_list_insert(rs, addr, size);
    let i = first_stop(rs, addr, size);
    lemma_insert_context(rs, addr, size);
    if i == rs.len() {
        lemma_insert_at_end(rs, addr, size);
    } else if rs[i].addr == addr + size {
        lemma_insert_merge_next(rs, addr, size, i);
    } else if node_end(rs[i]) == addr {
        if i + 1 < rs.len() && addr + size == rs[i + 1].addr {
            lemma_insert_merge_both(rs, addr, size, i);
        } else {
            lemma_insert_merge_prev(rs, addr, size, i);
        }
    } else {
        lemma_insert_before(rs, addr, size, i);
    }
    lemma_inserted_set(rs, nw, addr, size);
    lemma_free_count(rs, addr, size);
}

/// In a sorted list, every region ends at or below the start of any later
/// region.
pub proof fn lemma_sorted_ordered(rs: Seq<ListNode>, j: int, k: int)
    requires
        free_list_sorted(rs),
        0 <= j < k < rs.len(),
    ensures
        node_end(rs[j]) <= rs[k].addr,
    decreases k - j,
{
    if k > j + 1 {
        lemma_sorted_ordered(rs, j + 1, k);
        assert(node_end(rs[j]) <= rs[j + 1].addr);
    }
}

/// The number of regions after freeing: one more, less one for a region
/// ending at the range and one for a region starting right after it.
proof fn lemma_free_count(rs: Seq<ListNode>, addr: int, size: int)
    requires
        free_list_sorted(rs),
        addr >= 0,
        size > 0,
        addr + size <= usize::MAX,
        range_unused(rs, addr, size),
    ensures
        free_list_insert(rs, addr, size).len() == rs.len() + 1 - count_if(has_region_ending_at(rs, addr))
            - count_if(has_region_starting_at(rs, addr + size)),
{
    let i = first_stop(rs, addr, size);
    lemma_insert_context(rs, addr, size);
    // a region starting inside the range would make the range's first address free
    assert forall|j: int| 0 <= j < rs.len() && addr <= (#[trigger] rs[j]).addr < addr + size implies false by {
        assert(in_region(rs[j], rs[j].addr as int));
        assert(is_free(rs, rs[j].addr as int));
    }
    if i == rs.len() {
        assert(!has_region_ending_at(rs, addr));
        assert(!has_region_starting_at(rs, addr + size));
    } else if rs[i].addr == addr + size {
        assert(has_region_starting_at(rs, addr + size));
        assert forall|j: int| 0 <= j < rs.len() implies node_end(#[trigger] rs[j]) != addr by {
            if j > i {
                lemma_sorted_ordered(rs, i, j);
            }
        }
    } else if node_end(rs[i]) == addr {
        assert(has_region_ending_at(rs, addr));
        if i + 1 < rs.len() && addr + size == rs[i + 1].addr {
            assert(has_region_starting_at(rs, addr + size));
        } else {
            assert forall|j: int| 0 <= j < rs.len() implies (#[trigger] rs[j]).addr != addr + size by {
                if j > i + 1 {
                    lemma_sorted_ordered(rs, i, i + 1);
                    lemma_sorted_ordered(rs, i + 1, j);
                } else if j == i + 1 {
                    lemma_sorted_ordered(rs, i, j);
                }
            }
        }
    } else {
        assert forall|j: int| 0 <= j < rs.len() implies node_end(#[trigger] rs[j]) != addr by {
            if j > i {
                lemma_sorted_ordered(rs, i, j);
            }
        }
        assert forall|j: int| 0 <= j < rs.len() implies (#[trigger] rs[j]).addr != addr + size by {
            if j > i {
                lemma_sorted_ordered(rs, i, j);
            }
        }
    }
}

// ---------------------------------------------------------------------------
// Allocating from the list.
// ---------------------------------------------------------------------------

/// A block of `size` bytes aligned to `align` fits into region `n`.
pub open spec fn region_fits(n: ListNode, size: int, align: int) -> bool {
    align_up_spec(n.addr as int, align) + size <= node_end(n)
}

/// `i` is the first region that fits the request.
pub open spec fn is_first_fit(rs: Seq<ListNode>, size: int, align: int, i: int) -> bool {
    &&& 0 <= i < rs.len()
    &&& region_fits(rs[i], size, align)
    &&& forall|j: int| 0 <= j < i ==> !region_fits(#[trigger] rs[j], size, align)
}

/// Index of the first region that fits, or the length of the list.
pub open spec fn first_fit(rs: Seq<ListNode>, size: int, align: int) -> int {
    if exists|i: int| is_first_fit(rs, size, align, i) {
        choose|i: int| is_first_fit(rs, size, align, i)
    } else {
        rs.len() as int
    }
}

/// Aligning the start of every region inspected before the first fit stays
/// inside the address space.
pub open spec fn search_aligns_fit(rs: Seq<ListNode>, size: int, align: int) -> bool {
    forall|j: int|
        0 <= j < rs.len() && (forall|k: int| 0 <= k < j ==> !region_fits(#[trigger] rs[k], size, align))
            ==> #[trigger] rs[j].addr + align - 1 <= usize::MAX
}

/// The first fit is unique.
pub proof fn lemma_first_fit_is(rs: Seq<ListNode>, size: int, align: int, i: int)
    requires
        is_first_fit(rs, size, align, i),
    ensures
        first_fit(rs, size, align) == i,
{
    let k = first_fit(rs, size, align);
    assert(is_first_fit(rs, size, align, k));
    if k < i {
        assert(!region_fits(rs[k], size, align));
    } else if k > i {
        assert(!region_fits(rs[i], size, align));
    }
}

/// When no region fits, the first fit is the end of the list.
pub proof fn lemma_first_fit_none(rs: Seq<ListNode>, size: int, align: int)
    requires
        forall|j: int| 0 <= j < rs.len() ==> !region_fits(#[trigger] rs[j], size, align),
    ensures
        first_fit(rs, size, align) == rs.len(),
{
    if exists|i: int| is_first_fit(rs, size, align, i) {
        let i = choose|i: int| is_first_fit(rs, size, align, i);
        assert(!region_fits(rs[i], size, align));
    }
}

/// Freeing a block right after allocating it gives all its memory back:
/// the list stays well formed and only the alignment padding in front of
/// the block remains lost.
pub proof fn law_free_after_alloc(rs: Seq<ListNode>, size: int, align: int)
    requires
        free_list_wf(rs),
        align > 0,
        is_pow2(align as nat),
        size > 0,
        first_fit(rs, size, align) < rs.len(),
    ensures
        ({
            let i = first_fit(rs, size, align);
            let (nw, r) = first_fit_alloc_spec(rs, size, align);
            let back = free_list_insert(nw, r, size);
            &&& free_list_wf(back)
            &&& free_set(back) == free_set(rs).difference(
                vstd::set_lib::set_int_range(rs[i].addr as int, r),
            )
        }),
{
    let i = first_fit(rs, size, align);
    let (nw, r) = first_fit_alloc_spec(rs, size, align);
    law_alloc_takes_free_block(rs, size, align);
    assert(range_unused(nw, r, size)) by {
        assert forall|a: int| r <= a < r + size implies !is_free(nw, a) by {
            assert(!free_set(nw).contains(a));
        }
    }
    assert(node_end(rs[i]) <= usize::MAX);
    law_free_adds_range(nw, r, size);
    let back = free_list_insert(nw, r, size);
    assert(free_set(back) =~= free_set(rs).difference(vstd::set_lib::set_int_range(rs[i].addr as int, r)));
}

/// Size in bytes of the node header kept at the start of every free region.
pub const NODE_SIZE: usize = 16;

/// Alignment of the node header kept at the start of every free region.
pub const NODE_ALIGN: usize = 8;

/// The larger of two integers.
pub open spec fn max_int(a: int, b: int) -> int {
    if a >= b { a } else { b }
}

/// `size` and `align` describe a valid memory layout: the alignment is a power
/// of two and the size rounded up to it fits in an `isize`.
pub open spec fn layout_valid(size: int, align: int) -> bool {
    &&& align >= 0
    &&& is_pow2(align as nat)
    &&& align_up_spec(size, align) <= isize::MAX
}

/// Block size and alignment actually used for a request, so that a freed
/// block can always hold a node header: the alignment is raised to the
/// header's, the size padded to it and raised to at least the header size.
pub open spec fn size_align_spec(size: int, align: int) -> (int, int) {
    let a = max_int(align, NODE_ALIGN as int);
    (max_int(align_up_spec(size, a), NODE_SIZE as int), a)
}

/// The block used for a request is aligned to at least eight bytes (the
/// request's alignment when larger), holds at least the request and at
/// least sixteen bytes, and is the request rounded up to that alignment
/// unless that is below sixteen bytes.
pub proof fn law_request_padding(size: int, align: int)
    requires
        size >= 0,
        align > 0,
    ensures
        ({
            let (s2, a2) = size_align_spec(size, align);
            &&& a2 == if align < 8 { 8 } else { align }
            &&& s2 >= size
            &&& s2 >= 16
            &&& s2 == 16 || (s2 % a2 == 0 && s2 < size + a2)
        }),
{
    let a2 = max_int(align, NODE_ALIGN as int);
    lemma_round_up_multiple(size, a2);
}

/// Outcome of an allocation request on a free list: the new list and the
/// returned address (`0` when no region fits). The block is cut from the
/// first region that fits; what lies behind the block goes back to the list,
/// while the alignment padding in front of it is not reclaimed.
pub open spec fn first_fit_alloc_spec(rs: Seq<ListNode>, size: int, align: int) -> (Seq<ListNode>, int) {
    let i = first_fit(rs, size, align);
    if i == rs.len() {
        (rs, 0)
    } else {
        let start = align_up_spec(rs[i].addr as int, align);
        let rest = rs.remove(i);
        let excess = node_end(rs[i]) - (start + size);
        (if excess > 0 { free_list_insert(rest, start + size, excess) } else { rest }, start)
    }
}

/// A heap handed to an empty allocator forms a well-formed free list whose
/// free memory is exactly the heap.
pub proof fn law_init_frees_heap(start: int, size: int)
    requires
        start >= 0,
        size > 0,
        start + size <= usize::MAX,
    ensures
        ({
            let rs = seq![ListNode { addr: start as usize, size: size as usize }] + Seq::<ListNode>::empty();
            &&& free_list_wf(rs)
            &&& free_set(rs) == vstd::set_lib::set_int_range(start, start + size)
        }),
{
    let rs = seq![ListNode { addr: start as usize, size: size as usize }] + Seq::<ListNode>::empty();
    assert(rs.len() == 1);
    assert forall|a: int| #[trigger] free_set(rs).contains(a) == vstd::set_lib::set_int_range(start, start + size).contains(a) by {
        if start <= a < start + size {
            assert(in_region(rs[0], a));
        }
    }
    assert(free_set(rs) =~= vstd::set_lib::set_int_range(start, start + size));
}

/// In a well-formed list, every region ends below the start of any later
/// region.
pub proof fn lemma_wf_ordered(rs: Seq<ListNode>, j: int, k: int)
    requires
        free_list_wf(rs),
        0 <= j < k < rs.len(),
    ensures
        node_end(rs[j]) < rs[k].addr,
    decreases k - j,
{
    if k > j + 1 {
        lemma_wf_ordered(rs, j + 1, k);
        assert(node_end(rs[j]) < rs[j + 1].addr);
    }
}

/// Removing a region keeps a list well formed and frees nothing else.
proof fn lemma_remove_region(rs: Seq<ListNode>, i: int)
    requires
        free_list_wf(rs),
        0 <= i < rs.len(),
    ensures
        free_list_wf(rs.remove(i)),
        forall|a: int| #[trigger] is_free(rs.remove(i), a) <==> (is_free(rs, a) && !in_region(rs[i], a)),
{
    let nw = rs.remove(i);
    assert forall|j: int| 0 <= j < nw.len() implies (#[trigger] nw[j]).size > 0 && node_end(nw[j]) <= usize::MAX by {
        if j >= i {
            assert(nw[j] == rs[j + 1]);
        }
    }
    assert forall|j: int| 0 <= j < nw.len() - 1 implies node_end(#[trigger] nw[j]) < nw[j + 1].addr by {
        if j < i - 1 {
            assert(node_end(rs[j]) < rs[j + 1].addr);
        } else if j == i - 1 {
            lemma_wf_ordered(rs, j, i + 1);
        } else {
            assert(node_end(rs[j + 1]) < rs[j + 2].addr);
        }
    }
    assert forall|a: int| #[trigger] is_free(nw, a) <==> (is_free(rs, a) && !in_region(rs[i], a)) by {
        if is_free(nw, a) {
            let j = choose|j: int| 0 <= j < nw.len() && in_region(#[trigger] nw[j], a);
            let k = if j < i { j } else { j + 1 };
            assert(nw[j] == rs[k]);
            assert(in_region(rs[k], a));
            if k < i {
                lemma_wf_ordered(rs, k, i);
            } else {
                lemma_wf_ordered(rs, i, k);
            }
        }
        if is_free(rs, a) && !in_region(rs[i], a) {
            let j = choose|j: int| 0 <= j < rs.len() && in_region(#[trigger] rs[j], a);
            if j < i {
                assert(in_region(nw[j], a));
            } else {
                assert(nw[j - 1] == rs[j]);
                assert(in_region(nw[j - 1], a));
            }
        }
    }
}

/// A successful first-fit allocation on a well-formed list returns an
/// aligned block that was free, cut from the first region that fits; the list
/// stays well formed and loses exactly the memory from the start of that
/// region to the end of the block (the block and the padding in front of it).
pub proof fn law_alloc_takes_free_block(rs: Seq<ListNode>, size: int, align: int)
    requires
        free_list_wf(rs),
        align > 0,
        is_pow2(align as nat),
        size >= 0,
        first_fit(rs, size, align) < rs.len(),
    ensures
        ({
            let i = first_fit(rs, size, align);
            let (nw, r) = first_fit_alloc_spec(rs, size, align);
            &&& is_first_fit(rs, size, align, i)
            &&& r % align == 0
            &&& rs[i].addr <= r
            &&& r + size <= node_end(rs[i])
            &&& forall|a: int| r <= a < r + size ==> is_free(rs, a)
            &&& free_list_wf(nw)
            &&& free_set(nw) == free_set(rs).difference(
                vstd::set_lib::set_int_range(rs[i].addr as int, r + size),
            )
        }),
{
    let i = first_fit(rs, size, align);
    assert(is_first_fit(rs, size, align, i)) by {
        let k = choose|k: int| is_first_fit(rs, size, align, k);
        assert(exists|k: int| is_first_fit(rs, size, align, k)) by {
            if !(exists|k: int| is_first_fit(rs, size, align, k)) {
                assert(first_fit(rs, size, align) == rs.len());
            }
        }
    }
    lemma_pow2_positive(align as nat);
    lemma_round_up_multiple(rs[i].addr as int, align);
    let (nw, r) = first_fit_alloc_spec(rs, size, align);
    let rest = rs.remove(i);
    lemma_remove_region(rs, i);
    assert forall|a: int| r <= a < r + size implies is_free(rs, a) by {
        assert(in_region(rs[i], a));
    }
    let excess = node_end(rs[i]) - (r + size);
    if excess > 0 {
        assert(range_unused(rest, r + size, excess)) by {
            assert forall|a: int| r + size <= a < r + size + excess implies !is_free(rest, a) by {
                assert(in_region(rs[i], a));
            }
        }
        law_free_adds_range(rest, r + size, excess);
        assert forall|a: int| #[trigger] free_set(nw).contains(a) == free_set(rs).difference(
            vstd::set_lib::set_int_range(rs[i].addr as int, r + size),
        ).contains(a) by {
            assert(free_set(nw).contains(a) == (is_free(rest, a) || r + size <= a < r + size + excess));
        }
    } else {
        assert forall|a: int| #[trigger] free_set(nw).contains(a) == free_set(rs).difference(
            vstd::set_lib::set_int_range(rs[i].addr as int, r + size),
        ).contains(a) by {
            assert(free_set(nw).contains(a) == is_free(rest, a));
        }
    }
    assert(free_set(nw) =~= free_set(rs).difference(
        vstd::set_lib::set_int_range(rs[i].addr as int, r + size),
    ));
}

/// A block of `size` bytes at the address `a`, aligned to `align`, lies
/// inside region `n`.
pub open spec fn block_in_region(n: ListNode, size: int, align: int, a: int) -> bool {
    &&& a % align == 0
    &&& n.addr <= a
    &&& a + size <= node_end(n)
}

/// A region fits a request exactly when some aligned block of the request's
/// size lies inside it.
proof fn lemma_region_fits_iff(n: ListNode, size: int, align: int)
    requires
        align > 0,
    ensures
        region_fits(n, size, align) <==> exists|a: int| #[trigger] block_in_region(n, size, align, a),
{
    lemma_round_up_multiple(n.addr as int, align);
    let b = align_up_spec(n.addr as int, align);
    if region_fits(n, size, align) {
        assert(block_in_region(n, size, align, b));
    }
    if exists|a: int| #[trigger] block_in_region(n, size, align, a) {
        let a = choose|a: int| #[trigger] block_in_region(n, size, align, a);
        if a < b {
            super::lemma_align_up_unique(n.addr as int, align, a);
        }
    }
}

/// Some fitting region at or before `j` is the first one that fits.
proof fn lemma_exists_first_fit(rs: Seq<ListNode>, size: int, align: int, j: int)
    requires
        0 <= j < rs.len(),
        region_fits(rs[j], size, align),
    ensures
        exists|i: int| is_first_fit(rs, size, align, i),
    decreases j,
{
    if forall|k: int| 0 <= k < j ==> !region_fits(#[trigger] rs[k], size, align) {
        assert(is_first_fit(rs, size, align, j));
    } else {
        let k = choose|k: int| 0 <= k < j && region_fits(#[trigger] rs[k], size, align);
        lemma_exists_first_fit(rs, size, align, k);
    }
}

/// An allocation takes the first region, in list order, that can hold an
/// aligned block of the requested size, and places the block at the lowest
/// aligned address in it; when no region can hold one, it returns `0` and
/// the list is unchanged.
pub proof fn law_first_fit_choice(rs: Seq<ListNode>, size: int, align: int)
    requires
        align > 0,
        is_pow2(align as nat),
        size >= 0,
    ensures
        ({
            let (nw, r) = first_fit_alloc_spec(rs, size, align);
            &&& (forall|j: int, a: int| 0 <= j < rs.len() ==> !#[trigger] block_in_region(rs[j], size, align, a))
                ==> nw == rs && r == 0
            &&& (exists|j: int, a: int| 0 <= j < rs.len() && #[trigger] block_in_region(rs[j], size, align, a))
                ==> exists|i: int|
                0 <= i < rs.len() && #[trigger] block_in_region(rs[i], size, align, r) && r < rs[i].addr + align
                    && forall|j: int, a: int| 0 <= j < i ==> !#[trigger] block_in_region(rs[j], size, align, a)
        }),
{
    let (nw, r) = first_fit_alloc_spec(rs, size, align);
    let i = first_fit(rs, size, align);
    if forall|j: int, a: int| 0 <= j < rs.len() ==> !#[trigger] block_in_region(rs[j], size, align, a) {
        assert forall|j: int| 0 <= j < rs.len() implies !region_fits(#[trigger] rs[j], size, align) by {
            lemma_region_fits_iff(rs[j], size, align);
        }
        lemma_first_fit_none(rs, size, align);
    }
    if exists|j: int, a: int| 0 <= j < rs.len() && #[trigger] block_in_region(rs[j], size, align, a) {
        let (j, a) = choose|j: int, a: int| 0 <= j < rs.len() && #[trigger] block_in_region(rs[j], size, align, a);
        lemma_region_fits_iff(rs[j], size, align);
        lemma_exists_first_fit(rs, size, align, j);
        let k = choose|k: int| is_first_fit(rs, size, align, k);
        lemma_first_fit_is(rs, size, align, k);
        lemma_round_up_multiple(rs[i].addr as int, align);
        assert(block_in_region(rs[i], size, align, r));
        assert forall|j2: int, a2: int| 0 <= j2 < i implies !#[trigger] block_in_region(rs[j2], size, align, a2) by {
            lemma_region_fits_iff(rs[j2], size, align);
            assert(!region_fits(rs[j2], size, align));
        }
    }
}

/// First-fit allocator: a list of free regions, searched front to back.
pub struct FirstFitAllocator {
    regions: Vec<ListNode>,
}

impl View for FirstFitAllocator {
    type V = Seq<ListNode>;

    closed spec fn view(&self) -> Seq<ListNode> {
        self.regions@
    }
}

impl FirstFitAllocator {
    /// Creates an allocator with no free memory.
    pub fn new() -> (r: Self)
        ensures
            r@ == Seq::<ListNode>::empty(),
    {
        FirstFitAllocator { regions: Vec::new() }
    }

    /// Adds the heap `[heap_start, heap_start + heap_size)` at the front of
    /// the free list.
    pub fn init(&mut self, heap_start: usize, heap_size: usize)
        ensures
            final(self)@ == seq![ListNode { addr: heap_start, size: heap_size }] + old(self)@,
            ends_fit(old(self)@) && heap_start + heap_size <= usize::MAX ==> ends_fit(final(self)@),
    {
        self.regions.insert(0, ListNode::new(heap_start, heap_size));
        assert(self.regions@ =~= seq![ListNode { addr: heap_start, size: heap_size }] + old(
            self,
        ).regions@);
        assert forall|k: int| 0 < k < self.regions@.len() implies self.regions@[k] == old(self).regions@[k - 1] by {}
    }

    /// Block size and alignment used for a request of `size` bytes aligned
    /// to `align` (see `size_align_spec`).
    pub fn size_align(size: usize, align: usize) -> (r: (usize, usize))
        requires
            layout_valid(size as int, align as int),
            align_up_spec(size as int, max_int(align as int, NODE_ALIGN as int)) <= isize::MAX,
        ensures
            r.0 == size_align_spec(size as int, align as int).0,
            r.1 == size_align_spec(size as int, align as int).1,
            is_pow2(r.1 as nat),
    {
        let a = if align < NODE_ALIGN {
            NODE_ALIGN
        } else {
            align
        };
        proof {
            assert(is_pow2(8)) by {
                reveal_with_fuel(is_pow2, 4);
            }
            lemma_pow2_positive(a as nat);
            lemma_round_up_multiple(size as int, a as int);
            if size > 0 {
                lemma_positive_multiple_at_least(align_up_spec(size as int, a as int), a as int);
            }
        }
        let padded = align_up(size, a);
        let size = if padded < NODE_SIZE {
            NODE_SIZE
        } else {
            padded
        };
        (size, a)
    }

    /// Allocates a block for a request of `size` bytes aligned to `align`
    /// and returns its address, or `0` when no free region can hold it.
    pub fn allocate(&mut self, size: usize, align: usize) -> (r: usize)
        requires
            layout_valid(size as int, align as int),
            align_up_spec(size as int, max_int(align as int, NODE_ALIGN as int)) <= isize::MAX,
            ends_fit(old(self)@),
            search_aligns_fit(
                old(self)@,
                size_align_spec(size as int, align as int).0,
                size_align_spec(size as int, align as int).1,
            ),
        ensures
            ({
                let (s, a) = size_align_spec(size as int, align as int);
                (final(self)@, r as int) == first_fit_alloc_spec(old(self)@, s, a)
            }),
            ends_fit(final(self)@),
    {
        let (size, align) = Self::size_align(size, align);
        match self.find_region(size, align) {
            Some((region, alloc_start)) => {
                let alloc_end = alloc_start + size;
                let excess_size = region.end_addr() - alloc_end;
                if excess_size > 0 {
                    self.add_free_region(alloc_end, excess_size);
                }
                alloc_start
            },
            None => 0,
        }
    }

    /// Returns the block at `ptr`, allocated for a request of `size` bytes
    /// aligned to `align`, to the free list.
    pub fn deallocate(&mut self, ptr: usize, size: usize, align: usize)
        requires
            layout_valid(size as int, align as int),
            align_up_spec(size as int, max_int(align as int, NODE_ALIGN as int)) <= isize::MAX,
            ptr + size_align_spec(size as int, align as int).0 <= usize::MAX,
            ends_fit(old(self)@),
        ensures
            final(self)@ == free_list_insert(
                old(self)@,
                ptr as int,
                size_align_spec(size as int, align as int).0,
            ),
            ends_fit(final(self)@),
    {
        let (size, _) = Self::size_align(size, align);
        self.add_free_region(ptr, size);
    }

    /// The free regions, in list order.
    pub fn free_regions(&self) -> (r: &Vec<ListNode>)
        ensures
            r@ == self@,
    {
        &self.regions
    }

    /// Start of a block of `size` bytes aligned to `align` inside `region`,
    /// if the region is big enough.
    fn alloc_from_region(region: &ListNode, size: usize, align: usize) -> (r: Result<usize, ()>)
        requires
            is_pow2(align as nat),
            region.addr + align - 1 <= usize::MAX,
            node_end(*region) <= usize::MAX,
        ensures
            r is Ok <==> region_fits(*region, size as int, align as int),
            r matches Ok(start) ==> start == align_up_spec(region.addr as int, align as int),
    {
        let alloc_start = align_up(region.start_addr(), align);
        let alloc_end = match alloc_start.checked_add(size) {
            Some(end) => end,
            None => return Err(()),
        };
        if alloc_end > region.end_addr() {
            return Err(());
        }
        Ok(alloc_start)
    }

    /// Index of the first region that can hold the request, with the start
    /// of the block inside it; the index is the list length when none can.
    fn first_fit_index(&self, size: usize, align: usize) -> (r: (usize, usize))
        requires
            is_pow2(align as nat),
            ends_fit(self@),
            search_aligns_fit(self@, size as int, align as int),
        ensures
            r.0 == first_fit(self@, size as int, align as int),
            r.0 < self@.len() ==> r.1 == align_up_spec(self@[r.0 as int].addr as int, align as int),
    {
        let ghost rs = self.regions@;
        let mut i: usize = 0;
        while i < self.regions.len()
            invariant
                self.regions@ == rs,
                is_pow2(align as nat),
                ends_fit(rs),
                search_aligns_fit(rs, size as int, align as int),
                0 <= i <= rs.len(),
                forall|k: int| 0 <= k < i ==> !region_fits(#[trigger] rs[k], size as int, align as int),
            decreases rs.len() - i,
        {
            let region = &self.regions[i];
            assert(rs[i as int].addr + align - 1 <= usize::MAX);
            match Self::alloc_from_region(region, size, align) {
                Ok(alloc_start) => {
                    proof {
                        lemma_first_fit_is(rs, size as int, align as int, i as int);
                    }
                    return (i, alloc_start);
                },
                Err(()) => {},
            }
            i = i + 1;
        }
        proof {
            lemma_first_fit_none(rs, size as int, align as int);
        }
        (i, 0)
    }

    /// Removes the first region that can hold the request from the list and
    /// returns it with the start of the block inside it.
    fn find_region(&mut self, size: usize, align: usize) -> (r: Option<(ListNode, usize)>)
        requires
            is_pow2(align as nat),
            ends_fit(old(self)@),
            search_aligns_fit(old(self)@, size as int, align as int),
        ensures
            ({
                let i = first_fit(old(self)@, size as int, align as int);
                if i == old(self)@.len() {
                    r is None && final(self)@ == old(self)@
                } else {
                    &&& r matches Some((region, start))
                    &&& region == old(self)@[i]
                    &&& start == align_up_spec(old(self)@[i].addr as int, align as int)
                    &&& final(self)@ == old(self)@.remove(i)
                }
            }),
            ends_fit(final(self)@),
    {
        let (i, alloc_start) = self.first_fit_index(size, align);
        if i < self.regions.len() {
            let ghost rs = self.regions@;
            let region = self.regions.remove(i);
            assert forall|k: int| 0 <= k < self.regions@.len() implies node_end(#[trigger] self.regions@[k]) <= usize::MAX by {
                if k >= i {
                    assert(self.regions@[k] == rs[k + 1]);
                }
            }
            Some((region, alloc_start))
        } else {
            None
        }
    }

    /// Index of the first region where the walk that frees
    /// `[addr, addr + size)` stops; the list length when it never stops.
    fn stop_index(&self, addr: usize, size: usize) -> (r: usize)
        requires
            addr + size <= usize::MAX,
            ends_fit(self@),
        ensures
            r == first_stop(self@, addr as int, size as int),
    {
        let ghost rs = self.regions@;
        let new_node_end = addr + size;
        let mut i: usize = 0;
        while i < self.regions.len()
            invariant
                self.regions@ == rs,
                ends_fit(rs),
                new_node_end == addr + size,
                0 <= i <= rs.len(),
                forall|k: int| 0 <= k < i ==> !stops_at(#[trigger] rs[k], addr as int, size as int),
            decreases rs.len() - i,
        {
            let next = &self.regions[i];
            assert(node_end(rs[i as int]) <= usize::MAX);
            if next.start_addr() == new_node_end || next.end_addr() == addr || next.start_addr()
                > addr {
                proof {
                    lemma_first_stop_is(rs, addr as int, size as int, i as int);
                }
                return i;
            }
            i = i + 1;
        }
        proof {
            lemma_first_stop_none(rs, addr as int, size as int);
        }
        i
    }

    /// Returns `[addr, addr + size)` to the free list, merging it with the
    /// regions it touches.
    fn add_free_region(&mut self, addr: usize, size: usize)
        requires
            addr + size <= usize::MAX,
            ends_fit(old(self)@),
        ensures
            final(self)@ == free_list_insert(old(self)@, addr as int, size as int),
            ends_fit(final(self)@),
    {
        let ghost rs = self.regions@;
        let new_node_end = addr + size;
        let i = self.stop_index(addr, size);
        if i == self.regions.len() {
            self.regions.push(ListNode::new(addr, size));
            assert(forall|k: int| 0 <= k < rs.len() ==> self.regions@[k] == rs[k]);
            return;
        }
        let next = self.regions[i];
        assert(node_end(rs[i as int]) <= usize::MAX);
        if next.start_addr() == new_node_end {
            // merge with the following region
            self.regions.set(i, ListNode::new(addr, size + next.size));
        } else if next.end_addr() == addr {
            // merge with the preceding region, then maybe with the next one
            let mut merged = ListNode::new(next.addr, next.size + size);
            if i + 1 < self.regions.len() {
                let next_next = self.regions[i + 1];
                assert(node_end(rs[i + 1]) <= usize::MAX);
                if merged.end_addr() == next_next.start_addr() {
                    merged.size = merged.size + next_next.size;
                    self.regions.set(i, merged);
                    self.regions.remove(i + 1);
                    assert(self.regions@ =~= free_list_insert(rs, addr as int, size as int));
                    assert forall|k: int| 0 <= k < self.regions@.len() implies node_end(#[trigger] self.regions@[k]) <= usize::MAX by {
                        if k > i {
                            assert(self.regions@[k] == rs[k + 1]);
                        }
                    }
                    return;
                }
            }
            self.regions.set(i, merged);
        } else {
            self.regions.insert(i, ListNode::new(addr, size));
            assert forall|k: int| 0 <= k < self.regions@.len() implies node_end(#[trigger] self.regions@[k]) <= usize::MAX by {
                if k > i {
                    assert(self.regions@[k] == rs[k - 1]);
                }
            }
        }
        assert(self.regions@ =~= free_list_insert(rs, addr as int, size as int));
    }
}

} // verus!
