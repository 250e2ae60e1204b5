//! The kernel heap: a first-fit allocator over a contiguous virtual region
//! whose backing frames are mapped on demand.
//!
//! In the kernel the free list lives inside the freed bytes themselves: a
//! `ListHeapNode` record sits at the start of each free region, and a
//! zero-sized sentinel anchors the list. Here the list is held as two
//! parallel vectors — the address of each in-heap node and the record that
//! would be stored there — ordered by address; the sentinel stays implicit
//! (its hole size is zero, so it never satisfies a fit and is never merged
//! into). The linkage fields `is_last` and `next_node` are maintained
//! exactly as the in-place representation would hold them.

use vstd::prelude::*;
use crate::frame_allocator::{BitMapFrameAllocator, ceil_div_u64};
use crate::paging::{PageTableSpace, PageInfo, EntryFlags, TableAccess, MapError,
    page_mappable, page_canonical, spec_entry_present, ENTRY_PRESENT, ENTRY_WRITABLE};
use crate::utils::{spec_ceil_div, lemma_ceil_div_bounds, lemma_ceil_div_mono};
use crate::FRAME_SIZE;

verus! {

/// The record stored at the start of a free region: whether it is the last
/// hole, the address of the next hole, and the size of this hole in bytes.
#[derive(Copy, Clone, Debug, Eq, PartialEq, Structural)]
pub struct ListHeapNode {
    pub is_last: bool,
    pub next_node: u64,
    pub hole_size: u64,
}

/// Byte size of a packed `ListHeapNode` (one byte for the flag and eight
/// for each address field): no allocation or hole may be smaller, so every
/// freed region can host its own node.
pub const LIST_HEAP_NODE_SIZE: u64 = 17;

/// Why a heap request failed.
#[derive(Copy, Clone, Debug, Eq, PartialEq, Structural)]
pub enum HeapError {
    /// Growing would reach the heap's maximum size.
    MaximumHeapSizeReached,
    /// Mapping a fresh backing frame failed.
    MapFailed(MapError),
}

/// The heap allocator's state behind the lock: the managed virtual region
/// and the ordered free list.
pub struct LinkedListHeapAllocatorInner {
    /// First virtual frame of the heap region.
    pub virtual_start_frame: u64,
    /// Size limit of the heap in bytes.
    pub max_memory_amount: u64,
    /// High-water mark: bytes of the region ever handed out; never shrinks.
    pub max_currently_used: u64,
    /// Address of each in-heap hole node, in ascending order.
    pub hole_addresses: Vec<u64>,
    /// The hole nodes, parallel to `hole_addresses`.
    pub holes: Vec<ListHeapNode>,
}

/// Every page of the heap region can be mapped: its walk passes the
/// recursive slot at most once. Kept opaque so the free-list proofs do not
/// unfold the page-index arithmetic; the code that grows the heap reveals
/// it.
#[verifier::opaque]
pub open spec fn heap_pages_mappable(virtual_start_frame: u64, max_memory_amount: u64) -> bool {
    forall|i: int|
        0 <= i < spec_ceil_div(max_memory_amount as int, FRAME_SIZE as int)
            ==> #[trigger] page_mappable((virtual_start_frame + i) as u64)
}

impl LinkedListHeapAllocatorInner {
    /// First virtual address of the heap region.
    pub open spec fn heap_base(self) -> int {
        self.virtual_start_frame as int * (FRAME_SIZE as int)
    }

    /// The size a request is served at: never below the node size, so a
    /// freed block can always hold its own node.
    pub open spec fn normalized(layout_size: u64) -> int {
        if layout_size < LIST_HEAP_NODE_SIZE {
            LIST_HEAP_NODE_SIZE as int
        } else {
            layout_size as int
        }
    }

    /// The free list as (address, size) pairs.
    pub open spec fn holes_view(self) -> Seq<(u64, u64)> {
        Seq::new(self.holes@.len(), |i: int| (self.hole_addresses@[i], self.holes@[i].hole_size))
    }

    /// Whether byte `b` of the address space lies in some hole.
    pub open spec fn byte_free(self, b: int) -> bool {
        exists|i: int|
            0 <= i < self.holes@.len()
                && #[trigger] self.hole_addresses@[i] <= b
                    < self.hole_addresses@[i] + self.holes@[i].hole_size
    }

    /// Well-formedness of the heap state.
    ///
    /// The committed region fits the address space with a frame to spare;
    /// holes lie inside the committed region, can each host a node, are
    /// sorted by address, and no two abut (freeing coalesces completely);
    /// the linkage fields match the order; and every page of the region can
    /// be mapped.
    pub open spec fn wf(self) -> bool {
        &&& self.holes@.len() == self.hole_addresses@.len()
        &&& self.heap_base() + self.max_memory_amount + FRAME_SIZE <= u64::MAX
        &&& self.max_currently_used <= self.max_memory_amount
        &&& forall|i: int|
            0 <= i < self.holes@.len()
                ==> self.heap_base() <= #[trigger] self.hole_addresses@[i]
                    && self.hole_addresses@[i] + self.holes@[i].hole_size
                        <= self.heap_base() + self.max_currently_used
        &&& forall|i: int|
            0 <= i < self.holes@.len()
                ==> (#[trigger] self.holes@[i].hole_size) >= LIST_HEAP_NODE_SIZE
        &&& forall|i: int|
            0 <= i < self.holes@.len() - 1
                ==> #[trigger] self.hole_addresses@[i] + self.holes@[i].hole_size
                    < self.hole_addresses@[i + 1]
        &&& forall|i: int|
            0 <= i < self.holes@.len() - 1
                ==> (#[trigger] self.holes@[i]).next_node == self.hole_addresses@[i + 1]
                    && !self.holes@[i].is_last
        &&& self.holes@.len() > 0 ==> self.holes@[self.holes@.len() - 1].is_last
        &&& heap_pages_mappable(self.virtual_start_frame, self.max_memory_amount)
    }

    /// The first hole, scanning from position `i`, that can serve `size`
    /// bytes and still leave room for a node in the remainder.
    pub open spec fn first_fit_from(self, size: int, i: int) -> Option<int>
        decreases self.holes@.len() - i,
    {
        if i < 0 || i >= self.holes@.len() {
            None
        } else if self.holes@[i].hole_size >= size + LIST_HEAP_NODE_SIZE {
            Some(i)
        } else {
            self.first_fit_from(size, i + 1)
        }
    }

    /// A fresh heap over `[virtual_start_frame * FRAME_SIZE, .. + max_memory_amount)`:
    /// nothing committed, no holes.
    pub fn new(virtual_start_frame: u64, max_memory_amount: u64) -> (r: Self)
        requires
            virtual_start_frame * (FRAME_SIZE as u64) + max_memory_amount + (FRAME_SIZE as u64)
                <= u64::MAX,
            heap_pages_mappable(virtual_start_frame, max_memory_amount),
        ensures
            r.wf(),
            r.virtual_start_frame == virtual_start_frame,
            r.max_memory_amount == max_memory_amount,
            r.max_currently_used == 0,
            r.holes_view() == Seq::<(u64, u64)>::empty(),
    {
        let r = LinkedListHeapAllocatorInner {
            virtual_start_frame,
            max_memory_amount,
            max_currently_used: 0,
            hole_addresses: Vec::new(),
            holes: Vec::new(),
        };
        proof {
            assert(r.holes_view() =~= Seq::<(u64, u64)>::empty());
        }
        r
    }

    /// Serve a request of `layout_size` bytes (alignment beyond natural
    /// pointer alignment is not honored).
    ///
    /// The request is served from the first hole large enough to hold it
    /// and a remainder node; the hole's tail stays in the list. With no fit
    /// the heap grows: the high-water mark advances by the normalized size
    /// and each newly touched page of the region gets a fresh frame mapped
    /// present and writable through the recursive access path.
    #[verifier::rlimit(100)]
    #[verifier::loop_isolation(false)]
    pub fn allocate(
        &mut self,
        layout_size: u64,
        p4_table: &mut PageTableSpace,
        frame_allocator: &mut BitMapFrameAllocator,
    ) -> (r: Result<u64, HeapError>)
        requires
            old(self).wf(),
            old(p4_table).wf(),
            old(frame_allocator).wf(),
            old(p4_table).frames_allocated_in(*old(frame_allocator)),
            forall|i: int|
                0 <= i < spec_ceil_div(old(self).max_memory_amount as int, FRAME_SIZE as int)
                    ==> #[trigger] page_canonical(
                        (old(self).virtual_start_frame + i) as u64),
        ensures
            final(self).wf(),
            final(p4_table).wf(),
            final(frame_allocator).wf(),
            final(p4_table).frames_allocated_in(*final(frame_allocator)),
            PageTableSpace::allocator_monotone(*old(frame_allocator), *final(frame_allocator)),
            final(self).virtual_start_frame == old(self).virtual_start_frame,
            final(self).max_memory_amount == old(self).max_memory_amount,
            final(self).max_currently_used >= old(self).max_currently_used,
            (r == Err::<u64, HeapError>(HeapError::MaximumHeapSizeReached)) <==> (
                old(self).first_fit_from(Self::normalized(layout_size), 0) is None
                && Self::normalized(layout_size)
                    >= old(self).max_memory_amount - old(self).max_currently_used),
            r is Err ==> final(self).max_currently_used == old(self).max_currently_used
                && final(self).holes_view() == old(self).holes_view(),
            forall|e: MapError|
                r == Err::<u64, HeapError>(HeapError::MapFailed(e))
                    ==> old(self).first_fit_from(Self::normalized(layout_size), 0) is None
                        && (e is OutOfFrames ==> forall|g: int|
                            0 <= g < old(frame_allocator).frames_amount
                                ==> final(frame_allocator).frame_allocated(g)),
            match r {
                Ok(p) => {
                    &&& old(self).heap_base() <= p
                    &&& p + Self::normalized(layout_size)
                        <= old(self).heap_base() + final(self).max_currently_used
                    &&& final(self).max_currently_used < final(self).max_memory_amount
                        || final(self).max_currently_used == old(self).max_currently_used
                    &&& match old(self).first_fit_from(Self::normalized(layout_size), 0) {
                        Some(i) => {
                            &&& p == old(self).hole_addresses@[i]
                            &&& final(self).max_currently_used == old(self).max_currently_used
                            &&& final(self).holes_view() == old(self).holes_view().update(
                                i,
                                ((old(self).hole_addresses@[i] + Self::normalized(layout_size)) as u64,
                                 (old(self).holes@[i].hole_size - Self::normalized(layout_size)) as u64),
                            )
                            &&& *final(p4_table) == *old(p4_table)
                            &&& *final(frame_allocator) == *old(frame_allocator)
                        },
                        None => {
                            &&& p == old(self).heap_base() + old(self).max_currently_used
                            &&& final(self).max_currently_used
                                == old(self).max_currently_used + Self::normalized(layout_size)
                            &&& final(self).max_currently_used < final(self).max_memory_amount
                            &&& final(self).holes_view() == old(self).holes_view()
                            // the newly committed pages are backed by frames
                            // mapped present in the hierarchy
                            &&& forall|i: int|
                                spec_ceil_div(old(self).max_currently_used as int, FRAME_SIZE as int)
                                    <= i < spec_ceil_div(
                                        final(self).max_currently_used as int, FRAME_SIZE as int)
                                    ==> ((#[trigger] final(p4_table).walk_entry(
                                        (old(self).virtual_start_frame + i) as u64))
                                        matches Some(e) && spec_entry_present(e))
                        },
                    }
                },
                Err(_) => true,
            },
    {
        let ghost size_spec = Self::normalized(layout_size);
        let mut size = layout_size;
        // We don't want to leave micro holes when deallocating.
        if size < LIST_HEAP_NODE_SIZE {
            size = LIST_HEAP_NODE_SIZE;
        }

        // Searching for holes in the list. The sentinel's hole size is
        // zero, so the walk starts at the first real hole.
        let n = self.holes.len();
        let mut i: usize = 0;
        while i < n
            invariant
                i <= n,
                n == self.holes@.len(),
                self.wf(),
                *self == *old(self),
                *p4_table == *old(p4_table),
                *frame_allocator == *old(frame_allocator),
                old(p4_table).wf(),
                old(frame_allocator).wf(),
                old(p4_table).frames_allocated_in(*old(frame_allocator)),
                size == size_spec,
                self.first_fit_from(size_spec, 0) == self.first_fit_from(size_spec, i as int),
            decreases n - i,
        {
            if self.holes[i].hole_size - LIST_HEAP_NODE_SIZE >= size {
                // A suitable hole that will not leave an unusable sliver.
                let hole_address = self.hole_addresses[i];
                let old_node = self.holes[i];
                proof {
                    assert(self.first_fit_from(size_spec, i as int) == Some(i as int));
                }
                // The replacement node sits just past the served bytes and
                // inherits the consumed hole's place in the list.
                self.hole_addresses[i] = hole_address + size;
                self.holes[i] = ListHeapNode {
                    is_last: old_node.is_last,
                    next_node: old_node.next_node,
                    hole_size: old_node.hole_size - size,
                };
                // The predecessor now links to the replacement node.
                if i > 0 {
                    let prev = self.holes[i - 1];
                    self.holes[i - 1] = ListHeapNode {
                        is_last: prev.is_last,
                        next_node: hole_address + size,
                        hole_size: prev.hole_size,
                    };
                }
                proof {
                    assert(self.holes_view() =~= old(self).holes_view().update(
                        i as int,
                        ((old(self).hole_addresses@[i as int] + size_spec) as u64,
                         (old(self).holes@[i as int].hole_size - size_spec) as u64),
                    ));
                }
                return Ok(hole_address);
            }
            i = i + 1;
        }

        // No hole fits: extend the heap.
        let prev_max_currently_used = self.max_currently_used;
        if size >= self.max_memory_amount - prev_max_currently_used {
            // Reaching the maximum kernel heap size is fatal for the caller.
            return Err(HeapError::MaximumHeapSizeReached);
        }
        let target: u64 = prev_max_currently_used + size;
        let prev_frame = ceil_div_u64(prev_max_currently_used, FRAME_SIZE);
        let current_frame = ceil_div_u64(target, FRAME_SIZE);
        proof {
            lemma_ceil_div_mono(target as int, self.max_memory_amount as int, FRAME_SIZE as int);
            lemma_ceil_div_bounds(self.max_memory_amount as int, FRAME_SIZE as int);
            lemma_ceil_div_bounds(target as int, FRAME_SIZE as int);
        }

        // Catching up with allocated and mapped frames.
        let mut j = prev_frame;
        while j < current_frame
            invariant
                prev_frame <= j,
                j <= current_frame || j == prev_frame,
                current_frame == spec_ceil_div(target as int, FRAME_SIZE as int),
                current_frame <= spec_ceil_div(self.max_memory_amount as int, FRAME_SIZE as int),
                *self == *old(self),
                target == prev_max_currently_used + size_spec,
                target < self.max_memory_amount,
                self.wf(),
                p4_table.wf(),
                frame_allocator.wf(),
                p4_table.frames_allocated_in(*frame_allocator),
                PageTableSpace::allocator_monotone(*old(frame_allocator), *frame_allocator),
                forall|i: int|
                    prev_frame <= i < j
                        ==> ((#[trigger] p4_table.walk_entry(
                            (self.virtual_start_frame + i) as u64))
                            matches Some(e) && spec_entry_present(e)),
            decreases current_frame - j,
        {
            // A new frame backs the next page of the heap region.
            let new_physical_frame = match frame_allocator.allocate_frame() {
                Some(f) => f,
                None => {
                    return Err(HeapError::MapFailed(MapError::OutOfFrames));
                },
            };
            proof {
                assert((self.virtual_start_frame + j) * (FRAME_SIZE as int)
                    <= self.heap_base() + self.max_memory_amount) by (nonlinear_arith)
                    requires
                        j < spec_ceil_div(self.max_memory_amount as int, FRAME_SIZE as int),
                        spec_ceil_div(self.max_memory_amount as int, FRAME_SIZE as int)
                            * (FRAME_SIZE as int)
                            < self.max_memory_amount + FRAME_SIZE,
                        self.heap_base() == self.virtual_start_frame as int * (FRAME_SIZE as int),
                        (FRAME_SIZE as int) >= 1;
                reveal(heap_pages_mappable);
                assert(self.virtual_start_frame + j
                    <= (self.virtual_start_frame + j) * (FRAME_SIZE as int)) by (nonlinear_arith)
                    requires
                        (FRAME_SIZE as int) >= 1,
                        self.virtual_start_frame + j >= 0;
                assert(page_mappable((self.virtual_start_frame + j) as u64));
                crate::paging::lemma_frame_number_address(new_physical_frame.number);
            }
            let page = PageInfo::from_number(self.virtual_start_frame + j);
            let ghost table_before = *p4_table;
            match p4_table.p4_map(
                new_physical_frame,
                page,
                EntryFlags(ENTRY_PRESENT | ENTRY_WRITABLE),
                false,
                true,
                TableAccess::Recursive,
                frame_allocator,
            ) {
                Ok(_) => {},
                Err(e) => {
                    return Err(HeapError::MapFailed(e));
                },
            }
            proof {
                reveal(heap_pages_mappable);
                let fa = new_physical_frame.address;
                assert(ENTRY_PRESENT == 1u64 && ENTRY_WRITABLE == 2u64);
                assert(1u64 | 2u64 == 3u64) by (bit_vector);
                assert((((fa | 3u64) | 1u64) & 1u64) == 1u64) by (bit_vector);
                assert(p4_table.walk_entry((self.virtual_start_frame + j) as u64)
                    matches Some(e) && spec_entry_present(e));
                assert forall|i: int| prev_frame <= i < j + 1 implies
                    (#[trigger] p4_table.walk_entry(
                        (self.virtual_start_frame + i) as u64))
                        matches Some(e) && spec_entry_present(e) by {
                    if i < j {
                        assert(i < spec_ceil_div(self.max_memory_amount as int, FRAME_SIZE as int));
                        assert(page_mappable((self.virtual_start_frame + i) as u64)
                            && page_canonical((self.virtual_start_frame + i) as u64));
                        let q = (self.virtual_start_frame + i) as u64;
                        assert(q != page.number);
                        assert(table_before.walk_entry(q) is Some);
                        assert(p4_table.walk_entry(q) == table_before.walk_entry(q));
                    }
                }
            }
            j = j + 1;
        }

        // Commit the new high-water mark; the served block starts at the
        // old one.
        self.max_currently_used = target;
        let ptr = self.virtual_start_frame * FRAME_SIZE + prev_max_currently_used;
        proof {
            assert(self.holes_view() =~= old(self).holes_view());
        }
        Ok(ptr)
    }
}

impl LinkedListHeapAllocatorInner {
    /// Return the block at `ptr` (served for `layout_size` bytes) to the
    /// free list, keeping the list sorted and coalescing with an abutting
    /// left or right neighbour so that no two holes ever touch. Frames are
    /// never unmapped and the high-water mark never shrinks.
    #[verifier::rlimit(100)]
    #[verifier::loop_isolation(false)]
    pub fn dealloc(&mut self, ptr: u64, layout_size: u64)
        requires
            old(self).wf(),
            ptr >= old(self).heap_base(),
            ptr + Self::normalized(layout_size)
                <= old(self).heap_base() + old(self).max_currently_used,
            forall|i: int|
                0 <= i < old(self).holes@.len()
                    ==> ptr + Self::normalized(layout_size) <= #[trigger] old(self).hole_addresses@[i]
                        || old(self).hole_addresses@[i] + old(self).holes@[i].hole_size <= ptr,
        ensures
            final(self).wf(),
            final(self).virtual_start_frame == old(self).virtual_start_frame,
            final(self).max_memory_amount == old(self).max_memory_amount,
            final(self).max_currently_used == old(self).max_currently_used,
            forall|b: int|
                #[trigger] final(self).byte_free(b) <==> (old(self).byte_free(b)
                    || ptr <= b < ptr + Self::normalized(layout_size)),
    {
        let ghost size_spec = Self::normalized(layout_size);
        let mut size = layout_size;
        // Allocation never served less than a node's worth.
        if size < LIST_HEAP_NODE_SIZE {
            size = LIST_HEAP_NODE_SIZE;
        }

        // Find the sorted position: the first hole above `ptr`.
        let n = self.holes.len();
        let mut pos: usize = 0;
        while pos < n && self.hole_addresses[pos] < ptr
            invariant
                pos <= n,
                forall|i: int| 0 <= i < pos ==> #[trigger] self.hole_addresses@[i] < ptr,
            decreases n - pos,
        {
            pos = pos + 1;
        }
        proof {
            assert forall|i: int| 0 <= i < self.holes@.len() implies
                (i < pos ==> #[trigger] self.hole_addresses@[i] + self.holes@[i].hole_size <= ptr)
                && (i >= pos ==> self.hole_addresses@[i] >= ptr + size_spec) by {
                if i >= pos {
                    assert(self.hole_addresses@[pos as int] <= self.hole_addresses@[i]) by {
                        lemma_holes_sorted(*self, pos as int, i);
                    }
                    assert(self.hole_addresses@[i] != ptr);
                    if self.hole_addresses@[i] < ptr + size_spec {
                        assert(self.hole_addresses@[i] + self.holes@[i].hole_size <= ptr);
                        assert(false);
                    }
                }
            }
        }

        let merge_left = pos > 0
            && self.hole_addresses[pos - 1] + self.holes[pos - 1].hole_size == ptr;
        let merge_right = pos < n && ptr + size == self.hole_addresses[pos];

        if merge_left && merge_right {
            // The freed block bridges its two neighbours: fold all three
            // into the left one and drop the right node.
            let right = self.holes[pos];
            let left = self.holes[pos - 1];
            self.holes[pos - 1] = ListHeapNode {
                is_last: right.is_last,
                next_node: right.next_node,
                hole_size: left.hole_size + size + right.hole_size,
            };
            self.hole_addresses.remove(pos);
            self.holes.remove(pos);
            proof {
                lemma_dealloc_merge_both(*old(self), *self, ptr as int, size_spec, pos as int);
            }
        } else if merge_left {
            // The freed block extends its left neighbour.
            let left = self.holes[pos - 1];
            self.holes[pos - 1] = ListHeapNode {
                is_last: left.is_last,
                next_node: left.next_node,
                hole_size: left.hole_size + size,
            };
            proof {
                lemma_dealloc_merge_left(*old(self), *self, ptr as int, size_spec, pos as int);
            }
        } else if merge_right {
            // The freed block extends its right neighbour downwards; the
            // node moves to `ptr`, so the predecessor's link follows.
            let right = self.holes[pos];
            self.hole_addresses[pos] = ptr;
            self.holes[pos] = ListHeapNode {
                is_last: right.is_last,
                next_node: right.next_node,
                hole_size: size + right.hole_size,
            };
            if pos > 0 {
                let prev = self.holes[pos - 1];
                self.holes[pos - 1] = ListHeapNode {
                    is_last: prev.is_last,
                    next_node: ptr,
                    hole_size: prev.hole_size,
                };
            }
            proof {
                lemma_dealloc_merge_right(*old(self), *self, ptr as int, size_spec, pos as int);
            }
        } else {
            // No neighbour abuts: a new hole node is written at `ptr`.
            let next_node = if pos < n {
                self.hole_addresses[pos]
            } else {
                0
            };
            let is_last = pos == n;
            self.hole_addresses.insert(pos, ptr);
            self.holes.insert(pos, ListHeapNode { is_last, next_node, hole_size: size });
            if pos > 0 {
                let prev = self.holes[pos - 1];
                self.holes[pos - 1] = ListHeapNode {
                    is_last: false,
                    next_node: ptr,
                    hole_size: prev.hole_size,
                };
            }
            proof {
                lemma_dealloc_insert(*old(self), *self, ptr as int, size_spec, pos as int);
            }
        }
    }
}

/// The hole view reads the two vectors pointwise.
proof fn lemma_view_index(s: LinkedListHeapAllocatorInner, i: int)
    requires
        0 <= i < s.holes@.len(),
    ensures
        s.holes_view()[i].0 == s.hole_addresses@[i],
        s.holes_view()[i].1 == s.holes@[i].hole_size,
        s.holes_view().len() == s.holes@.len(),
{
}

/// Equal hole views give equal free bytes.
proof fn lemma_view_eq_byte_free(a: LinkedListHeapAllocatorInner, b: LinkedListHeapAllocatorInner)
    requires
        a.holes@.len() == a.hole_addresses@.len(),
        b.holes@.len() == b.hole_addresses@.len(),
        a.holes_view() == b.holes_view(),
    ensures
        forall|x: int| #[trigger] a.byte_free(x) == b.byte_free(x),
{
    assert(a.holes_view().len() == a.holes@.len());
    assert(b.holes_view().len() == b.holes@.len());
    assert(a.holes@.len() == b.holes@.len());
    assert forall|x: int| #[trigger] a.byte_free(x) == b.byte_free(x) by {
        if a.byte_free(x) {
            let i = choose|i: int|
                0 <= i < a.holes@.len() && #[trigger] a.hole_addresses@[i] <= x
                    < a.hole_addresses@[i] + a.holes@[i].hole_size;
            lemma_view_index(a, i);
            lemma_view_index(b, i);
            assert(b.hole_addresses@[i] <= x < b.hole_addresses@[i] + b.holes@[i].hole_size);
        }
        if b.byte_free(x) {
            let i = choose|i: int|
                0 <= i < b.holes@.len() && #[trigger] b.hole_addresses@[i] <= x
                    < b.hole_addresses@[i] + b.holes@[i].hole_size;
            lemma_view_index(a, i);
            lemma_view_index(b, i);
            assert(a.hole_addresses@[i] <= x < a.hole_addresses@[i] + a.holes@[i].hole_size);
        }
    }
}

/// The round trip law: serving a request from a hole and then freeing the
/// same block restores the free bytes exactly; serving it by growing the
/// heap and freeing it leaves the grown span free. Either way the free
/// space is the old one plus whatever the high-water mark gained — the
/// hole list is equivalent to the old one except that the heap does not
/// shrink.
///
/// `s0` is the state before `allocate(layout_size)` returned `p`, `s1` the
/// state after it, and `s2` the state after `dealloc(p, layout_size)`; the
/// hypotheses are what those two calls' contracts guarantee, and the first
/// group of conclusions shows that `dealloc`'s preconditions do hold at
/// `s1`.
pub proof fn lemma_alloc_dealloc_round_trip(
    s0: LinkedListHeapAllocatorInner,
    s1: LinkedListHeapAllocatorInner,
    s2: LinkedListHeapAllocatorInner,
    layout_size: u64,
    p: u64,
)
    requires
        s0.wf(),
        s1.wf(),
        s1.virtual_start_frame == s0.virtual_start_frame,
        s1.max_memory_amount == s0.max_memory_amount,
        match s0.first_fit_from(LinkedListHeapAllocatorInner::normalized(layout_size), 0) {
            Some(i) => {
                &&& p == s0.hole_addresses@[i]
                &&& s1.max_currently_used == s0.max_currently_used
                &&& s1.holes_view() == s0.holes_view().update(
                    i,
                    ((s0.hole_addresses@[i] + LinkedListHeapAllocatorInner::normalized(layout_size)) as u64,
                     (s0.holes@[i].hole_size - LinkedListHeapAllocatorInner::normalized(layout_size)) as u64),
                )
            },
            None => {
                &&& p == s0.heap_base() + s0.max_currently_used
                &&& s1.max_currently_used == s0.max_currently_used
                    + LinkedListHeapAllocatorInner::normalized(layout_size)
                &&& s1.max_currently_used <= s1.max_memory_amount
                &&& s1.holes_view() == s0.holes_view()
            },
        },
        s2.max_currently_used == s1.max_currently_used,
        forall|b: int|
            #[trigger] s2.byte_free(b) <==> (s1.byte_free(b)
                || p <= b < p + LinkedListHeapAllocatorInner::normalized(layout_size)),
    ensures
        // dealloc's preconditions hold after the allocation:
        p >= s1.heap_base(),
        p + LinkedListHeapAllocatorInner::normalized(layout_size)
            <= s1.heap_base() + s1.max_currently_used,
        forall|i: int|
            0 <= i < s1.holes@.len()
                ==> p + LinkedListHeapAllocatorInner::normalized(layout_size)
                        <= #[trigger] s1.hole_addresses@[i]
                    || s1.hole_addresses@[i] + s1.holes@[i].hole_size <= p,
        // and freeing the block restores the free bytes, up to heap growth:
        forall|b: int|
            #[trigger] s2.byte_free(b) <==> (s0.byte_free(b)
                || s0.heap_base() + s0.max_currently_used <= b
                    < s0.heap_base() + s1.max_currently_used),
{
    let sz = LinkedListHeapAllocatorInner::normalized(layout_size);
    match s0.first_fit_from(sz, 0) {
        Some(i) => {
            lemma_first_fit_bounds(s0, sz, 0, i);
            assert(s0.holes@[i].hole_size >= sz + LIST_HEAP_NODE_SIZE);
            assert(s1.holes@.len() == s0.holes@.len()) by {
                assert(s1.holes_view().len() == s0.holes_view().len());
            }
            // The views agree away from the shrunk hole.
            assert forall|j: int| 0 <= j < s1.holes@.len() && j != i implies
                s1.hole_addresses@[j] == s0.hole_addresses@[j]
                    && s1.holes@[j].hole_size == s0.holes@[j].hole_size by {
                lemma_view_index(s0, j);
                lemma_view_index(s1, j);
                assert(s1.holes_view()[j] == s0.holes_view()[j]);
            }
            lemma_view_index(s0, i);
            lemma_view_index(s1, i);
            assert(s1.hole_addresses@[i] == s0.hole_addresses@[i] + sz);
            assert(s1.holes@[i].hole_size == s0.holes@[i].hole_size - sz);

            // dealloc's preconditions.
            assert(p >= s1.heap_base() && p + sz <= s1.heap_base() + s1.max_currently_used);
            assert forall|j: int| 0 <= j < s1.holes@.len() implies
                p + sz <= #[trigger] s1.hole_addresses@[j]
                    || s1.hole_addresses@[j] + s1.holes@[j].hole_size <= p by {
                if j < i {
                    lemma_holes_sorted(s0, j + 1, i);
                    assert(s0.hole_addresses@[j] + s0.holes@[j].hole_size
                        < s0.hole_addresses@[j + 1]);
                } else if j > i {
                    lemma_holes_sorted(s0, i + 1, j);
                    assert(s0.hole_addresses@[i] + s0.holes@[i].hole_size
                        < s0.hole_addresses@[i + 1]);
                }
            }

            // The free bytes come back exactly.
            assert forall|b: int| #[trigger] s2.byte_free(b) <==> (s0.byte_free(b)
                || s0.heap_base() + s0.max_currently_used <= b
                    < s0.heap_base() + s1.max_currently_used) by {
                if s2.byte_free(b) {
                    if s1.byte_free(b) {
                        let j = choose|j: int|
                            0 <= j < s1.holes@.len() && #[trigger] s1.hole_addresses@[j] <= b
                                < s1.hole_addresses@[j] + s1.holes@[j].hole_size;
                        assert(s0.hole_addresses@[j] <= b
                            < s0.hole_addresses@[j] + s0.holes@[j].hole_size);
                        assert(s0.byte_free(b));
                    } else {
                        assert(s0.hole_addresses@[i] <= b
                            < s0.hole_addresses@[i] + s0.holes@[i].hole_size);
                        assert(s0.byte_free(b));
                    }
                }
                if s0.byte_free(b) {
                    let j = choose|j: int|
                        0 <= j < s0.holes@.len() && #[trigger] s0.hole_addresses@[j] <= b
                            < s0.hole_addresses@[j] + s0.holes@[j].hole_size;
                    if j == i {
                        if b < p + sz {
                            assert(s2.byte_free(b));
                        } else {
                            assert(s1.hole_addresses@[i] <= b
                                < s1.hole_addresses@[i] + s1.holes@[i].hole_size);
                            assert(s1.byte_free(b));
                            assert(s2.byte_free(b));
                        }
                    } else {
                        assert(s1.hole_addresses@[j] <= b
                            < s1.hole_addresses@[j] + s1.holes@[j].hole_size);
                        assert(s1.byte_free(b));
                        assert(s2.byte_free(b));
                    }
                }
            }
        },
        None => {
            lemma_view_eq_byte_free(s0, s1);
            // dealloc's preconditions: the grown span holds no hole.
            assert(s1.holes@.len() == s0.holes@.len()) by {
                assert(s1.holes_view().len() == s0.holes_view().len());
            }
            assert forall|j: int| 0 <= j < s1.holes@.len() implies
                p + sz <= #[trigger] s1.hole_addresses@[j]
                    || s1.hole_addresses@[j] + s1.holes@[j].hole_size <= p by {
                lemma_view_index(s0, j);
                lemma_view_index(s1, j);
                assert(s1.hole_addresses@[j] + s1.holes@[j].hole_size
                    == s0.hole_addresses@[j] + s0.holes@[j].hole_size);
                assert(s0.hole_addresses@[j] + s0.holes@[j].hole_size
                    <= s0.heap_base() + s0.max_currently_used);
            }
            assert forall|b: int| #[trigger] s2.byte_free(b) <==> (s0.byte_free(b)
                || s0.heap_base() + s0.max_currently_used <= b
                    < s0.heap_base() + s1.max_currently_used) by {}
        },
    }
}

/// A hole returned by the first-fit scan really fits.
proof fn lemma_first_fit_bounds(
    s: LinkedListHeapAllocatorInner,
    size: int,
    start: int,
    i: int,
)
    requires
        s.first_fit_from(size, start) == Some(i),
        0 <= start,
    ensures
        start <= i < s.holes@.len(),
        s.holes@[i].hole_size >= size + LIST_HEAP_NODE_SIZE,
    decreases s.holes@.len() - start,
{
    if start < s.holes@.len() && !(s.holes@[start].hole_size >= size + LIST_HEAP_NODE_SIZE) {
        lemma_first_fit_bounds(s, size, start + 1, i);
    }
}

/// Sortedness of the hole list, lifted to any pair of positions.
proof fn lemma_holes_sorted(s: LinkedListHeapAllocatorInner, i: int, j: int)
    requires
        s.wf(),
        0 <= i <= j < s.holes@.len(),
    ensures
        s.hole_addresses@[i] <= s.hole_addresses@[j],
    decreases j - i,
{
    if i < j {
        lemma_holes_sorted(s, i + 1, j);
    }
}

/// Freeing a block that bridges two holes folds all three into one.
#[verifier::rlimit(100)]
proof fn lemma_dealloc_merge_both(
    o: LinkedListHeapAllocatorInner,
    n: LinkedListHeapAllocatorInner,
    ptr: int,
    size: int,
    pos: int,
)
    requires
        o.wf(),
        size >= LIST_HEAP_NODE_SIZE,
        ptr >= o.heap_base(),
        ptr + size <= o.heap_base() + o.max_currently_used,
        forall|i: int|
            0 <= i < o.holes@.len()
                ==> (i < pos ==> #[trigger] o.hole_addresses@[i] + o.holes@[i].hole_size <= ptr)
                    && (i >= pos ==> o.hole_addresses@[i] >= ptr + size),
        0 <= pos <= o.holes@.len(),
        n.virtual_start_frame == o.virtual_start_frame,
        n.max_memory_amount == o.max_memory_amount,
        n.max_currently_used == o.max_currently_used,
        n.holes@.len() == n.hole_addresses@.len(),
        pos > 0,
        o.hole_addresses@[pos - 1] + o.holes@[pos - 1].hole_size == ptr,
        pos < o.holes@.len(),
        ptr + size == o.hole_addresses@[pos],
        n.hole_addresses@ == o.hole_addresses@.remove(pos),
        n.holes@ == o.holes@.update(pos - 1, ListHeapNode {
            is_last: o.holes@[pos].is_last,
            next_node: o.holes@[pos].next_node,
            hole_size: (o.holes@[pos - 1].hole_size + size + o.holes@[pos].hole_size) as u64,
        }).remove(pos),
    ensures
        n.wf(),
        forall|b: int|
            #[trigger] n.byte_free(b) <==> (o.byte_free(b) || ptr <= b < ptr + size),
{
    assert forall|b: int|
        #[trigger] n.byte_free(b) implies (o.byte_free(b) || ptr <= b < ptr + size) by {
        let i = choose|i: int|
            0 <= i < n.holes@.len() && #[trigger] n.hole_addresses@[i] <= b
                < n.hole_addresses@[i] + n.holes@[i].hole_size;
        if i < pos - 1 {
            assert(o.hole_addresses@[i] <= b < o.hole_addresses@[i] + o.holes@[i].hole_size);
        } else if i == pos - 1 {
            if b < o.hole_addresses@[pos - 1] + o.holes@[pos - 1].hole_size {
                assert(o.byte_free(b));
            } else if b < ptr + size {
            } else {
                assert(o.hole_addresses@[pos] <= b
                    < o.hole_addresses@[pos] + o.holes@[pos].hole_size);
            }
        } else {
            assert(n.hole_addresses@[i] == o.hole_addresses@[i + 1]);
            assert(o.hole_addresses@[i + 1] <= b
                < o.hole_addresses@[i + 1] + o.holes@[i + 1].hole_size);
        }
    }
    assert forall|b: int|
        o.byte_free(b) || ptr <= b < ptr + size implies #[trigger] n.byte_free(b) by {
        if o.byte_free(b) {
            let i = choose|i: int|
                0 <= i < o.holes@.len() && #[trigger] o.hole_addresses@[i] <= b
                    < o.hole_addresses@[i] + o.holes@[i].hole_size;
            if i < pos - 1 {
                assert(n.hole_addresses@[i] <= b < n.hole_addresses@[i] + n.holes@[i].hole_size);
            } else if i == pos - 1 || i == pos {
                assert(n.hole_addresses@[pos - 1] <= b
                    < n.hole_addresses@[pos - 1] + n.holes@[pos - 1].hole_size);
            } else {
                assert(n.hole_addresses@[i - 1] <= b
                    < n.hole_addresses@[i - 1] + n.holes@[i - 1].hole_size);
            }
        } else {
            assert(n.hole_addresses@[pos - 1] <= b
                < n.hole_addresses@[pos - 1] + n.holes@[pos - 1].hole_size);
        }
    }
}

/// Freeing a block that abuts only its left neighbour extends it.
#[verifier::rlimit(100)]
proof fn lemma_dealloc_merge_left(
    o: LinkedListHeapAllocatorInner,
    n: LinkedListHeapAllocatorInner,
    ptr: int,
    size: int,
    pos: int,
)
    requires
        o.wf(),
        size >= LIST_HEAP_NODE_SIZE,
        ptr >= o.heap_base(),
        ptr + size <= o.heap_base() + o.max_currently_used,
        forall|i: int|
            0 <= i < o.holes@.len()
                ==> (i < pos ==> #[trigger] o.hole_addresses@[i] + o.holes@[i].hole_size <= ptr)
                    && (i >= pos ==> o.hole_addresses@[i] >= ptr + size),
        0 <= pos <= o.holes@.len(),
        n.virtual_start_frame == o.virtual_start_frame,
        n.max_memory_amount == o.max_memory_amount,
        n.max_currently_used == o.max_currently_used,
        n.holes@.len() == n.hole_addresses@.len(),
        pos > 0,
        o.hole_addresses@[pos - 1] + o.holes@[pos - 1].hole_size == ptr,
        !(pos < o.holes@.len() && ptr + size == o.hole_addresses@[pos]),
        n.hole_addresses@ == o.hole_addresses@,
        n.holes@ == o.holes@.update(pos - 1, ListHeapNode {
            is_last: o.holes@[pos - 1].is_last,
            next_node: o.holes@[pos - 1].next_node,
            hole_size: (o.holes@[pos - 1].hole_size + size) as u64,
        }),
    ensures
        n.wf(),
        forall|b: int|
            #[trigger] n.byte_free(b) <==> (o.byte_free(b) || ptr <= b < ptr + size),
{
    assert forall|b: int|
        #[trigger] n.byte_free(b) implies (o.byte_free(b) || ptr <= b < ptr + size) by {
        let i = choose|i: int|
            0 <= i < n.holes@.len() && #[trigger] n.hole_addresses@[i] <= b
                < n.hole_addresses@[i] + n.holes@[i].hole_size;
        if i != pos - 1 {
            assert(o.hole_addresses@[i] <= b < o.hole_addresses@[i] + o.holes@[i].hole_size);
        } else if b < o.hole_addresses@[pos - 1] + o.holes@[pos - 1].hole_size {
            assert(o.byte_free(b));
        }
    }
    assert forall|b: int|
        o.byte_free(b) || ptr <= b < ptr + size implies #[trigger] n.byte_free(b) by {
        if o.byte_free(b) {
            let i = choose|i: int|
                0 <= i < o.holes@.len() && #[trigger] o.hole_addresses@[i] <= b
                    < o.hole_addresses@[i] + o.holes@[i].hole_size;
            assert(n.hole_addresses@[i] <= b < n.hole_addresses@[i] + n.holes@[i].hole_size);
        } else {
            assert(n.hole_addresses@[pos - 1] <= b
                < n.hole_addresses@[pos - 1] + n.holes@[pos - 1].hole_size);
        }
    }
}

/// Freeing a block that abuts only its right neighbour moves that hole down.
#[verifier::rlimit(100)]
proof fn lemma_dealloc_merge_right(
    o: LinkedListHeapAllocatorInner,
    n: LinkedListHeapAllocatorInner,
    ptr: int,
    size: int,
    pos: int,
)
    requires
        o.wf(),
        size >= LIST_HEAP_NODE_SIZE,
        ptr >= o.heap_base(),
        ptr + size <= o.heap_base() + o.max_currently_used,
        forall|i: int|
            0 <= i < o.holes@.len()
                ==> (i < pos ==> #[trigger] o.hole_addresses@[i] + o.holes@[i].hole_size <= ptr)
                    && (i >= pos ==> o.hole_addresses@[i] >= ptr + size),
        0 <= pos <= o.holes@.len(),
        n.virtual_start_frame == o.virtual_start_frame,
        n.max_memory_amount == o.max_memory_amount,
        n.max_currently_used == o.max_currently_used,
        n.holes@.len() == n.hole_addresses@.len(),
        !(pos > 0 && o.hole_addresses@[pos - 1] + o.holes@[pos - 1].hole_size == ptr),
        pos < o.holes@.len(),
        ptr + size == o.hole_addresses@[pos],
        n.hole_addresses@ == o.hole_addresses@.update(pos, ptr as u64),
        n.holes@ == if pos > 0 {
            o.holes@.update(pos, ListHeapNode {
                is_last: o.holes@[pos].is_last,
                next_node: o.holes@[pos].next_node,
                hole_size: (size + o.holes@[pos].hole_size) as u64,
            }).update(pos - 1, ListHeapNode {
                is_last: o.holes@[pos - 1].is_last,
                next_node: ptr as u64,
                hole_size: o.holes@[pos - 1].hole_size,
            })
        } else {
            o.holes@.update(pos, ListHeapNode {
                is_last: o.holes@[pos].is_last,
                next_node: o.holes@[pos].next_node,
                hole_size: (size + o.holes@[pos].hole_size) as u64,
            })
        },
    ensures
        n.wf(),
        forall|b: int|
            #[trigger] n.byte_free(b) <==> (o.byte_free(b) || ptr <= b < ptr + size),
{
    assert forall|b: int|
        #[trigger] n.byte_free(b) implies (o.byte_free(b) || ptr <= b < ptr + size) by {
        let i = choose|i: int|
            0 <= i < n.holes@.len() && #[trigger] n.hole_addresses@[i] <= b
                < n.hole_addresses@[i] + n.holes@[i].hole_size;
        if i != pos {
            assert(o.hole_addresses@[i] <= b < o.hole_addresses@[i] + o.holes@[i].hole_size);
        } else if b >= ptr + size {
            assert(o.hole_addresses@[pos] <= b
                < o.hole_addresses@[pos] + o.holes@[pos].hole_size);
        }
    }
    assert forall|b: int|
        o.byte_free(b) || ptr <= b < ptr + size implies #[trigger] n.byte_free(b) by {
        if o.byte_free(b) {
            let i = choose|i: int|
                0 <= i < o.holes@.len() && #[trigger] o.hole_addresses@[i] <= b
                    < o.hole_addresses@[i] + o.holes@[i].hole_size;
            if i == pos {
                assert(n.hole_addresses@[pos] <= b
                    < n.hole_addresses@[pos] + n.holes@[pos].hole_size);
            } else {
                assert(n.hole_addresses@[i] <= b < n.hole_addresses@[i] + n.holes@[i].hole_size);
            }
        } else {
            assert(n.hole_addresses@[pos] <= b
                < n.hole_addresses@[pos] + n.holes@[pos].hole_size);
        }
    }
}

/// Freeing a block that abuts nothing inserts a new hole.
proof fn lemma_dealloc_insert(
    o: LinkedListHeapAllocatorInner,
    n: LinkedListHeapAllocatorInner,
    ptr: int,
    size: int,
    pos: int,
)
    requires
        o.wf(),
        size >= LIST_HEAP_NODE_SIZE,
        ptr >= o.heap_base(),
        ptr + size <= o.heap_base() + o.max_currently_used,
        forall|i: int|
            0 <= i < o.holes@.len()
                ==> (i < pos ==> #[trigger] o.hole_addresses@[i] + o.holes@[i].hole_size <= ptr)
                    && (i >= pos ==> o.hole_addresses@[i] >= ptr + size),
        0 <= pos <= o.holes@.len(),
        n.virtual_start_frame == o.virtual_start_frame,
        n.max_memory_amount == o.max_memory_amount,
        n.max_currently_used == o.max_currently_used,
        n.holes@.len() == n.hole_addresses@.len(),
        !(pos > 0 && o.hole_addresses@[pos - 1] + o.holes@[pos - 1].hole_size == ptr),
        !(pos < o.holes@.len() && ptr + size == o.hole_addresses@[pos]),
        n.hole_addresses@ == o.hole_addresses@.insert(pos, ptr as u64),
        n.holes@ == if pos > 0 {
            o.holes@.insert(pos, ListHeapNode {
                is_last: pos == o.holes@.len(),
                next_node: if pos < o.holes@.len() { o.hole_addresses@[pos] } else { 0u64 },
                hole_size: size as u64,
            }).update(pos - 1, ListHeapNode {
                is_last: false,
                next_node: ptr as u64,
                hole_size: o.holes@[pos - 1].hole_size,
            })
        } else {
            o.holes@.insert(pos, ListHeapNode {
                is_last: pos == o.holes@.len(),
                next_node: if pos < o.holes@.len() { o.hole_addresses@[pos] } else { 0u64 },
                hole_size: size as u64,
            })
        },
    ensures
        n.wf(),
        forall|b: int|
            #[trigger] n.byte_free(b) <==> (o.byte_free(b) || ptr <= b < ptr + size),
{
    lemma_dealloc_insert_wf(o, n, ptr, size, pos);
    lemma_dealloc_insert_bytes(o, n, ptr, size, pos);
}

/// The well-formedness half of `lemma_dealloc_insert`.
#[verifier::rlimit(100)]
#[verifier::spinoff_prover]
proof fn lemma_dealloc_insert_wf(
    o: LinkedListHeapAllocatorInner,
    n: LinkedListHeapAllocatorInner,
    ptr: int,
    size: int,
    pos: int,
)
    requires
        o.wf(),
        size >= LIST_HEAP_NODE_SIZE,
        ptr >= o.heap_base(),
        ptr + size <= o.heap_base() + o.max_currently_used,
        forall|i: int|
            0 <= i < o.holes@.len()
                ==> (i < pos ==> #[trigger] o.hole_addresses@[i] + o.holes@[i].hole_size <= ptr)
                    && (i >= pos ==> o.hole_addresses@[i] >= ptr + size),
        0 <= pos <= o.holes@.len(),
        n.virtual_start_frame == o.virtual_start_frame,
        n.max_memory_amount == o.max_memory_amount,
        n.max_currently_used == o.max_currently_used,
        n.holes@.len() == n.hole_addresses@.len(),
        !(pos > 0 && o.hole_addresses@[pos - 1] + o.holes@[pos - 1].hole_size == ptr),
        !(pos < o.holes@.len() && ptr + size == o.hole_addresses@[pos]),
        n.hole_addresses@ == o.hole_addresses@.insert(pos, ptr as u64),
        n.holes@ == if pos > 0 {
            o.holes@.insert(pos, ListHeapNode {
                is_last: pos == o.holes@.len(),
                next_node: if pos < o.holes@.len() { o.hole_addresses@[pos] } else { 0u64 },
                hole_size: size as u64,
            }).update(pos - 1, ListHeapNode {
                is_last: false,
                next_node: ptr as u64,
                hole_size: o.holes@[pos - 1].hole_size,
            })
        } else {
            o.holes@.insert(pos, ListHeapNode {
                is_last: pos == o.holes@.len(),
                next_node: if pos < o.holes@.len() { o.hole_addresses@[pos] } else { 0u64 },
                hole_size: size as u64,
            })
        },
    ensures
        n.wf(),
{
    // The list shape around the inserted node.
    assert(n.holes@.len() == o.holes@.len() + 1);
    assert(n.hole_addresses@[pos] == ptr && n.holes@[pos].hole_size == size);
    assert forall|i: int| 0 <= i < pos implies
        #[trigger] n.hole_addresses@[i] == o.hole_addresses@[i]
            && n.holes@[i].hole_size == o.holes@[i].hole_size by {}
    assert forall|i: int| pos <= i < o.holes@.len() implies
        #[trigger] n.hole_addresses@[i + 1] == o.hole_addresses@[i]
            && n.holes@[i + 1].hole_size == o.holes@[i].hole_size by {}
    assert forall|i: int| 0 <= i < n.holes@.len() - 1 implies
        #[trigger] n.hole_addresses@[i] + n.holes@[i].hole_size < n.hole_addresses@[i + 1] by {
        if i == pos - 1 {
            assert(o.hole_addresses@[i] + o.holes@[i].hole_size <= ptr);
        } else if i == pos {
            assert(o.hole_addresses@[pos] >= ptr + size);
        }
    }
    assert forall|i: int| 0 <= i < n.holes@.len() implies
        n.heap_base() <= #[trigger] n.hole_addresses@[i]
            && n.hole_addresses@[i] + n.holes@[i].hole_size
                <= n.heap_base() + n.max_currently_used by {}
    assert forall|i: int| 0 <= i < n.holes@.len() implies
        (#[trigger] n.holes@[i].hole_size) >= LIST_HEAP_NODE_SIZE by {}
    assert forall|i: int| 0 <= i < n.holes@.len() - 1 implies
        (#[trigger] n.holes@[i]).next_node == n.hole_addresses@[i + 1]
            && !n.holes@[i].is_last by {
        if i < pos - 1 {
            assert(o.holes@[i].next_node == o.hole_addresses@[i + 1]);
        } else if i > pos {
            assert(o.holes@[i - 1].next_node == o.hole_addresses@[i]);
        }
    }
    assert(n.holes@.len() > 0 ==> n.holes@[n.holes@.len() - 1].is_last) by {
        if pos < o.holes@.len() {
            assert(o.holes@[o.holes@.len() - 1].is_last);
        }
    }
}

/// The free-byte accounting for `lemma_dealloc_insert`.
proof fn lemma_dealloc_insert_bytes(
    o: LinkedListHeapAllocatorInner,
    n: LinkedListHeapAllocatorInner,
    ptr: int,
    size: int,
    pos: int,
)
    requires
        o.wf(),
        size >= LIST_HEAP_NODE_SIZE,
        ptr >= o.heap_base(),
        ptr + size <= o.heap_base() + o.max_currently_used,
        forall|i: int|
            0 <= i < o.holes@.len()
                ==> (i < pos ==> #[trigger] o.hole_addresses@[i] + o.holes@[i].hole_size <= ptr)
                    && (i >= pos ==> o.hole_addresses@[i] >= ptr + size),
        0 <= pos <= o.holes@.len(),
        n.virtual_start_frame == o.virtual_start_frame,
        n.max_memory_amount == o.max_memory_amount,
        n.max_currently_used == o.max_currently_used,
        n.holes@.len() == n.hole_addresses@.len(),
        !(pos > 0 && o.hole_addresses@[pos - 1] + o.holes@[pos - 1].hole_size == ptr),
        !(pos < o.holes@.len() && ptr + size == o.hole_addresses@[pos]),
        n.hole_addresses@ == o.hole_addresses@.insert(pos, ptr as u64),
        n.holes@ == if pos > 0 {
            o.holes@.insert(pos, ListHeapNode {
                is_last: pos == o.holes@.len(),
                next_node: if pos < o.holes@.len() { o.hole_addresses@[pos] } else { 0u64 },
                hole_size: size as u64,
            }).update(pos - 1, ListHeapNode {
                is_last: false,
                next_node: ptr as u64,
                hole_size: o.holes@[pos - 1].hole_size,
            })
        } else {
            o.holes@.insert(pos, ListHeapNode {
                is_last: pos == o.holes@.len(),
                next_node: if pos < o.holes@.len() { o.hole_addresses@[pos] } else { 0u64 },
                hole_size: size as u64,
            })
        },
    ensures
        forall|b: int|
            #[trigger] n.byte_free(b) <==> (o.byte_free(b) || ptr <= b < ptr + size),
{
    lemma_dealloc_insert_bytes_fwd(o, n, ptr, size, pos);
    lemma_dealloc_insert_bytes_bwd(o, n, ptr, size, pos);
}

/// Bytes free after an insert were free before or were just freed.
#[verifier::rlimit(100)]
proof fn lemma_dealloc_insert_bytes_fwd(
    o: LinkedListHeapAllocatorInner,
    n: LinkedListHeapAllocatorInner,
    ptr: int,
    size: int,
    pos: int,
)
    requires
        o.wf(),
        size >= LIST_HEAP_NODE_SIZE,
        ptr >= o.heap_base(),
        ptr + size <= o.heap_base() + o.max_currently_used,
        forall|i: int|
            0 <= i < o.holes@.len()
                ==> (i < pos ==> #[trigger] o.hole_addresses@[i] + o.holes@[i].hole_size <= ptr)
                    && (i >= pos ==> o.hole_addresses@[i] >= ptr + size),
        0 <= pos <= o.holes@.len(),
        n.virtual_start_frame == o.virtual_start_frame,
        n.max_memory_amount == o.max_memory_amount,
        n.max_currently_used == o.max_currently_used,
        n.holes@.len() == n.hole_addresses@.len(),
        !(pos > 0 && o.hole_addresses@[pos - 1] + o.holes@[pos - 1].hole_size == ptr),
        !(pos < o.holes@.len() && ptr + size == o.hole_addresses@[pos]),
        n.hole_addresses@ == o.hole_addresses@.insert(pos, ptr as u64),
        n.holes@ == if pos > 0 {
            o.holes@.insert(pos, ListHeapNode {
                is_last: pos == o.holes@.len(),
                next_node: if pos < o.holes@.len() { o.hole_addresses@[pos] } else { 0u64 },
                hole_size: size as u64,
            }).update(pos - 1, ListHeapNode {
                is_last: false,
                next_node: ptr as u64,
                hole_size: o.holes@[pos - 1].hole_size,
            })
        } else {
            o.holes@.insert(pos, ListHeapNode {
                is_last: pos == o.holes@.len(),
                next_node: if pos < o.holes@.len() { o.hole_addresses@[pos] } else { 0u64 },
                hole_size: size as u64,
            })
        },
    ensures
        forall|b: int|
            #[trigger] n.byte_free(b) ==> (o.byte_free(b) || ptr <= b < ptr + size),
{
    assert(n.hole_addresses@.len() == o.hole_addresses@.len() + 1);
    assert(n.holes@.len() == o.holes@.len() + 1);
    assert(n.hole_addresses@[pos] == ptr);
    assert(n.holes@[pos].hole_size == size);
    assert forall|i: int| 0 <= i < pos implies
        #[trigger] n.hole_addresses@[i] == o.hole_addresses@[i]
            && n.holes@[i].hole_size == o.holes@[i].hole_size by {}
    assert forall|i: int| pos <= i < o.holes@.len() implies
        #[trigger] n.hole_addresses@[i + 1] == o.hole_addresses@[i]
            && n.holes@[i + 1].hole_size == o.holes@[i].hole_size by {}
    assert forall|b: int|
        #[trigger] n.byte_free(b) implies (o.byte_free(b) || ptr <= b < ptr + size) by {
        let i = choose|i: int|
            0 <= i < n.holes@.len() && #[trigger] n.hole_addresses@[i] <= b
                < n.hole_addresses@[i] + n.holes@[i].hole_size;
        if i < pos {
            assert(o.hole_addresses@[i] <= b < o.hole_addresses@[i] + o.holes@[i].hole_size);
        } else if i > pos {
            assert(n.hole_addresses@[i] == o.hole_addresses@[i - 1]);
            assert(o.hole_addresses@[i - 1] <= b
                < o.hole_addresses@[i - 1] + o.holes@[i - 1].hole_size);
        }
    }
}

/// Bytes free before an insert, and the freed block, stay free.
#[verifier::rlimit(100)]
proof fn lemma_dealloc_insert_bytes_bwd(
    o: LinkedListHeapAllocatorInner,
    n: LinkedListHeapAllocatorInner,
    ptr: int,
    size: int,
    pos: int,
)
    requires
        o.wf(),
        size >= LIST_HEAP_NODE_SIZE,
        ptr >= o.heap_base(),
        ptr + size <= o.heap_base() + o.max_currently_used,
        forall|i: int|
            0 <= i < o.holes@.len()
                ==> (i < pos ==> #[trigger] o.hole_addresses@[i] + o.holes@[i].hole_size <= ptr)
                    && (i >= pos ==> o.hole_addresses@[i] >= ptr + size),
        0 <= pos <= o.holes@.len(),
        n.virtual_start_frame == o.virtual_start_frame,
        n.max_memory_amount == o.max_memory_amount,
        n.max_currently_used == o.max_currently_used,
        n.holes@.len() == n.hole_addresses@.len(),
        !(pos > 0 && o.hole_addresses@[pos - 1] + o.holes@[pos - 1].hole_size == ptr),
        !(pos < o.holes@.len() && ptr + size == o.hole_addresses@[pos]),
        n.hole_addresses@ == o.hole_addresses@.insert(pos, ptr as u64),
        n.holes@ == if pos > 0 {
            o.holes@.insert(pos, ListHeapNode {
                is_last: pos == o.holes@.len(),
                next_node: if pos < o.holes@.len() { o.hole_addresses@[pos] } else { 0u64 },
                hole_size: size as u64,
            }).update(pos - 1, ListHeapNode {
                is_last: false,
                next_node: ptr as u64,
                hole_size: o.holes@[pos - 1].hole_size,
            })
        } else {
            o.holes@.insert(pos, ListHeapNode {
                is_last: pos == o.holes@.len(),
                next_node: if pos < o.holes@.len() { o.hole_addresses@[pos] } else { 0u64 },
                hole_size: size as u64,
            })
        },
    ensures
        forall|b: int|
            o.byte_free(b) || ptr <= b < ptr + size ==> #[trigger] n.byte_free(b),
{
    assert(n.hole_addresses@.len() == o.hole_addresses@.len() + 1);
    assert(n.holes@.len() == o.holes@.len() + 1);
    assert(n.hole_addresses@[pos] == ptr);
    assert(n.holes@[pos].hole_size == size);
    assert forall|i: int| 0 <= i < pos implies
        #[trigger] n.hole_addresses@[i] == o.hole_addresses@[i]
            && n.holes@[i].hole_size == o.holes@[i].hole_size by {}
    assert forall|i: int| pos <= i < o.holes@.len() implies
        #[trigger] n.hole_addresses@[i + 1] == o.hole_addresses@[i]
            && n.holes@[i + 1].hole_size == o.holes@[i].hole_size by {}
    assert forall|b: int|
        o.byte_free(b) || ptr <= b < ptr + size implies #[trigger] n.byte_free(b) by {
        if o.byte_free(b) {
            let i = choose|i: int|
                0 <= i < o.holes@.len() && #[trigger] o.hole_addresses@[i] <= b
                    < o.hole_addresses@[i] + o.holes@[i].hole_size;
            if i < pos {
                assert(n.hole_addresses@[i] <= b < n.hole_addresses@[i] + n.holes@[i].hole_size);
            } else {
                assert(n.hole_addresses@[i + 1] <= b
                    < n.hole_addresses@[i + 1] + n.holes@[i + 1].hole_size);
            }
        } else {
            assert(n.hole_addresses@[pos] <= b
                < n.hole_addresses@[pos] + n.holes@[pos].hole_size);
        }
    }
}

} // verus!
