//! Bitmap-based physical frame allocator.
//!
//! One bit per 4 KiB frame: bit `i` of byte `b` stands for frame `b * 8 + i`,
//! and a set bit means the frame is allocated. The bitmap itself is a byte
//! vector standing for the run of physical frames that hold it; the field
//! `bitmap_frame` records where that run starts.

use vstd::prelude::*;
use crate::utils::{spec_ceil_div, lemma_ceil_div_bounds, lemma_mul_lt_cancel};
use crate::FRAME_SIZE;

verus! {

/// A 4 KiB physical frame, named both by its index and by its start address.
#[derive(Copy, Clone, Debug, Ord, PartialOrd, Eq, PartialEq, Structural)]
pub struct FrameInfo {
    pub number: u64,
    pub address: u64,
}

impl FrameInfo {
    /// The frame holding the given physical address.
    pub fn from_address(address: u64) -> (r: FrameInfo)
        ensures
            r.number == address / (FRAME_SIZE as u64),
            r.address == address,
    {
        FrameInfo { number: address / (FRAME_SIZE as u64), address }
    }

    /// The frame with the given index; its address is `number * FRAME_SIZE`.
    pub fn from_number(number: u64) -> (r: FrameInfo)
        requires
            number * (FRAME_SIZE as u64) <= u64::MAX,
        ensures
            r.number == number,
            r.address == number * (FRAME_SIZE as u64),
    {
        FrameInfo { number, address: number * (FRAME_SIZE as u64) }
    }
}

/// The kind of a region in the boot loader's physical memory map.
#[derive(Copy, Clone, Debug, Eq, PartialEq, Structural)]
pub enum MemoryMapEntryType {
    Usable,
    Reserved,
    AcpiReclaimable,
    AcpiNvs,
    BadMemory,
    BootloaderReclaimable,
    Kernel,
}

/// One region of the boot loader's memory map: the bytes
/// `[start_address, end_address)`.
#[derive(Copy, Clone, Debug, Eq, PartialEq, Structural)]
pub struct MemoryRegion {
    pub start_address: u64,
    pub end_address: u64,
    pub entry_type: MemoryMapEntryType,
}

/// Frame allocation state tracked by a byte bitmap.
#[derive(Debug)]
pub struct BitMapFrameAllocator {
    /// First frame of the run that stores the bitmap itself.
    pub bitmap_frame: u64,
    /// Length of the bitmap in bytes: one bit per tracked frame.
    pub bitmap_size_in_bytes: usize,
    /// Number of whole frames the bitmap occupies.
    pub bitmap_size_in_frames: u64,
    /// Number of tracked frames: whole frames below `memory_end`.
    pub frames_amount: u64,
    /// Highest physical address reported by the memory map.
    pub memory_end: u64,
    /// The bitmap bytes themselves.
    pub slice: Vec<u8>,
}

impl BitMapFrameAllocator {
    /// Whether frame `f`'s bit is set (frame marked allocated).
    pub open spec fn frame_allocated(self, f: int) -> bool {
        ((self.slice@[f / 8] >> ((f % 8) as u8)) & 1u8) == 1u8
    }

    /// Shape of a well-formed allocator: the bitmap has one bit per tracked
    /// frame, and the size fields agree with each other.
    pub open spec fn wf(self) -> bool {
        &&& self.slice@.len() == self.bitmap_size_in_bytes
        &&& self.bitmap_size_in_bytes == spec_ceil_div(self.frames_amount as int, 8)
        &&& self.bitmap_size_in_frames == spec_ceil_div(self.bitmap_size_in_bytes as int, FRAME_SIZE as int)
        &&& self.frames_amount == self.memory_end / (FRAME_SIZE as u64)
        &&& self.frames_amount >= 1
    }

    /// All fields except the bitmap contents are the same in `a` and `b`.
    pub open spec fn same_config(a: BitMapFrameAllocator, b: BitMapFrameAllocator) -> bool {
        &&& a.bitmap_frame == b.bitmap_frame
        &&& a.bitmap_size_in_bytes == b.bitmap_size_in_bytes
        &&& a.bitmap_size_in_frames == b.bitmap_size_in_frames
        &&& a.frames_amount == b.frames_amount
        &&& a.memory_end == b.memory_end
        &&& a.slice@.len() == b.slice@.len()
    }

    /// Set or clear the bit of frame `frame`. The frame must lie below the
    /// end of memory and within the bitmap.
    pub fn mark_frame(&mut self, frame: u64, allocated: bool)
        requires
            frame <= old(self).memory_end / (FRAME_SIZE as u64),
            frame / 8 < old(self).slice.len(),
        ensures
            Self::same_config(*old(self), *final(self)),
            final(self).frame_allocated(frame as int) == allocated,
            forall|g: int|
                0 <= g < 8 * final(self).slice@.len() && g != frame
                    ==> final(self).frame_allocated(g) == old(self).frame_allocated(g),
    {
        proof {
            vstd::arithmetic::div_mod::lemma_mod_bound(frame as int, 8);
            vstd::arithmetic::div_mod::lemma_fundamental_div_mod(frame as int, 8);
        }
        let byte: usize = (frame / 8) as usize;
        let bit_index: u8 = (frame % 8) as u8;

        if allocated {
            self.slice[byte] = self.slice[byte] | (1u8 << bit_index);
        } else {
            self.slice[byte] = self.slice[byte] & !(1u8 << bit_index);
        }

        proof {
            assert(byte == frame as int / 8);
            assert(bit_index == frame as int % 8);
            let x = old(self).slice@[byte as int];
            let y = self.slice@[byte as int];
            assert(self.slice@ =~= old(self).slice@.update(byte as int, y));
            if allocated {
                assert(((x | (1u8 << bit_index)) >> bit_index) & 1u8 == 1u8) by (bit_vector)
                    requires bit_index < 8;
            } else {
                assert(((x & !(1u8 << bit_index)) >> bit_index) & 1u8 == 0u8) by (bit_vector)
                    requires bit_index < 8;
            }
            assert forall|g: int|
                0 <= g < 8 * self.slice@.len() && g != frame
                    implies self.frame_allocated(g) == old(self).frame_allocated(g) by {
                vstd::arithmetic::div_mod::lemma_mod_bound(g, 8);
                vstd::arithmetic::div_mod::lemma_fundamental_div_mod(g, 8);
                if g / 8 == byte {
                    let i = (g % 8) as u8;
                    assert(g == 8 * (g / 8) + g % 8);
                    assert(frame as int == 8 * (frame as int / 8) + frame as int % 8);
                    assert(i != bit_index);
                    assert((((x | (1u8 << bit_index)) >> i) & 1u8) == ((x >> i) & 1u8))
                        by (bit_vector)
                        requires bit_index < 8, i < 8, i != bit_index;
                    assert((((x & !(1u8 << bit_index)) >> i) & 1u8) == ((x >> i) & 1u8))
                        by (bit_vector)
                        requires bit_index < 8, i < 8, i != bit_index;
                }
            }
        }
    }

    /// Mark every frame intersecting the byte range `[start, end)`.
    pub fn mark_region(&mut self, start: u64, end: u64, allocated: bool)
        requires
            old(self).wf(),
            end <= old(self).frames_amount * (FRAME_SIZE as u64),
        ensures
            final(self).wf(),
            Self::same_config(*old(self), *final(self)),
            forall|g: int|
                (start as int) / (FRAME_SIZE as int) <= g < spec_ceil_div(end as int, FRAME_SIZE as int)
                    ==> final(self).frame_allocated(g) == allocated,
            forall|g: int|
                0 <= g < 8 * final(self).slice@.len()
                    && !((start as int) / (FRAME_SIZE as int) <= g < spec_ceil_div(end as int, FRAME_SIZE as int))
                    ==> final(self).frame_allocated(g) == old(self).frame_allocated(g),
    {
        let frame_start = start / (FRAME_SIZE as u64);
        let frame_end = ceil_div_u64(end, FRAME_SIZE as u64);

        proof {
            lemma_ceil_div_bounds(end as int, FRAME_SIZE as int);
            lemma_ceil_div_bounds(self.frames_amount as int, 8);
            assert((frame_end - 1) * (FRAME_SIZE as int) < self.frames_amount * (FRAME_SIZE as int));
            lemma_mul_lt_cancel(
                frame_end as int - 1,
                self.frames_amount as int,
                FRAME_SIZE as int,
            );
        }

        let mut i = frame_start;
        while i < frame_end
            invariant
                frame_start <= i,
                i <= frame_end || i == frame_start,
                frame_end == spec_ceil_div(end as int, FRAME_SIZE as int),
                frame_end <= self.frames_amount,
                self.wf(),
                Self::same_config(*old(self), *self),
                forall|g: int|
                    frame_start <= g < i ==> self.frame_allocated(g) == allocated,
                forall|g: int|
                    0 <= g < 8 * self.slice@.len() && !(frame_start <= g < i)
                        ==> self.frame_allocated(g) == old(self).frame_allocated(g),
            decreases frame_end - i,
        {
            proof {
                lemma_ceil_div_bounds(self.frames_amount as int, 8);
                assert(i / 8 < self.slice@.len()) by {
                    assert(i < self.frames_amount);
                    assert(8 * spec_ceil_div(self.frames_amount as int, 8) >= self.frames_amount);
                };
            }
            self.mark_frame(i, allocated);
            i = i + 1;
        }
    }

    /// Reset every tracked frame to free.
    pub fn clear_bitmap(&mut self)
        requires
            old(self).wf(),
        ensures
            final(self).wf(),
            Self::same_config(*old(self), *final(self)),
            forall|g: int| 0 <= g < 8 * final(self).slice@.len() ==> !final(self).frame_allocated(g),
    {
        let n = self.bitmap_size_in_bytes;
        let mut i: usize = 0;
        while i < n
            invariant
                i <= n,
                n == self.slice@.len(),
                self.wf(),
                Self::same_config(*old(self), *self),
                forall|j: int| 0 <= j < i ==> self.slice@[j] == 0u8,
            decreases n - i,
        {
            self.slice[i] = 0;
            i = i + 1;
        }
        proof {
            assert forall|g: int| 0 <= g < 8 * self.slice@.len()
                implies !self.frame_allocated(g) by {
                let b = self.slice@[g / 8];
                assert(b == 0u8);
                let sh = (g % 8) as u8;
                assert(((0u8 >> sh) & 1u8) == 0u8) by (bit_vector);
            }
        }
    }
}

impl BitMapFrameAllocator {
    /// Allocate the lowest-numbered free frame, marking it allocated.
    /// Returns `None` exactly when every tracked frame is allocated.
    pub fn allocate_frame(&mut self) -> (r: Option<FrameInfo>)
        requires
            old(self).wf(),
        ensures
            final(self).wf(),
            Self::same_config(*old(self), *final(self)),
            match r {
                Some(f) => {
                    &&& f.number < old(self).frames_amount
                    &&& f.address == f.number * (FRAME_SIZE as u64)
                    &&& !old(self).frame_allocated(f.number as int)
                    &&& forall|g: int| 0 <= g < f.number ==> old(self).frame_allocated(g)
                    &&& final(self).frame_allocated(f.number as int)
                    &&& forall|g: int|
                        0 <= g < 8 * final(self).slice@.len() && g != f.number
                            ==> final(self).frame_allocated(g) == old(self).frame_allocated(g)
                },
                None => {
                    &&& *final(self) == *old(self)
                    &&& forall|g: int|
                        0 <= g < old(self).frames_amount ==> old(self).frame_allocated(g)
                },
            },
    {
        proof {
            lemma_ceil_div_bounds(self.frames_amount as int, 8);
        }

        // Find a byte with at least one clear bit.
        let mut byte: usize = 0;
        loop
            invariant
                self.wf(),
                *self == *old(self),
                byte < self.slice.len(),
                forall|j: int| 0 <= j < byte ==> self.slice@[j] == 255u8,
            ensures
                self.wf(),
                *self == *old(self),
                byte < self.slice.len(),
                self.slice@[byte as int] != 255u8,
                forall|j: int| 0 <= j < byte ==> self.slice@[j] == 255u8,
            decreases self.slice.len() - byte,
        {
            if self.slice[byte] != u8::MAX {
                break;
            }
            byte = byte + 1;
            if byte >= self.slice.len() {
                // Every byte is full, so every tracked frame is allocated.
                proof {
                    assert forall|g: int| 0 <= g < self.frames_amount
                        implies self.frame_allocated(g) by {
                        vstd::arithmetic::div_mod::lemma_fundamental_div_mod(g, 8);
                        vstd::arithmetic::div_mod::lemma_mod_bound(g, 8);
                        let x = self.slice@[g / 8];
                        let i = (g % 8) as u8;
                        assert(x == 255u8);
                        assert(((255u8 >> i) & 1u8) == 1u8) by (bit_vector)
                            requires i < 8;
                    }
                }
                return None;
            }
        }

        // The lowest clear bit of that byte names the candidate frame.
        let trailing = first_zero_bit(self.slice[byte]);
        proof {
            assert(8 * (byte as int) + 8 <= 8 * self.slice@.len());
        }
        let index: u64 = (byte as u64) * 8 + (trailing as u64);

        proof {
            vstd::arithmetic::div_mod::lemma_fundamental_div_mod_converse(
                index as int, 8, byte as int, trailing as int);
            assert forall|g: int| 0 <= g < index implies self.frame_allocated(g) by {
                vstd::arithmetic::div_mod::lemma_fundamental_div_mod(g, 8);
                vstd::arithmetic::div_mod::lemma_mod_bound(g, 8);
                let x = self.slice@[g / 8];
                let i = (g % 8) as u8;
                if g / 8 < byte {
                    assert(((255u8 >> i) & 1u8) == 1u8) by (bit_vector)
                        requires i < 8;
                } else {
                    assert(g / 8 == byte);
                    assert(i < trailing);
                }
            }
        }

        if index >= self.frames_amount {
            // The clear bit lies beyond the tracked frames: out of memory.
            proof {
                assert forall|g: int| 0 <= g < self.frames_amount
                    implies self.frame_allocated(g) by {
                    assert(g < index);
                }
            }
            return None;
        }

        proof {
            vstd::arithmetic::div_mod::lemma_fundamental_div_mod(self.memory_end as int, FRAME_SIZE as int);
            vstd::arithmetic::div_mod::lemma_mod_bound(self.memory_end as int, FRAME_SIZE as int);
            assert((index as int) * (FRAME_SIZE as int) < (self.frames_amount as int) * (FRAME_SIZE as int))
                by (nonlinear_arith)
                requires index < self.frames_amount, (FRAME_SIZE as int) >= 1;
            assert((self.frames_amount as int) * (FRAME_SIZE as int) <= self.memory_end as int)
                by (nonlinear_arith)
                requires
                    self.memory_end as int == (FRAME_SIZE as int) * (self.frames_amount as int)
                        + (self.memory_end as int) % (FRAME_SIZE as int),
                    (self.memory_end as int) % (FRAME_SIZE as int) >= 0;
        }

        self.mark_frame(index, true);

        Some(FrameInfo { number: index, address: index * (FRAME_SIZE as u64) })
    }

    /// Build the allocator from the boot loader's memory map.
    ///
    /// The bitmap is placed at the first frame boundary of the first usable
    /// region with room for it. After construction the bitmap's own frames,
    /// every frame intersecting a non-usable region and every frame in a gap
    /// between consecutive regions are marked allocated; every other tracked
    /// frame is free. Returns `None` when no usable region can hold the
    /// bitmap.
    #[verifier::loop_isolation(false)]
    pub fn new(areas: &Vec<MemoryRegion>) -> (r: Option<BitMapFrameAllocator>)
        requires
            spec_bitmap_bytes(areas@) <= usize::MAX,
        ensures
            match r {
                Some(a) => {
                    &&& a.wf()
                    &&& a.memory_end == spec_memory_end(areas@)
                    &&& a.frames_amount == spec_frames_amount(areas@)
                    &&& a.bitmap_size_in_bytes == spec_bitmap_bytes(areas@)
                    &&& a.bitmap_size_in_frames == spec_bitmap_frames(areas@)
                    &&& exists|k: int|
                        0 <= k < areas@.len()
                        && #[trigger] region_fits_bitmap(areas@[k], spec_bitmap_frames(areas@))
                        && (forall|j: int|
                            0 <= j < k ==> !region_fits_bitmap(areas@[j], spec_bitmap_frames(areas@)))
                        && a.bitmap_frame == spec_ceil_div(
                            areas@[k].start_address as int, FRAME_SIZE as int)
                    &&& forall|f: int|
                        0 <= f < a.frames_amount
                            ==> (#[trigger] a.frame_allocated(f) <==> frame_in_bitmap_run(a, f)
                                || frame_in_nonusable(areas@, f) || frame_in_gap(areas@, f))
                },
                None => forall|k: int|
                    0 <= k < areas@.len()
                        ==> !region_fits_bitmap(areas@[k], spec_bitmap_frames(areas@)),
            },
    {
        let n = areas.len();
        if n == 0 {
            return None;
        }

        // Highest end address across the map.
        let mut memory_end: u64 = 0;
        let mut i: usize = 0;
        while i < n
            invariant
                i <= n,
                n == areas@.len(),
                memory_end == spec_memory_end(areas@.take(i as int)),
            decreases n - i,
        {
            proof {
                assert(areas@.take(i as int + 1).drop_last() =~= areas@.take(i as int));
                assert(areas@.take(i as int + 1).last() == areas@[i as int]);
            }
            if areas[i].end_address > memory_end {
                memory_end = areas[i].end_address;
            }
            i = i + 1;
        }
        proof {
            assert(areas@.take(n as int) =~= areas@);
        }

        // Discard any incomplete frame at the end of memory.
        let frames_amount: u64 = memory_end / FRAME_SIZE;
        let bitmap_length_in_bytes: u64 = ceil_div_u64(frames_amount, 8);
        let continuous_frames_amount: u64 = ceil_div_u64(bitmap_length_in_bytes, FRAME_SIZE);
        let ghost cont = continuous_frames_amount as int;
        proof {
            assert(cont == spec_bitmap_frames(areas@));
        }

        // Walk the map for the first usable region that can hold the bitmap
        // plus one spare frame.
        let mut k: usize = 0;
        let mut found = false;
        while k < n && !found
            invariant
                k <= n,
                found ==> k < n && region_fits_bitmap(areas@[k as int], cont),
                forall|j: int| 0 <= j < k ==> !region_fits_bitmap(areas@[j], cont),
            decreases n - k, if found { 0int } else { 1int },
        {
            let area = &areas[k];
            let usable = area.entry_type == MemoryMapEntryType::Usable;
            let tf = ceil_div_u64(area.start_address, FRAME_SIZE);
            // `x` frames fit below the region's end exactly when `x` is at
            // most `end / FRAME_SIZE`; this form cannot overflow.
            let fits = usable
                && (tf as u128) + (continuous_frames_amount as u128) + 1
                    <= (area.end_address / FRAME_SIZE) as u128;
            proof {
                crate::utils::lemma_mul_le_div(
                    tf as int + cont + 1,
                    area.end_address as int,
                    FRAME_SIZE as int,
                );
                assert(fits == region_fits_bitmap(areas@[k as int], cont));
            }
            if fits {
                found = true;
            } else {
                k = k + 1;
            }
        }
        if !found {
            return None;
        }

        let tested_frame = ceil_div_u64(areas[k].start_address, FRAME_SIZE);
        let ghost tf = tested_frame as int;
        let ghost fsz = FRAME_SIZE as int;
        let ghost frames = frames_amount as int;
        let ghost bytes = bitmap_length_in_bytes as int;

        proof {
            // The fit gives room below the end of memory, hence below the
            // number of tracked frames.
            assert((tf + cont + 1) * fsz <= areas@[k as int].end_address);
            assert(areas@[k as int].end_address <= spec_memory_end(areas@)) by {
                lemma_memory_end_covers(areas@, k as int);
            }
            vstd::arithmetic::div_mod::lemma_fundamental_div_mod(memory_end as int, fsz);
            vstd::arithmetic::div_mod::lemma_mod_bound(memory_end as int, fsz);
            vstd::arithmetic::div_mod::lemma_div_pos_is_pos(memory_end as int, fsz);
            assert((frames + 1) * fsz > memory_end) by (nonlinear_arith)
                requires
                    memory_end as int == fsz * frames + (memory_end as int) % fsz,
                    (memory_end as int) % fsz < fsz;
            assert((tf + cont + 1) * fsz < (frames + 1) * fsz);
            lemma_mul_lt_cancel(tf + cont + 1, frames + 1, fsz);
            assert(tf + cont <= frames);
            assert((tf + cont + 1) * fsz >= fsz) by (nonlinear_arith)
                requires tf >= 0, cont >= 0, fsz >= 1;
            assert(frames >= 1) by (nonlinear_arith)
                requires
                    memory_end as int == fsz * frames + (memory_end as int) % fsz,
                    (memory_end as int) % fsz < fsz,
                    memory_end >= fsz,
                    frames >= 0;
            assert(fsz * frames <= memory_end);
            lemma_ceil_div_bounds(bytes, fsz);
            assert(bytes <= cont * fsz);
            assert((tf + cont) * fsz == tf * fsz + cont * fsz) by (nonlinear_arith);
            assert((tf + cont) * fsz <= frames * fsz) by (nonlinear_arith)
                requires tf + cont <= frames, fsz >= 1;
            assert(frames * fsz == fsz * frames) by (nonlinear_arith);
            assert(tf * fsz + bytes <= frames * fsz);
            assert(tf * fsz <= memory_end);
        }

        // The bitmap itself: one zeroed byte per eight frames.
        let bitmap_bytes_usize: usize = bitmap_length_in_bytes as usize;
        let mut slice: Vec<u8> = Vec::new();
        while slice.len() < bitmap_bytes_usize
            invariant
                slice@.len() <= bitmap_bytes_usize,
            decreases bitmap_bytes_usize - slice@.len(),
        {
            slice.push(0u8);
        }

        let mut allocator = BitMapFrameAllocator {
            frames_amount,
            bitmap_frame: tested_frame,
            bitmap_size_in_bytes: bitmap_bytes_usize,
            bitmap_size_in_frames: continuous_frames_amount,
            memory_end,
            slice,
        };
        proof {
            assert(allocator.wf());
        }

        // Clear leftover contents, then mark the region used by the bitmap.
        allocator.clear_bitmap();

        let bm_start: u64 = tested_frame * FRAME_SIZE;
        let bm_end: u64 = bm_start + bitmap_length_in_bytes;
        allocator.mark_region(bm_start, bm_end, true);

        proof {
            crate::utils::lemma_ceil_div_shift(tf, bytes, fsz);
            vstd::arithmetic::div_mod::lemma_div_multiples_vanish(tf, fsz);
            assert(tf * fsz == fsz * tf) by (nonlinear_arith);
            assert(bm_start as int / fsz == tf);
            assert(spec_ceil_div(bm_end as int, fsz) == tf + cont);
            assert forall|f: int| 0 <= f < frames implies
                (allocator.frame_allocated(f) <==> frame_in_bitmap_run(allocator, f)) by {
                lemma_ceil_div_bounds(frames, 8);
            }
        }

        let frames_bytes_end: u64 = frames_amount * FRAME_SIZE;

        // Mark unavailable memory regions as allocated.
        let mut k2: usize = 0;
        while k2 < n
            invariant
                n == areas@.len(),
                k2 <= n,
                allocator.wf(),
                allocator.bitmap_frame == tested_frame,
                allocator.bitmap_size_in_bytes == bitmap_bytes_usize,
                allocator.bitmap_size_in_frames == continuous_frames_amount,
                allocator.frames_amount == frames_amount,
                allocator.memory_end == memory_end,
                frames == frames_amount,
                fsz == FRAME_SIZE,
                frames_bytes_end == frames * fsz,
                frames_bytes_end <= memory_end,
                forall|f: int|
                    0 <= f < frames
                        ==> (#[trigger] allocator.frame_allocated(f) <==> frame_in_bitmap_run(allocator, f)
                            || (exists|j: int| 0 <= j < k2 && #[trigger] nonusable_covers(areas@[j], f))),
            decreases n - k2,
        {
            let area = &areas[k2];
            if !(area.entry_type == MemoryMapEntryType::Usable) {
                let end_clamped = if area.end_address <= frames_bytes_end {
                    area.end_address
                } else {
                    frames_bytes_end
                };
                let ghost before = allocator;
                allocator.mark_region(area.start_address, end_clamped, true);
                proof {
                    lemma_clamped_range(area.end_address as int, frames, fsz, end_clamped as int);
                    lemma_ceil_div_bounds(frames, 8);
                    assert forall|f: int| 0 <= f < frames implies
                        (#[trigger] allocator.frame_allocated(f) <==> frame_in_bitmap_run(allocator, f)
                            || (exists|j: int| 0 <= j < k2 + 1 && #[trigger] nonusable_covers(areas@[j], f))) by {
                        let lo = area.start_address as int / fsz;
                        let hi = spec_ceil_div(end_clamped as int, fsz);
                        if allocator.frame_allocated(f) {
                            if lo <= f < hi {
                                assert(nonusable_covers(areas@[k2 as int], f));
                            } else {
                                assert(before.frame_allocated(f));
                            }
                        } else {
                            assert(!before.frame_allocated(f));
                            assert(!(lo <= f < hi));
                            if exists|j: int| 0 <= j < k2 + 1 && #[trigger] nonusable_covers(areas@[j], f) {
                                let j = choose|j: int| 0 <= j < k2 + 1 && #[trigger] nonusable_covers(areas@[j], f);
                                assert(j == k2);
                                assert(false);
                            }
                        }
                    }
                }
            } else {
                proof {
                    assert forall|f: int| 0 <= f < frames implies
                        (#[trigger] allocator.frame_allocated(f) <==> frame_in_bitmap_run(allocator, f)
                            || (exists|j: int| 0 <= j < k2 + 1 && #[trigger] nonusable_covers(areas@[j], f))) by {
                        if exists|j: int| 0 <= j < k2 + 1 && #[trigger] nonusable_covers(areas@[j], f) {
                            let j = choose|j: int| 0 <= j < k2 + 1 && #[trigger] nonusable_covers(areas@[j], f);
                            assert(j < k2);
                        }
                    }
                }
            }
            k2 = k2 + 1;
        }

        // Mark the gaps between consecutive regions as allocated.
        let mut k3: usize = 1;
        while k3 < n
            invariant
                n == areas@.len(),
                1 <= k3,
                k3 <= n || k3 == 1,
                allocator.wf(),
                allocator.bitmap_frame == tested_frame,
                allocator.bitmap_size_in_bytes == bitmap_bytes_usize,
                allocator.bitmap_size_in_frames == continuous_frames_amount,
                allocator.frames_amount == frames_amount,
                allocator.memory_end == memory_end,
                frames == frames_amount,
                fsz == FRAME_SIZE,
                frames_bytes_end == frames * fsz,
                frames_bytes_end <= memory_end,
                forall|f: int|
                    0 <= f < frames
                        ==> (#[trigger] allocator.frame_allocated(f) <==> frame_in_bitmap_run(allocator, f)
                            || frame_in_nonusable(areas@, f)
                            || (exists|j: int| 0 <= j && j + 1 < k3 && #[trigger] gap_covers(areas@[j], areas@[j + 1], f))),
            decreases n - k3,
        {
            let prev_end = areas[k3 - 1].end_address;
            let cur_start = areas[k3].start_address;
            let end_clamped = if cur_start <= frames_bytes_end {
                cur_start
            } else {
                frames_bytes_end
            };
            let ghost before = allocator;
            allocator.mark_region(prev_end, end_clamped, true);
            proof {
                lemma_clamped_range(cur_start as int, frames, fsz, end_clamped as int);
                lemma_ceil_div_bounds(frames, 8);
                let lo = prev_end as int / fsz;
                let hi = spec_ceil_div(end_clamped as int, fsz);
                let ghost jn: int = k3 as int - 1;
                assert forall|f: int| 0 <= f < frames implies
                    (#[trigger] allocator.frame_allocated(f) <==> frame_in_bitmap_run(allocator, f)
                        || frame_in_nonusable(areas@, f)
                        || (exists|j: int| 0 <= j && j + 1 < k3 + 1 && #[trigger] gap_covers(areas@[j], areas@[j + 1], f))) by {
                    if allocator.frame_allocated(f) {
                        if lo <= f < hi {
                            assert(f < spec_ceil_div(cur_start as int, fsz));
                            assert(gap_covers(areas@[jn], areas@[jn + 1], f));
                        } else {
                            assert(before.frame_allocated(f));
                        }
                    } else {
                        assert(!before.frame_allocated(f));
                        assert(!(lo <= f < hi));
                        if exists|j: int| 0 <= j && j + 1 < k3 + 1 && #[trigger] gap_covers(areas@[j], areas@[j + 1], f) {
                            let j = choose|j: int| 0 <= j && j + 1 < k3 + 1 && #[trigger] gap_covers(areas@[j], areas@[j + 1], f);
                            if j + 1 < k3 {
                                assert(before.frame_allocated(f));
                                assert(false);
                            } else {
                                assert(j == jn);
                                assert(lo <= f < spec_ceil_div(cur_start as int, fsz));
                                assert(f < hi);
                                assert(false);
                            }
                        }
                    }
                }
            }
            k3 = k3 + 1;
        }

        proof {
            assert(region_fits_bitmap(areas@[k as int], spec_bitmap_frames(areas@)));
        }
        Some(allocator)
    }

    /// Whether frame `frame` is currently marked allocated.
    pub fn is_frame_allocated(&self, frame: u64) -> (r: bool)
        requires
            self.wf(),
            frame < self.frames_amount,
        ensures
            r == self.frame_allocated(frame as int),
    {
        proof {
            lemma_ceil_div_bounds(self.frames_amount as int, 8);
            vstd::arithmetic::div_mod::lemma_mod_bound(frame as int, 8);
            vstd::arithmetic::div_mod::lemma_fundamental_div_mod(frame as int, 8);
        }
        let byte: usize = (frame / 8) as usize;
        let bit_index: u8 = (frame % 8) as u8;
        (self.slice[byte] >> bit_index) & 1 == 1
    }

    /// Return a frame to the free pool by clearing its bit.
    pub fn deallocate_frame(&mut self, frame_info: FrameInfo)
        requires
            old(self).wf(),
            frame_info.number < old(self).frames_amount,
        ensures
            final(self).wf(),
            Self::same_config(*old(self), *final(self)),
            !final(self).frame_allocated(frame_info.number as int),
            forall|g: int|
                0 <= g < 8 * final(self).slice@.len() && g != frame_info.number
                    ==> final(self).frame_allocated(g) == old(self).frame_allocated(g),
    {
        proof {
            lemma_ceil_div_bounds(self.frames_amount as int, 8);
        }
        self.mark_frame(frame_info.number, false);
    }
}

/// A source of physical frames. The one implementation here is the bitmap
/// allocator; the contract is stated over the implementor's own view of
/// which frames are allocated.
pub trait FrameAllocator: Sized {
    /// The implementor's invariant.
    spec fn alloc_wf(&self) -> bool;

    /// Number of frames the allocator tracks.
    spec fn frames_limit(&self) -> int;

    /// Whether frame `f` is currently allocated.
    spec fn frame_is_allocated(&self, f: int) -> bool;

    /// Hand out a free frame, marking it allocated, or report exhaustion.
    fn allocate_frame(&mut self) -> (r: Option<FrameInfo>)
        requires
            old(self).alloc_wf(),
        ensures
            final(self).alloc_wf(),
            final(self).frames_limit() == old(self).frames_limit(),
            match r {
                Some(f) => {
                    &&& f.number < old(self).frames_limit()
                    &&& f.address == f.number * (FRAME_SIZE as u64)
                    &&& !old(self).frame_is_allocated(f.number as int)
                    &&& final(self).frame_is_allocated(f.number as int)
                    &&& forall|g: int|
                        0 <= g < old(self).frames_limit() && g != f.number
                            ==> final(self).frame_is_allocated(g)
                                == old(self).frame_is_allocated(g)
                },
                None => forall|g: int|
                    0 <= g < old(self).frames_limit() ==> old(self).frame_is_allocated(g),
            },
    ;

    /// Give a frame back, marking it free.
    fn deallocate_frame(&mut self, frame_info: FrameInfo)
        requires
            old(self).alloc_wf(),
            frame_info.number < old(self).frames_limit(),
        ensures
            final(self).alloc_wf(),
            final(self).frames_limit() == old(self).frames_limit(),
            !final(self).frame_is_allocated(frame_info.number as int),
            forall|g: int|
                0 <= g < old(self).frames_limit() && g != frame_info.number
                    ==> final(self).frame_is_allocated(g) == old(self).frame_is_allocated(g),
    ;
}

impl FrameAllocator for BitMapFrameAllocator {
    open spec fn alloc_wf(&self) -> bool {
        self.wf()
    }

    open spec fn frames_limit(&self) -> int {
        self.frames_amount as int
    }

    open spec fn frame_is_allocated(&self, f: int) -> bool {
        self.frame_allocated(f)
    }

    fn allocate_frame(&mut self) -> (r: Option<FrameInfo>) {
        let r = BitMapFrameAllocator::allocate_frame(self);
        proof {
            lemma_ceil_div_bounds(self.frames_amount as int, 8);
        }
        r
    }

    fn deallocate_frame(&mut self, frame_info: FrameInfo) {
        BitMapFrameAllocator::deallocate_frame(self, frame_info);
        proof {
            lemma_ceil_div_bounds(self.frames_amount as int, 8);
        }
    }
}

/// Whether a region is usable RAM.
pub open spec fn region_usable(r: MemoryRegion) -> bool {
    r.entry_type is Usable
}

/// The largest end address over all regions of the map.
pub open spec fn spec_memory_end(s: Seq<MemoryRegion>) -> int
    decreases s.len(),
{
    if s.len() == 0 {
        0
    } else {
        let rest = spec_memory_end(s.drop_last());
        if s.last().end_address >= rest {
            s.last().end_address as int
        } else {
            rest
        }
    }
}

/// Number of whole frames below the end of memory.
pub open spec fn spec_frames_amount(s: Seq<MemoryRegion>) -> int {
    spec_memory_end(s) / (FRAME_SIZE as int)
}

/// Bytes the bitmap needs: one bit per tracked frame.
pub open spec fn spec_bitmap_bytes(s: Seq<MemoryRegion>) -> int {
    spec_ceil_div(spec_frames_amount(s), 8)
}

/// Whole frames the bitmap needs.
pub open spec fn spec_bitmap_frames(s: Seq<MemoryRegion>) -> int {
    spec_ceil_div(spec_bitmap_bytes(s), FRAME_SIZE as int)
}

/// Whether a usable region has room for `cont + 1` frames starting at the
/// first frame boundary at or above its start.
pub open spec fn region_fits_bitmap(r: MemoryRegion, cont: int) -> bool {
    &&& region_usable(r)
    &&& (spec_ceil_div(r.start_address as int, FRAME_SIZE as int) + cont + 1) * (FRAME_SIZE as int)
        <= r.end_address
}

/// Whether frame `f` intersects the non-usable region `r`.
pub open spec fn nonusable_covers(r: MemoryRegion, f: int) -> bool {
    &&& !region_usable(r)
    &&& r.start_address as int / (FRAME_SIZE as int) <= f
        < spec_ceil_div(r.end_address as int, FRAME_SIZE as int)
}

/// Whether frame `f` lies in the gap between consecutive regions `a` and `b`.
pub open spec fn gap_covers(a: MemoryRegion, b: MemoryRegion, f: int) -> bool {
    a.end_address as int / (FRAME_SIZE as int) <= f
        < spec_ceil_div(b.start_address as int, FRAME_SIZE as int)
}

/// Whether frame `f` intersects some non-usable region of the map.
pub open spec fn frame_in_nonusable(s: Seq<MemoryRegion>, f: int) -> bool {
    exists|k: int| 0 <= k < s.len() && #[trigger] nonusable_covers(s[k], f)
}

/// Whether frame `f` lies in some gap between consecutive regions.
pub open spec fn frame_in_gap(s: Seq<MemoryRegion>, f: int) -> bool {
    exists|k: int| 0 <= k && k + 1 < s.len() && #[trigger] gap_covers(s[k], s[k + 1], f)
}

/// Whether frame `f` belongs to the run of frames that store the bitmap.
pub open spec fn frame_in_bitmap_run(a: BitMapFrameAllocator, f: int) -> bool {
    a.bitmap_frame <= f < a.bitmap_frame + a.bitmap_size_in_frames
}

/// Every region's end address is at most the map's highest end address.
proof fn lemma_memory_end_covers(s: Seq<MemoryRegion>, k: int)
    requires
        0 <= k < s.len(),
    ensures
        s[k].end_address <= spec_memory_end(s),
    decreases s.len(),
{
    if k + 1 < s.len() {
        lemma_memory_end_covers(s.drop_last(), k);
    }
}

/// For tracked frames, clamping a byte range at the end of the tracked
/// frames does not change which frames the range covers.
proof fn lemma_clamped_range(end: int, frames: int, fsz: int, clamped: int)
    requires
        fsz >= 1,
        frames >= 0,
        end >= 0,
        clamped == if end <= frames * fsz { end } else { frames * fsz },
    ensures
        spec_ceil_div(clamped, fsz) == spec_ceil_div(end, fsz)
            || (spec_ceil_div(clamped, fsz) == frames && spec_ceil_div(end, fsz) >= frames),
{
    if end > frames * fsz {
        crate::utils::lemma_ceil_div_shift(frames, 0, fsz);
        crate::utils::lemma_ceil_div_mono(frames * fsz, end, fsz);
        assert(spec_ceil_div(clamped, fsz) == frames);
    }
}

/// The position of the lowest clear bit of `x`: the number of trailing one
/// bits under a little-endian bit order.
pub fn first_zero_bit(x: u8) -> (r: u8)
    requires
        x != 255,
    ensures
        r < 8,
        ((x >> r) & 1u8) == 0u8,
        forall|i: u8| i < r ==> ((x >> i) & 1u8) == 1u8,
{
    let mut i: u8 = 0;
    while i < 8
        invariant
            i <= 8,
            forall|j: u8| j < i ==> ((x >> j) & 1u8) == 1u8,
        decreases 8 - i,
    {
        if (x >> i) & 1 == 0 {
            return i;
        }
        proof {
            assert(((x >> i) & 1u8) != 0u8 ==> ((x >> i) & 1u8) == 1u8) by (bit_vector);
        }
        i = i + 1;
    }
    proof {
        assert(x == 255u8) by (bit_vector)
            requires
                ((x >> 0u8) & 1u8) == 1u8,
                ((x >> 1u8) & 1u8) == 1u8,
                ((x >> 2u8) & 1u8) == 1u8,
                ((x >> 3u8) & 1u8) == 1u8,
                ((x >> 4u8) & 1u8) == 1u8,
                ((x >> 5u8) & 1u8) == 1u8,
                ((x >> 6u8) & 1u8) == 1u8,
                ((x >> 7u8) & 1u8) == 1u8;
    }
    0
}

/// Division of `a` by `b`, rounded up, on 64-bit values.
pub fn ceil_div_u64(a: u64, b: u64) -> (r: u64)
    requires
        b >= 1,
    ensures
        r == spec_ceil_div(a as int, b as int),
{
    let q = a / b;
    let rem = a % b;
    if rem != 0 {
        proof {
            vstd::arithmetic::div_mod::lemma_fundamental_div_mod(a as int, b as int);
            vstd::arithmetic::div_mod::lemma_mod_bound(a as int, b as int);
            vstd::arithmetic::div_mod::lemma_div_pos_is_pos(a as int, b as int);
            assert(q < a) by (nonlinear_arith)
                requires a == b * q + rem, rem >= 1, b >= 2, q >= 0;
        }
        q + 1
    } else {
        q
    }
}

} // verus!
