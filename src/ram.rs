//! The machine's memory: a stack region and a heap region sharing one tagged
//! 32-bit address space, and the allocator that manages the heap.

use vstd::prelude::*;
use crate::allocator::{Allocator, MemoryBlockInfo, MemoryBlockStatus, best_fit, split_layout, block, is_free, coalesce_layout};
use crate::growable_memory::{GrowableMemoryBlock, MAX_MEMORY, splice, lemma_pow2_at_least_ge};
use crate::memory_buffer::{be_value, be_bytes, valid_width};
use crate::types::{CeriumError, Pointer, Size, spec_is_heap, spec_offset};

verus! {

/// The blocks and frontier after allocating `n` bytes, and the offset handed out.
pub open spec fn allocation(s: Seq<MemoryBlockInfo>, frontier: nat, n: nat) -> (Seq<MemoryBlockInfo>, nat, nat) {
    match best_fit(s, n) {
        Some(i) => (split_layout(s, i, n), frontier, s[i].span.start as nat),
        None => (s.push(block(frontier as u32, (frontier + n) as u32, MemoryBlockStatus::USED)), frontier + n, frontier),
    }
}

/// The bytes that `width` bytes at `offset` of a region spell, big-endian.
pub open spec fn region_read(region: Seq<u8>, offset: nat, width: nat) -> nat {
    be_value(region.subrange(offset as int, (offset + width) as int))
}

pub struct RAM {
    stack_memory: GrowableMemoryBlock,
    heap_memory: GrowableMemoryBlock,
    allocator: Allocator,
}

impl RAM {
    pub closed spec fn stack(&self) -> Seq<u8> {
        self.stack_memory.contents()
    }

    pub closed spec fn heap(&self) -> Seq<u8> {
        self.heap_memory.contents()
    }

    pub closed spec fn allocator(&self) -> Allocator {
        self.allocator
    }

    /// The number of stack bytes physically present.
    pub closed spec fn stack_size(&self) -> nat {
        self.stack_memory.physical().len()
    }

    /// The number of heap bytes physically present.
    pub closed spec fn heap_size(&self) -> nat {
        self.heap_memory.physical().len()
    }

    /// The physical size of the region that an address selects.
    pub open spec fn region_size(&self, addr: u32) -> nat {
        if spec_is_heap(addr) {
            self.heap_size()
        } else {
            self.stack_size()
        }
    }

    /// Neither region shrinks from `self` to `other`.
    pub open spec fn no_shrink(&self, other: &RAM) -> bool {
        other.stack_size() >= self.stack_size() && other.heap_size() >= self.heap_size()
    }

    /// The contents of the region that an address selects.
    pub open spec fn region(&self, addr: u32) -> Seq<u8> {
        if spec_is_heap(addr) {
            self.heap()
        } else {
            self.stack()
        }
    }

    pub closed spec fn wf(&self) -> bool {
        &&& self.stack_memory.wf()
        &&& self.heap_memory.wf()
        &&& self.allocator.wf()
        &&& self.allocator.frontier() <= MAX_MEMORY
    }

    pub proof fn lemma_regions_len(&self)
        requires
            self.wf(),
        ensures
            self.stack().len() == MAX_MEMORY,
            self.heap().len() == MAX_MEMORY,
            self.allocator().wf(),
            self.allocator().frontier() <= MAX_MEMORY,
    {
    }

    pub fn new() -> (r: RAM)
        ensures
            r.wf(),
            r.stack() == Seq::new(MAX_MEMORY as nat, |i: int| 0u8),
            r.heap() == Seq::new(MAX_MEMORY as nat, |i: int| 0u8),
            r.allocator().blocks() == Seq::<MemoryBlockInfo>::empty(),
            r.allocator().frontier() == 0,
            r.stack_size() == crate::growable_memory::INITIAL_MEMORY,
            r.heap_size() == crate::growable_memory::INITIAL_MEMORY,
    {
        RAM { stack_memory: GrowableMemoryBlock::new(), heap_memory: GrowableMemoryBlock::new(), allocator: Allocator::new() }
    }

    /// The allocator that manages the heap.
    pub fn heap_allocator(&self) -> (r: &Allocator)
        ensures
            *r == self.allocator(),
    {
        &self.allocator
    }

    /// Reads `width` bytes at `ptr` as a big-endian number, growing its region as needed.
    pub fn read(&mut self, ptr: Pointer, width: u32) -> (r: Result<u32, CeriumError>)
        requires
            old(self).wf(),
            valid_width(width as nat),
        ensures
            final(self).wf(),
            old(self).no_shrink(final(self)),
            r is Ok ==> final(self).region_size(ptr.0) >= spec_offset(ptr.0) + width,
            final(self).stack() == old(self).stack(),
            final(self).heap() == old(self).heap(),
            final(self).allocator() == old(self).allocator(),
            spec_offset(ptr.0) + width > MAX_MEMORY ==> r == Err::<u32, CeriumError>(CeriumError::MemoryLimit),
            spec_offset(ptr.0) + width <= MAX_MEMORY ==> r == Ok::<u32, CeriumError>(
                region_read(old(self).region(ptr.0), spec_offset(ptr.0), width as nat) as u32,
            ),
    {
        let offset = ptr.offset();
        if ptr.is_heap() {
            self.heap_memory.read(offset, width)
        } else {
            self.stack_memory.read(offset, width)
        }
    }

    /// Writes the `width` low-order bytes of `value` at `ptr`, most significant first.
    pub fn write(&mut self, ptr: Pointer, width: u32, value: u32) -> (r: Result<(), CeriumError>)
        requires
            old(self).wf(),
            valid_width(width as nat),
        ensures
            final(self).wf(),
            old(self).no_shrink(final(self)),
            r is Ok ==> final(self).region_size(ptr.0) >= spec_offset(ptr.0) + width,
            final(self).allocator() == old(self).allocator(),
            spec_offset(ptr.0) + width > MAX_MEMORY ==> r == Err::<(), CeriumError>(CeriumError::MemoryLimit)
                && final(self).stack() == old(self).stack() && final(self).heap() == old(self).heap(),
            spec_offset(ptr.0) + width <= MAX_MEMORY ==> r is Ok && if spec_is_heap(ptr.0) {
                final(self).heap() == splice(old(self).heap(), spec_offset(ptr.0) as int, be_bytes(value as nat, width as nat))
                    && final(self).stack() == old(self).stack()
            } else {
                final(self).stack() == splice(old(self).stack(), spec_offset(ptr.0) as int, be_bytes(value as nat, width as nat))
                    && final(self).heap() == old(self).heap()
            },
    {
        let offset = ptr.offset();
        if ptr.is_heap() {
            self.heap_memory.write(offset, width, value)
        } else {
            self.stack_memory.write(offset, width, value)
        }
    }

    /// Makes sure that `width` bytes at `ptr` are present, growing the region if needed.
    pub fn at(&mut self, ptr: Pointer, width: u32) -> (r: Result<(), CeriumError>)
        requires
            old(self).wf(),
            valid_width(width as nat),
        ensures
            final(self).wf(),
            old(self).no_shrink(final(self)),
            r is Ok ==> final(self).region_size(ptr.0) >= spec_offset(ptr.0) + width,
            final(self).stack() == old(self).stack(),
            final(self).heap() == old(self).heap(),
            final(self).allocator() == old(self).allocator(),
            r is Ok <==> spec_offset(ptr.0) + width <= MAX_MEMORY,
            r is Err ==> r == Err::<(), CeriumError>(CeriumError::MemoryLimit),
    {
        let offset = ptr.offset();
        let r = if ptr.is_heap() {
            self.heap_memory.at(offset, width)
        } else {
            self.stack_memory.at(offset, width)
        };
        match r {
            Ok(_) => Ok(()),
            Err(e) => Err(e),
        }
    }

    /// Allocates `size` heap bytes and returns their heap-tagged address.
    pub fn allocate(&mut self, size: u32) -> (r: Result<Pointer, CeriumError>)
        requires
            old(self).wf(),
        ensures
            final(self).wf(),
            old(self).no_shrink(final(self)),
            r matches Ok(p) ==> final(self).heap_size() >= spec_offset(p.0) + size,
            final(self).stack() == old(self).stack(),
            final(self).heap() == old(self).heap(),
            size == 0 ==> r == Err::<Pointer, CeriumError>(CeriumError::EmptyAllocation),
            size > 0 && best_fit(old(self).allocator().blocks(), size as nat) is None
                && old(self).allocator().frontier() + size > MAX_MEMORY ==> r == Err::<Pointer, CeriumError>(
                CeriumError::MemoryLimit,
            ),
            r is Err ==> final(self).allocator() == old(self).allocator(),
            r is Ok <==> size > 0 && (best_fit(old(self).allocator().blocks(), size as nat) is Some
                || old(self).allocator().frontier() + size <= MAX_MEMORY),
            r matches Ok(p) ==> ({
                let a = allocation(old(self).allocator().blocks(), old(self).allocator().frontier(), size as nat);
                &&& spec_is_heap(p.0)
                &&& spec_offset(p.0) == a.2
                &&& final(self).allocator().blocks() == a.0
                &&& final(self).allocator().frontier() == a.1
            }),
    {
        if size == 0 {
            return Err(CeriumError::EmptyAllocation);
        }
        let fits = self.allocator.free_blocks().get_first_ptr_with_min_size(size);
        proof {
            crate::allocator::lemma_tiles_ordered(self.allocator.blocks(), self.allocator.frontier());
            let s = self.allocator.blocks();
            if fits is None {
                assert forall|j: int| !crate::allocator::is_best_fit(s, j, size as nat) by {
                    if crate::allocator::is_best_fit(s, j, size as nat) {
                        assert(crate::allocator::free_set(s).contains(crate::allocator::free_entry(s[j])));
                    }
                }
            } else {
                let e = fits->Some_0;
                let k = choose|k: int| 0 <= k < s.len() && is_free(#[trigger] s[k]) && e == crate::allocator::free_entry(s[k]);
                assert(crate::allocator::is_best_fit(s, k, size as nat)) by {
                    assert forall|j: int| 0 <= j < s.len() && is_free(#[trigger] s[j]) && crate::allocator::block_size(s[j]) >= size implies crate::allocator::block_size(s[k])
                        < crate::allocator::block_size(s[j]) || (crate::allocator::block_size(s[k]) == crate::allocator::block_size(s[j]) && s[k].span.start <= s[j].span.start) by {
                        assert(crate::allocator::free_set(s).contains(crate::allocator::free_entry(s[j])));
                    }
                }
            }
        }
        if fits.is_none() && self.allocator.last_heap_ptr() as u64 + size as u64 > MAX_MEMORY as u64 {
            return Err(CeriumError::MemoryLimit);
        }
        let heap_ptr = self.allocator.allocate(Size(size));
        proof {
            let s = old(self).allocator().blocks();
            let n = size as nat;
            match best_fit(s, n) {
                Some(i) => {
                    crate::allocator::lemma_tiles_ordered(s, old(self).allocator().frontier());
                    assert(s[i].span.end <= old(self).allocator().frontier());
                },
                None => {},
            }
            let t = self.allocator.blocks();
            let k = choose|k: int| 0 <= k < t.len() && #[trigger] t[k] == block(heap_ptr.0, (heap_ptr.0 + size) as u32, MemoryBlockStatus::USED);
            crate::allocator::lemma_tiles_ordered(t, self.allocator.frontier());
            assert(t[k].span.end <= self.allocator.frontier());
        }
        match self.heap_memory.resize_to_fit(heap_ptr.0 + size) {
            Ok(()) => {
                proof {
                    lemma_pow2_at_least_ge((heap_ptr.0 + size) as nat, 1);
                }
            },
            Err(e) => {
                return Err(e);
            },
        }
        Ok(Pointer::heap(heap_ptr.0))
    }

    /// Releases the heap block that `ptr` points at; fails for stack addresses
    /// and for addresses where no used block starts.
    pub fn deallocate(&mut self, ptr: Pointer) -> (r: Result<(), CeriumError>)
        requires
            old(self).wf(),
        ensures
            final(self).wf(),
            old(self).no_shrink(final(self)),
            final(self).stack() == old(self).stack(),
            final(self).heap() == old(self).heap(),
            !spec_is_heap(ptr.0) ==> r == Err::<(), CeriumError>(CeriumError::NonHeapPointer),
            r is Err ==> final(self).allocator().blocks() == old(self).allocator().blocks(),
            spec_is_heap(ptr.0) ==> (r is Ok <==> exists|i: int|
                0 <= i < old(self).allocator().blocks().len() && (#[trigger] old(self).allocator().blocks()[i]).span.start == spec_offset(ptr.0)
                    && !is_free(old(self).allocator().blocks()[i])),
            spec_is_heap(ptr.0) && r is Err ==> r == Err::<(), CeriumError>(CeriumError::InvalidPointer),
            r is Ok ==> forall|i: int|
                0 <= i < old(self).allocator().blocks().len() && (#[trigger] old(self).allocator().blocks()[i]).span.start == spec_offset(ptr.0)
                    ==> final(self).allocator().blocks() == coalesce_layout(old(self).allocator().blocks(), i),
    {
        if !ptr.is_heap() {
            return Err(CeriumError::NonHeapPointer);
        }
        let heap_ptr = Pointer(ptr.offset());
        proof {
            crate::allocator::lemma_tiles_ordered(self.allocator.blocks(), self.allocator.frontier());
        }
        let r = self.allocator.deallocate(heap_ptr);
        proof {
            let t = self.allocator.blocks();
            if t.len() > 0 {
                assert(t.last().span.end == self.allocator.frontier());
                crate::allocator::lemma_tiles_ordered(t, self.allocator.frontier());
                crate::allocator::lemma_tiles_ordered(old(self).allocator().blocks(), old(self).allocator().frontier());
                lemma_coalesced_end(old(self).allocator().blocks(), old(self).allocator().frontier(), t, spec_offset(ptr.0));
            }
        }
        r
    }

    /// Copies `length` bytes from `src` to `dst`, byte by byte, as if through a
    /// temporary buffer, so overlapping ranges copy correctly.
    pub fn memcpy(&mut self, src: Pointer, dst: Pointer, length: Size) -> (r: Result<(), CeriumError>)
        requires
            old(self).wf(),
        ensures
            final(self).wf(),
            old(self).no_shrink(final(self)),
            final(self).allocator() == old(self).allocator(),
            r is Err <==> spec_offset(src.0) + length.0 > MAX_MEMORY || spec_offset(dst.0) + length.0 > MAX_MEMORY,
            r is Err ==> r == Err::<(), CeriumError>(CeriumError::MemoryLimit) && final(self).stack() == old(self).stack()
                && final(self).heap() == old(self).heap(),
            r is Ok ==> ({
                let copied = old(self).region(src.0).subrange(spec_offset(src.0) as int, spec_offset(src.0) + length.0);
                if spec_is_heap(dst.0) {
                    final(self).heap() == splice(old(self).heap(), spec_offset(dst.0) as int, copied)
                        && final(self).stack() == old(self).stack()
                } else {
                    final(self).stack() == splice(old(self).stack(), spec_offset(dst.0) as int, copied)
                        && final(self).heap() == old(self).heap()
                }
            }),
    {
        let len = length.0;
        let src_offset = src.offset();
        let dst_offset = dst.offset();
        if src_offset as u64 + len as u64 > MAX_MEMORY as u64 || dst_offset as u64 + len as u64 > MAX_MEMORY as u64 {
            return Err(CeriumError::MemoryLimit);
        }
        let src_heap = src.is_heap();
        let dst_heap = dst.is_heap();
        let buffer = if src_heap {
            let _ = self.heap_memory.resize_to_fit(src_offset + len);
            proof { lemma_pow2_at_least_ge(src_offset as nat + len as nat, 1); }
            self.heap_memory.read_bytes(src_offset, len)
        } else {
            let _ = self.stack_memory.resize_to_fit(src_offset + len);
            proof { lemma_pow2_at_least_ge(src_offset as nat + len as nat, 1); }
            self.stack_memory.read_bytes(src_offset, len)
        };
        if dst_heap {
            let _ = self.heap_memory.resize_to_fit(dst_offset + len);
            proof { lemma_pow2_at_least_ge(dst_offset as nat + len as nat, 1); }
            self.heap_memory.write_bytes(dst_offset, &buffer);
        } else {
            let _ = self.stack_memory.resize_to_fit(dst_offset + len);
            proof { lemma_pow2_at_least_ge(dst_offset as nat + len as nat, 1); }
            self.stack_memory.write_bytes(dst_offset, &buffer);
        }
        Ok(())
    }
}

/// Coalescing never moves the end of the heap past where it was.
proof fn lemma_coalesced_end(s: Seq<MemoryBlockInfo>, frontier: nat, t: Seq<MemoryBlockInfo>, p: nat)
    requires
        crate::allocator::tiles(s, frontier),
        t.len() > 0,
        t == s || exists|i: int| 0 <= i < s.len() && s[i].span.start == p && t == coalesce_layout(s, i),
    ensures
        t.last().span.end <= frontier,
{
    crate::allocator::lemma_tiles_ordered(s, frontier);
    if t != s {
        let i = choose|i: int| 0 <= i < s.len() && s[i].span.start == p && t == coalesce_layout(s, i);
        let lo = crate::allocator::merge_low(s, i);
        let hi = crate::allocator::merge_high(s, i);
        if hi == s.len() - 1 {
            assert(t.last() == s[lo - 1]);
        } else {
            assert(t.last() == s.last());
        }
    } else {
        assert(s.last() == s[s.len() - 1]);
    }
}

} // verus!
