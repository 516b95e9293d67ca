//! Machine words, sizes and tagged pointers.

use vstd::prelude::*;

verus! {

/// The machine word: an unsigned 32-bit integer.
pub type CeWord = u32;

/// The address bit that selects the heap region; clear means the stack.
pub const HEAP_PTR_BIT: u32 = 0x8000_0000;

/// The mask that strips the region bit from an address.
pub const OFFSET_MASK: u32 = 0x7fff_ffff;

/// What can go wrong while running a program or managing its memory.
#[derive(Copy, Clone, PartialEq, Eq, Structural, Debug)]
pub enum CeriumError {
    /// A memory region would have to grow beyond its maximum size.
    MemoryLimit,
    /// An allocation of zero bytes was requested.
    EmptyAllocation,
    /// No used heap block starts at the pointer handed to `deallocate`.
    InvalidPointer,
    /// A stack pointer was handed to `deallocate`.
    NonHeapPointer,
    /// The operation is not defined on the operand type (bitwise work on floats).
    UnsupportedType,
    /// Division or remainder by zero.
    DivisionByZero,
    /// The instruction at the instruction pointer does not lie within the program.
    InstructionOutOfRange,
    /// `step` was called on a machine that has halted, faulted or waits for a value.
    NotRunning,
    /// A value was supplied while the machine was not waiting for one.
    NothingPending,
}

/// A byte count.
#[derive(Copy, Clone, PartialEq, Eq, Structural, Debug, Hash, Default)]
pub struct Size(pub u32);

impl Size {
    pub fn new(value: u32) -> (r: Size)
        ensures
            r.0 == value,
    {
        Size(value)
    }

    pub fn value(self) -> (r: u32)
        ensures
            r == self.0,
    {
        self.0
    }
}

/// A 32-bit address whose top bit selects the region (heap when set) and
/// whose remaining 31 bits are an offset into that region.
#[derive(Copy, Clone, PartialEq, Eq, Structural, Debug, Hash, Default)]
pub struct Pointer(pub u32);

/// Whether an address points into the heap region.
pub open spec fn spec_is_heap(addr: u32) -> bool {
    addr >= HEAP_PTR_BIT
}

/// The offset of an address within its region.
pub open spec fn spec_offset(addr: u32) -> nat {
    if addr >= HEAP_PTR_BIT {
        (addr - HEAP_PTR_BIT) as nat
    } else {
        addr as nat
    }
}

impl Pointer {
    pub fn new(value: u32) -> (r: Pointer)
        ensures
            r.0 == value,
    {
        Pointer(value)
    }

    pub fn value(self) -> (r: u32)
        ensures
            r == self.0,
    {
        self.0
    }

    /// The heap address of a heap offset.
    pub fn heap(offset: u32) -> (r: Pointer)
        requires
            offset < HEAP_PTR_BIT,
        ensures
            spec_is_heap(r.0),
            spec_offset(r.0) == offset,
    {
        assert((offset | HEAP_PTR_BIT) == offset + HEAP_PTR_BIT) by (bit_vector)
            requires
                offset < 0x8000_0000u32,
        ;
        Pointer(offset | HEAP_PTR_BIT)
    }

    pub fn is_heap(self) -> (r: bool)
        ensures
            r == spec_is_heap(self.0),
    {
        let v = self.0;
        assert((v & HEAP_PTR_BIT != 0) == (v >= 0x8000_0000u32)) by (bit_vector);
        v & HEAP_PTR_BIT != 0
    }

    /// The offset within the region, with the region bit stripped.
    pub fn offset(self) -> (r: u32)
        ensures
            r == spec_offset(self.0),
            r < HEAP_PTR_BIT,
    {
        let v = self.0;
        assert(v & 0x7fff_ffffu32 == (if v >= 0x8000_0000u32 { (v - 0x8000_0000u32) as u32 } else { v })) by (bit_vector);
        v & OFFSET_MASK
    }
}

} // verus!
