//! A machine register: one 32-bit word. Typed access sees the word as four
//! big-endian bytes, so a narrow value occupies its high-order bytes.

use vstd::prelude::*;
use crate::values::{modulus, int_width};

verus! {

/// The factor that places a `width`-byte value in the high-order bytes of a word.
pub open spec fn lane(width: nat) -> int {
    if width == 1 {
        0x100_0000
    } else if width == 2 {
        0x1_0000
    } else {
        1
    }
}

/// The `width`-byte value held in the high-order bytes of `word`.
pub open spec fn reg_read(word: u32, width: nat) -> u32 {
    (word as int / lane(width)) as u32
}

/// `word` with its `width` high-order bytes replaced by `v`.
pub open spec fn reg_write(word: u32, width: nat, v: u32) -> u32 {
    (v as int * lane(width) + word as int % lane(width)) as u32
}

#[derive(Copy, Clone, Debug)]
pub struct Register {
    value: u32,
}

impl View for Register {
    type V = u32;

    closed spec fn view(&self) -> u32 {
        self.value
    }
}

impl Register {
    pub fn new() -> (r: Register)
        ensures
            r@ == 0,
    {
        Register { value: 0 }
    }

    /// The whole word.
    pub fn value(&self) -> (r: u32)
        ensures
            r == self@,
    {
        self.value
    }

    /// The value of `width` bytes held in the register.
    pub fn get(&self, width: u32) -> (r: u32)
        requires
            int_width(width as nat),
        ensures
            r == reg_read(self@, width as nat),
            r < modulus(width as nat),
    {
        if width == 4 {
            self.value
        } else if width == 2 {
            self.value / 0x1_0000
        } else {
            self.value / 0x100_0000
        }
    }

    /// Stores a value of `width` bytes in the register.
    pub fn set(&mut self, width: u32, v: u32)
        requires
            int_width(width as nat),
            v < modulus(width as nat),
        ensures
            final(self)@ == reg_write(old(self)@, width as nat, v),
    {
        if width == 4 {
            self.value = v;
        } else if width == 2 {
            self.value = v * 0x1_0000 + self.value % 0x1_0000;
        } else {
            self.value = v * 0x100_0000 + self.value % 0x100_0000;
        }
    }
}

} // verus!
