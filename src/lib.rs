//! A register-based virtual machine with a tagged stack/heap address space,
//! a coalescing heap allocator, and an assembler for its bytecode.

pub mod types;
pub mod memory_buffer;
pub mod growable_memory;
pub mod multimap;
pub mod allocator;
pub mod ram;
pub mod instruction;
pub mod values;
pub mod register;
pub mod vm;
pub mod text;
pub mod assembler;
