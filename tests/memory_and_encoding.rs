use cerium::allocator::{Allocator, MemoryBlockStatus};
use cerium::assembler::{assemble_casm_program, CasmAssembler};
use cerium::growable_memory::{GrowableMemoryBlock, MAX_MEMORY};
use cerium::instruction::{decode, BinOp, Condition, Instruction, Location, Register, Type};
use cerium::memory_buffer::MemoryBuffer;
use cerium::multimap::OrderedSetMultiMap;
use cerium::ram::RAM;
use cerium::types::{CeriumError, Pointer, Size};

fn blocks(a: &Allocator) -> Vec<(u32, u32, bool)> {
    (0..a.block_count())
        .map(|i| {
            let b = a.block_at(i);
            (b.span.start, b.span.end, b.status == MemoryBlockStatus::FREE)
        })
        .collect()
}

fn check_invariants(a: &Allocator) {
    let bs = blocks(a);
    let mut expected_start = 0;
    for (k, &(start, end, free)) in bs.iter().enumerate() {
        assert_eq!(start, expected_start);
        assert!(start < end);
        expected_start = end;
        if k + 1 < bs.len() {
            assert!(!(free && bs[k + 1].2), "adjacent free blocks");
        } else {
            assert!(!free, "trailing free block");
        }
        let size = end - start;
        assert_eq!(a.free_blocks().get_ptrs_with_size(size).contains(&start), free);
    }
    assert_eq!(expected_start, a.last_heap_ptr());
}

#[test]
fn assembler_round_trip() {
    let assembly = CasmAssembler::assemble("add i r1 <- r2 ; r3").unwrap();
    assert_eq!(assembly.bytes, vec![0b11101010, 0b00100011, 0b00010000]);
    let again = assemble_casm_program("add i r1 <- r2 ; r3").unwrap();
    assert_eq!(again.bytes, assembly.bytes);
}

#[test]
fn label_resolution_patches_immediate() {
    let source = "halt\nhalt\nHERE:\nlod r1 <- HERE\nlod r2 <- LATER\nLATER:\nhalt\n";
    let bytes = CasmAssembler::assemble(source).unwrap().bytes;
    assert_eq!(bytes[2], 0b00110001);
    assert_eq!(&bytes[3..7], &[0, 0, 0, 2]);
    assert_eq!(bytes[7], 0b00110010);
    assert_eq!(&bytes[8..12], &[0, 0, 0, 12]);
}

#[test]
fn encodings_follow_the_table() {
    let cases: Vec<(&str, Vec<u8>)> = vec![
        ("mov i r1 <- b @r2", vec![0b0000_0010, 0b1010_0001]),
        ("lod r1 <- b -1", vec![0b0001_0001, 0xFF]),
        ("lod @r3 <- s 0x1234", vec![0b0010_1011, 0x12, 0x34]),
        ("lod sp <- i 4294967295", vec![0b0011_0000, 0xFF, 0xFF, 0xFF, 0xFF]),
        ("halt", vec![0b0100_0000]),
        ("memcpy r1 <- r2 ; r3", vec![0b0101_0011, 0b0010_0001]),
        ("new r1 <- r2", vec![0b0110_0000, 0b0010_0001]),
        ("del r5", vec![0b0111_0101]),
        ("neg s r1 <- r2", vec![0b1000_0100, 0b0010_0001]),
        ("not b r1 <- r2", vec![0b1001_0000, 0b0010_0001]),
        ("input <- r6", vec![0b1010_0110]),
        ("output <- @r7", vec![0b1011_1111]),
        ("cmp r1 <- i r2 >=", vec![0b1110_1110, 0b0010_0110, 0b0001_0000]),
        ("jmp r1 always", vec![0b1100_1111, 0b0000_1110, 0b0001_0000]),
        ("jmp r1 if f r2 <", vec![0b1111_1111, 0b0010_1000, 0b0001_0000]),
        ("xor b r1 <- r2 ; r3", vec![0b1100_0001, 0b0010_0011, 0b0001_0000]),
        ("or b r1 <- r2 ; r3", vec![0b1100_0010, 0b0010_0011, 0b0001_0000]),
        ("and b r1 <- r2 ; r3", vec![0b1100_0011, 0b0010_0011, 0b0001_0000]),
        ("shl s r1 <- r2 ; r3", vec![0b1101_0110, 0b0010_0011, 0b0001_0000]),
        ("shr s r1 <- r2 ; r3", vec![0b1101_0111, 0b0010_0011, 0b0001_0000]),
        ("mul i r1 <- r2 ; r3", vec![0b1110_1001, 0b0010_0011, 0b0001_0000]),
        ("sub i r1 <- r2 ; r3", vec![0b1110_1011, 0b0010_0011, 0b0001_0000]),
        ("div f r1 <- r2 ; r3", vec![0b1111_1100, 0b0010_0011, 0b0001_0000]),
        ("mod f r1 <- r2 ; r3", vec![0b1111_1101, 0b0010_0011, 0b0001_0000]),
        ("  // a comment\n\n  halt  ", vec![0b0100_0000]),
    ];
    for (source, expected) in cases {
        assert_eq!(CasmAssembler::assemble(source).unwrap().bytes, expected, "{source}");
    }
}

#[test]
fn decode_inverts_encode() {
    let loc = |register, indirect| Location { register, indirect };
    let instrs = vec![
        Instruction::BinOp { op: BinOp::MOD, ty: Type::Int16, src1: loc(Register::R2, true), src2: loc(Register::SP, false), dst: loc(Register::R7, true) },
        Instruction::Jmp { ty: Type::Float, src: loc(Register::R3, false), tgt: loc(Register::R4, true), cnd: Condition::LE },
        Instruction::Lod32(loc(Register::R5, false), 0xCAFEBABE),
        Instruction::Lod16(loc(Register::R1, true), 0xBEEF),
    ];
    for i in instrs {
        let program = MemoryBuffer::from_bytes(i.encode());
        let (back, len) = decode(&program, 0).unwrap();
        assert_eq!(back, i);
        assert_eq!(len, i.encode().len());
    }
}

#[test]
fn big_endian_round_trip() {
    let mut m = GrowableMemoryBlock::new();
    for (offset, width, value) in [(0u32, 1u32, 0xABu32), (7, 2, 0xBEEF), (13, 4, 0xDEADBEEF), (301, 4, 0x0102_0304), (1000, 2, 0xFFFF)] {
        m.write(offset, width, value).unwrap();
        assert_eq!(m.read(offset, width).unwrap(), value);
    }
    m.write(20, 4, 0x0A0B0C0D).unwrap();
    assert_eq!(m.read(20, 1).unwrap(), 0x0A);
    assert_eq!(m.read(22, 2).unwrap(), 0x0C0D);
    assert_eq!(m.write(MAX_MEMORY - 2, 4, 1), Err(CeriumError::MemoryLimit));
}

#[test]
fn growth_goes_to_powers_of_two() {
    let mut m = GrowableMemoryBlock::new();
    assert_eq!(m.size(), 256);
    m.resize_to_fit(300).unwrap();
    assert_eq!(m.size(), 512);
    m.resize_to_fit(100).unwrap();
    assert_eq!(m.size(), 512);
    assert_eq!(m.resize_to_fit(MAX_MEMORY + 1), Err(CeriumError::MemoryLimit));
}

#[test]
fn coalescing_three_blocks() {
    let mut a = Allocator::new();
    let pa = a.allocate(Size(16));
    let pb = a.allocate(Size(16));
    let pc = a.allocate(Size(16));
    let pd = a.allocate(Size(16));
    a.deallocate(pa).unwrap();
    a.deallocate(pc).unwrap();
    a.deallocate(pb).unwrap();
    check_invariants(&a);
    assert_eq!(blocks(&a), vec![(0, 48, true), (48, 64, false)]);
    assert_eq!(a.free_blocks().get_first_ptr_with_min_size(1), Some((48, 0)));
    a.deallocate(pd).unwrap();
    assert_eq!(blocks(&a), vec![]);
}

#[test]
fn coalescing_without_a_successor_empties_the_heap() {
    let mut a = Allocator::new();
    let pa = a.allocate(Size(16));
    let pb = a.allocate(Size(16));
    let pc = a.allocate(Size(16));
    assert!(a.last_heap_ptr() <= 48);
    a.deallocate(pa).unwrap();
    a.deallocate(pc).unwrap();
    assert!(a.last_heap_ptr() <= 48);
    a.deallocate(pb).unwrap();
    assert_eq!(blocks(&a), vec![]);
    assert_eq!(a.last_heap_ptr(), 0);
}

#[test]
fn split_and_reuse() {
    let mut a = Allocator::new();
    let keep = a.allocate(Size(8));
    let p = a.allocate(Size(64));
    let tail = a.allocate(Size(8));
    a.deallocate(p).unwrap();
    let q = a.allocate(Size(16));
    assert_eq!(q, p);
    let r = a.allocate(Size(48));
    assert_eq!(r.0, p.0 + 16);
    check_invariants(&a);
    let _ = (keep, tail);

    let mut b = Allocator::new();
    let p = b.allocate(Size(64));
    b.deallocate(p).unwrap();
    assert_eq!(b.allocate(Size(16)), p);
    assert_eq!(b.allocate(Size(48)).0, p.0 + 16);
}

#[test]
fn best_fit_prefers_smallest_then_lowest() {
    let mut a = Allocator::new();
    let ps: Vec<Pointer> = [32, 8, 16, 8, 16, 8].iter().map(|&n| a.allocate(Size(n))).collect();
    a.deallocate(ps[0]).unwrap();
    a.deallocate(ps[2]).unwrap();
    a.deallocate(ps[4]).unwrap();
    let got = a.allocate(Size(12));
    assert_eq!(got, ps[2]);
    let block = a.block_at(2);
    assert_eq!(block.span.end - block.span.start, 12);
    check_invariants(&a);
}

#[test]
fn deallocate_errors() {
    let mut a = Allocator::new();
    let p = a.allocate(Size(8));
    let _q = a.allocate(Size(8));
    assert_eq!(a.deallocate(Pointer(3)), Err(CeriumError::InvalidPointer));
    a.deallocate(p).unwrap();
    assert_eq!(a.deallocate(p), Err(CeriumError::InvalidPointer));
}

#[test]
fn random_allocations_keep_invariants_and_release_everything() {
    let mut seed: u64 = 12345;
    let mut next = || {
        seed = seed.wrapping_mul(6364136223846793005).wrapping_add(1442695040888963407);
        (seed >> 33) as u32
    };
    for _round in 0..20 {
        let mut a = Allocator::new();
        let mut live: Vec<(Pointer, u32)> = Vec::new();
        for _ in 0..60 {
            if live.is_empty() || next() % 3 != 0 {
                let n = 1 + next() % 40;
                let p = a.allocate(Size(n));
                let k = blocks(&a).iter().position(|b| b.0 == p.0).unwrap();
                let b = a.block_at(k);
                assert_eq!(b.span.end - b.span.start, n);
                live.push((p, n));
            } else {
                let k = (next() as usize) % live.len();
                let (p, _) = live.swap_remove(k);
                a.deallocate(p).unwrap();
            }
            check_invariants(&a);
        }
        while !live.is_empty() {
            let k = (next() as usize) % live.len();
            let (p, _) = live.swap_remove(k);
            a.deallocate(p).unwrap();
            check_invariants(&a);
        }
        assert_eq!(a.block_count(), 0);
        assert_eq!(a.last_heap_ptr(), 0);
        assert_eq!(a.free_blocks().next_higher_key(0), None);
    }
}

#[test]
fn memcpy_overlap_moves_like_memmove() {
    let mut ram = RAM::new();
    for i in 0..10u32 {
        ram.write(Pointer(i), 1, i).unwrap();
    }
    ram.memcpy(Pointer(0), Pointer(2), Size(8)).unwrap();
    let got: Vec<u32> = (0..10).map(|i| ram.read(Pointer(i), 1).unwrap()).collect();
    assert_eq!(got, vec![0, 1, 0, 1, 2, 3, 4, 5, 6, 7]);
}

#[test]
fn ram_heap_and_stack_are_separate() {
    let mut ram = RAM::new();
    let p = ram.allocate(20).unwrap();
    assert!(p.is_heap());
    assert_eq!(p.offset(), 0);
    ram.write(p, 4, 0xDEADBEEF).unwrap();
    assert_eq!(ram.read(Pointer(0), 4).unwrap(), 0);
    assert_eq!(ram.read(p, 4).unwrap(), 0xDEADBEEF);
    assert_eq!(ram.allocate(0), Err(CeriumError::EmptyAllocation));
    assert_eq!(ram.allocate(MAX_MEMORY), Err(CeriumError::MemoryLimit));
    assert_eq!(ram.deallocate(Pointer(0)), Err(CeriumError::NonHeapPointer));
    assert_eq!(ram.at(Pointer(MAX_MEMORY), 1), Err(CeriumError::MemoryLimit));
    assert_eq!(ram.memcpy(Pointer(0), Pointer(MAX_MEMORY - 1), Size(2)), Err(CeriumError::MemoryLimit));
    ram.deallocate(p).unwrap();
}

#[test]
fn multimap_orders_keys_and_values() {
    let mut m = OrderedSetMultiMap::new();
    m.insert(5, 30);
    m.insert(5, 10);
    m.insert(2, 99);
    m.insert(5, 10);
    assert_eq!(m.get(5), vec![10, 30]);
    assert_eq!(m.next_higher_key(3), Some(5));
    assert_eq!(m.next_higher_key(6), None);
    assert_eq!(m.first_value_for(5), Some(10));
    assert_eq!(m.remove_first_value_for(5), Some(10));
    assert_eq!(m.get(5), vec![30]);
    m.remove(5, 30);
    assert_eq!(m.remove_first_value_for(5), None);
    assert_eq!(m.get(2), vec![99]);
}

#[test]
fn memory_buffer_basics() {
    let mut b = MemoryBuffer::new();
    assert_eq!(b.size(), 0);
    b.push(1);
    b.extend(&[2, 3, 4]);
    assert_eq!(b.read(0, 4), 0x01020304);
    b.resize(6);
    assert_eq!(b.size(), 6);
    b.write(4, 2, 0xABCD);
    assert_eq!(b.byte(4), 0xAB);
    assert_eq!(b.byte(5), 0xCD);
}
