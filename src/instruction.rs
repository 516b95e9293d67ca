//! The bytecode instruction set: operand encodings, instruction encoding and decoding.

use vstd::prelude::*;
use crate::memory_buffer::{MemoryBuffer, be_bytes, be_value, lemma_be_round_trip, lemma_be_bytes_len, lemma_byte_ranges, lemma_be_value_bound};

verus! {

/// A comparison against zero. The three high bits of its 4-bit code say
/// whether "< 0", "== 0" and "> 0" satisfy it; the low bit is always 0.
#[derive(Copy, Clone, PartialEq, Eq, Structural, Debug)]
pub enum Condition {
    NEVER,
    GT,
    EQ,
    GE,
    LT,
    NE,
    LE,
    ALWAYS,
}

/// Scalar operand types.
#[derive(Copy, Clone, PartialEq, Eq, Structural, Debug)]
pub enum Type {
    Int8,
    Int16,
    Int32,
    Float,
}

#[derive(Copy, Clone, PartialEq, Eq, Structural, Debug)]
pub enum Register {
    SP,
    R1,
    R2,
    R3,
    R4,
    R5,
    R6,
    R7,
}

/// An operand: a register, or the memory at the address that a register holds.
#[derive(Copy, Clone, PartialEq, Eq, Structural, Debug)]
pub struct Location {
    pub register: Register,
    pub indirect: bool,
}

/// Ternary operations on two sources.
#[derive(Copy, Clone, PartialEq, Eq, Structural, Debug)]
pub enum BinOp {
    XOR,
    OR,
    AND,
    SHL,
    SHR,
    MUL,
    ADD,
    SUB,
    DIV,
    MOD,
}

/// Unary operations.
#[derive(Copy, Clone, PartialEq, Eq, Structural, Debug)]
pub enum UnOp {
    NEG,
    NOT,
}

#[derive(Copy, Clone, PartialEq, Eq, Structural, Debug)]
pub enum Instruction {
    Mov { src_ty: Type, dst_ty: Type, src: Location, dst: Location },
    Lod8(Location, u8),
    Lod16(Location, u16),
    Lod32(Location, u32),
    Halt,
    Memcpy { src: Location, dst: Location, size: Location },
    New { size: Location, dst: Location },
    Del { src: Location },
    Cmp { ty: Type, src: Location, dst: Location, cnd: Condition },
    Jmp { ty: Type, src: Location, tgt: Location, cnd: Condition },
    BinOp { op: BinOp, ty: Type, src1: Location, src2: Location, dst: Location },
    UnOp { op: UnOp, ty: Type, src: Location, dst: Location },
    Input(Location),
    Output(Location),
    /// A reserved ternary opcode, which does nothing.
    Nop,
}

impl Condition {
    pub open spec fn spec_code(self) -> u8 {
        match self {
            Condition::NEVER => 0b0000,
            Condition::GT => 0b0010,
            Condition::EQ => 0b0100,
            Condition::GE => 0b0110,
            Condition::LT => 0b1000,
            Condition::NE => 0b1010,
            Condition::LE => 0b1100,
            Condition::ALWAYS => 0b1110,
        }
    }

    /// The condition whose code is `bits` with the low bit ignored.
    pub open spec fn spec_from_code(bits: u8) -> Condition {
        let c = bits % 16 - bits % 2;
        if c == 0b0000 {
            Condition::NEVER
        } else if c == 0b0010 {
            Condition::GT
        } else if c == 0b0100 {
            Condition::EQ
        } else if c == 0b0110 {
            Condition::GE
        } else if c == 0b1000 {
            Condition::LT
        } else if c == 0b1010 {
            Condition::NE
        } else if c == 0b1100 {
            Condition::LE
        } else {
            Condition::ALWAYS
        }
    }

    pub fn code(self) -> (r: u8)
        ensures
            r == self.spec_code(),
            r < 16,
    {
        match self {
            Condition::NEVER => 0b0000,
            Condition::GT => 0b0010,
            Condition::EQ => 0b0100,
            Condition::GE => 0b0110,
            Condition::LT => 0b1000,
            Condition::NE => 0b1010,
            Condition::LE => 0b1100,
            Condition::ALWAYS => 0b1110,
        }
    }

    pub fn from_code(bits: u8) -> (r: Condition)
        ensures
            r == Condition::spec_from_code(bits),
    {
        let c = bits % 16 - bits % 2;
        if c == 0b0000 {
            Condition::NEVER
        } else if c == 0b0010 {
            Condition::GT
        } else if c == 0b0100 {
            Condition::EQ
        } else if c == 0b0110 {
            Condition::GE
        } else if c == 0b1000 {
            Condition::LT
        } else if c == 0b1010 {
            Condition::NE
        } else if c == 0b1100 {
            Condition::LE
        } else {
            Condition::ALWAYS
        }
    }
}

impl Type {
    pub open spec fn spec_code(self) -> u8 {
        match self {
            Type::Int8 => 0,
            Type::Int16 => 1,
            Type::Int32 => 2,
            Type::Float => 3,
        }
    }

    pub open spec fn spec_from_code(bits: u8) -> Type {
        let c = bits % 4;
        if c == 0 {
            Type::Int8
        } else if c == 1 {
            Type::Int16
        } else if c == 2 {
            Type::Int32
        } else {
            Type::Float
        }
    }

    /// The size in bytes of a value of the type.
    pub open spec fn spec_width(self) -> u32 {
        match self {
            Type::Int8 => 1,
            Type::Int16 => 2,
            _ => 4,
        }
    }

    pub fn code(self) -> (r: u8)
        ensures
            r == self.spec_code(),
            r < 4,
    {
        match self {
            Type::Int8 => 0,
            Type::Int16 => 1,
            Type::Int32 => 2,
            Type::Float => 3,
        }
    }

    pub fn from_code(bits: u8) -> (r: Type)
        ensures
            r == Type::spec_from_code(bits),
    {
        let c = bits % 4;
        if c == 0 {
            Type::Int8
        } else if c == 1 {
            Type::Int16
        } else if c == 2 {
            Type::Int32
        } else {
            Type::Float
        }
    }

    pub fn width(self) -> (r: u32)
        ensures
            r == self.spec_width(),
    {
        match self {
            Type::Int8 => 1,
            Type::Int16 => 2,
            _ => 4,
        }
    }
}

impl Register {
    pub open spec fn spec_index(self) -> u8 {
        match self {
            Register::SP => 0,
            Register::R1 => 1,
            Register::R2 => 2,
            Register::R3 => 3,
            Register::R4 => 4,
            Register::R5 => 5,
            Register::R6 => 6,
            Register::R7 => 7,
        }
    }

    pub open spec fn spec_from_index(bits: u8) -> Register {
        let c = bits % 8;
        if c == 0 {
            Register::SP
        } else if c == 1 {
            Register::R1
        } else if c == 2 {
            Register::R2
        } else if c == 3 {
            Register::R3
        } else if c == 4 {
            Register::R4
        } else if c == 5 {
            Register::R5
        } else if c == 6 {
            Register::R6
        } else {
            Register::R7
        }
    }

    pub fn index(self) -> (r: u8)
        ensures
            r == self.spec_index(),
    {
        match self {
            Register::SP => 0,
            Register::R1 => 1,
            Register::R2 => 2,
            Register::R3 => 3,
            Register::R4 => 4,
            Register::R5 => 5,
            Register::R6 => 6,
            Register::R7 => 7,
        }
    }

    pub fn from_index(bits: u8) -> (r: Register)
        ensures
            r == Register::spec_from_index(bits),
    {
        let c = bits % 8;
        if c == 0 {
            Register::SP
        } else if c == 1 {
            Register::R1
        } else if c == 2 {
            Register::R2
        } else if c == 3 {
            Register::R3
        } else if c == 4 {
            Register::R4
        } else if c == 5 {
            Register::R5
        } else if c == 6 {
            Register::R6
        } else {
            Register::R7
        }
    }
}

impl Location {
    /// The 4-bit code: the register index, with bit 3 set when indirect.
    pub open spec fn spec_code(self) -> u8 {
        if self.indirect {
            (self.register.spec_index() + 8) as u8
        } else {
            self.register.spec_index()
        }
    }

    /// The location whose code is the low four bits of `bits`.
    pub open spec fn spec_from_code(bits: u8) -> Location {
        Location { register: Register::spec_from_index(bits), indirect: (bits / 8) % 2 == 1 }
    }

    pub fn as_u8(&self) -> (r: u8)
        ensures
            r == self.spec_code(),
            r < 16,
    {
        let v = self.register.index();
        if self.indirect {
            v + 8
        } else {
            v
        }
    }

    pub fn from_u8(bits: u8) -> (r: Location)
        ensures
            r == Location::spec_from_code(bits),
    {
        Location { register: Register::from_index(bits), indirect: (bits / 8) % 2 == 1 }
    }
}

impl BinOp {
    pub open spec fn spec_code(self) -> u8 {
        match self {
            BinOp::XOR => 0b0001,
            BinOp::OR => 0b0010,
            BinOp::AND => 0b0011,
            BinOp::SHL => 0b0110,
            BinOp::SHR => 0b0111,
            BinOp::MUL => 0b1001,
            BinOp::ADD => 0b1010,
            BinOp::SUB => 0b1011,
            BinOp::DIV => 0b1100,
            BinOp::MOD => 0b1101,
        }
    }

    pub fn code(self) -> (r: u8)
        ensures
            r == self.spec_code(),
            r < 16,
    {
        match self {
            BinOp::XOR => 0b0001,
            BinOp::OR => 0b0010,
            BinOp::AND => 0b0011,
            BinOp::SHL => 0b0110,
            BinOp::SHR => 0b0111,
            BinOp::MUL => 0b1001,
            BinOp::ADD => 0b1010,
            BinOp::SUB => 0b1011,
            BinOp::DIV => 0b1100,
            BinOp::MOD => 0b1101,
        }
    }

    /// Whether the operation works on bits and so is refused for floats.
    pub open spec fn spec_integer_only(self) -> bool {
        match self {
            BinOp::XOR | BinOp::OR | BinOp::AND | BinOp::SHL | BinOp::SHR => true,
            _ => false,
        }
    }

    pub fn integer_only(self) -> (r: bool)
        ensures
            r == self.spec_integer_only(),
    {
        match self {
            BinOp::XOR | BinOp::OR | BinOp::AND | BinOp::SHL | BinOp::SHR => true,
            _ => false,
        }
    }
}

impl UnOp {
    pub open spec fn spec_code(self) -> u8 {
        match self {
            UnOp::NEG => 0b1000,
            UnOp::NOT => 0b1001,
        }
    }

    pub fn code(self) -> (r: u8)
        ensures
            r == self.spec_code(),
            r < 16,
    {
        match self {
            UnOp::NEG => 0b1000,
            UnOp::NOT => 0b1001,
        }
    }
}

/// The byte that holds two location codes, the first in the high nibble.
pub open spec fn loc_pair(a: Location, b: Location) -> u8 {
    (a.spec_code() * 16 + b.spec_code()) as u8
}

/// The byte that holds one location code in its high nibble.
pub open spec fn loc_high(a: Location) -> u8 {
    (a.spec_code() * 16) as u8
}

fn encode_mov(src_ty: Type, dst_ty: Type, src: Location, dst: Location) -> (r: Vec<u8>)
    ensures
        r@ == (Instruction::Mov { src_ty, dst_ty, src, dst }).encoding(),
{
        let r = vec![src_ty.code() * 4 + dst_ty.code(), src.as_u8() * 16 + dst.as_u8()];
        assert(r@ =~= (Instruction::Mov { src_ty, dst_ty, src, dst }).encoding());
        r
}

fn encode_lod8(loc: Location, v: u8) -> (r: Vec<u8>)
    ensures
        r@ == (Instruction::Lod8(loc, v)).encoding(),
{
        let r = vec![0x10 + loc.as_u8(), v];
        assert(r@ =~= (Instruction::Lod8(loc, v)).encoding());
        r
}

fn encode_lod16(loc: Location, v: u16) -> (r: Vec<u8>)
    ensures
        r@ == (Instruction::Lod16(loc, v)).encoding(),
{
        let mut r = vec![0x20 + loc.as_u8()];
        push_be(&mut r, v as u32, 2);
        assert(r@ =~= (Instruction::Lod16(loc, v)).encoding());
        r
}

fn encode_lod32(loc: Location, v: u32) -> (r: Vec<u8>)
    ensures
        r@ == (Instruction::Lod32(loc, v)).encoding(),
{
        let mut r = vec![0x30 + loc.as_u8()];
        push_be(&mut r, v, 4);
        assert(r@ =~= (Instruction::Lod32(loc, v)).encoding());
        r
}

fn encode_halt() -> (r: Vec<u8>)
    ensures
        r@ == (Instruction::Halt).encoding(),
{
        let r = vec![0x40u8];
        assert(r@ =~= (Instruction::Halt).encoding());
        r
}

fn encode_memcpy(src: Location, dst: Location, size: Location) -> (r: Vec<u8>)
    ensures
        r@ == (Instruction::Memcpy { src, dst, size }).encoding(),
{
        let r = vec![0x50 + size.as_u8(), src.as_u8() * 16 + dst.as_u8()];
        assert(r@ =~= (Instruction::Memcpy { src, dst, size }).encoding());
        r
}

fn encode_new(size: Location, dst: Location) -> (r: Vec<u8>)
    ensures
        r@ == (Instruction::New { size, dst }).encoding(),
{
        let r = vec![0x60u8, size.as_u8() * 16 + dst.as_u8()];
        assert(r@ =~= (Instruction::New { size, dst }).encoding());
        r
}

fn encode_del(src: Location) -> (r: Vec<u8>)
    ensures
        r@ == (Instruction::Del { src }).encoding(),
{
        let r = vec![0x70 + src.as_u8()];
        assert(r@ =~= (Instruction::Del { src }).encoding());
        r
}

fn encode_cmp(ty: Type, src: Location, dst: Location, cnd: Condition) -> (r: Vec<u8>)
    ensures
        r@ == (Instruction::Cmp { ty, src, dst, cnd }).encoding(),
{
        let r = vec![0xCE + ty.code() * 16, src.as_u8() * 16 + cnd.code(), dst.as_u8() * 16];
        assert(r@ =~= (Instruction::Cmp { ty, src, dst, cnd }).encoding());
        r
}

fn encode_jmp(ty: Type, src: Location, tgt: Location, cnd: Condition) -> (r: Vec<u8>)
    ensures
        r@ == (Instruction::Jmp { ty, src, tgt, cnd }).encoding(),
{
        let r = vec![0xCF + ty.code() * 16, src.as_u8() * 16 + cnd.code(), tgt.as_u8() * 16];
        assert(r@ =~= (Instruction::Jmp { ty, src, tgt, cnd }).encoding());
        r
}

fn encode_binop(op: BinOp, ty: Type, src1: Location, src2: Location, dst: Location) -> (r: Vec<u8>)
    ensures
        r@ == (Instruction::BinOp { op, ty, src1, src2, dst }).encoding(),
{
        let r = vec![0xC0 + ty.code() * 16 + op.code(), src1.as_u8() * 16 + src2.as_u8(), dst.as_u8() * 16];
        assert(r@ =~= (Instruction::BinOp { op, ty, src1, src2, dst }).encoding());
        r
}

fn encode_unop(op: UnOp, ty: Type, src: Location, dst: Location) -> (r: Vec<u8>)
    ensures
        r@ == (Instruction::UnOp { op, ty, src, dst }).encoding(),
{
        let r = vec![op.code() * 16 + ty.code() * 4, src.as_u8() * 16 + dst.as_u8()];
        assert(r@ =~= (Instruction::UnOp { op, ty, src, dst }).encoding());
        r
}

fn encode_input(loc: Location) -> (r: Vec<u8>)
    ensures
        r@ == (Instruction::Input(loc)).encoding(),
{
        let r = vec![0xA0 + loc.as_u8()];
        assert(r@ =~= (Instruction::Input(loc)).encoding());
        r
}

fn encode_output(loc: Location) -> (r: Vec<u8>)
    ensures
        r@ == (Instruction::Output(loc)).encoding(),
{
        let r = vec![0xB0 + loc.as_u8()];
        assert(r@ =~= (Instruction::Output(loc)).encoding());
        r
}

fn encode_nop() -> (r: Vec<u8>)
    ensures
        r@ == (Instruction::Nop).encoding(),
{
        let r = vec![0xC0u8, 0u8, 0u8];
        assert(r@ =~= (Instruction::Nop).encoding());
        r
}

impl Instruction {
    /// The bytes that encode the instruction.
    pub open spec fn encoding(self) -> Seq<u8> {
        match self {
            Instruction::Mov { src_ty, dst_ty, src, dst } => seq![
                (src_ty.spec_code() * 4 + dst_ty.spec_code()) as u8,
                loc_pair(src, dst),
            ],
            Instruction::Lod8(loc, v) => seq![(0x10 + loc.spec_code()) as u8, v],
            Instruction::Lod16(loc, v) => seq![(0x20 + loc.spec_code()) as u8] + be_bytes(v as nat, 2),
            Instruction::Lod32(loc, v) => seq![(0x30 + loc.spec_code()) as u8] + be_bytes(v as nat, 4),
            Instruction::Halt => seq![0x40u8],
            Instruction::Memcpy { src, dst, size } => seq![(0x50 + size.spec_code()) as u8, loc_pair(src, dst)],
            Instruction::New { size, dst } => seq![0x60u8, loc_pair(size, dst)],
            Instruction::Del { src } => seq![(0x70 + src.spec_code()) as u8],
            Instruction::Cmp { ty, src, dst, cnd } => seq![
                (0xCE + ty.spec_code() * 16) as u8,
                (src.spec_code() * 16 + cnd.spec_code()) as u8,
                loc_high(dst),
            ],
            Instruction::Jmp { ty, src, tgt, cnd } => seq![
                (0xCF + ty.spec_code() * 16) as u8,
                (src.spec_code() * 16 + cnd.spec_code()) as u8,
                loc_high(tgt),
            ],
            Instruction::BinOp { op, ty, src1, src2, dst } => seq![
                (0xC0 + ty.spec_code() * 16 + op.spec_code()) as u8,
                loc_pair(src1, src2),
                loc_high(dst),
            ],
            Instruction::UnOp { op, ty, src, dst } => seq![
                (op.spec_code() * 16 + ty.spec_code() * 4) as u8,
                loc_pair(src, dst),
            ],
            Instruction::Input(loc) => seq![(0xA0 + loc.spec_code()) as u8],
            Instruction::Output(loc) => seq![(0xB0 + loc.spec_code()) as u8],
            Instruction::Nop => seq![0xC0u8, 0u8, 0u8],
        }
    }
}

/// The number of bytes of the instruction whose first byte is `b1`.
pub open spec fn instruction_length(b1: u8) -> nat {
    if b1 / 64 == 3 {
        3
    } else {
        let h = b1 / 16;
        if h == 3 {
            5
        } else if h == 2 {
            3
        } else if h == 4 || h == 7 || h == 10 || h == 11 {
            1
        } else {
            2
        }
    }
}

/// The ternary instruction with first byte `b1` and operand bytes `b2`, `b3`.
pub open spec fn decode_ternary(b1: u8, b2: u8, b3: u8) -> Instruction {
    let ty = Type::spec_from_code(b1 / 16);
    let op = b1 % 16;
    let a = Location::spec_from_code(b2 / 16);
    let b = Location::spec_from_code(b2);
    let c = Location::spec_from_code(b3 / 16);
    if op == 14 {
        Instruction::Cmp { ty, src: a, dst: c, cnd: Condition::spec_from_code(b2) }
    } else if op == 15 {
        Instruction::Jmp { ty, src: a, tgt: c, cnd: Condition::spec_from_code(b2) }
    } else if op == 1 {
        Instruction::BinOp { op: BinOp::XOR, ty, src1: a, src2: b, dst: c }
    } else if op == 2 {
        Instruction::BinOp { op: BinOp::OR, ty, src1: a, src2: b, dst: c }
    } else if op == 3 {
        Instruction::BinOp { op: BinOp::AND, ty, src1: a, src2: b, dst: c }
    } else if op == 6 {
        Instruction::BinOp { op: BinOp::SHL, ty, src1: a, src2: b, dst: c }
    } else if op == 7 {
        Instruction::BinOp { op: BinOp::SHR, ty, src1: a, src2: b, dst: c }
    } else if op == 9 {
        Instruction::BinOp { op: BinOp::MUL, ty, src1: a, src2: b, dst: c }
    } else if op == 10 {
        Instruction::BinOp { op: BinOp::ADD, ty, src1: a, src2: b, dst: c }
    } else if op == 11 {
        Instruction::BinOp { op: BinOp::SUB, ty, src1: a, src2: b, dst: c }
    } else if op == 12 {
        Instruction::BinOp { op: BinOp::DIV, ty, src1: a, src2: b, dst: c }
    } else if op == 13 {
        Instruction::BinOp { op: BinOp::MOD, ty, src1: a, src2: b, dst: c }
    } else {
        Instruction::Nop
    }
}

/// The instruction at `at`, whose `instruction_length` bytes lie within `b`.
pub open spec fn decode_at(b: Seq<u8>, at: int) -> Instruction {
    let b1 = b[at];
    if b1 / 64 == 3 {
        decode_ternary(b1, b[at + 1], b[at + 2])
    } else {
        let h = b1 / 16;
        let low = Location::spec_from_code(b1);
        if h == 0 {
            Instruction::Mov {
                src_ty: Type::spec_from_code(b1 / 4),
                dst_ty: Type::spec_from_code(b1),
                src: Location::spec_from_code(b[at + 1] / 16),
                dst: Location::spec_from_code(b[at + 1]),
            }
        } else if h == 1 {
            Instruction::Lod8(low, b[at + 1])
        } else if h == 2 {
            Instruction::Lod16(low, be_value(b.subrange(at + 1, at + 3)) as u16)
        } else if h == 3 {
            Instruction::Lod32(low, be_value(b.subrange(at + 1, at + 5)) as u32)
        } else if h == 4 {
            Instruction::Halt
        } else if h == 5 {
            Instruction::Memcpy {
                src: Location::spec_from_code(b[at + 1] / 16),
                dst: Location::spec_from_code(b[at + 1]),
                size: low,
            }
        } else if h == 6 {
            Instruction::New { size: Location::spec_from_code(b[at + 1] / 16), dst: Location::spec_from_code(b[at + 1]) }
        } else if h == 7 {
            Instruction::Del { src: low }
        } else if h == 8 || h == 9 {
            Instruction::UnOp {
                op: if h == 8 { UnOp::NEG } else { UnOp::NOT },
                ty: Type::spec_from_code(b1 / 4),
                src: Location::spec_from_code(b[at + 1] / 16),
                dst: Location::spec_from_code(b[at + 1]),
            }
        } else if h == 10 {
            Instruction::Input(low)
        } else {
            Instruction::Output(low)
        }
    }
}

/// The instruction at `at` and its length, if all its bytes lie within `b`.
pub open spec fn decode_spec(b: Seq<u8>, at: int) -> Option<(Instruction, nat)> {
    if 0 <= at < b.len() && at + instruction_length(b[at]) <= b.len() {
        Some((decode_at(b, at), instruction_length(b[at])))
    } else {
        None
    }
}

proof fn lemma_location_code(a: Location, b: Location)
    ensures
        a.spec_code() < 16,
        Location::spec_from_code(a.spec_code()) == a,
        Location::spec_from_code(loc_pair(a, b) / 16) == a,
        Location::spec_from_code(loc_pair(a, b)) == b,
        Location::spec_from_code(loc_high(a) / 16) == a,
{
}

proof fn lemma_nibbles(hi: u8, lo: u8)
    requires
        hi < 16,
        lo < 16,
    ensures
        ((hi * 16 + lo) as u8) / 16 == hi,
        ((hi * 16 + lo) as u8) % 16 == lo,
        ((hi * 16 + lo) as u8) / 64 == hi / 4,
{
}

proof fn lemma_low_nibble(hi: u8, l: Location)
    requires
        hi < 16,
    ensures
        Location::spec_from_code((hi * 16 + l.spec_code()) as u8) == l,
{
    lemma_nibbles(hi, l.spec_code());
}

proof fn lemma_type_code(hi: u8, t: Type)
    requires
        hi < 64,
    ensures
        Type::spec_from_code((hi * 4 + t.spec_code()) as u8) == t,
{
}

proof fn lemma_condition_code(hi: u8, c: Condition)
    requires
        hi < 16,
    ensures
        Condition::spec_from_code((hi * 16 + c.spec_code()) as u8) == c,
{
    lemma_nibbles(hi, c.spec_code());
    let b = (hi * 16 + c.spec_code()) as u8;
    assert(b % 2 == c.spec_code() % 2);
}

proof fn lemma_decode_mov(src_ty: Type, dst_ty: Type, src: Location, dst: Location)
    ensures
        decode_spec((Instruction::Mov { src_ty, dst_ty, src, dst }).encoding(), 0) == Some(((Instruction::Mov { src_ty, dst_ty, src, dst }), (Instruction::Mov { src_ty, dst_ty, src, dst }).encoding().len())),
{
    let e = (Instruction::Mov { src_ty, dst_ty, src, dst }).encoding();
    lemma_location_code(src, dst);
}
proof fn lemma_decode_lod8(loc: Location, v: u8)
    ensures
        decode_spec((Instruction::Lod8(loc, v)).encoding(), 0) == Some(((Instruction::Lod8(loc, v)), (Instruction::Lod8(loc, v)).encoding().len())),
{
    let e = (Instruction::Lod8(loc, v)).encoding();
    lemma_location_code(loc, loc);
}
proof fn lemma_decode_lod16(loc: Location, v: u16)
    ensures
        decode_spec((Instruction::Lod16(loc, v)).encoding(), 0) == Some(((Instruction::Lod16(loc, v)), (Instruction::Lod16(loc, v)).encoding().len())),
{
    let e = (Instruction::Lod16(loc, v)).encoding();
    lemma_location_code(loc, loc);
    lemma_be_bytes_len(v as nat, 2);
    lemma_be_round_trip(v as nat, 2);
    lemma_byte_ranges();
    assert(e.subrange(1, 3) =~= be_bytes(v as nat, 2));
}
proof fn lemma_decode_lod32(loc: Location, v: u32)
    ensures
        decode_spec((Instruction::Lod32(loc, v)).encoding(), 0) == Some(((Instruction::Lod32(loc, v)), (Instruction::Lod32(loc, v)).encoding().len())),
{
    let e = (Instruction::Lod32(loc, v)).encoding();
    lemma_location_code(loc, loc);
    lemma_be_bytes_len(v as nat, 4);
    lemma_be_round_trip(v as nat, 4);
    lemma_byte_ranges();
    assert(e.subrange(1, 5) =~= be_bytes(v as nat, 4));
}
#[verifier::spinoff_prover]
proof fn lemma_decode_memcpy(src: Location, dst: Location, size: Location)
    ensures
        decode_spec((Instruction::Memcpy { src, dst, size }).encoding(), 0) == Some(((Instruction::Memcpy { src, dst, size }), (Instruction::Memcpy { src, dst, size }).encoding().len())),
{
    let e = (Instruction::Memcpy { src, dst, size }).encoding();
    lemma_location_code(src, dst);
    lemma_location_code(size, size);
    lemma_nibbles(5, size.spec_code());
    lemma_low_nibble(5, size);
    assert(e[0] == (5 * 16 + size.spec_code()) as u8);
    assert(decode_at(e, 0) == Instruction::Memcpy { src, dst, size });
}
proof fn lemma_decode_new(size: Location, dst: Location)
    ensures
        decode_spec((Instruction::New { size, dst }).encoding(), 0) == Some(((Instruction::New { size, dst }), (Instruction::New { size, dst }).encoding().len())),
{
    let e = (Instruction::New { size, dst }).encoding();
    lemma_location_code(size, dst);
}
proof fn lemma_decode_del(src: Location)
    ensures
        decode_spec((Instruction::Del { src }).encoding(), 0) == Some(((Instruction::Del { src }), (Instruction::Del { src }).encoding().len())),
{
    let e = (Instruction::Del { src }).encoding();
    lemma_location_code(src, src);
}
#[verifier::spinoff_prover]
proof fn lemma_decode_cmp(ty: Type, src: Location, dst: Location, cnd: Condition)
    ensures
        decode_spec((Instruction::Cmp { ty, src, dst, cnd }).encoding(), 0) == Some(((Instruction::Cmp { ty, src, dst, cnd }), (Instruction::Cmp { ty, src, dst, cnd }).encoding().len())),
{
    let e = (Instruction::Cmp { ty, src, dst, cnd }).encoding();
    lemma_location_code(src, dst);
    lemma_location_code(dst, dst);
    lemma_condition_code(src.spec_code(), cnd);
    lemma_nibbles((12 + ty.spec_code()) as u8, 14);
    assert(e[0] == ((12 + ty.spec_code()) * 16 + 14) as u8);
    assert(e[1] == (src.spec_code() * 16 + cnd.spec_code()) as u8);
    lemma_type_code(3, ty);
    assert(Type::spec_from_code(e[0] / 16) == ty);
    assert(Location::spec_from_code(e[2] / 16) == dst);
    assert(Location::spec_from_code(e[1] / 16) == src);
}
#[verifier::spinoff_prover]
proof fn lemma_decode_jmp(ty: Type, src: Location, tgt: Location, cnd: Condition)
    ensures
        decode_spec((Instruction::Jmp { ty, src, tgt, cnd }).encoding(), 0) == Some(((Instruction::Jmp { ty, src, tgt, cnd }), (Instruction::Jmp { ty, src, tgt, cnd }).encoding().len())),
{
    let e = (Instruction::Jmp { ty, src, tgt, cnd }).encoding();
    lemma_location_code(src, tgt);
    lemma_location_code(tgt, tgt);
    lemma_condition_code(src.spec_code(), cnd);
    lemma_nibbles((12 + ty.spec_code()) as u8, 15);
    assert(e[0] == ((12 + ty.spec_code()) * 16 + 15) as u8);
    assert(e[1] == (src.spec_code() * 16 + cnd.spec_code()) as u8);
    lemma_type_code(3, ty);
    assert(Type::spec_from_code(e[0] / 16) == ty);
    assert(Location::spec_from_code(e[2] / 16) == tgt);
    assert(Location::spec_from_code(e[1] / 16) == src);
}
proof fn lemma_decode_binop(op: BinOp, ty: Type, src1: Location, src2: Location, dst: Location)
    ensures
        decode_spec((Instruction::BinOp { op, ty, src1, src2, dst }).encoding(), 0) == Some(((Instruction::BinOp { op, ty, src1, src2, dst }), (Instruction::BinOp { op, ty, src1, src2, dst }).encoding().len())),
{
    let e = (Instruction::BinOp { op, ty, src1, src2, dst }).encoding();
    lemma_location_code(src1, src2);
    lemma_location_code(dst, dst);
}
proof fn lemma_decode_unop(op: UnOp, ty: Type, src: Location, dst: Location)
    ensures
        decode_spec((Instruction::UnOp { op, ty, src, dst }).encoding(), 0) == Some(((Instruction::UnOp { op, ty, src, dst }), (Instruction::UnOp { op, ty, src, dst }).encoding().len())),
{
    let e = (Instruction::UnOp { op, ty, src, dst }).encoding();
    lemma_location_code(src, dst);
}
proof fn lemma_decode_input(loc: Location)
    ensures
        decode_spec((Instruction::Input(loc)).encoding(), 0) == Some(((Instruction::Input(loc)), (Instruction::Input(loc)).encoding().len())),
{
    let e = (Instruction::Input(loc)).encoding();
    lemma_location_code(loc, loc);
}
proof fn lemma_decode_output(loc: Location)
    ensures
        decode_spec((Instruction::Output(loc)).encoding(), 0) == Some(((Instruction::Output(loc)), (Instruction::Output(loc)).encoding().len())),
{
    let e = (Instruction::Output(loc)).encoding();
    lemma_location_code(loc, loc);
}
/// Decoding the bytes of an instruction gives the instruction back.
pub proof fn lemma_decode_encoding(i: Instruction)
    ensures
        decode_spec(i.encoding(), 0) == Some((i, i.encoding().len())),
{
    match i {
        Instruction::Mov { src_ty, dst_ty, src, dst } => lemma_decode_mov(src_ty, dst_ty, src, dst),
        Instruction::Lod8(loc, v) => lemma_decode_lod8(loc, v),
        Instruction::Lod16(loc, v) => lemma_decode_lod16(loc, v),
        Instruction::Lod32(loc, v) => lemma_decode_lod32(loc, v),
        Instruction::Memcpy { src, dst, size } => lemma_decode_memcpy(src, dst, size),
        Instruction::New { size, dst } => lemma_decode_new(size, dst),
        Instruction::Del { src } => lemma_decode_del(src),
        Instruction::Cmp { ty, src, dst, cnd } => lemma_decode_cmp(ty, src, dst, cnd),
        Instruction::Jmp { ty, src, tgt, cnd } => lemma_decode_jmp(ty, src, tgt, cnd),
        Instruction::BinOp { op, ty, src1, src2, dst } => lemma_decode_binop(op, ty, src1, src2, dst),
        Instruction::UnOp { op, ty, src, dst } => lemma_decode_unop(op, ty, src, dst),
        Instruction::Input(loc) => lemma_decode_input(loc),
        Instruction::Output(loc) => lemma_decode_output(loc),
        _ => {},
    }
}

/// Appends the `width` low-order bytes of `v`, most significant first.
pub fn push_be(out: &mut Vec<u8>, v: u32, width: u32)
    requires
        width == 2 || width == 4,
    ensures
        final(out)@ == old(out)@ + be_bytes(v as nat, width as nat),
{
    let ghost start = out@;
    reveal_with_fuel(be_bytes, 5);
    if width == 4 {
        out.push(((v / 256 / 256 / 256) % 256) as u8);
        out.push(((v / 256 / 256) % 256) as u8);
    }
    out.push(((v / 256) % 256) as u8);
    out.push((v % 256) as u8);
    assert(out@ =~= start + be_bytes(v as nat, width as nat));
}

impl Instruction {
    /// The bytes that encode the instruction.
    pub fn encode(&self) -> (r: Vec<u8>)
        ensures
            r@ == self.encoding(),
    {
        match *self {
            Instruction::Mov { src_ty, dst_ty, src, dst } => encode_mov(src_ty, dst_ty, src, dst),
            Instruction::Lod8(loc, v) => encode_lod8(loc, v),
            Instruction::Lod16(loc, v) => encode_lod16(loc, v),
            Instruction::Lod32(loc, v) => encode_lod32(loc, v),
            Instruction::Halt => encode_halt(),
            Instruction::Memcpy { src, dst, size } => encode_memcpy(src, dst, size),
            Instruction::New { size, dst } => encode_new(size, dst),
            Instruction::Del { src } => encode_del(src),
            Instruction::Cmp { ty, src, dst, cnd } => encode_cmp(ty, src, dst, cnd),
            Instruction::Jmp { ty, src, tgt, cnd } => encode_jmp(ty, src, tgt, cnd),
            Instruction::BinOp { op, ty, src1, src2, dst } => encode_binop(op, ty, src1, src2, dst),
            Instruction::UnOp { op, ty, src, dst } => encode_unop(op, ty, src, dst),
            Instruction::Input(loc) => encode_input(loc),
            Instruction::Output(loc) => encode_output(loc),
            Instruction::Nop => encode_nop(),
        }
    }

    /// Appends the encoding of the instruction to `out`.
    pub fn output_to(&self, out: &mut Vec<u8>)
        ensures
            final(out)@ == old(out)@ + self.encoding(),
    {
        let mut bytes = self.encode();
        out.append(&mut bytes);
    }
}

pub fn instruction_len(b1: u8) -> (r: usize)
    ensures
        r == instruction_length(b1),
{
    if b1 / 64 == 3 {
        3
    } else {
        let h = b1 / 16;
        if h == 3 {
            5
        } else if h == 2 {
            3
        } else if h == 4 || h == 7 || h == 10 || h == 11 {
            1
        } else {
            2
        }
    }
}

fn decode_ternary_exec(b1: u8, b2: u8, b3: u8) -> (r: Instruction)
    ensures
        r == decode_ternary(b1, b2, b3),
{
    let ty = Type::from_code(b1 / 16);
    let op = b1 % 16;
    let a = Location::from_u8(b2 / 16);
    let b = Location::from_u8(b2);
    let c = Location::from_u8(b3 / 16);
    if op == 14 {
        Instruction::Cmp { ty, src: a, dst: c, cnd: Condition::from_code(b2) }
    } else if op == 15 {
        Instruction::Jmp { ty, src: a, tgt: c, cnd: Condition::from_code(b2) }
    } else if op == 1 {
        Instruction::BinOp { op: BinOp::XOR, ty, src1: a, src2: b, dst: c }
    } else if op == 2 {
        Instruction::BinOp { op: BinOp::OR, ty, src1: a, src2: b, dst: c }
    } else if op == 3 {
        Instruction::BinOp { op: BinOp::AND, ty, src1: a, src2: b, dst: c }
    } else if op == 6 {
        Instruction::BinOp { op: BinOp::SHL, ty, src1: a, src2: b, dst: c }
    } else if op == 7 {
        Instruction::BinOp { op: BinOp::SHR, ty, src1: a, src2: b, dst: c }
    } else if op == 9 {
        Instruction::BinOp { op: BinOp::MUL, ty, src1: a, src2: b, dst: c }
    } else if op == 10 {
        Instruction::BinOp { op: BinOp::ADD, ty, src1: a, src2: b, dst: c }
    } else if op == 11 {
        Instruction::BinOp { op: BinOp::SUB, ty, src1: a, src2: b, dst: c }
    } else if op == 12 {
        Instruction::BinOp { op: BinOp::DIV, ty, src1: a, src2: b, dst: c }
    } else if op == 13 {
        Instruction::BinOp { op: BinOp::MOD, ty, src1: a, src2: b, dst: c }
    } else {
        Instruction::Nop
    }
}

/// Decodes the instruction at `at` of a program; `None` when it does not lie
/// wholly within the program.
pub fn decode(program: &MemoryBuffer, at: usize) -> (r: Option<(Instruction, usize)>)
    ensures
        r is None <==> decode_spec(program@, at as int) is None,
        r matches Some(d) ==> decode_spec(program@, at as int) == Some((d.0, d.1 as nat)),
{
    let size = program.size();
    if at >= size {
        return None;
    }
    let b1 = program.byte(at);
    let len = instruction_len(b1);
    if len > size - at {
        return None;
    }
    let instr = if b1 / 64 == 3 {
        decode_ternary_exec(b1, program.byte(at + 1), program.byte(at + 2))
    } else {
        let h = b1 / 16;
        let low = Location::from_u8(b1);
        if h == 0 {
            let b2 = program.byte(at + 1);
            Instruction::Mov {
                src_ty: Type::from_code(b1 / 4),
                dst_ty: Type::from_code(b1),
                src: Location::from_u8(b2 / 16),
                dst: Location::from_u8(b2),
            }
        } else if h == 1 {
            Instruction::Lod8(low, program.byte(at + 1))
        } else if h == 2 {
            Instruction::Lod16(low, program.read(at + 1, 2) as u16)
        } else if h == 3 {
            Instruction::Lod32(low, program.read(at + 1, 4))
        } else if h == 4 {
            Instruction::Halt
        } else if h == 5 {
            let b2 = program.byte(at + 1);
            Instruction::Memcpy { src: Location::from_u8(b2 / 16), dst: Location::from_u8(b2), size: low }
        } else if h == 6 {
            let b2 = program.byte(at + 1);
            Instruction::New { size: Location::from_u8(b2 / 16), dst: Location::from_u8(b2) }
        } else if h == 7 {
            Instruction::Del { src: low }
        } else if h == 8 || h == 9 {
            let b2 = program.byte(at + 1);
            Instruction::UnOp {
                op: if h == 8 { UnOp::NEG } else { UnOp::NOT },
                ty: Type::from_code(b1 / 4),
                src: Location::from_u8(b2 / 16),
                dst: Location::from_u8(b2),
            }
        } else if h == 10 {
            Instruction::Input(low)
        } else {
            Instruction::Output(low)
        }
    };
    Some((instr, len))
}

} // verus!
