//! The assembler: turns `.casm` text into bytecode in one pass, then
//! patches label references.

use vstd::prelude::*;
use crate::growable_memory::splice;
use crate::instruction::{BinOp, Condition, Instruction, Location, Register, Type, UnOp};
use crate::memory_buffer::{be_bytes, lemma_be_bytes_len};
use crate::text::{
    all_label_chars, deep, is_label_character, lines_of, parse_signed, parse_signed_exec,
    parse_unsigned, parse_unsigned_exec, split_lines, token_is, tokens, tokens_of, chars_of,
};
use crate::values::bits_of;

verus! {

/// Why a source text does not assemble. Lines count from 1.
#[derive(Copy, Clone, PartialEq, Eq, Structural, Debug)]
pub enum AssemblyError {
    /// The line is not a label, an instruction or a comment.
    InvalidLine { line: usize },
    /// The line refers to a label that the text never defines.
    UndefinedLabel { line: usize },
}

/// What a line refers to that is only known later.
pub enum ReferenceSpec {
    Nothing,
    Label(Seq<char>),
    Float(Seq<char>),
}

/// What a line of tokens means.
pub enum LineSpec {
    Define(Seq<char>),
    Emit(Instruction, ReferenceSpec),
    Invalid,
}

pub open spec fn loc_spec(t: Seq<char>) -> Option<Location> {
    let reg = if t == "sp"@ || t == "@sp"@ {
        Some(Register::SP)
    } else if t == "r1"@ || t == "@r1"@ {
        Some(Register::R1)
    } else if t == "r2"@ || t == "@r2"@ {
        Some(Register::R2)
    } else if t == "r3"@ || t == "@r3"@ {
        Some(Register::R3)
    } else if t == "r4"@ || t == "@r4"@ {
        Some(Register::R4)
    } else if t == "r5"@ || t == "@r5"@ {
        Some(Register::R5)
    } else if t == "r6"@ || t == "@r6"@ {
        Some(Register::R6)
    } else if t == "r7"@ || t == "@r7"@ {
        Some(Register::R7)
    } else {
        None
    };
    match reg {
        Some(register) => Some(Location { register, indirect: t.len() > 0 && t[0] == '@' }),
        None => None,
    }
}

pub open spec fn ty_spec(t: Seq<char>) -> Option<Type> {
    if t == "b"@ {
        Some(Type::Int8)
    } else if t == "s"@ {
        Some(Type::Int16)
    } else if t == "i"@ {
        Some(Type::Int32)
    } else if t == "f"@ {
        Some(Type::Float)
    } else {
        None
    }
}

pub open spec fn cond_spec(t: Seq<char>) -> Option<Condition> {
    if t == ">"@ {
        Some(Condition::GT)
    } else if t == "=="@ {
        Some(Condition::EQ)
    } else if t == ">="@ {
        Some(Condition::GE)
    } else if t == "<"@ {
        Some(Condition::LT)
    } else if t == "!="@ {
        Some(Condition::NE)
    } else if t == "<="@ {
        Some(Condition::LE)
    } else {
        None
    }
}

pub open spec fn binop_spec(t: Seq<char>) -> Option<BinOp> {
    if t == "xor"@ {
        Some(BinOp::XOR)
    } else if t == "or"@ {
        Some(BinOp::OR)
    } else if t == "and"@ {
        Some(BinOp::AND)
    } else if t == "shl"@ {
        Some(BinOp::SHL)
    } else if t == "shr"@ {
        Some(BinOp::SHR)
    } else if t == "mul"@ {
        Some(BinOp::MUL)
    } else if t == "add"@ {
        Some(BinOp::ADD)
    } else if t == "sub"@ {
        Some(BinOp::SUB)
    } else if t == "div"@ {
        Some(BinOp::DIV)
    } else if t == "mod"@ {
        Some(BinOp::MOD)
    } else {
        None
    }
}

/// An integer literal: unsigned decimal, signed decimal, or `0x` hexadecimal,
/// as a 32-bit pattern.
pub open spec fn integral_spec(t: Seq<char>) -> Option<u32> {
    match parse_unsigned(t, 10) {
        Some(v) => Some(v as u32),
        None => match parse_signed(t) {
            Some(v) => Some(bits_of(v, 4)),
            None => if t.len() >= 2 && t[0] == '0' && t[1] == 'x' {
                match parse_unsigned(t.skip(2), 16) {
                    Some(v) => Some(v as u32),
                    None => None,
                }
            } else {
                None
            },
        },
    }
}

/// Whether a 32-bit pattern is a signed or unsigned 8-bit value.
pub open spec fn fits8(v: u32) -> bool {
    v <= 0xFF || v >= 0xFFFF_FF80
}

/// Whether a 32-bit pattern is a signed or unsigned 16-bit value.
pub open spec fn fits16(v: u32) -> bool {
    v <= 0xFFFF || v >= 0xFFFF_8000
}

/// Whether a token defines a label: label characters followed by `:`.
pub open spec fn is_label_definition(t: Seq<char>) -> bool {
    t.len() > 0 && t.last() == ':' && all_label_chars(t.drop_last())
}

pub open spec fn emit(i: Instruction) -> LineSpec {
    LineSpec::Emit(i, ReferenceSpec::Nothing)
}

pub open spec fn binop_line(t: Seq<Seq<char>>, op: BinOp) -> LineSpec {
    if t.len() < 7 {
        LineSpec::Invalid
    } else {
        match (ty_spec(t[1]), loc_spec(t[2]), loc_spec(t[4]), loc_spec(t[6])) {
            (Some(ty), Some(dst), Some(src1), Some(src2)) => emit(Instruction::BinOp { op, ty, src1, src2, dst }),
            _ => LineSpec::Invalid,
        }
    }
}

pub open spec fn unop_line(t: Seq<Seq<char>>, op: UnOp) -> LineSpec {
    if t.len() < 5 {
        LineSpec::Invalid
    } else {
        match (ty_spec(t[1]), loc_spec(t[2]), loc_spec(t[4])) {
            (Some(ty), Some(dst), Some(src)) => emit(Instruction::UnOp { op, ty, src, dst }),
            _ => LineSpec::Invalid,
        }
    }
}

pub open spec fn jmp_line(t: Seq<Seq<char>>) -> LineSpec {
    if t.len() < 3 {
        LineSpec::Invalid
    } else {
        match loc_spec(t[1]) {
            None => LineSpec::Invalid,
            Some(tgt) => if t[2] == "always"@ {
                emit(Instruction::Jmp {
                    ty: Type::Int8,
                    src: Location { register: Register::SP, indirect: false },
                    tgt,
                    cnd: Condition::ALWAYS,
                })
            } else if t[2] == "if"@ && t.len() >= 6 {
                match (ty_spec(t[3]), loc_spec(t[4]), cond_spec(t[5])) {
                    (Some(ty), Some(src), Some(cnd)) => emit(Instruction::Jmp { ty, src, tgt, cnd }),
                    _ => LineSpec::Invalid,
                }
            } else {
                LineSpec::Invalid
            },
        }
    }
}

pub open spec fn cmp_line(t: Seq<Seq<char>>) -> LineSpec {
    if t.len() < 6 {
        LineSpec::Invalid
    } else {
        match (loc_spec(t[1]), ty_spec(t[3]), loc_spec(t[4]), cond_spec(t[5])) {
            (Some(dst), Some(ty), Some(src), Some(cnd)) => emit(Instruction::Cmp { ty, src, dst, cnd }),
            _ => LineSpec::Invalid,
        }
    }
}

pub open spec fn mov_line(t: Seq<Seq<char>>) -> LineSpec {
    if t.len() < 6 {
        LineSpec::Invalid
    } else {
        match (ty_spec(t[1]), loc_spec(t[2]), ty_spec(t[4]), loc_spec(t[5])) {
            (Some(dst_ty), Some(dst), Some(src_ty), Some(src)) => emit(Instruction::Mov { src_ty, dst_ty, src, dst }),
            _ => LineSpec::Invalid,
        }
    }
}

pub open spec fn lod_line(t: Seq<Seq<char>>) -> LineSpec {
    if t.len() < 4 {
        LineSpec::Invalid
    } else {
        match loc_spec(t[1]) {
            None => LineSpec::Invalid,
            Some(dest) => {
                let kind = t[3];
                if kind == "b"@ || kind == "s"@ || kind == "i"@ || kind == "f"@ {
                    if t.len() < 5 {
                        LineSpec::Invalid
                    } else if kind == "f"@ {
                        LineSpec::Emit(Instruction::Lod32(dest, 0), ReferenceSpec::Float(t[4]))
                    } else {
                        match integral_spec(t[4]) {
                            None => LineSpec::Invalid,
                            Some(v) => if kind == "b"@ {
                                if fits8(v) {
                                    emit(Instruction::Lod8(dest, (v % 256) as u8))
                                } else {
                                    LineSpec::Invalid
                                }
                            } else if kind == "s"@ {
                                if fits16(v) {
                                    emit(Instruction::Lod16(dest, (v % 0x1_0000) as u16))
                                } else {
                                    LineSpec::Invalid
                                }
                            } else {
                                emit(Instruction::Lod32(dest, v))
                            },
                        }
                    }
                } else if all_label_chars(kind) {
                    LineSpec::Emit(Instruction::Lod32(dest, 0), ReferenceSpec::Label(kind))
                } else {
                    LineSpec::Invalid
                }
            },
        }
    }
}

pub open spec fn memcpy_line(t: Seq<Seq<char>>) -> LineSpec {
    if t.len() < 6 {
        LineSpec::Invalid
    } else {
        match (loc_spec(t[1]), loc_spec(t[3]), loc_spec(t[5])) {
            (Some(dst), Some(src), Some(size)) => emit(Instruction::Memcpy { src, dst, size }),
            _ => LineSpec::Invalid,
        }
    }
}

pub open spec fn new_line(t: Seq<Seq<char>>) -> LineSpec {
    if t.len() < 4 {
        LineSpec::Invalid
    } else {
        match (loc_spec(t[1]), loc_spec(t[3])) {
            (Some(dst), Some(size)) => emit(Instruction::New { size, dst }),
            _ => LineSpec::Invalid,
        }
    }
}

pub open spec fn io_line(t: Seq<Seq<char>>, output: bool) -> LineSpec {
    if t.len() < 3 {
        LineSpec::Invalid
    } else {
        match loc_spec(t[2]) {
            Some(loc) => emit(if output { Instruction::Output(loc) } else { Instruction::Input(loc) }),
            None => LineSpec::Invalid,
        }
    }
}

/// The meaning of a line with at least one token.
#[verifier::opaque]
pub open spec fn line_spec(t: Seq<Seq<char>>) -> LineSpec {
    let cmd = t[0];
    if is_label_definition(cmd) {
        LineSpec::Define(cmd.drop_last())
    } else if binop_spec(cmd) is Some {
        binop_line(t, binop_spec(cmd)->Some_0)
    } else if cmd == "jmp"@ {
        jmp_line(t)
    } else if cmd == "cmp"@ {
        cmp_line(t)
    } else if cmd == "mov"@ {
        mov_line(t)
    } else if cmd == "lod"@ {
        lod_line(t)
    } else if cmd == "halt"@ {
        emit(Instruction::Halt)
    } else if cmd == "memcpy"@ {
        memcpy_line(t)
    } else if cmd == "new"@ {
        new_line(t)
    } else if cmd == "del"@ {
        if t.len() < 2 {
            LineSpec::Invalid
        } else {
            match loc_spec(t[1]) {
                Some(src) => emit(Instruction::Del { src }),
                None => LineSpec::Invalid,
            }
        }
    } else if cmd == "neg"@ {
        unop_line(t, UnOp::NEG)
    } else if cmd == "not"@ {
        unop_line(t, UnOp::NOT)
    } else if cmd == "input"@ {
        io_line(t, false)
    } else if cmd == "output"@ {
        io_line(t, true)
    } else {
        LineSpec::Invalid
    }
}

/// What a line refers to that is only known later.
pub enum Reference {
    Nothing,
    Label(Vec<char>),
    Float(Vec<char>),
}

/// What a line of tokens means.
pub enum ParsedLine {
    Define(Vec<char>),
    Emit(Instruction, Reference),
    Invalid,
}

impl View for ParsedLine {
    type V = LineSpec;

    open spec fn view(&self) -> LineSpec {
        match self {
            ParsedLine::Define(n) => LineSpec::Define(n@),
            ParsedLine::Emit(i, Reference::Nothing) => LineSpec::Emit(*i, ReferenceSpec::Nothing),
            ParsedLine::Emit(i, Reference::Label(n)) => LineSpec::Emit(*i, ReferenceSpec::Label(n@)),
            ParsedLine::Emit(i, Reference::Float(n)) => LineSpec::Emit(*i, ReferenceSpec::Float(n@)),
            ParsedLine::Invalid => LineSpec::Invalid,
        }
    }
}

fn emit_line(i: Instruction) -> (r: ParsedLine)
    ensures
        r@ == emit(i),
{
    ParsedLine::Emit(i, Reference::Nothing)
}

pub fn parse_location(t: &Vec<char>) -> (r: Option<Location>)
    ensures
        r == loc_spec(t@),
{
    let reg = if token_is(t, "sp") || token_is(t, "@sp") {
        Some(Register::SP)
    } else if token_is(t, "r1") || token_is(t, "@r1") {
        Some(Register::R1)
    } else if token_is(t, "r2") || token_is(t, "@r2") {
        Some(Register::R2)
    } else if token_is(t, "r3") || token_is(t, "@r3") {
        Some(Register::R3)
    } else if token_is(t, "r4") || token_is(t, "@r4") {
        Some(Register::R4)
    } else if token_is(t, "r5") || token_is(t, "@r5") {
        Some(Register::R5)
    } else if token_is(t, "r6") || token_is(t, "@r6") {
        Some(Register::R6)
    } else if token_is(t, "r7") || token_is(t, "@r7") {
        Some(Register::R7)
    } else {
        None
    };
    match reg {
        Some(register) => Some(Location { register, indirect: t.len() > 0 && t[0] == '@' }),
        None => None,
    }
}

pub fn parse_ty(t: &Vec<char>) -> (r: Option<Type>)
    ensures
        r == ty_spec(t@),
{
    if token_is(t, "b") {
        Some(Type::Int8)
    } else if token_is(t, "s") {
        Some(Type::Int16)
    } else if token_is(t, "i") {
        Some(Type::Int32)
    } else if token_is(t, "f") {
        Some(Type::Float)
    } else {
        None
    }
}

pub fn parse_condition(t: &Vec<char>) -> (r: Option<Condition>)
    ensures
        r == cond_spec(t@),
{
    if token_is(t, ">") {
        Some(Condition::GT)
    } else if token_is(t, "==") {
        Some(Condition::EQ)
    } else if token_is(t, ">=") {
        Some(Condition::GE)
    } else if token_is(t, "<") {
        Some(Condition::LT)
    } else if token_is(t, "!=") {
        Some(Condition::NE)
    } else if token_is(t, "<=") {
        Some(Condition::LE)
    } else {
        None
    }
}

fn parse_binop(t: &Vec<char>) -> (r: Option<BinOp>)
    ensures
        r == binop_spec(t@),
{
    if token_is(t, "xor") {
        Some(BinOp::XOR)
    } else if token_is(t, "or") {
        Some(BinOp::OR)
    } else if token_is(t, "and") {
        Some(BinOp::AND)
    } else if token_is(t, "shl") {
        Some(BinOp::SHL)
    } else if token_is(t, "shr") {
        Some(BinOp::SHR)
    } else if token_is(t, "mul") {
        Some(BinOp::MUL)
    } else if token_is(t, "add") {
        Some(BinOp::ADD)
    } else if token_is(t, "sub") {
        Some(BinOp::SUB)
    } else if token_is(t, "div") {
        Some(BinOp::DIV)
    } else if token_is(t, "mod") {
        Some(BinOp::MOD)
    } else {
        None
    }
}

/// An integer literal as a 32-bit pattern: unsigned decimal, then signed
/// decimal, then `0x` hexadecimal.
pub fn parse_integral_value(t: &Vec<char>) -> (r: Option<u32>)
    ensures
        r == integral_spec(t@),
{
    assert(t@.skip(0) =~= t@);
    match parse_unsigned_exec(t, 0, 10) {
        Some(v) => Some(v),
        None => match parse_signed_exec(t) {
            Some(v) => Some(crate::values::wrap(v, 4)),
            None => if t.len() >= 2 && t[0] == '0' && t[1] == 'x' {
                parse_unsigned_exec(t, 2, 16)
            } else {
                None
            },
        },
    }
}

fn all_label_characters(t: &Vec<char>, n: usize) -> (r: bool)
    requires
        n <= t@.len(),
    ensures
        r == all_label_chars(t@.take(n as int)),
{
    let mut i: usize = 0;
    while i < n
        invariant
            n <= t@.len(),
            i <= n,
            all_label_chars(t@.take(i as int)),
        decreases n - i,
    {
        if !is_label_character(t[i]) {
            assert(t@.take(n as int)[i as int] == t@[i as int]);
            return false;
        }
        i = i + 1;
        assert(all_label_chars(t@.take(i as int)));
    }
    true
}

fn binop_line_exec(t: &Vec<Vec<char>>, op: BinOp) -> (r: ParsedLine)
    ensures
        r@ == binop_line(deep(t@), op),
{
    if t.len() < 7 {
        return ParsedLine::Invalid;
    }
    match (parse_ty(&t[1]), parse_location(&t[2]), parse_location(&t[4]), parse_location(&t[6])) {
        (Some(ty), Some(dst), Some(src1), Some(src2)) => emit_line(Instruction::BinOp { op, ty, src1, src2, dst }),
        _ => ParsedLine::Invalid,
    }
}

fn unop_line_exec(t: &Vec<Vec<char>>, op: UnOp) -> (r: ParsedLine)
    ensures
        r@ == unop_line(deep(t@), op),
{
    if t.len() < 5 {
        return ParsedLine::Invalid;
    }
    match (parse_ty(&t[1]), parse_location(&t[2]), parse_location(&t[4])) {
        (Some(ty), Some(dst), Some(src)) => emit_line(Instruction::UnOp { op, ty, src, dst }),
        _ => ParsedLine::Invalid,
    }
}

fn jmp_line_exec(t: &Vec<Vec<char>>) -> (r: ParsedLine)
    ensures
        r@ == jmp_line(deep(t@)),
{
    if t.len() < 3 {
        return ParsedLine::Invalid;
    }
    match parse_location(&t[1]) {
        None => ParsedLine::Invalid,
        Some(tgt) => if token_is(&t[2], "always") {
            emit_line(Instruction::Jmp {
                ty: Type::Int8,
                src: Location { register: Register::SP, indirect: false },
                tgt,
                cnd: Condition::ALWAYS,
            })
        } else if token_is(&t[2], "if") && t.len() >= 6 {
            match (parse_ty(&t[3]), parse_location(&t[4]), parse_condition(&t[5])) {
                (Some(ty), Some(src), Some(cnd)) => emit_line(Instruction::Jmp { ty, src, tgt, cnd }),
                _ => ParsedLine::Invalid,
            }
        } else {
            ParsedLine::Invalid
        },
    }
}

fn cmp_line_exec(t: &Vec<Vec<char>>) -> (r: ParsedLine)
    ensures
        r@ == cmp_line(deep(t@)),
{
    if t.len() < 6 {
        return ParsedLine::Invalid;
    }
    match (parse_location(&t[1]), parse_ty(&t[3]), parse_location(&t[4]), parse_condition(&t[5])) {
        (Some(dst), Some(ty), Some(src), Some(cnd)) => emit_line(Instruction::Cmp { ty, src, dst, cnd }),
        _ => ParsedLine::Invalid,
    }
}

fn mov_line_exec(t: &Vec<Vec<char>>) -> (r: ParsedLine)
    ensures
        r@ == mov_line(deep(t@)),
{
    if t.len() < 6 {
        return ParsedLine::Invalid;
    }
    match (parse_ty(&t[1]), parse_location(&t[2]), parse_ty(&t[4]), parse_location(&t[5])) {
        (Some(dst_ty), Some(dst), Some(src_ty), Some(src)) => emit_line(Instruction::Mov { src_ty, dst_ty, src, dst }),
        _ => ParsedLine::Invalid,
    }
}

fn copy_chars(t: &Vec<char>) -> (r: Vec<char>)
    ensures
        r@ == t@,
{
    let mut r: Vec<char> = Vec::new();
    let mut i: usize = 0;
    while i < t.len()
        invariant
            i <= t@.len(),
            r@ == t@.take(i as int),
        decreases t.len() - i,
    {
        r.push(t[i]);
        i = i + 1;
        assert(r@ =~= t@.take(i as int));
    }
    assert(t@.take(i as int) =~= t@);
    r
}

fn lod_line_exec(t: &Vec<Vec<char>>) -> (r: ParsedLine)
    ensures
        r@ == lod_line(deep(t@)),
{
    if t.len() < 4 {
        return ParsedLine::Invalid;
    }
    match parse_location(&t[1]) {
        None => ParsedLine::Invalid,
        Some(dest) => {
            let kind = &t[3];
            let is_b = token_is(kind, "b");
            let is_s = token_is(kind, "s");
            let is_i = token_is(kind, "i");
            let is_f = token_is(kind, "f");
            if is_b || is_s || is_i || is_f {
                if t.len() < 5 {
                    ParsedLine::Invalid
                } else if is_f {
                    ParsedLine::Emit(Instruction::Lod32(dest, 0), Reference::Float(copy_chars(&t[4])))
                } else {
                    match parse_integral_value(&t[4]) {
                        None => ParsedLine::Invalid,
                        Some(v) => if is_b {
                            if v <= 0xFF || v >= 0xFFFF_FF80 {
                                emit_line(Instruction::Lod8(dest, (v % 256) as u8))
                            } else {
                                ParsedLine::Invalid
                            }
                        } else if is_s {
                            if v <= 0xFFFF || v >= 0xFFFF_8000 {
                                emit_line(Instruction::Lod16(dest, (v % 0x1_0000) as u16))
                            } else {
                                ParsedLine::Invalid
                            }
                        } else {
                            emit_line(Instruction::Lod32(dest, v))
                        },
                    }
                }
            } else {
                let n = kind.len();
                proof {
                    assert(kind@.take(n as int) =~= kind@);
                }
                if all_label_characters(kind, n) {
                    ParsedLine::Emit(Instruction::Lod32(dest, 0), Reference::Label(copy_chars(kind)))
                } else {
                    ParsedLine::Invalid
                }
            }
        },
    }
}

fn memcpy_line_exec(t: &Vec<Vec<char>>) -> (r: ParsedLine)
    ensures
        r@ == memcpy_line(deep(t@)),
{
    if t.len() < 6 {
        return ParsedLine::Invalid;
    }
    match (parse_location(&t[1]), parse_location(&t[3]), parse_location(&t[5])) {
        (Some(dst), Some(src), Some(size)) => emit_line(Instruction::Memcpy { src, dst, size }),
        _ => ParsedLine::Invalid,
    }
}

fn new_line_exec(t: &Vec<Vec<char>>) -> (r: ParsedLine)
    ensures
        r@ == new_line(deep(t@)),
{
    if t.len() < 4 {
        return ParsedLine::Invalid;
    }
    match (parse_location(&t[1]), parse_location(&t[3])) {
        (Some(dst), Some(size)) => emit_line(Instruction::New { size, dst }),
        _ => ParsedLine::Invalid,
    }
}

fn io_line_exec(t: &Vec<Vec<char>>, output: bool) -> (r: ParsedLine)
    ensures
        r@ == io_line(deep(t@), output),
{
    if t.len() < 3 {
        return ParsedLine::Invalid;
    }
    match parse_location(&t[2]) {
        Some(loc) => emit_line(if output { Instruction::Output(loc) } else { Instruction::Input(loc) }),
        None => ParsedLine::Invalid,
    }
}

/// The meaning of a line with at least one token.
pub fn parse_tokens(t: &Vec<Vec<char>>) -> (r: ParsedLine)
    requires
        t@.len() > 0,
    ensures
        r@ == line_spec(deep(t@)),
{
    reveal(line_spec);
    let cmd = &t[0];
    let n = cmd.len();
    if n > 0 && cmd[n - 1] == ':' && all_label_characters(cmd, n - 1) {
        proof {
            assert(cmd@.drop_last() =~= cmd@.take(n - 1));
        }
        let mut name = copy_chars(cmd);
        name.pop();
        return ParsedLine::Define(name);
    }
    proof {
        if n > 0 && cmd@.last() == ':' {
            assert(cmd@.drop_last() =~= cmd@.take(n - 1));
        }
    }
    match parse_binop(cmd) {
        Some(op) => binop_line_exec(t, op),
        None => if token_is(cmd, "jmp") {
            jmp_line_exec(t)
        } else if token_is(cmd, "cmp") {
            cmp_line_exec(t)
        } else if token_is(cmd, "mov") {
            mov_line_exec(t)
        } else if token_is(cmd, "lod") {
            lod_line_exec(t)
        } else if token_is(cmd, "halt") {
            emit_line(Instruction::Halt)
        } else if token_is(cmd, "memcpy") {
            memcpy_line_exec(t)
        } else if token_is(cmd, "new") {
            new_line_exec(t)
        } else if token_is(cmd, "del") {
            if t.len() < 2 {
                ParsedLine::Invalid
            } else {
                match parse_location(&t[1]) {
                    Some(src) => emit_line(Instruction::Del { src }),
                    None => ParsedLine::Invalid,
                }
            }
        } else if token_is(cmd, "neg") {
            unop_line_exec(t, UnOp::NEG)
        } else if token_is(cmd, "not") {
            unop_line_exec(t, UnOp::NOT)
        } else if token_is(cmd, "input") {
            io_line_exec(t, false)
        } else if token_is(cmd, "output") {
            io_line_exec(t, true)
        } else {
            ParsedLine::Invalid
        },
    }
}

/// What the assembler has gathered after some lines: the bytes emitted, the
/// label definitions in order, the label references to patch (immediate
/// offset, label, line) and the float literals to fill in (immediate offset, text).
pub struct AsmState {
    pub out: Seq<u8>,
    pub labels: Seq<(Seq<char>, nat)>,
    pub pending: Seq<(nat, Seq<char>, nat)>,
    pub floats: Seq<(nat, Seq<char>)>,
}

/// The offset of the last definition of a label.
pub open spec fn lookup(defs: Seq<(Seq<char>, nat)>, name: Seq<char>) -> Option<nat>
    decreases defs.len(),
{
    if defs.len() == 0 {
        None
    } else if defs.last().0 == name {
        Some(defs.last().1)
    } else {
        lookup(defs.drop_last(), name)
    }
}

pub open spec fn is_comment(t: Seq<char>) -> bool {
    t.len() >= 2 && t[0] == '/' && t[1] == '/'
}

/// The state after line number `line`, whose tokens are `toks`.
pub open spec fn apply_line(st: AsmState, toks: Seq<Seq<char>>, line: nat) -> Result<AsmState, AssemblyError> {
    if toks.len() == 0 || is_comment(toks[0]) {
        Ok(st)
    } else {
        match line_spec(toks) {
            LineSpec::Define(n) => Ok(AsmState { labels: st.labels.push((n, st.out.len())), ..st }),
            LineSpec::Emit(i, r) => {
                let out = st.out + i.encoding();
                let at = st.out.len() + 1;
                match r {
                    ReferenceSpec::Nothing => Ok(AsmState { out, ..st }),
                    ReferenceSpec::Label(n) => Ok(AsmState { out, pending: st.pending.push((at, n, line)), ..st }),
                    ReferenceSpec::Float(t) => Ok(AsmState { out, floats: st.floats.push((at, t)), ..st }),
                }
            },
            LineSpec::Invalid => Err(AssemblyError::InvalidLine { line: line as usize }),
        }
    }
}

pub open spec fn empty_state() -> AsmState {
    AsmState { out: Seq::empty(), labels: Seq::empty(), pending: Seq::empty(), floats: Seq::empty() }
}

/// The state after the first `n` lines.
pub open spec fn assemble_lines(lines: Seq<Seq<char>>, n: nat) -> Result<AsmState, AssemblyError>
    decreases n,
{
    if n == 0 {
        Ok(empty_state())
    } else {
        match assemble_lines(lines, (n - 1) as nat) {
            Err(e) => Err(e),
            Ok(st) => apply_line(st, tokens(lines[n - 1]), n),
        }
    }
}

/// The bytes after patching the first `k` label references.
pub open spec fn resolve(st: AsmState, k: nat) -> Result<Seq<u8>, AssemblyError>
    decreases k,
{
    if k == 0 {
        Ok(st.out)
    } else {
        match resolve(st, (k - 1) as nat) {
            Err(e) => Err(e),
            Ok(out) => {
                let p = st.pending[k - 1];
                match lookup(st.labels, p.1) {
                    None => Err(AssemblyError::UndefinedLabel { line: p.2 as usize }),
                    Some(v) => Ok(splice(out, p.0 as int, be_bytes(v % 0x1_0000_0000, 4))),
                }
            },
        }
    }
}

/// The bytecode of a source text, and its float literals still to fill in.
pub open spec fn assemble_spec(source: Seq<char>) -> Result<(Seq<u8>, Seq<(nat, Seq<char>)>), AssemblyError> {
    let lines = split_lines(source);
    match assemble_lines(lines, lines.len()) {
        Err(e) => Err(e),
        Ok(st) => match resolve(st, st.pending.len()) {
            Err(e) => Err(e),
            Ok(out) => Ok((out, st.floats)),
        },
    }
}

/// A float literal whose bits go into the four bytes at `offset`.
pub struct FloatLiteral {
    pub offset: usize,
    pub text: Vec<char>,
}

pub open spec fn float_view(v: Seq<FloatLiteral>) -> Seq<(nat, Seq<char>)> {
    v.map_values(|f: FloatLiteral| (f.offset as nat, f.text@))
}

/// Assembled bytecode. The immediates of float literals are zero until their
/// bits are filled in with `set_float_bits`.
pub struct Assembly {
    pub bytes: Vec<u8>,
    pub float_literals: Vec<FloatLiteral>,
}

impl Assembly {
    /// Writes `bits` into the immediate of float literal `index`; false when
    /// there is no such literal or its immediate does not lie within the bytes.
    pub fn set_float_bits(&mut self, index: usize, bits: u32) -> (r: bool)
        ensures
            r == (index < old(self).float_literals@.len() && old(self).float_literals@[index as int].offset + 4
                <= old(self).bytes@.len()),
            final(self).float_literals@ == old(self).float_literals@,
            r ==> final(self).bytes@ == splice(
                old(self).bytes@,
                old(self).float_literals@[index as int].offset as int,
                be_bytes(bits as nat, 4),
            ),
            !r ==> final(self).bytes@ == old(self).bytes@,
    {
        if index >= self.float_literals.len() {
            return false;
        }
        let offset = self.float_literals[index].offset;
        if offset > self.bytes.len() || self.bytes.len() - offset < 4 {
            return false;
        }
        write_word(&mut self.bytes, offset, bits);
        true
    }
}

/// Overwrites the four bytes at `offset` with `v`, most significant first.
pub fn write_word(out: &mut Vec<u8>, offset: usize, v: u32)
    requires
        offset + 4 <= old(out)@.len(),
    ensures
        final(out)@ == splice(old(out)@, offset as int, be_bytes(v as nat, 4)),
{
    let ghost start = out@;
    let _len = out.len();
    reveal_with_fuel(be_bytes, 5);
    out.set(offset, ((v / 256 / 256 / 256) % 256) as u8);
    out.set(offset + 1, ((v / 256 / 256) % 256) as u8);
    out.set(offset + 2, ((v / 256) % 256) as u8);
    out.set(offset + 3, (v % 256) as u8);
    assert(out@ =~= splice(start, offset as int, be_bytes(v as nat, 4)));
}

struct Placeholder {
    offset: usize,
    name: Vec<char>,
    line: usize,
}

struct LabelDef {
    name: Vec<char>,
    offset: usize,
}

pub struct CasmAssembler {
    output_buffer: Vec<u8>,
    label_placeholder_locations: Vec<Placeholder>,
    label_locations: Vec<LabelDef>,
    float_literals: Vec<FloatLiteral>,
}

impl CasmAssembler {
    pub closed spec fn state(&self) -> AsmState {
        AsmState {
            out: self.output_buffer@,
            labels: self.label_locations@.map_values(|d: LabelDef| (d.name@, d.offset as nat)),
            pending: self.label_placeholder_locations@.map_values(|p: Placeholder| (p.offset as nat, p.name@, p.line as nat)),
            floats: float_view(self.float_literals@),
        }
    }

    /// Every label reference and float literal patches four bytes within the output.
    pub closed spec fn wf(&self) -> bool {
        &&& forall|k: int| 0 <= k < self.label_placeholder_locations@.len() ==> #[trigger] self.label_placeholder_locations@[k].offset + 4 <= self.output_buffer@.len()
        &&& forall|k: int| 0 <= k < self.float_literals@.len() ==> #[trigger] self.float_literals@[k].offset + 4 <= self.output_buffer@.len()
    }

    fn new() -> (r: CasmAssembler)
        ensures
            r.wf(),
            r.state() == empty_state(),
    {
        let r = CasmAssembler {
            output_buffer: Vec::new(),
            label_placeholder_locations: Vec::new(),
            label_locations: Vec::new(),
            float_literals: Vec::new(),
        };
        assert(r.state().labels =~= Seq::<(Seq<char>, nat)>::empty());
        assert(r.state().pending =~= Seq::<(nat, Seq<char>, nat)>::empty());
        assert(r.state().floats =~= Seq::<(nat, Seq<char>)>::empty());
        r
    }

    fn set_label_value(&mut self, name: Vec<char>)
        ensures
            final(self).state() == (AsmState { labels: old(self).state().labels.push((name@, old(self).state().out.len())), ..old(self).state() }),
            old(self).wf() ==> final(self).wf(),
    {
        let offset = self.output_buffer.len();
        self.label_locations.push(LabelDef { name, offset });
        assert(self.state().labels =~= old(self).state().labels.push((name@, old(self).state().out.len())));
    }

    /// Handles line number `line`, whose tokens are `toks`.
    fn parse_line(&mut self, toks: &Vec<Vec<char>>, line: usize) -> (r: Result<(), AssemblyError>)
        requires
            old(self).wf(),
        ensures
            match apply_line(old(self).state(), deep(toks@), line as nat) {
                Ok(st) => r is Ok && final(self).state() == st && final(self).wf(),
                Err(e) => r == Err::<(), AssemblyError>(e) && final(self).state() == old(self).state(),
            },
    {
        if toks.len() == 0 {
            return Ok(());
        }
        let first = &toks[0];
        if first.len() >= 2 && first[0] == '/' && first[1] == '/' {
            return Ok(());
        }
        match parse_tokens(toks) {
            ParsedLine::Define(name) => {
                self.set_label_value(name);
                Ok(())
            },
            ParsedLine::Emit(instr, reference) => {
                let before = self.output_buffer.len();
                instr.output_to(&mut self.output_buffer);
                let after = self.output_buffer.len();
                proof {
                    assert(after == before + instr.encoding().len());
                    assert(instr.encoding().len() >= 1);
                    lemma_reference_is_lod32(deep(toks@));
                    if let Instruction::Lod32(_, v) = instr {
                        lemma_be_bytes_len(v as nat, 4);
                    }
                }
                let at = before + 1;
                match reference {
                    Reference::Nothing => {},
                    Reference::Label(name) => {
                        proof {
                            assert(instr.encoding().len() == 5);
                        }
                        self.label_placeholder_locations.push(Placeholder { offset: at, name, line });
                    },
                    Reference::Float(text) => {
                        proof {
                            assert(instr.encoding().len() == 5);
                        }
                        self.float_literals.push(FloatLiteral { offset: at, text });
                    },
                }
                proof {
                    let st = old(self).state();
                    assert(self.state().pending =~= match reference {
                        Reference::Label(n) => st.pending.push((at as nat, n@, line as nat)),
                        _ => st.pending,
                    });
                    assert(self.state().floats =~= match reference {
                        Reference::Float(t) => st.floats.push((at as nat, t@)),
                        _ => st.floats,
                    });
                    assert(self.state().labels =~= st.labels);
                    assert forall|k: int| 0 <= k < self.label_placeholder_locations@.len() implies #[trigger] self.label_placeholder_locations@[k].offset + 4 <= self.output_buffer@.len() by {
                        if k < old(self).label_placeholder_locations@.len() {
                            assert(self.label_placeholder_locations@[k] == old(self).label_placeholder_locations@[k]);
                        }
                    }
                    assert forall|k: int| 0 <= k < self.float_literals@.len() implies #[trigger] self.float_literals@[k].offset + 4 <= self.output_buffer@.len() by {
                        if k < old(self).float_literals@.len() {
                            assert(self.float_literals@[k] == old(self).float_literals@[k]);
                        }
                    }
                }
                Ok(())
            },
            ParsedLine::Invalid => Err(AssemblyError::InvalidLine { line }),
        }
    }

    /// The offset of the last definition of a label.
    fn lookup_label(&self, name: &Vec<char>) -> (r: Option<usize>)
        ensures
            match lookup(self.state().labels, name@) {
                Some(v) => r == Some(v as usize) && v <= usize::MAX,
                None => r is None,
            },
    {
        let ghost defs = self.state().labels;
        let mut i: usize = self.label_locations.len();
        assert(defs.take(i as int) =~= defs);
        while i > 0
            invariant
                i <= self.label_locations@.len(),
                defs == self.state().labels,
                lookup(defs, name@) == lookup(defs.take(i as int), name@),
            decreases i,
        {
            let d = &self.label_locations[i - 1];
            assert(defs.take(i as int).drop_last() =~= defs.take(i - 1));
            if crate::text::chars_eq(&d.name, name) {
                return Some(d.offset);
            }
            i = i - 1;
        }
        None
    }

    /// Patches every label reference with the label's offset.
    fn insert_labels(&mut self) -> (r: Result<(), AssemblyError>)
        requires
            old(self).wf(),
        ensures
            match resolve(old(self).state(), old(self).state().pending.len()) {
                Ok(out) => r is Ok && final(self).state() == (AsmState { out, ..old(self).state() }) && final(self).wf(),
                Err(e) => r == Err::<(), AssemblyError>(e),
            },
    {
        let ghost st = self.state();
        let mut k: usize = 0;
        while k < self.label_placeholder_locations.len()
            invariant
                k <= self.label_placeholder_locations@.len(),
                self.wf(),
                st == old(self).state(),
                st.pending == self.state().pending,
                st.labels == self.state().labels,
                st.floats == self.state().floats,
                self.output_buffer@.len() == st.out.len(),
                resolve(st, k as nat) == Ok::<Seq<u8>, AssemblyError>(self.output_buffer@),
            decreases self.label_placeholder_locations.len() - k,
        {
            let offset = self.label_placeholder_locations[k].offset;
            let line = self.label_placeholder_locations[k].line;
            match self.lookup_label(&self.label_placeholder_locations[k].name) {
                None => {
                    proof {
                        assert(self.state().pending[k as int] == (offset as nat, self.label_placeholder_locations@[k as int].name@, line as nat));
                        assert(resolve(st, (k + 1) as nat) == Err::<Seq<u8>, AssemblyError>(AssemblyError::UndefinedLabel { line }));
                        lemma_resolve_error_sticks(st, (k + 1) as nat, st.pending.len());
                    }
                    return Err(AssemblyError::UndefinedLabel { line });
                },
                Some(v) => {
                    let word = ((v as u64) % 0x1_0000_0000) as u32;
                    write_word(&mut self.output_buffer, offset, word);
                    proof {
                        lemma_be_bytes_len(word as nat, 4);
                    }
                },
            }
            k = k + 1;
        }
        proof {
            assert(self.state() == (AsmState { out: self.output_buffer@, ..st }));
        }
        Ok(())
    }

    /// Assembles a source text. Fails at the first line that is not a label,
    /// an instruction, a comment or blank, and at the first reference to an
    /// undefined label.
    pub fn assemble(source: &str) -> (r: Result<Assembly, AssemblyError>)
        ensures
            match assemble_spec(source@) {
                Ok(p) => r is Ok && r->Ok_0.bytes@ == p.0 && float_view(r->Ok_0.float_literals@) == p.1,
                Err(e) => r == Err::<Assembly, AssemblyError>(e),
            },
    {
        let chars = chars_of(source);
        let lines = lines_of(&chars);
        let ghost ls = split_lines(source@);
        let mut assembler = CasmAssembler::new();
        let mut i: usize = 0;
        while i < lines.len()
            invariant
                i <= lines@.len(),
                deep(lines@) == ls,
                ls == split_lines(source@),
                assembler.wf(),
                assemble_lines(ls, i as nat) == Ok::<AsmState, AssemblyError>(assembler.state()),
            decreases lines.len() - i,
        {
            let toks = tokens_of(&lines[i]);
            assert(deep(lines@)[i as int] == lines@[i as int]@);
            let ghost before = assembler.state();
            match assembler.parse_line(&toks, i + 1) {
                Ok(()) => {},
                Err(e) => {
                    proof {
                        assert(assemble_lines(ls, (i + 1) as nat) == apply_line(before, tokens(ls[i as int]), (i + 1) as nat));
                        lemma_lines_error_sticks(ls, (i + 1) as nat, ls.len());
                    }
                    return Err(e);
                },
            }
            i = i + 1;
        }
        assembler.insert_labels()?;
        Ok(Assembly { bytes: assembler.output_buffer, float_literals: assembler.float_literals })
    }
}

/// Assembles a source text into bytecode; see `CasmAssembler::assemble`.
pub fn assemble_casm_program(source: &str) -> (r: Result<Assembly, AssemblyError>)
    ensures
        match assemble_spec(source@) {
            Ok(p) => r is Ok && r->Ok_0.bytes@ == p.0 && float_view(r->Ok_0.float_literals@) == p.1,
            Err(e) => r == Err::<Assembly, AssemblyError>(e),
        },
{
    CasmAssembler::assemble(source)
}

/// Only a `lod` of a label or a float leaves something to fill in, and it is a `LOD32`.
proof fn lemma_reference_is_lod32(t: Seq<Seq<char>>)
    requires
        t.len() > 0,
    ensures
        line_spec(t) matches LineSpec::Emit(i, r) ==> (r is Nothing || (i is Lod32)),
{
    reveal(line_spec);
}

proof fn lemma_resolve_error_sticks(st: AsmState, k: nat, n: nat)
    requires
        k <= n,
        resolve(st, k) is Err,
    ensures
        resolve(st, n) == resolve(st, k),
    decreases n - k,
{
    if k < n {
        lemma_resolve_error_sticks(st, k, (n - 1) as nat);
    }
}

proof fn lemma_lines_error_sticks(lines: Seq<Seq<char>>, k: nat, n: nat)
    requires
        k <= n,
        assemble_lines(lines, k) is Err,
    ensures
        assemble_lines(lines, n) == assemble_lines(lines, k),
    decreases n - k,
{
    if k < n {
        lemma_lines_error_sticks(lines, k, (n - 1) as nat);
    }
}

/// Each label reference is the immediate of a `LOD32` within the output, and
/// the references lie at least one instruction apart.
pub open spec fn references_spaced(st: AsmState) -> bool {
    &&& forall|a: int, b: int| 0 <= a < b < st.pending.len() ==> #[trigger] st.pending[a].0 + 5 <= #[trigger] st.pending[b].0
    &&& forall|a: int|
        0 <= a < st.pending.len() ==> 1 <= #[trigger] st.pending[a].0 && st.pending[a].0 + 4 <= st.out.len()
            && st.out[st.pending[a].0 - 1] / 16 == 3
}

proof fn lemma_lines_spaced(lines: Seq<Seq<char>>, n: nat)
    requires
        assemble_lines(lines, n) is Ok,
    ensures
        references_spaced(assemble_lines(lines, n)->Ok_0),
    decreases n,
{
    if n > 0 {
        let prev = assemble_lines(lines, (n - 1) as nat);
        lemma_lines_spaced(lines, (n - 1) as nat);
        let st = prev->Ok_0;
        let toks = tokens(lines[n - 1]);
        if !(toks.len() == 0 || is_comment(toks[0])) {
            lemma_reference_is_lod32(toks);
            if let LineSpec::Emit(i, r) = line_spec(toks) {
                if let Instruction::Lod32(_, v) = i {
                    lemma_be_bytes_len(v as nat, 4);
                }
                assert(i.encoding().len() >= 1);
                let out = st.out + i.encoding();
                assert forall|k: int| 0 <= k < st.out.len() implies out[k] == st.out[k] by {}
                assert(out[st.out.len() as int] == i.encoding()[0]);
            }
        }
    }
}

proof fn lemma_resolve_patches(st: AsmState, k: nat, a: int)
    requires
        references_spaced(st),
        k <= st.pending.len(),
        resolve(st, k) is Ok,
        0 <= a < k,
    ensures
        lookup(st.labels, st.pending[a].1) is Some,
        resolve(st, k)->Ok_0.len() == st.out.len(),
        resolve(st, k)->Ok_0.subrange(st.pending[a].0 as int, st.pending[a].0 + 4int) == be_bytes(
            lookup(st.labels, st.pending[a].1)->Some_0 % 0x1_0000_0000,
            4,
        ),
    decreases k,
{
    let p = st.pending[k - 1];
    let v = lookup(st.labels, p.1)->Some_0 % 0x1_0000_0000;
    lemma_be_bytes_len(v, 4);
    if k - 1 > 0 {
        lemma_resolve_length(st, (k - 1) as nat);
    }
    if a < k - 1 {
        lemma_resolve_patches(st, (k - 1) as nat, a);
        let before = resolve(st, (k - 1) as nat)->Ok_0;
        let q = st.pending[a];
        assert(q.0 + 4 <= p.0);
        assert(splice(before, p.0 as int, be_bytes(v, 4)).subrange(q.0 as int, q.0 + 4int) =~= before.subrange(q.0 as int, q.0 + 4int));
    } else {
        let before = resolve(st, (k - 1) as nat)->Ok_0;
        assert(splice(before, p.0 as int, be_bytes(v, 4)).subrange(p.0 as int, p.0 + 4int) =~= be_bytes(v, 4));
    }
}

proof fn lemma_resolve_length(st: AsmState, k: nat)
    requires
        references_spaced(st),
        k <= st.pending.len(),
        resolve(st, k) is Ok,
    ensures
        resolve(st, k)->Ok_0.len() == st.out.len(),
    decreases k,
{
    if k > 0 {
        lemma_resolve_length(st, (k - 1) as nat);
        let p = st.pending[k - 1];
        lemma_be_bytes_len(lookup(st.labels, p.1)->Some_0 % 0x1_0000_0000, 4);
    }
}

proof fn lemma_resolve_keeps_opcodes(st: AsmState, k: nat, a: int)
    requires
        references_spaced(st),
        k <= st.pending.len(),
        resolve(st, k) is Ok,
        0 <= a < st.pending.len(),
    ensures
        resolve(st, k)->Ok_0[st.pending[a].0 - 1] == st.out[st.pending[a].0 - 1],
    decreases k,
{
    if k > 0 {
        lemma_resolve_keeps_opcodes(st, (k - 1) as nat, a);
        lemma_resolve_length(st, (k - 1) as nat);
        let p = st.pending[k - 1];
        let q = st.pending[a];
        lemma_be_bytes_len(lookup(st.labels, p.1)->Some_0 % 0x1_0000_0000, 4);
        if a < k - 1 {
            assert(q.0 + 5 <= p.0);
        } else if a > k - 1 {
            assert(p.0 + 5 <= q.0);
        }
    }
}

/// In an assembled program, each `lod <loc> <- L` at offset `j` keeps its
/// `LOD32` opcode byte at `j` and holds in bytes `[j + 1, j + 5)` the offset at
/// which `L` is (last) defined, big-endian, whether `L` is defined before or after.
pub proof fn lemma_label_resolution(source: Seq<char>, a: int)
    requires
        assemble_spec(source) is Ok,
        0 <= a < assemble_lines(split_lines(source), split_lines(source).len())->Ok_0.pending.len(),
    ensures
        ({
            let st = assemble_lines(split_lines(source), split_lines(source).len())->Ok_0;
            let r = st.pending[a];
            &&& lookup(st.labels, r.1) is Some
            &&& r.0 >= 1 && assemble_spec(source)->Ok_0.0[r.0 - 1] / 16 == 3
            &&& assemble_spec(source)->Ok_0.0.subrange(r.0 as int, r.0 + 4int) == be_bytes(
                lookup(st.labels, r.1)->Some_0 % 0x1_0000_0000,
                4,
            )
        }),
{
    let lines = split_lines(source);
    lemma_lines_spaced(lines, lines.len());
    let st = assemble_lines(lines, lines.len())->Ok_0;
    lemma_resolve_patches(st, st.pending.len(), a);
    lemma_resolve_keeps_opcodes(st, st.pending.len(), a);
}

/// A source of one line that spells an instruction without a label or float
/// operand assembles to exactly that instruction's encoding.
pub proof fn lemma_single_instruction(source: Seq<char>, i: Instruction)
    requires
        split_lines(source).len() == 1,
        tokens(split_lines(source)[0]).len() > 0,
        !is_comment(tokens(split_lines(source)[0])[0]),
        line_spec(tokens(split_lines(source)[0])) == emit(i),
    ensures
        assemble_spec(source) == Ok::<(Seq<u8>, Seq<(nat, Seq<char>)>), AssemblyError>((i.encoding(), Seq::empty())),
{
    let lines = split_lines(source);
    assert(assemble_lines(lines, 0) == Ok::<AsmState, AssemblyError>(empty_state()));
    assert(empty_state().out + i.encoding() =~= i.encoding());
}

} // verus!
