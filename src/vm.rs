//! The interpreter: fetch, decode and execute, one instruction per step.
//!
//! Reading input, printing output and floating-point arithmetic happen outside
//! the machine: a step that needs one of them reports it as an event and waits
//! until the result is handed back with `provide_value`.

use vstd::prelude::*;
use crate::allocator::{MemoryBlockInfo, coalesce_layout, is_free};
use crate::growable_memory::{MAX_MEMORY, splice};
use crate::instruction::{BinOp, Condition, Instruction, Location, Type, UnOp, decode, decode_spec};
use crate::memory_buffer::{MemoryBuffer, be_bytes, lemma_be_value_bound, lemma_byte_ranges};
use crate::ram::{RAM, allocation, region_read};
use crate::register::{Register, reg_read, reg_write};
use crate::types::{CeriumError, Pointer, Size, spec_is_heap, spec_offset, HEAP_PTR_BIT};
use crate::values::{
    complement, condition_holds, convert, int_binop, int_width, modulus, negate, operand_sign, signed,
    int_binop_exec, neg_bits, not_bits, convert_bits, test_condition, to_signed,
};

verus! {

/// Floating-point work that the host performs for the machine. Floats travel
/// as their IEEE-754 bit patterns.
#[derive(Copy, Clone, PartialEq, Eq, Structural, Debug)]
pub enum FloatRequest {
    /// `a op b`; for `MOD`, `((a % b) + b) % b`. The result is an `f32`.
    Arith { op: BinOp, a: u32, b: u32 },
    /// The integer converted to an `f32`.
    FromInt { value: i32 },
    /// The `f32` converted, as by `as`, to the integer type `ty`, as a bit pattern.
    ToInt { bits: u32, ty: Type },
}

/// What a step did, and what the host has to do before the next one.
#[derive(Copy, Clone, PartialEq, Eq, Structural, Debug)]
pub enum StepEvent {
    Continue,
    Halted,
    /// Print the value.
    Output(i32),
    /// Read an integer and hand it back with `provide_value`.
    Input,
    /// Do the float work and hand the result's bits back with `provide_value`.
    Float(FloatRequest),
}

#[derive(Copy, Clone, PartialEq, Eq, Structural, Debug)]
pub enum VmStatus {
    Loaded,
    Running,
    /// Waiting for a value of `width` bytes to store at `dst`.
    Awaiting { dst: Location, width: u32 },
    Done,
    Faulted,
}

/// The machine state as its contracts see it.
pub struct VmModel {
    pub regs: Seq<u32>,
    pub stack: Seq<u8>,
    pub heap: Seq<u8>,
    pub blocks: Seq<MemoryBlockInfo>,
    pub ip: u32,
    pub program: Seq<u8>,
    pub status: VmStatus,
}

/// The address after the last heap block.
pub open spec fn layout_end(s: Seq<MemoryBlockInfo>) -> nat {
    if s.len() == 0 {
        0
    } else {
        s.last().span.end as nat
    }
}

pub open spec fn region_of(m: VmModel, addr: u32) -> Seq<u8> {
    if spec_is_heap(addr) {
        m.heap
    } else {
        m.stack
    }
}

/// `m` with the region that `addr` selects replaced by `bytes` written at its offset.
pub open spec fn store_bytes(m: VmModel, addr: u32, bytes: Seq<u8>) -> VmModel {
    if spec_is_heap(addr) {
        VmModel { heap: splice(m.heap, spec_offset(addr) as int, bytes), ..m }
    } else {
        VmModel { stack: splice(m.stack, spec_offset(addr) as int, bytes), ..m }
    }
}

/// The value of `width` bytes at a location.
pub open spec fn read_loc(m: VmModel, loc: Location, width: nat) -> Result<u32, CeriumError> {
    let r = m.regs[loc.register.spec_index() as int];
    if !loc.indirect {
        Ok(reg_read(r, width))
    } else if spec_offset(r) + width > MAX_MEMORY {
        Err(CeriumError::MemoryLimit)
    } else {
        Ok(region_read(region_of(m, r), spec_offset(r), width) as u32)
    }
}

/// The state after storing a value of `width` bytes at a location.
pub open spec fn write_loc(m: VmModel, loc: Location, width: nat, v: u32) -> Result<VmModel, CeriumError> {
    let i = loc.register.spec_index() as int;
    let r = m.regs[i];
    if !loc.indirect {
        Ok(VmModel { regs: m.regs.update(i, reg_write(r, width, v)), ..m })
    } else if spec_offset(r) + width > MAX_MEMORY {
        Err(CeriumError::MemoryLimit)
    } else {
        Ok(store_bytes(m, r, be_bytes(v as nat, width)))
    }
}

pub open spec fn continuing(r: Result<VmModel, CeriumError>) -> Result<(VmModel, StepEvent), CeriumError> {
    match r {
        Ok(m) => Ok((m, StepEvent::Continue)),
        Err(e) => Err(e),
    }
}

pub open spec fn awaiting(m: VmModel, dst: Location, width: u32, event: StepEvent) -> Result<(VmModel, StepEvent), CeriumError> {
    Ok((VmModel { status: VmStatus::Awaiting { dst, width }, ..m }, event))
}

pub open spec fn is_float(ty: Type) -> bool {
    ty == Type::Float
}

pub open spec fn width_of(ty: Type) -> nat {
    ty.spec_width() as nat
}

#[verifier::opaque]
pub open spec fn mov_spec(m: VmModel, src_ty: Type, dst_ty: Type, src: Location, dst: Location) -> Result<(VmModel, StepEvent), CeriumError> {
    match read_loc(m, src, width_of(src_ty)) {
        Err(e) => Err(e),
        Ok(v) => if is_float(src_ty) && is_float(dst_ty) {
            continuing(write_loc(m, dst, 4, v))
        } else if is_float(src_ty) {
            awaiting(m, dst, dst_ty.spec_width(), StepEvent::Float(FloatRequest::ToInt { bits: v, ty: dst_ty }))
        } else if is_float(dst_ty) {
            awaiting(m, dst, 4, StepEvent::Float(FloatRequest::FromInt { value: signed(v, width_of(src_ty)) as i32 }))
        } else {
            continuing(write_loc(m, dst, width_of(dst_ty), convert(v, width_of(src_ty), width_of(dst_ty))))
        },
    }
}

#[verifier::opaque]
pub open spec fn binop_spec(m: VmModel, op: BinOp, ty: Type, src1: Location, src2: Location, dst: Location) -> Result<(VmModel, StepEvent), CeriumError> {
    let w = width_of(ty);
    if is_float(ty) && op.spec_integer_only() {
        Err(CeriumError::UnsupportedType)
    } else {
        match read_loc(m, src1, w) {
            Err(e) => Err(e),
            Ok(a) => match read_loc(m, src2, w) {
                Err(e) => Err(e),
                Ok(b) => if is_float(ty) {
                    awaiting(m, dst, 4, StepEvent::Float(FloatRequest::Arith { op, a, b }))
                } else {
                    match int_binop(op, w, a, b) {
                        Err(e) => Err(e),
                        Ok(v) => continuing(write_loc(m, dst, w, v)),
                    }
                },
            },
        }
    }
}

#[verifier::opaque]
pub open spec fn unop_spec(m: VmModel, op: UnOp, ty: Type, src: Location, dst: Location) -> Result<(VmModel, StepEvent), CeriumError> {
    let w = width_of(ty);
    if is_float(ty) && op == UnOp::NOT {
        Err(CeriumError::UnsupportedType)
    } else {
        match read_loc(m, src, w) {
            Err(e) => Err(e),
            Ok(v) => {
                let r = if op == UnOp::NOT {
                    complement(v, w)
                } else if is_float(ty) {
                    v ^ 0x8000_0000u32
                } else {
                    negate(v, w)
                };
                continuing(write_loc(m, dst, w, r))
            },
        }
    }
}

#[verifier::opaque]
pub open spec fn cmp_spec(m: VmModel, ty: Type, src: Location, dst: Location, cnd: Condition) -> Result<(VmModel, StepEvent), CeriumError> {
    match read_loc(m, src, width_of(ty)) {
        Err(e) => Err(e),
        Ok(v) => continuing(write_loc(m, dst, 1, if condition_holds(cnd, operand_sign(ty, v)) { 1 } else { 0 })),
    }
}

#[verifier::opaque]
pub open spec fn jmp_spec(m: VmModel, ty: Type, src: Location, tgt: Location, cnd: Condition) -> Result<(VmModel, StepEvent), CeriumError> {
    match read_loc(m, src, width_of(ty)) {
        Err(e) => Err(e),
        Ok(v) => if condition_holds(cnd, operand_sign(ty, v)) {
            match read_loc(m, tgt, 4) {
                Err(e) => Err(e),
                Ok(t) => Ok((VmModel { ip: t, ..m }, StepEvent::Continue)),
            }
        } else {
            Ok((m, StepEvent::Continue))
        },
    }
}

#[verifier::opaque]
pub open spec fn memcpy_spec(m: VmModel, src: Location, dst: Location, size: Location) -> Result<(VmModel, StepEvent), CeriumError> {
    match read_loc(m, size, 4) {
        Err(e) => Err(e),
        Ok(n) => match read_loc(m, src, 4) {
            Err(e) => Err(e),
            Ok(s) => match read_loc(m, dst, 4) {
                Err(e) => Err(e),
                Ok(d) => if spec_offset(s) + n > MAX_MEMORY || spec_offset(d) + n > MAX_MEMORY {
                    Err(CeriumError::MemoryLimit)
                } else {
                    let copied = region_of(m, s).subrange(spec_offset(s) as int, spec_offset(s) + n);
                    Ok((store_bytes(m, d, copied), StepEvent::Continue))
                },
            },
        },
    }
}

#[verifier::opaque]
pub open spec fn new_spec(m: VmModel, size: Location, dst: Location) -> Result<(VmModel, StepEvent), CeriumError> {
    match read_loc(m, size, 4) {
        Err(e) => Err(e),
        Ok(n) => if n == 0 {
            Err(CeriumError::EmptyAllocation)
        } else if crate::allocator::best_fit(m.blocks, n as nat) is None && layout_end(m.blocks) + n > MAX_MEMORY {
            Err(CeriumError::MemoryLimit)
        } else {
            let a = allocation(m.blocks, layout_end(m.blocks), n as nat);
            continuing(write_loc(VmModel { blocks: a.0, ..m }, dst, 4, (a.2 + HEAP_PTR_BIT) as u32))
        },
    }
}

#[verifier::opaque]
pub open spec fn del_spec(m: VmModel, src: Location) -> Result<(VmModel, StepEvent), CeriumError> {
    match read_loc(m, src, 4) {
        Err(e) => Err(e),
        Ok(p) => if !spec_is_heap(p) {
            Err(CeriumError::NonHeapPointer)
        } else if exists|i: int| 0 <= i < m.blocks.len() && (#[trigger] m.blocks[i]).span.start == spec_offset(p) && !is_free(m.blocks[i]) {
            let i = choose|i: int| 0 <= i < m.blocks.len() && (#[trigger] m.blocks[i]).span.start == spec_offset(p) && !is_free(m.blocks[i]);
            Ok((VmModel { blocks: coalesce_layout(m.blocks, i), ..m }, StepEvent::Continue))
        } else {
            Err(CeriumError::InvalidPointer)
        },
    }
}

/// What executing an instruction does to a machine whose instruction pointer
/// already points past it.
#[verifier::opaque]
pub open spec fn execute_spec(m: VmModel, instr: Instruction) -> Result<(VmModel, StepEvent), CeriumError> {
    match instr {
        Instruction::Mov { src_ty, dst_ty, src, dst } => mov_spec(m, src_ty, dst_ty, src, dst),
        Instruction::Lod8(loc, v) => continuing(write_loc(m, loc, 1, v as u32)),
        Instruction::Lod16(loc, v) => continuing(write_loc(m, loc, 2, v as u32)),
        Instruction::Lod32(loc, v) => continuing(write_loc(m, loc, 4, v)),
        Instruction::Halt => Ok((VmModel { status: VmStatus::Done, ..m }, StepEvent::Halted)),
        Instruction::Memcpy { src, dst, size } => memcpy_spec(m, src, dst, size),
        Instruction::New { size, dst } => new_spec(m, size, dst),
        Instruction::Del { src } => del_spec(m, src),
        Instruction::Cmp { ty, src, dst, cnd } => cmp_spec(m, ty, src, dst, cnd),
        Instruction::Jmp { ty, src, tgt, cnd } => jmp_spec(m, ty, src, tgt, cnd),
        Instruction::BinOp { op, ty, src1, src2, dst } => binop_spec(m, op, ty, src1, src2, dst),
        Instruction::UnOp { op, ty, src, dst } => unop_spec(m, op, ty, src, dst),
        Instruction::Input(loc) => awaiting(m, loc, 4, StepEvent::Input),
        Instruction::Output(loc) => match read_loc(m, loc, 4) {
            Err(e) => Err(e),
            Ok(v) => Ok((m, StepEvent::Output(signed(v, 4) as i32))),
        },
        Instruction::Nop => Ok((m, StepEvent::Continue)),
    }
}

/// Whether the machine accepts a step.
pub open spec fn runnable(status: VmStatus) -> bool {
    status == VmStatus::Loaded || status == VmStatus::Running
}

/// One step of a runnable machine: fetch the instruction at the instruction
/// pointer, move the pointer past it, and execute it.
pub open spec fn step_spec(m: VmModel) -> Result<(VmModel, StepEvent), CeriumError> {
    match decode_spec(m.program, m.ip as int) {
        None => Err(CeriumError::InstructionOutOfRange),
        Some(d) => execute_spec(VmModel { ip: (m.ip + d.1) as u32, status: VmStatus::Running, ..m }, d.0),
    }
}

pub struct CeriumVM {
    memory: RAM,
    registers: Vec<Register>,
    instruction_ptr: u32,
    program: MemoryBuffer,
    status: VmStatus,
}

impl CeriumVM {
    pub closed spec fn model(&self) -> VmModel {
        VmModel {
            regs: self.registers@.map_values(|r: Register| r@),
            stack: self.memory.stack(),
            heap: self.memory.heap(),
            blocks: self.memory.allocator().blocks(),
            ip: self.instruction_ptr,
            program: self.program@,
            status: self.status,
        }
    }

    /// The memory, with the physical sizes of its regions.
    pub closed spec fn ram(&self) -> RAM {
        self.memory
    }

    pub closed spec fn wf(&self) -> bool {
        &&& self.memory.wf()
        &&& self.registers@.len() == 8
        &&& self.program@.len() <= u32::MAX
        &&& (self.status matches VmStatus::Awaiting { width, .. } ==> int_width(width as nat))
    }

    pub fn new() -> (r: CeriumVM)
        ensures
            r.wf(),
            r.model().regs == Seq::new(8, |i: int| 0u32),
            r.model().stack == Seq::new(MAX_MEMORY as nat, |i: int| 0u8),
            r.model().heap == Seq::new(MAX_MEMORY as nat, |i: int| 0u8),
            r.model().blocks == Seq::<MemoryBlockInfo>::empty(),
            r.model().ip == 0,
            r.model().program == Seq::<u8>::empty(),
            r.model().status == VmStatus::Loaded,
            r.ram().stack_size() == crate::growable_memory::INITIAL_MEMORY,
            r.ram().heap_size() == crate::growable_memory::INITIAL_MEMORY,
    {
        let mut registers: Vec<Register> = Vec::new();
        let mut i: usize = 0;
        while i < 8
            invariant
                i <= 8,
                registers@.len() == i,
                forall|k: int| 0 <= k < i ==> (#[trigger] registers@[k])@ == 0,
            decreases 8 - i,
        {
            registers.push(Register::new());
            i = i + 1;
        }
        let r = CeriumVM { memory: RAM::new(), registers, instruction_ptr: 0, program: MemoryBuffer::new(), status: VmStatus::Loaded };
        assert(r.model().regs =~= Seq::new(8, |i: int| 0u32));
        r
    }

    /// Replaces the program and restarts execution at its first byte. The
    /// registers and memory keep their contents.
    pub fn load_program(&mut self, program: Vec<u8>)
        requires
            old(self).wf(),
            program@.len() <= u32::MAX,
        ensures
            final(self).wf(),
            final(self).model() == (VmModel { program: program@, ip: 0, status: VmStatus::Loaded, ..old(self).model() }),
    {
        self.program = MemoryBuffer::from_bytes(program);
        self.instruction_ptr = 0;
        self.status = VmStatus::Loaded;
    }

    /// Whether the machine has executed `HALT`.
    pub fn is_done(&self) -> (r: bool)
        ensures
            r == (self.model().status == VmStatus::Done),
    {
        self.status == VmStatus::Done
    }

    pub fn status(&self) -> (r: VmStatus)
        ensures
            r == self.model().status,
    {
        self.status
    }

    pub fn instruction_ptr(&self) -> (r: u32)
        ensures
            r == self.model().ip,
    {
        self.instruction_ptr
    }

    /// The word held in register `index`.
    pub fn register_value(&self, index: usize) -> (r: u32)
        requires
            self.wf(),
            index < 8,
        ensures
            r == self.model().regs[index as int],
    {
        self.registers[index].value()
    }

    pub fn memory(&self) -> (r: &RAM)
        ensures
            *r == self.ram(),
            r.stack() == self.model().stack,
            r.heap() == self.model().heap,
            r.allocator().blocks() == self.model().blocks,
    {
        &self.memory
    }

    /// The value of `width` bytes at a location; reading memory may grow its region.
    fn read_location(&mut self, loc: Location, width: u32) -> (r: Result<u32, CeriumError>)
        requires
            old(self).wf(),
            int_width(width as nat),
        ensures
            final(self).wf(),
            final(self).model() == old(self).model(),
            r == read_loc(old(self).model(), loc, width as nat),
            r matches Ok(v) ==> v < modulus(width as nat),
    {
        let i = loc.register.index() as usize;
        let word = self.registers[i].value();
        if !loc.indirect {
            Ok(self.registers[i].get(width))
        } else {
            let r = self.memory.read(Pointer(word), width);
            proof {
                lemma_byte_ranges();
                old(self).memory.lemma_regions_len();
                let off = spec_offset(word);
                if off + width <= MAX_MEMORY {
                    lemma_be_value_bound(old(self).memory.region(word).subrange(off as int, off + width));
                }
                assert(self.model().regs =~= old(self).model().regs);
            }
            r
        }
    }

    /// Stores a value of `width` bytes at a location.
    fn write_location(&mut self, loc: Location, width: u32, v: u32) -> (r: Result<(), CeriumError>)
        requires
            old(self).wf(),
            int_width(width as nat),
            v < modulus(width as nat),
        ensures
            final(self).wf(),
            match write_loc(old(self).model(), loc, width as nat, v) {
                Ok(m) => r is Ok && final(self).model() == m,
                Err(e) => r == Err::<(), CeriumError>(e) && final(self).model() == old(self).model(),
            },
    {
        let i = loc.register.index() as usize;
        let word = self.registers[i].value();
        if !loc.indirect {
            let mut reg = self.registers[i];
            reg.set(width, v);
            self.registers.set(i, reg);
            proof {
                assert(self.model().regs =~= old(self).model().regs.update(i as int, reg_write(word, width as nat, v)));
            }
            Ok(())
        } else {
            let r = self.memory.write(Pointer(word), width, v);
            proof {
                assert(self.model().regs =~= old(self).model().regs);
                let m = old(self).model();
                if spec_offset(word) + width <= MAX_MEMORY {
                    assert(self.model() == store_bytes(m, word, be_bytes(v as nat, width as nat)));
                }
            }
            r
        }
    }

    fn await_value(&mut self, dst: Location, width: u32)
        requires
            old(self).wf(),
            int_width(width as nat),
        ensures
            final(self).wf(),
            final(self).model() == (VmModel { status: VmStatus::Awaiting { dst, width }, ..old(self).model() }),
    {
        self.status = VmStatus::Awaiting { dst, width };
    }

    fn exec_mov(&mut self, src_ty: Type, dst_ty: Type, src: Location, dst: Location, instr: Instruction) -> (r: Result<StepEvent, CeriumError>)
        requires
            old(self).wf(),
            instr == (Instruction::Mov { src_ty, dst_ty, src, dst }),
        ensures
            final(self).wf(),
            match execute_spec(old(self).model(), instr) {
                Ok(p) => r == Ok::<StepEvent, CeriumError>(p.1) && final(self).model() == p.0,
                Err(e) => r == Err::<StepEvent, CeriumError>(e) && final(self).model() == old(self).model(),
            },
    {
        reveal(execute_spec);
        reveal(mov_spec);
        let v = self.read_location(src, src_ty.width())?;
        let src_float = src_ty == Type::Float;
        let dst_float = dst_ty == Type::Float;
        if src_float && dst_float {
            self.write_location(dst, 4, v)?;
            Ok(StepEvent::Continue)
        } else if src_float {
            self.await_value(dst, dst_ty.width());
            Ok(StepEvent::Float(FloatRequest::ToInt { bits: v, ty: dst_ty }))
        } else if dst_float {
            let value = to_signed(v, src_ty.width()) as i32;
            self.await_value(dst, 4);
            Ok(StepEvent::Float(FloatRequest::FromInt { value }))
        } else {
            let c = convert_bits(v, src_ty.width(), dst_ty.width());
            proof {
                crate::values::lemma_bits_of_bound(crate::values::signed(v, width_of(src_ty)), width_of(dst_ty));
            }
            self.write_location(dst, dst_ty.width(), c)?;
            Ok(StepEvent::Continue)
        }
    }

    fn exec_binop(&mut self, op: BinOp, ty: Type, src1: Location, src2: Location, dst: Location, instr: Instruction) -> (r: Result<StepEvent, CeriumError>)
        requires
            old(self).wf(),
            instr == (Instruction::BinOp { op, ty, src1, src2, dst }),
        ensures
            final(self).wf(),
            match execute_spec(old(self).model(), instr) {
                Ok(p) => r == Ok::<StepEvent, CeriumError>(p.1) && final(self).model() == p.0,
                Err(e) => r == Err::<StepEvent, CeriumError>(e) && final(self).model() == old(self).model(),
            },
    {
        reveal(execute_spec);
        reveal(binop_spec);
        if ty == Type::Float && op.integer_only() {
            return Err(CeriumError::UnsupportedType);
        }
        let w = ty.width();
        let a = self.read_location(src1, w)?;
        let b = self.read_location(src2, w)?;
        if ty == Type::Float {
            self.await_value(dst, 4);
            Ok(StepEvent::Float(FloatRequest::Arith { op, a, b }))
        } else {
            let v = int_binop_exec(op, w, a, b)?;
            self.write_location(dst, w, v)?;
            Ok(StepEvent::Continue)
        }
    }

    fn exec_unop(&mut self, op: UnOp, ty: Type, src: Location, dst: Location, instr: Instruction) -> (r: Result<StepEvent, CeriumError>)
        requires
            old(self).wf(),
            instr == (Instruction::UnOp { op, ty, src, dst }),
        ensures
            final(self).wf(),
            match execute_spec(old(self).model(), instr) {
                Ok(p) => r == Ok::<StepEvent, CeriumError>(p.1) && final(self).model() == p.0,
                Err(e) => r == Err::<StepEvent, CeriumError>(e) && final(self).model() == old(self).model(),
            },
    {
        reveal(execute_spec);
        reveal(unop_spec);
        if ty == Type::Float && op == UnOp::NOT {
            return Err(CeriumError::UnsupportedType);
        }
        let w = ty.width();
        let v = self.read_location(src, w)?;
        let res = if op == UnOp::NOT {
            not_bits(w, v)
        } else if ty == Type::Float {
            v ^ 0x8000_0000u32
        } else {
            neg_bits(w, v)
        };
        proof {
            crate::values::lemma_bits_of_bound(-crate::values::signed(v, w as nat), w as nat);
            crate::values::lemma_bits_of_bound(-1 - crate::values::signed(v, w as nat), w as nat);
        }
        self.write_location(dst, w, res)?;
        Ok(StepEvent::Continue)
    }

    fn exec_cmp(&mut self, ty: Type, src: Location, dst: Location, cnd: Condition, instr: Instruction) -> (r: Result<StepEvent, CeriumError>)
        requires
            old(self).wf(),
            instr == (Instruction::Cmp { ty, src, dst, cnd }),
        ensures
            final(self).wf(),
            match execute_spec(old(self).model(), instr) {
                Ok(p) => r == Ok::<StepEvent, CeriumError>(p.1) && final(self).model() == p.0,
                Err(e) => r == Err::<StepEvent, CeriumError>(e) && final(self).model() == old(self).model(),
            },
    {
        reveal(execute_spec);
        reveal(cmp_spec);
        let v = self.read_location(src, ty.width())?;
        let holds = test_condition(cnd, ty, v);
        self.write_location(dst, 1, if holds { 1 } else { 0 })?;
        Ok(StepEvent::Continue)
    }

    fn exec_jmp(&mut self, ty: Type, src: Location, tgt: Location, cnd: Condition, instr: Instruction) -> (r: Result<StepEvent, CeriumError>)
        requires
            old(self).wf(),
            instr == (Instruction::Jmp { ty, src, tgt, cnd }),
        ensures
            final(self).wf(),
            match execute_spec(old(self).model(), instr) {
                Ok(p) => r == Ok::<StepEvent, CeriumError>(p.1) && final(self).model() == p.0,
                Err(e) => r == Err::<StepEvent, CeriumError>(e) && final(self).model() == old(self).model(),
            },
    {
        reveal(execute_spec);
        reveal(jmp_spec);
        let v = self.read_location(src, ty.width())?;
        if test_condition(cnd, ty, v) {
            let t = self.read_location(tgt, 4)?;
            self.instruction_ptr = t;
        }
        Ok(StepEvent::Continue)
    }

    fn exec_memcpy(&mut self, src: Location, dst: Location, size: Location, instr: Instruction) -> (r: Result<StepEvent, CeriumError>)
        requires
            old(self).wf(),
            instr == (Instruction::Memcpy { src, dst, size }),
        ensures
            final(self).wf(),
            match execute_spec(old(self).model(), instr) {
                Ok(p) => r == Ok::<StepEvent, CeriumError>(p.1) && final(self).model() == p.0,
                Err(e) => r == Err::<StepEvent, CeriumError>(e) && final(self).model() == old(self).model(),
            },
    {
        reveal(execute_spec);
        reveal(memcpy_spec);
        let n = self.read_location(size, 4)?;
        let s = self.read_location(src, 4)?;
        let d = self.read_location(dst, 4)?;
        self.memory.memcpy(Pointer(s), Pointer(d), Size(n))?;
        proof {
            assert(self.model().regs =~= old(self).model().regs);
        }
        Ok(StepEvent::Continue)
    }

    fn exec_new(&mut self, size: Location, dst: Location, instr: Instruction) -> (r: Result<StepEvent, CeriumError>)
        requires
            old(self).wf(),
            instr == (Instruction::New { size, dst }),
        ensures
            final(self).wf(),
            match execute_spec(old(self).model(), instr) {
                Ok(p) => r == Ok::<StepEvent, CeriumError>(p.1) && final(self).model() == p.0,
                Err(e) => r == Err::<StepEvent, CeriumError>(e) && final(self).model() == old(self).model(),
            },
    {
        reveal(execute_spec);
        reveal(new_spec);
        let n = self.read_location(size, 4)?;
        if n == 0 {
            return Err(CeriumError::EmptyAllocation);
        }
        // A destination that cannot be written fails the instruction before
        // anything is allocated.
        let word = self.registers[dst.register.index() as usize].value();
        if dst.indirect && Pointer(word).offset() as u64 + 4 > MAX_MEMORY as u64 {
            return Err(CeriumError::MemoryLimit);
        }
        proof {
            self.memory.lemma_regions_len();
            let a = self.memory.allocator();
            assert(a.frontier() == layout_end(a.blocks()));
        }
        let ptr = self.memory.allocate(n)?;
        proof {
            assert(self.model().regs =~= old(self).model().regs);
        }
        self.write_location(dst, 4, ptr.0)?;
        Ok(StepEvent::Continue)
    }

    fn exec_del(&mut self, src: Location, instr: Instruction) -> (r: Result<StepEvent, CeriumError>)
        requires
            old(self).wf(),
            instr == (Instruction::Del { src }),
        ensures
            final(self).wf(),
            match execute_spec(old(self).model(), instr) {
                Ok(p) => r == Ok::<StepEvent, CeriumError>(p.1) && final(self).model() == p.0,
                Err(e) => r == Err::<StepEvent, CeriumError>(e) && final(self).model() == old(self).model(),
            },
    {
        reveal(execute_spec);
        reveal(del_spec);
        let p = self.read_location(src, 4)?;
        self.memory.deallocate(Pointer(p))?;
        proof {
            assert(self.model().regs =~= old(self).model().regs);
        }
        Ok(StepEvent::Continue)
    }

    fn exec_output(&mut self, loc: Location, instr: Instruction) -> (r: Result<StepEvent, CeriumError>)
        requires
            old(self).wf(),
            instr == Instruction::Output(loc),
        ensures
            final(self).wf(),
            match execute_spec(old(self).model(), instr) {
                Ok(p) => r == Ok::<StepEvent, CeriumError>(p.1) && final(self).model() == p.0,
                Err(e) => r == Err::<StepEvent, CeriumError>(e) && final(self).model() == old(self).model(),
            },
    {
        reveal(execute_spec);
        let v = self.read_location(loc, 4)?;
        Ok(StepEvent::Output(to_signed(v, 4) as i32))
    }

    fn exec_lod(&mut self, instr: Instruction, loc: Location, width: u32, v: u32) -> (r: Result<StepEvent, CeriumError>)
        requires
            old(self).wf(),
            int_width(width as nat),
            v < modulus(width as nat),
            instr == Instruction::Lod8(loc, v as u8) && width == 1 || instr == Instruction::Lod16(loc, v as u16)
                && width == 2 || instr == Instruction::Lod32(loc, v) && width == 4,
        ensures
            final(self).wf(),
            match execute_spec(old(self).model(), instr) {
                Ok(p) => r == Ok::<StepEvent, CeriumError>(p.1) && final(self).model() == p.0,
                Err(e) => r == Err::<StepEvent, CeriumError>(e) && final(self).model() == old(self).model(),
            },
    {
        reveal(execute_spec);
        self.write_location(loc, width, v)?;
        Ok(StepEvent::Continue)
    }

    fn exec_simple(&mut self, instr: Instruction) -> (r: Result<StepEvent, CeriumError>)
        requires
            old(self).wf(),
            instr is Halt || instr is Input || instr is Nop,
        ensures
            final(self).wf(),
            match execute_spec(old(self).model(), instr) {
                Ok(p) => r == Ok::<StepEvent, CeriumError>(p.1) && final(self).model() == p.0,
                Err(e) => r == Err::<StepEvent, CeriumError>(e) && final(self).model() == old(self).model(),
            },
    {
        reveal(execute_spec);
        match instr {
            Instruction::Halt => {
                self.status = VmStatus::Done;
                Ok(StepEvent::Halted)
            },
            Instruction::Input(loc) => {
                self.await_value(loc, 4);
                Ok(StepEvent::Input)
            },
            _ => Ok(StepEvent::Continue),
        }
    }

    /// Executes one decoded instruction.
    #[verifier::spinoff_prover]
    fn execute(&mut self, instr: Instruction) -> (r: Result<StepEvent, CeriumError>)
        requires
            old(self).wf(),
        ensures
            final(self).wf(),
            match execute_spec(old(self).model(), instr) {
                Ok(p) => r == Ok::<StepEvent, CeriumError>(p.1) && final(self).model() == p.0,
                Err(e) => r == Err::<StepEvent, CeriumError>(e) && final(self).model() == old(self).model(),
            },
    {
        match instr {
            Instruction::Mov { src_ty, dst_ty, src, dst } => self.exec_mov(src_ty, dst_ty, src, dst, instr),
            Instruction::Lod8(loc, v) => self.exec_lod(instr, loc, 1, v as u32),
            Instruction::Lod16(loc, v) => self.exec_lod(instr, loc, 2, v as u32),
            Instruction::Lod32(loc, v) => self.exec_lod(instr, loc, 4, v),
            Instruction::Halt => self.exec_simple(instr),
            Instruction::Memcpy { src, dst, size } => self.exec_memcpy(src, dst, size, instr),
            Instruction::New { size, dst } => self.exec_new(size, dst, instr),
            Instruction::Del { src } => self.exec_del(src, instr),
            Instruction::Cmp { ty, src, dst, cnd } => self.exec_cmp(ty, src, dst, cnd, instr),
            Instruction::Jmp { ty, src, tgt, cnd } => self.exec_jmp(ty, src, tgt, cnd, instr),
            Instruction::BinOp { op, ty, src1, src2, dst } => self.exec_binop(op, ty, src1, src2, dst, instr),
            Instruction::UnOp { op, ty, src, dst } => self.exec_unop(op, ty, src, dst, instr),
            Instruction::Input(loc) => self.exec_simple(instr),
            Instruction::Output(loc) => self.exec_output(loc, instr),
            Instruction::Nop => self.exec_simple(instr),
        }
    }

    /// Fetches, decodes and executes the instruction at the instruction pointer.
    /// A machine that is not runnable refuses; an instruction that fails leaves
    /// the machine faulted.
    pub fn execute_next_instruction(&mut self) -> (r: Result<StepEvent, CeriumError>)
        requires
            old(self).wf(),
        ensures
            final(self).wf(),
            !runnable(old(self).model().status) ==> r == Err::<StepEvent, CeriumError>(CeriumError::NotRunning)
                && final(self).model() == old(self).model(),
            runnable(old(self).model().status) ==> match step_spec(old(self).model()) {
                Ok(p) => r == Ok::<StepEvent, CeriumError>(p.1) && final(self).model() == p.0,
                Err(e) => r == Err::<StepEvent, CeriumError>(e) && final(self).model() == (VmModel {
                    status: VmStatus::Faulted,
                    ..old(self).model()
                }),
            },
    {
        if !(self.status == VmStatus::Loaded || self.status == VmStatus::Running) {
            return Err(CeriumError::NotRunning);
        }
        match decode(&self.program, self.instruction_ptr as usize) {
            None => {
                self.status = VmStatus::Faulted;
                Err(CeriumError::InstructionOutOfRange)
            },
            Some(d) => {
                let (instr, len) = d;
                let start = self.instruction_ptr;
                self.instruction_ptr = start + len as u32;
                self.status = VmStatus::Running;
                let r = self.execute(instr);
                if r.is_err() {
                    self.instruction_ptr = start;
                    self.status = VmStatus::Faulted;
                }
                r
            },
        }
    }

    /// Hands the machine the value it waits for (an input, or the bits of a
    /// float result) and resumes it.
    pub fn provide_value(&mut self, value: u32) -> (r: Result<(), CeriumError>)
        requires
            old(self).wf(),
        ensures
            final(self).wf(),
            old(self).model().status matches VmStatus::Awaiting { dst, width } ==> match write_loc(
                old(self).model(),
                dst,
                width as nat,
                (value as int % modulus(width as nat)) as u32,
            ) {
                Ok(m) => r is Ok && final(self).model() == (VmModel { status: VmStatus::Running, ..m }),
                Err(e) => r == Err::<(), CeriumError>(e) && final(self).model() == (VmModel {
                    status: VmStatus::Faulted,
                    ..old(self).model()
                }),
            },
            !(old(self).model().status is Awaiting) ==> r == Err::<(), CeriumError>(CeriumError::NothingPending)
                && final(self).model() == old(self).model(),
    {
        match self.status {
            VmStatus::Awaiting { dst, width } => {
                let m: u64 = if width == 1 {
                    0x100
                } else if width == 2 {
                    0x1_0000
                } else {
                    0x1_0000_0000
                };
                let v = (value as u64 % m) as u32;
                self.status = VmStatus::Running;
                match self.write_location(dst, width, v) {
                    Ok(()) => Ok(()),
                    Err(e) => {
                        self.status = VmStatus::Faulted;
                        Err(e)
                    },
                }
            },
            _ => Err(CeriumError::NothingPending),
        }
    }
}

/// A step on `jmp <r> always`, as the assembler encodes it, makes the word in
/// register `r` the address of the next fetch.
pub proof fn lemma_jump_always(m: VmModel, tgt: Location)
    requires
        runnable(m.status),
        m.regs.len() == 8,
        !tgt.indirect,
        decode_spec(m.program, m.ip as int) == Some((
            Instruction::Jmp {
                ty: Type::Int8,
                src: Location { register: crate::instruction::Register::SP, indirect: false },
                tgt,
                cnd: Condition::ALWAYS,
            },
            3nat,
        )),
    ensures
        step_spec(m) matches Ok(p) && p.0.ip == m.regs[tgt.register.spec_index() as int] && p.1
            == StepEvent::Continue,
{
    reveal(jmp_spec);
    reveal(execute_spec);
    assert(reg_read(m.regs[tgt.register.spec_index() as int], 4) == m.regs[tgt.register.spec_index() as int]);
}

/// A conditional jump goes to the word at its target exactly when the source
/// value satisfies the condition, and otherwise falls through.
pub proof fn lemma_conditional_jump(m: VmModel, ty: Type, src: Location, tgt: Location, cnd: Condition, v: u32, t: u32)
    requires
        read_loc(m, src, width_of(ty)) == Ok::<u32, CeriumError>(v),
        read_loc(m, tgt, 4) == Ok::<u32, CeriumError>(t),
    ensures
        jmp_spec(m, ty, src, tgt, cnd) == Ok::<(VmModel, StepEvent), CeriumError>((
            if condition_holds(cnd, operand_sign(ty, v)) {
                VmModel { ip: t, ..m }
            } else {
                m
            },
            StepEvent::Continue,
        )),
{
    reveal(jmp_spec);
}

/// Storing a value of 1, 2 or 4 bytes at a location, register or memory, and
/// reading the location back with the same width gives the value.
pub proof fn lemma_location_round_trip(m: VmModel, loc: Location, width: nat, v: u32)
    requires
        int_width(width),
        v < modulus(width),
        m.regs.len() == 8,
        m.stack.len() == MAX_MEMORY,
        m.heap.len() == MAX_MEMORY,
        write_loc(m, loc, width, v) is Ok,
    ensures
        read_loc(write_loc(m, loc, width, v)->Ok_0, loc, width) == Ok::<u32, CeriumError>(v),
{
    let i = loc.register.spec_index() as int;
    let word = m.regs[i];
    let m2 = write_loc(m, loc, width, v)->Ok_0;
    if !loc.indirect {
        let lane = crate::register::lane(width);
        assert(m2.regs[i] == reg_write(word, width, v));
        assert((v as int * lane + (word as int) % lane) / lane == v) by (nonlinear_arith)
            requires
                lane > 0,
                0 <= (word as int) % lane < lane,
        ;
        assert(v as int * lane + (word as int) % lane < 0x1_0000_0000) by (nonlinear_arith)
            requires
                lane == 1 && v < 0x1_0000_0000 || lane == 0x1_0000 && v < 0x1_0000 || lane == 0x100_0000 && v < 0x100,
                0 <= (word as int) % lane < lane,
        ;
    } else {
        lemma_byte_ranges();
        crate::growable_memory::lemma_write_then_read(region_of(m, word), spec_offset(word) as int, width, v as nat);
    }
}

} // verus!
