use cerium::assembler::{AssemblyError, CasmAssembler};
use cerium::instruction::BinOp;
use cerium::types::CeriumError;
use cerium::vm::{CeriumVM, FloatRequest, StepEvent};

#[derive(Debug)]
enum RunError {
    Assembly(AssemblyError),
    Machine(CeriumError),
}

fn float_work(request: FloatRequest) -> u32 {
    match request {
        FloatRequest::Arith { op, a, b } => {
            let x = f32::from_bits(a);
            let y = f32::from_bits(b);
            let r = match op {
                BinOp::ADD => x + y,
                BinOp::SUB => x - y,
                BinOp::MUL => x * y,
                BinOp::DIV => x / y,
                BinOp::MOD => (x % y + y) % y,
                _ => panic!("not a float operation"),
            };
            r.to_bits()
        }
        FloatRequest::FromInt { value } => (value as f32).to_bits(),
        FloatRequest::ToInt { bits, ty } => {
            let f = f32::from_bits(bits);
            match ty {
                cerium::instruction::Type::Int8 => (f as i8) as u8 as u32,
                cerium::instruction::Type::Int16 => (f as i16) as u16 as u32,
                _ => (f as i32) as u32,
            }
        }
    }
}

fn run_source(source: &str, inputs: &[i32]) -> Result<Vec<i32>, RunError> {
    let mut assembly = CasmAssembler::assemble(source).map_err(RunError::Assembly)?;
    for i in 0..assembly.float_literals.len() {
        let text: String = assembly.float_literals[i].text.iter().collect();
        let bits = text.parse::<f32>().expect("float literal").to_bits();
        assert!(assembly.set_float_bits(i, bits));
    }
    let mut vm = CeriumVM::new();
    vm.load_program(assembly.bytes);
    let mut outputs = Vec::new();
    let mut next_input = 0;
    for _ in 0..100_000 {
        match vm.execute_next_instruction().map_err(RunError::Machine)? {
            StepEvent::Continue => {}
            StepEvent::Halted => return Ok(outputs),
            StepEvent::Output(v) => outputs.push(v),
            StepEvent::Input => {
                let v = inputs[next_input];
                next_input += 1;
                vm.provide_value(v as u32).map_err(RunError::Machine)?;
            }
            StepEvent::Float(request) => {
                vm.provide_value(float_work(request)).map_err(RunError::Machine)?;
            }
        }
    }
    panic!("program did not halt");
}

fn machine_error(source: &str) -> CeriumError {
    match run_source(source, &[]) {
        Err(RunError::Machine(e)) => e,
        other => panic!("expected a machine fault, got {:?}", other),
    }
}

#[test]
fn collatz_from_six() {
    let source = "
        // Collatz sequence of the number read
        input <- r1
        LOOP:
        output <- r1
        lod r2 <- i 1
        sub i r3 <- r1 ; r2
        lod r4 <- END
        jmp r4 if i r3 ==
        lod r2 <- i 2
        mod i r3 <- r1 ; r2
        lod r4 <- ODD
        jmp r4 if i r3 !=
        div i r1 <- r1 ; r2
        lod r4 <- LOOP
        jmp r4 always
        ODD:
        lod r2 <- i 3
        mul i r1 <- r1 ; r2
        lod r2 <- i 1
        add i r1 <- r1 ; r2
        lod r4 <- LOOP
        jmp r4 always
        END:
        halt
    ";
    let out = run_source(source, &[6]).unwrap();
    assert_eq!(out, vec![6, 3, 10, 5, 16, 8, 4, 2, 1]);
}

#[test]
fn heap_basics() {
    let source = "
        lod r2 <- i 20
        new r1 <- r2
        lod @r1 <- i 0xDEADBEEF
        output <- @r1
        del r1
        halt
    ";
    let out = run_source(source, &[]).unwrap();
    assert_eq!(out, vec![0xDEADBEEFu32 as i32]);
}

fn int_result(ty: &str, op: &str, a: i32, b: i32) -> i32 {
    let source = format!(
        "lod r1 <- {ty} {a}\nlod r2 <- {ty} {b}\n{op} {ty} r3 <- r1 ; r2\nmov i r4 <- {ty} r3\noutput <- r4\nhalt\n"
    );
    run_source(&source, &[]).unwrap()[0]
}

#[test]
fn arithmetic_i8_wraps() {
    assert_eq!(int_result("b", "add", 100, 27), 127);
    assert_eq!(int_result("b", "add", 100, 28), (100i8).wrapping_add(28) as i32);
    assert_eq!(int_result("b", "sub", -100, 50), (-100i8).wrapping_sub(50) as i32);
    assert_eq!(int_result("b", "mul", 100, 27), (100i8).wrapping_mul(27) as i32);
    assert_eq!(int_result("b", "div", -100, 7), -100 / 7);
}

#[test]
fn arithmetic_i16() {
    assert_eq!(int_result("s", "add", 30000, 10000), (30000i16).wrapping_add(10000) as i32);
    assert_eq!(int_result("s", "sub", -30000, 10000), (-30000i16).wrapping_sub(10000) as i32);
    assert_eq!(int_result("s", "mul", 300, 300), (300i16).wrapping_mul(300) as i32);
    assert_eq!(int_result("s", "div", 30000, -7), 30000 / -7);
}

#[test]
fn arithmetic_i32() {
    assert_eq!(int_result("i", "add", 2147483647, 1), i32::MIN);
    assert_eq!(int_result("i", "sub", -5, 7), -12);
    assert_eq!(int_result("i", "mul", 65536, 65536), 0);
    assert_eq!(int_result("i", "mul", -123, 456), -56088);
    assert_eq!(int_result("i", "div", -7, 2), -3);
    assert_eq!(int_result("i", "div", -2147483648, -1), i32::MIN);
}

#[test]
fn arithmetic_f32() {
    for (op, expected) in [("add", 1.5f32 + 2.25), ("sub", 1.5f32 - 2.25), ("mul", 1.5f32 * 2.25), ("div", 1.5f32 / 2.25)] {
        let source = format!(
            "lod r1 <- f 1.5\nlod r2 <- f 2.25\n{op} f r3 <- r1 ; r2\noutput <- r3\nhalt\n"
        );
        let out = run_source(&source, &[]).unwrap();
        assert_eq!(out[0] as u32, expected.to_bits());
    }
}

#[test]
fn float_to_int_conversion() {
    let source = "lod r1 <- f -7.75\nmov i r2 <- f r1\noutput <- r2\nmov f r3 <- i r2\nmov i r4 <- f r3\noutput <- r4\nhalt\n";
    assert_eq!(run_source(source, &[]).unwrap(), vec![-7, -7]);
}

#[test]
fn modulo_is_non_negative() {
    assert_eq!(int_result("i", "mod", -7, 3), 2);
    assert_eq!(int_result("i", "mod", 7, 3), 1);
    assert_eq!(int_result("i", "mod", -9, 3), 0);
    assert_eq!(int_result("b", "mod", -128, 127), 126);
    assert_eq!(int_result("i", "mod", -2147483648, 2147483647), 2147483646);
    assert_eq!(int_result("i", "mod", 7, -3), -2);
}

#[test]
fn shifts_and_bitwise() {
    assert_eq!(int_result("i", "shl", 3, 4), 48);
    assert_eq!(int_result("i", "shr", -16, 2), -4);
    assert_eq!(int_result("i", "shr", -1, 31), -1);
    assert_eq!(int_result("i", "shl", 1, 33), 2);
    assert_eq!(int_result("b", "shl", 1, 7), -128);
    assert_eq!(int_result("i", "xor", 12, 10), 6);
    assert_eq!(int_result("i", "or", 12, 10), 14);
    assert_eq!(int_result("i", "and", 12, 10), 8);
}

#[test]
fn negation_and_complement() {
    let source = "lod r1 <- i 5\nneg i r2 <- r1\noutput <- r2\nnot i r3 <- r1\noutput <- r3\nhalt\n";
    assert_eq!(run_source(source, &[]).unwrap(), vec![-5, -6]);
    let source = "lod r1 <- f 2.5\nneg f r2 <- r1\noutput <- r2\nhalt\n";
    assert_eq!(run_source(source, &[]).unwrap()[0] as u32, (-2.5f32).to_bits());
}

#[test]
fn jump_always_moves_the_next_fetch() {
    let source = "
        lod r4 <- SKIP
        jmp r4 always
        lod r1 <- i 1
        output <- r1
        SKIP:
        lod r1 <- i 2
        output <- r1
        halt
    ";
    assert_eq!(run_source(source, &[]).unwrap(), vec![2]);
}

fn taken(cond: &str, value: i32) -> bool {
    let source = format!(
        "lod r1 <- i {value}\nlod r4 <- YES\njmp r4 if i r1 {cond}\nlod r2 <- i 0\noutput <- r2\nhalt\nYES:\nlod r2 <- i 1\noutput <- r2\nhalt\n"
    );
    run_source(&source, &[]).unwrap() == vec![1]
}

#[test]
fn conditional_jumps_against_zero() {
    assert!(taken("==", 0));
    assert!(!taken("==", 1));
    assert!(!taken("!=", 0));
    assert!(taken("!=", 1));
    assert!(taken(">", 1));
    assert!(!taken(">", 0));
    assert!(taken(">=", 0));
    assert!(!taken(">=", -1));
    assert!(taken("<", -1));
    assert!(!taken("<", 0));
    assert!(taken("<=", 0));
    assert!(!taken("<=", 1));
}

#[test]
fn compare_writes_one_or_zero() {
    let source = "lod r1 <- i -3\ncmp r2 <- i r1 <\nmov i r3 <- b r2\noutput <- r3\ncmp r2 <- i r1 ==\nmov i r3 <- b r2\noutput <- r3\nhalt\n";
    assert_eq!(run_source(source, &[]).unwrap(), vec![1, 0]);
}

#[test]
fn memcpy_in_a_program() {
    let source = "
        lod r1 <- i 100
        lod @r1 <- i 0x01020304
        lod r2 <- i 200
        lod r3 <- i 4
        memcpy r2 <- r1 ; r3
        output <- @r2
        halt
    ";
    assert_eq!(run_source(source, &[]).unwrap(), vec![0x01020304]);
}

#[test]
fn narrow_register_values_sit_in_high_bytes() {
    let source = "lod r1 <- b 5\noutput <- r1\nhalt\n";
    assert_eq!(run_source(source, &[]).unwrap(), vec![5 << 24]);
}

#[test]
fn faults_are_reported() {
    assert_eq!(machine_error("lod r1 <- i 0\nlod r2 <- i 1\ndiv i r3 <- r2 ; r1\nhalt\n"), CeriumError::DivisionByZero);
    assert_eq!(machine_error("xor f r3 <- r2 ; r1\nhalt\n"), CeriumError::UnsupportedType);
    assert_eq!(machine_error("not f r3 <- r2\nhalt\n"), CeriumError::UnsupportedType);
    assert_eq!(machine_error("lod r1 <- i 0\nnew r2 <- r1\nhalt\n"), CeriumError::EmptyAllocation);
    assert_eq!(machine_error("lod r1 <- i 16\ndel r1\nhalt\n"), CeriumError::NonHeapPointer);
    assert_eq!(machine_error("lod r1 <- i 0x80000010\ndel r1\nhalt\n"), CeriumError::InvalidPointer);
    assert_eq!(machine_error("lod r1 <- i 0x7FFFFFF0\noutput <- @r1\nhalt\n"), CeriumError::MemoryLimit);
    assert_eq!(machine_error("lod r1 <- i 1\n"), CeriumError::InstructionOutOfRange);
}

#[test]
fn halted_machine_refuses_steps() {
    let mut vm = CeriumVM::new();
    vm.load_program(vec![0x40]);
    assert_eq!(vm.execute_next_instruction(), Ok(StepEvent::Halted));
    assert!(vm.is_done());
    assert_eq!(vm.execute_next_instruction(), Err(CeriumError::NotRunning));
    assert_eq!(vm.provide_value(1), Err(CeriumError::NothingPending));
}

#[test]
fn assembly_errors() {
    assert!(matches!(CasmAssembler::assemble("halt\nfrobnicate r1\n"), Err(AssemblyError::InvalidLine { line: 2 })));
    assert!(matches!(CasmAssembler::assemble("lod r1 <- b 300\n"), Err(AssemblyError::InvalidLine { line: 1 })));
    assert!(matches!(CasmAssembler::assemble("lod r1 <- s 70000\n"), Err(AssemblyError::InvalidLine { line: 1 })));
    assert!(matches!(CasmAssembler::assemble("add q r1 <- r2 ; r3\n"), Err(AssemblyError::InvalidLine { line: 1 })));
    assert!(matches!(CasmAssembler::assemble("add i r9 <- r2 ; r3\n"), Err(AssemblyError::InvalidLine { line: 1 })));
    assert!(matches!(CasmAssembler::assemble("\n\nlod r1 <- MISSING\n"), Err(AssemblyError::UndefinedLabel { line: 3 })));
}
