use std::collections::BTreeMap;

use fastbf::llvm::ir::{Function, Inst, Operand, Ty, TAPE_LEN};
use fastbf::{parse_brainfuck, LLVMCompiler, Op};

/// How a run ended, with what it wrote.
#[derive(Debug, PartialEq, Eq)]
enum End {
    Done(Vec<u8>),
    OutOfSteps(Vec<u8>),
    OffTape,
}

/// What a run did, in order: `r` and what was read, `w` and what was written.
type Log = Vec<(char, i32)>;

fn next_input(input: &[u8], read: &mut usize, log: &mut Log) -> i32 {
    let value = match input.get(*read) {
        Some(byte) => i32::from(*byte),
        None => -1,
    };
    *read += 1;
    log.push(('r', value));
    value
}

/// Runs source text, command by command.
fn run_source(source: &[u8], input: &[u8], limit: usize, log: &mut Log) -> End {
    let mut tape = vec![0u8; 1 << 16];
    let mut ptr = 0i64;
    let mut out = Vec::new();
    let mut read = 0usize;
    let mut pc = 0usize;
    let mut steps = 0usize;
    while pc < source.len() {
        steps += 1;
        if steps > limit {
            return End::OutOfSteps(out);
        }
        let command = source[pc];
        if command == b'>' {
            ptr += 1;
        } else if command == b'<' {
            ptr -= 1;
        } else if b"+-.,[]".contains(&command) {
            let Some(cell) = usize::try_from(ptr).ok().and_then(|at| tape.get_mut(at)) else {
                return End::OffTape;
            };
            match command {
                b'+' => *cell = cell.wrapping_add(1),
                b'-' => *cell = cell.wrapping_sub(1),
                b'.' => {
                    log.push(('w', i32::from(*cell)));
                    out.push(*cell);
                }
                b',' => *cell = next_input(input, &mut read, log) as u8,
                b'[' if *cell == 0 => pc = matching(source, pc, 1),
                b']' if *cell != 0 => pc = matching(source, pc, -1),
                _ => {}
            }
        }
        pc += 1;
    }
    End::Done(out)
}

fn matching(source: &[u8], from: usize, direction: i64) -> usize {
    let mut depth = 0i64;
    let mut at = from;
    loop {
        match source[at] {
            b'[' => depth += 1,
            b']' => depth -= 1,
            _ => {}
        }
        if depth == 0 {
            return at;
        }
        at = (at as i64 + direction) as usize;
    }
}

/// Runs a program, instruction by instruction.
fn run_ops(ops: &[Op], input: &[u8], limit: usize, log: &mut Log) -> End {
    let mut tape = vec![0u8; TAPE_LEN as usize];
    let mut ptr = 0u64;
    let mut out = Vec::new();
    let mut read = 0usize;
    let mut pc = 0usize;
    let mut steps = 0usize;
    while pc < ops.len() {
        steps += 1;
        if steps > limit {
            return End::OutOfSteps(out);
        }
        if let Op::PtrAdd(delta) = ops[pc] {
            ptr = ptr.wrapping_add(delta as u64);
            pc += 1;
            continue;
        }
        if ptr >= TAPE_LEN {
            return End::OffTape;
        }
        let at = ptr as usize;
        match &ops[pc] {
            Op::PtrAdd(_) => {}
            Op::CellAdd(delta) => tape[at] = tape[at].wrapping_add(*delta as u8),
            Op::ClearCell => tape[at] = 0,
            Op::AddScaled(updates) => {
                let base = tape[at];
                for update in updates {
                    let target = ptr.wrapping_add(update.offset as u64);
                    if target >= TAPE_LEN {
                        return End::OffTape;
                    }
                    let cell = &mut tape[target as usize];
                    *cell = cell.wrapping_add(base.wrapping_mul(update.factor as u8));
                }
                tape[at] = 0;
            }
            Op::Output => {
                log.push(('w', i32::from(tape[at])));
                out.push(tape[at]);
            }
            Op::Input => tape[at] = next_input(input, &mut read, log) as u8,
            Op::LoopStart if tape[at] == 0 => pc = loop_partner(ops, pc, 1),
            Op::LoopEnd if tape[at] != 0 => pc = loop_partner(ops, pc, -1),
            Op::LoopStart | Op::LoopEnd => {}
        }
        pc += 1;
    }
    End::Done(out)
}

fn loop_partner(ops: &[Op], from: usize, direction: i64) -> usize {
    let mut depth = 0i64;
    let mut at = from;
    loop {
        match ops[at] {
            Op::LoopStart => depth += 1,
            Op::LoopEnd => depth -= 1,
            _ => {}
        }
        if depth == 0 {
            return at;
        }
        at = (at as i64 + direction) as usize;
    }
}

#[derive(Clone, Copy, Debug, PartialEq, Eq)]
enum Value {
    Int(Ty, u64),
    TapePtr(u64),
    IndexPtr,
}

fn wrapped(ty: Ty, value: u64) -> u64 {
    match ty {
        Ty::I1 => value & 1,
        Ty::I8 => value & 0xff,
        Ty::I32 => value & 0xffff_ffff,
        Ty::I64 => value,
        Ty::Tape => panic!("no integer"),
    }
}

fn operand(values: &[Option<Value>], operand: Operand) -> Value {
    match operand {
        Operand::Const(ty, value) => Value::Int(ty, wrapped(ty, value)),
        Operand::Value(place) => values[place].unwrap(),
    }
}

fn integer(values: &[Option<Value>], op: Operand) -> (Ty, u64) {
    match operand(values, op) {
        Value::Int(ty, value) => (ty, value),
        other => panic!("{other:?} is no integer"),
    }
}

/// Runs generated code, instruction by instruction.
fn run_code(code: &[Inst], input: &[u8], limit: usize, log: &mut Log) -> End {
    let mut blocks: Vec<Vec<usize>> = Vec::new();
    let mut current = 0usize;
    for (place, inst) in code.iter().enumerate() {
        match inst {
            Inst::AddFunction(_) => {}
            Inst::AppendBlock(_) => blocks.push(Vec::new()),
            Inst::PositionAtEnd(block) => current = *block,
            _ => blocks[current].push(place),
        }
    }
    let mut values: Vec<Option<Value>> = vec![None; code.len()];
    let mut tape = vec![77u8; TAPE_LEN as usize];
    let mut index = 99u64;
    let mut out = Vec::new();
    let mut read = 0usize;
    let (mut block, mut at) = (0usize, 0usize);
    let mut steps = 0usize;
    loop {
        steps += 1;
        if steps > limit {
            return End::OutOfSteps(out);
        }
        let place = blocks[block][at];
        at += 1;
        match code[place] {
            Inst::AddFunction(_) | Inst::AppendBlock(_) | Inst::PositionAtEnd(_) => {
                unreachable!()
            }
            Inst::Alloca { ty: Ty::Tape, .. } => values[place] = Some(Value::TapePtr(0)),
            Inst::Alloca { ty: Ty::I64, .. } => values[place] = Some(Value::IndexPtr),
            Inst::Alloca { ty, .. } => panic!("{ty:?} is not reserved"),
            Inst::MemSet { ptr, value, len, .. } => {
                assert_eq!(operand(&values, ptr), Value::TapePtr(0));
                let (_, byte) = integer(&values, value);
                let (_, count) = integer(&values, len);
                for cell in &mut tape[..count as usize] {
                    *cell = byte as u8;
                }
            }
            Inst::Store { value, ptr } => match (integer(&values, value), operand(&values, ptr)) {
                ((Ty::I64, value), Value::IndexPtr) => index = value,
                ((Ty::I8, value), Value::TapePtr(cell)) => {
                    if cell >= TAPE_LEN {
                        return End::OffTape;
                    }
                    tape[cell as usize] = value as u8;
                }
                other => panic!("{other:?} do not fit"),
            },
            Inst::Load { ty, ptr, .. } => match (ty, operand(&values, ptr)) {
                (Ty::I64, Value::IndexPtr) => values[place] = Some(Value::Int(ty, index)),
                (Ty::I8, Value::TapePtr(cell)) => {
                    if cell >= TAPE_LEN {
                        return End::OffTape;
                    }
                    values[place] = Some(Value::Int(ty, u64::from(tape[cell as usize])));
                }
                other => panic!("{other:?} do not fit"),
            },
            Inst::ElementPtr { base, index, .. } => {
                assert_eq!(operand(&values, base), Value::TapePtr(0));
                values[place] = Some(Value::TapePtr(integer(&values, index).1));
            }
            Inst::Add { lhs, rhs, .. } => {
                let ((ty, a), (_, b)) = (integer(&values, lhs), integer(&values, rhs));
                values[place] = Some(Value::Int(ty, wrapped(ty, a.wrapping_add(b))));
            }
            Inst::Sub { lhs, rhs, .. } => {
                let ((ty, a), (_, b)) = (integer(&values, lhs), integer(&values, rhs));
                values[place] = Some(Value::Int(ty, wrapped(ty, a.wrapping_sub(b))));
            }
            Inst::Mul { lhs, rhs, .. } => {
                let ((ty, a), (_, b)) = (integer(&values, lhs), integer(&values, rhs));
                values[place] = Some(Value::Int(ty, wrapped(ty, a.wrapping_mul(b))));
            }
            Inst::ZExt { value, to, .. } => {
                values[place] = Some(Value::Int(to, integer(&values, value).1));
            }
            Inst::Trunc { value, to, .. } => {
                values[place] = Some(Value::Int(to, wrapped(to, integer(&values, value).1)));
            }
            Inst::Call { callee: Function::Putchar, arg, .. } => {
                let (ty, widened) = integer(&values, arg.unwrap());
                assert_eq!((ty, widened), (Ty::I32, u64::from(tape[index as usize])));
                let byte = widened as u8;
                log.push(('w', i32::from(byte)));
                out.push(byte);
            }
            Inst::Call { callee: Function::Getchar, .. } => {
                let value = next_input(input, &mut read, log) as u32;
                values[place] = Some(Value::Int(Ty::I32, u64::from(value)));
            }
            Inst::Call { callee: Function::Main, .. } => panic!("main is not called"),
            Inst::IsNotEqual { lhs, rhs, .. } => {
                let differ = integer(&values, lhs) != integer(&values, rhs);
                values[place] = Some(Value::Int(Ty::I1, u64::from(differ)));
            }
            Inst::Br(to) => (block, at) = (to, 0),
            Inst::CondBr { condition, if_true, if_false } => {
                let (_, taken) = integer(&values, condition);
                (block, at) = (if taken != 0 { if_true } else { if_false }, 0);
            }
            Inst::Ret(value) => {
                assert_eq!(integer(&values, value), (Ty::I32, 0));
                return End::Done(out);
            }
        }
    }
}

const LIMIT: usize = 2_000_000;

fn assert_agree(source: &str, input: &[u8], expected: End) {
    let ops = parse_brainfuck(source.bytes()).unwrap();
    let code = LLVMCompiler::new().build(&ops).unwrap();
    let mut logs: [Log; 3] = [Vec::new(), Vec::new(), Vec::new()];
    assert_eq!(run_source(source.as_bytes(), input, LIMIT, &mut logs[0]), expected);
    assert_eq!(run_ops(&ops, input, LIMIT, &mut logs[1]), expected);
    assert_eq!(run_code(&code, input, LIMIT, &mut logs[2]), expected);
    assert_eq!(logs[1], logs[0]);
    assert_eq!(logs[2], logs[0]);
}

fn written(text: &str) -> End {
    End::Done(text.as_bytes().to_vec())
}

#[test]
fn hello_world() {
    assert_agree(
        "++++++++[>++++[>++>+++>+++>+<<<<-]>+>+>->>+[<]<-]>>.>---.+++++++..+++.>>.<-.<.+++.------.--------.>>+.>++.",
        b"",
        written("Hello World!\n"),
    );
}

#[test]
fn echo_until_zero() {
    assert_agree(",[.,]", b"abc\0def", written("abc"));
}

#[test]
fn end_of_input_is_all_ones() {
    assert_agree(",.", b"", End::Done(vec![255]));
}

#[test]
fn cells_wrap_around() {
    assert_agree("-.+.", b"", End::Done(vec![255, 0]));
}

#[test]
fn clear_loops_keep_their_meaning() {
    assert_agree("+++++[-].", b"", End::Done(vec![0]));
    assert_agree("++++++[+].", b"", End::Done(vec![0]));
    assert_agree("+++++++[---].", b"", End::Done(vec![0]));
    assert_agree("++++[+++++++].", b"", End::Done(vec![0]));
}

#[test]
fn transfer_loops_keep_their_meaning() {
    assert_agree("+++++[->++>+++<<].>.>.", b"", End::Done(vec![0, 10, 15]));
    assert_agree(">>+++++[-<+<---->>]<<.>.>.", b"", End::Done(vec![236, 5, 0]));
    assert_agree("++++++++++++++++[->++++++++++++++++<]>.", b"", End::Done(vec![0]));
}

#[test]
fn nested_loops_keep_their_meaning() {
    assert_agree("+++[>+++[>+++[>+<-]<-]<-]>>>.", b"", End::Done(vec![27]));
    assert_agree("++[>++[-]<-]>.", b"", End::Done(vec![0]));
}

#[test]
fn a_pointer_that_wanders_off_and_back() {
    assert_agree("<<<>>>+.", b"", End::Done(vec![1]));
    let mut source = String::from("+");
    for _ in 0..40_000 {
        source.push('>');
    }
    for _ in 0..40_000 {
        source.push('<');
    }
    source.push('.');
    assert_agree(&source, b"", End::Done(vec![1]));
}

#[test]
fn programs_that_do_not_end() {
    for source in ["+.[]", "+.[>+<++]", "+.[--]"] {
        let ops = parse_brainfuck(source.bytes()).unwrap();
        let code = LLVMCompiler::new().build(&ops).unwrap();
        let expected = End::OutOfSteps(vec![1]);
        assert_eq!(run_source(source.as_bytes(), b"", LIMIT, &mut Vec::new()), expected);
        assert_eq!(run_ops(&ops, b"", LIMIT, &mut Vec::new()), expected);
        assert_eq!(run_code(&code, b"", LIMIT, &mut Vec::new()), expected);
    }
}

#[test]
fn the_last_cell_is_on_the_tape() {
    let mut source = String::new();
    for _ in 0..29_999 {
        source.push('>');
    }
    source.push_str("+.");
    assert_agree(&source, b"", End::Done(vec![1]));
}

#[test]
fn the_cell_behind_the_last_is_not() {
    let mut source = String::new();
    for _ in 0..30_000 {
        source.push('>');
    }
    source.push_str("+.");
    let ops = parse_brainfuck(source.bytes()).unwrap();
    let code = LLVMCompiler::new().build(&ops).unwrap();
    assert_eq!(run_ops(&ops, b"", LIMIT, &mut Vec::new()), End::OffTape);
    assert_eq!(run_code(&code, b"", LIMIT, &mut Vec::new()), End::OffTape);
}

#[test]
fn a_transfer_touches_its_targets_even_from_zero() {
    let mut source = String::new();
    for _ in 0..29_999 {
        source.push('>');
    }
    source.push_str("[->+<].");
    let ops = parse_brainfuck(source.bytes()).unwrap();
    let code = LLVMCompiler::new().build(&ops).unwrap();
    assert_eq!(run_source(source.as_bytes(), b"", LIMIT, &mut Vec::new()), End::Done(vec![0]));
    assert_eq!(run_ops(&ops, b"", LIMIT, &mut Vec::new()), End::OffTape);
    assert_eq!(run_code(&code, b"", LIMIT, &mut Vec::new()), End::OffTape);
}

#[test]
fn a_longer_run_takes_back_nothing() {
    let source = "+[.+]+[.]";
    let ops = parse_brainfuck(source.bytes()).unwrap();
    let End::OutOfSteps(short) = run_ops(&ops, b"", 300, &mut Vec::new()) else {
        panic!("it does not end");
    };
    let End::OutOfSteps(long) = run_ops(&ops, b"", 3000, &mut Vec::new()) else {
        panic!("it does not end");
    };
    assert!(short.len() < long.len());
    assert!(long.starts_with(&short));
}

#[test]
fn reads_and_writes_keep_their_order() {
    let source = "++.>,.<,[->+<]>.";
    let ops = parse_brainfuck(source.bytes()).unwrap();
    let code = LLVMCompiler::new().build(&ops).unwrap();
    let mut log = Vec::new();
    assert_eq!(run_code(&code, b"\x05\x07", LIMIT, &mut log), End::Done(vec![2, 5, 12]));
    assert_eq!(log, vec![('w', 2), ('r', 5), ('w', 5), ('r', 7), ('w', 12)]);
    assert_agree(source, b"\x05\x07", End::Done(vec![2, 5, 12]));
}

/// Runs a program on a tape without end, and gives what is not zero on it.
fn run_endless(ops: &[Op]) -> Vec<(i64, u8)> {
    let mut tape: BTreeMap<i64, u8> = BTreeMap::new();
    let mut ptr = 0i64;
    let mut pc = 0usize;
    while pc < ops.len() {
        let cell = *tape.get(&ptr).unwrap_or(&0);
        match &ops[pc] {
            Op::PtrAdd(delta) => ptr += delta,
            Op::CellAdd(delta) => {
                tape.insert(ptr, cell.wrapping_add(*delta as u8));
            }
            Op::ClearCell => {
                tape.insert(ptr, 0);
            }
            Op::AddScaled(updates) => {
                for update in updates {
                    let target = tape.entry(ptr + update.offset).or_insert(0);
                    *target = target.wrapping_add(cell.wrapping_mul(update.factor as u8));
                }
                tape.insert(ptr, 0);
            }
            Op::LoopStart if cell == 0 => pc = loop_partner(ops, pc, 1),
            Op::LoopEnd if cell != 0 => pc = loop_partner(ops, pc, -1),
            _ => {}
        }
        pc += 1;
    }
    tape.into_iter().filter(|(_, cell)| *cell != 0).collect()
}

#[test]
fn programs_keep_their_meaning_on_an_endless_tape() {
    for (source, expected) in [
        ("<<+++[-<++>]<", vec![(-3i64, 6u8)]),
        ("+++[-<<<+>>>>>++<<]", vec![(-3, 3), (2, 6)]),
        ("<<+++[->>>>++<<<<]>>[-]>>[->+<]>", vec![(3, 6)]),
        ("<++[>++[-<<+>>]<-]", vec![(-2, 4)]),
    ] {
        let commands: Vec<Op> = source
            .bytes()
            .map(|byte| match byte {
                b'>' => Op::PtrAdd(1),
                b'<' => Op::PtrAdd(-1),
                b'+' => Op::CellAdd(1),
                b'-' => Op::CellAdd(-1),
                b'[' => Op::LoopStart,
                _ => Op::LoopEnd,
            })
            .collect();
        let parsed = parse_brainfuck(source.bytes()).unwrap();
        assert_eq!(run_endless(&parsed), run_endless(&commands));
        assert_eq!(run_endless(&parsed), expected);
    }
}

#[test]
fn putchar_gets_the_current_cell_widened_with_zeros() {
    // The interpreter of code holds the argument against the cell.
    assert_agree("-.--.>+.", b"", End::Done(vec![255, 253, 1]));
}
