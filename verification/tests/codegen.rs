use fastbf::llvm::compiler::BuildError;
use fastbf::llvm::ir::{Function, Inst, Operand, Ty};
use fastbf::{parse_brainfuck, CellUpdate, LLVMCompiler, Op};

fn build(ops: &[Op]) -> Result<Vec<Inst>, BuildError> {
    LLVMCompiler::new().build(ops)
}

fn prologue() -> Vec<Inst> {
    vec![
        Inst::AddFunction(Function::Putchar),
        Inst::AddFunction(Function::Getchar),
        Inst::AddFunction(Function::Main),
        Inst::AppendBlock("entry"),
        Inst::PositionAtEnd(0),
        Inst::Alloca { ty: Ty::Tape, name: "tape" },
        Inst::MemSet {
            ptr: Operand::Value(5),
            value: Operand::Const(Ty::I8, 0),
            len: Operand::Const(Ty::I64, 30_000),
            align: 1,
        },
        Inst::Alloca { ty: Ty::I64, name: "idx" },
        Inst::Store { value: Operand::Const(Ty::I64, 0), ptr: Operand::Value(7) },
    ]
}

fn ret() -> Inst {
    Inst::Ret(Operand::Const(Ty::I32, 0))
}

fn index_load(name: &'static str) -> Inst {
    Inst::Load { ty: Ty::I64, ptr: Operand::Value(7), name }
}

fn cell_ptr(index: usize, name: &'static str) -> Inst {
    Inst::ElementPtr {
        ty: Ty::Tape,
        base: Operand::Value(5),
        zero: Operand::Const(Ty::I64, 0),
        index: Operand::Value(index),
        name,
    }
}

fn cell_load(ptr: usize, name: &'static str) -> Inst {
    Inst::Load { ty: Ty::I8, ptr: Operand::Value(ptr), name }
}

fn store(value: Operand, ptr: usize) -> Inst {
    Inst::Store { value, ptr: Operand::Value(ptr) }
}

fn assert_code(ops: &[Op], middle: Vec<Inst>) {
    let mut expected = prologue();
    expected.extend(middle);
    expected.push(ret());
    assert_eq!(build(ops), Ok(expected));
}

#[test]
fn code_of_nothing() {
    assert_code(&[], vec![]);
}

#[test]
fn code_of_a_move_right() {
    assert_code(
        &[Op::PtrAdd(3)],
        vec![
            index_load("idx.cur"),
            Inst::Add {
                lhs: Operand::Value(9),
                rhs: Operand::Const(Ty::I64, 3),
                name: "idx.add",
            },
            store(Operand::Value(10), 7),
        ],
    );
}

#[test]
fn code_of_a_move_left() {
    assert_code(
        &[Op::PtrAdd(i64::MIN)],
        vec![
            index_load("idx.cur"),
            Inst::Sub {
                lhs: Operand::Value(9),
                rhs: Operand::Const(Ty::I64, 1 << 63),
                name: "idx.sub",
            },
            store(Operand::Value(10), 7),
        ],
    );
}

#[test]
fn code_of_an_addition() {
    assert_code(
        &[Op::CellAdd(-1)],
        vec![
            index_load("idx.load"),
            cell_ptr(9, "cell.ptr"),
            cell_load(10, "cell.cur"),
            Inst::Add {
                lhs: Operand::Value(11),
                rhs: Operand::Const(Ty::I8, 255),
                name: "cell.next",
            },
            store(Operand::Value(12), 10),
        ],
    );
}

#[test]
fn code_of_a_large_addition_is_reduced() {
    let code = build(&[Op::CellAdd(300)]).unwrap();
    assert_eq!(
        code[12],
        Inst::Add {
            lhs: Operand::Value(11),
            rhs: Operand::Const(Ty::I8, 44),
            name: "cell.next"
        }
    );
}

#[test]
fn code_of_a_clear() {
    assert_code(
        &[Op::ClearCell],
        vec![
            index_load("idx.load"),
            cell_ptr(9, "cell.ptr"),
            store(Operand::Const(Ty::I8, 0), 10),
        ],
    );
}

#[test]
fn code_of_an_output() {
    assert_code(
        &[Op::Output],
        vec![
            index_load("idx.load"),
            cell_ptr(9, "cell.ptr"),
            cell_load(10, "cell.out"),
            Inst::ZExt { value: Operand::Value(11), to: Ty::I32, name: "out.zext" },
            Inst::Call {
                callee: Function::Putchar,
                arg: Some(Operand::Value(12)),
                name: "",
            },
        ],
    );
}

#[test]
fn code_of_an_input() {
    assert_code(
        &[Op::Input],
        vec![
            Inst::Call { callee: Function::Getchar, arg: None, name: "in" },
            Inst::Trunc { value: Operand::Value(9), to: Ty::I8, name: "in.byte" },
            index_load("idx.load"),
            cell_ptr(11, "cell.ptr"),
            store(Operand::Value(10), 12),
        ],
    );
}

#[test]
fn code_of_a_transfer() {
    let updates = vec![
        CellUpdate { offset: -2, factor: 3 },
        CellUpdate { offset: 1, factor: -1 },
    ];
    assert_code(
        &[Op::AddScaled(updates)],
        vec![
            index_load("idx.load"),
            cell_ptr(9, "cell.ptr"),
            cell_load(10, "cell.mul"),
            Inst::Sub {
                lhs: Operand::Value(9),
                rhs: Operand::Const(Ty::I64, 2),
                name: "idx.scaled.sub",
            },
            cell_ptr(12, "cell.scaled.ptr"),
            cell_load(13, "cell.scaled.cur"),
            Inst::Mul {
                lhs: Operand::Value(11),
                rhs: Operand::Const(Ty::I8, 3),
                name: "cell.scaled.mul",
            },
            Inst::Add {
                lhs: Operand::Value(14),
                rhs: Operand::Value(15),
                name: "cell.scaled.next",
            },
            store(Operand::Value(16), 13),
            Inst::Add {
                lhs: Operand::Value(9),
                rhs: Operand::Const(Ty::I64, 1),
                name: "idx.scaled.add",
            },
            cell_ptr(18, "cell.scaled.ptr"),
            cell_load(19, "cell.scaled.cur"),
            Inst::Mul {
                lhs: Operand::Value(11),
                rhs: Operand::Const(Ty::I8, 255),
                name: "cell.scaled.mul",
            },
            Inst::Add {
                lhs: Operand::Value(20),
                rhs: Operand::Value(21),
                name: "cell.scaled.next",
            },
            store(Operand::Value(22), 19),
            store(Operand::Const(Ty::I8, 0), 10),
        ],
    );
}

#[test]
fn code_of_a_loop() {
    assert_code(
        &[Op::LoopStart, Op::LoopEnd],
        vec![
            Inst::AppendBlock("loop.cond"),
            Inst::AppendBlock("loop.body"),
            Inst::AppendBlock("loop.end"),
            Inst::Br(1),
            Inst::PositionAtEnd(1),
            index_load("idx.loop"),
            cell_ptr(14, "cell.ptr"),
            cell_load(15, "cell.loop"),
            Inst::IsNotEqual {
                lhs: Operand::Value(16),
                rhs: Operand::Const(Ty::I8, 0),
                name: "loop.nz",
            },
            Inst::CondBr { condition: Operand::Value(17), if_true: 2, if_false: 3 },
            Inst::PositionAtEnd(2),
            Inst::Br(1),
            Inst::PositionAtEnd(3),
        ],
    );
}

#[test]
fn loop_ends_go_to_their_own_blocks() {
    let code = build(&[
        Op::LoopStart,
        Op::LoopStart,
        Op::LoopEnd,
        Op::LoopStart,
        Op::LoopEnd,
        Op::LoopEnd,
    ])
    .unwrap();
    let moves: Vec<Inst> = code
        .into_iter()
        .filter(|inst| matches!(inst, Inst::Br(_) | Inst::PositionAtEnd(_)))
        .collect();
    assert_eq!(
        moves,
        vec![
            Inst::PositionAtEnd(0),
            Inst::Br(1),
            Inst::PositionAtEnd(1),
            Inst::PositionAtEnd(2),
            Inst::Br(4),
            Inst::PositionAtEnd(4),
            Inst::PositionAtEnd(5),
            Inst::Br(4),
            Inst::PositionAtEnd(6),
            Inst::Br(7),
            Inst::PositionAtEnd(7),
            Inst::PositionAtEnd(8),
            Inst::Br(7),
            Inst::PositionAtEnd(9),
            Inst::Br(1),
            Inst::PositionAtEnd(3),
        ]
    );
}

#[test]
fn a_stray_loop_end_is_an_error() {
    assert_eq!(build(&[Op::LoopEnd]), Err(BuildError::LoopMismatch));
    assert_eq!(build(&[Op::LoopEnd, Op::LoopStart]), Err(BuildError::LoopMismatch));
}

#[test]
fn an_open_loop_is_an_error() {
    assert_eq!(build(&[Op::LoopStart]), Err(BuildError::LoopStackNotEmpty));
    assert_eq!(
        build(&[Op::LoopStart, Op::LoopStart, Op::LoopEnd]),
        Err(BuildError::LoopStackNotEmpty)
    );
}

#[test]
fn parsed_programs_have_code() {
    for source in ["", "+[-]", "+[>+<--]", "[[[[]]]][[]]"] {
        assert!(build(&parse_brainfuck(source.bytes()).unwrap()).is_ok());
    }
}

fn operands(inst: &Inst) -> Vec<Operand> {
    match *inst {
        Inst::MemSet { ptr, value, len, .. } => vec![ptr, value, len],
        Inst::Store { value, ptr } => vec![value, ptr],
        Inst::Load { ptr, .. } => vec![ptr],
        Inst::ElementPtr { base, zero, index, .. } => vec![base, zero, index],
        Inst::Add { lhs, rhs, .. }
        | Inst::Sub { lhs, rhs, .. }
        | Inst::Mul { lhs, rhs, .. }
        | Inst::IsNotEqual { lhs, rhs, .. } => vec![lhs, rhs],
        Inst::ZExt { value, .. } | Inst::Trunc { value, .. } | Inst::Ret(value) => vec![value],
        Inst::Call { arg, .. } => arg.into_iter().collect(),
        Inst::CondBr { condition, .. } => vec![condition],
        _ => vec![],
    }
}

#[test]
fn code_hangs_together() {
    for source in ["", ",.", "+[>,.[->+>--<<]<-]", "[[]+[[>]<]]>[.]"] {
        let code = build(&parse_brainfuck(source.bytes()).unwrap()).unwrap();
        let mut blocks: Vec<Vec<usize>> = Vec::new();
        let mut current = 0usize;
        for (place, inst) in code.iter().enumerate() {
            match inst {
                Inst::AddFunction(_) => {}
                Inst::AppendBlock(_) => blocks.push(Vec::new()),
                Inst::PositionAtEnd(block) => {
                    assert!(*block < blocks.len());
                    current = *block;
                }
                _ => blocks[current].push(place),
            }
            for operand in operands(inst) {
                if let Operand::Value(made) = operand {
                    assert!(made < place);
                    assert!(blocks[current].contains(&made) || blocks[0].contains(&made));
                }
            }
        }
        for block in &blocks {
            for place in block {
                let ends = match code[*place] {
                    Inst::Br(to) => {
                        assert!(0 < to && to < blocks.len());
                        true
                    }
                    Inst::CondBr { if_true, if_false, .. } => {
                        assert!(0 < if_true && if_true < blocks.len());
                        assert!(0 < if_false && if_false < blocks.len());
                        true
                    }
                    Inst::Ret(_) => true,
                    _ => false,
                };
                assert_eq!(ends, Some(place) == block.last());
            }
            assert!(!block.is_empty());
        }
    }
}
