//! The code of a program.
use vstd::prelude::*;

use crate::brackets::is_pair;
use crate::llvm::ir::{Function, Inst, Operand, Ty, ENTRY_BLOCK_NAME, INDEX_NAME, TAPE_LEN,
    TAPE_NAME};
use crate::op::{CellUpdate, SpecOp};

verus! {

/// The place of the tape among the values.
pub const TAPE: usize = 5;

/// The place of the pointer register among the values.
pub const INDEX: usize = 7;

/// The constant zero of a type.
pub open spec fn zero(ty: Ty) -> Operand {
    Operand::Const(ty, 0)
}

/// The value made at place `n`.
pub open spec fn value(n: nat) -> Operand {
    Operand::Value(n as usize)
}

/// What stands before the code of the first instruction: the functions, the
/// entry block, the tape with every cell zero, and the pointer register at the
/// first cell.
pub open spec fn prologue() -> Seq<Inst> {
    seq![
        Inst::AddFunction(Function::Putchar),
        Inst::AddFunction(Function::Getchar),
        Inst::AddFunction(Function::Main),
        Inst::AppendBlock(ENTRY_BLOCK_NAME),
        Inst::PositionAtEnd(0),
        Inst::Alloca { ty: Ty::Tape, name: TAPE_NAME },
        Inst::MemSet {
            ptr: Operand::Value(TAPE),
            value: zero(Ty::I8),
            len: Operand::Const(Ty::I64, TAPE_LEN),
            align: 1,
        },
        Inst::Alloca { ty: Ty::I64, name: INDEX_NAME },
        Inst::Store { value: zero(Ty::I64), ptr: Operand::Value(INDEX) },
    ]
}

/// How far a number is from zero.
pub open spec fn magnitude(delta: i64) -> u64 {
    (if delta >= 0 {
        delta as int
    } else {
        -delta
    }) as u64
}

/// The number that a cell takes for `delta`.
pub open spec fn cell_constant(delta: i32) -> Operand {
    Operand::Const(Ty::I8, (delta as int % 256) as u64)
}

/// The index `from`, moved by `delta`.
pub open spec fn index_moved(
    from: Operand,
    delta: i64,
    add_name: &'static str,
    sub_name: &'static str,
) -> Inst {
    let by = Operand::Const(Ty::I64, magnitude(delta));
    if delta >= 0 {
        Inst::Add { lhs: from, rhs: by, name: add_name }
    } else {
        Inst::Sub { lhs: from, rhs: by, name: sub_name }
    }
}

/// Reads the pointer register.
pub open spec fn index_load(name: &'static str) -> Inst {
    Inst::Load { ty: Ty::I64, ptr: Operand::Value(INDEX), name }
}

/// The address of the cell at `index`.
pub open spec fn cell_ptr(index: Operand, name: &'static str) -> Inst {
    Inst::ElementPtr {
        ty: Ty::Tape,
        base: Operand::Value(TAPE),
        zero: zero(Ty::I64),
        index,
        name,
    }
}

/// Reads a cell.
pub open spec fn cell_load(ptr: Operand, name: &'static str) -> Inst {
    Inst::Load { ty: Ty::I8, ptr, name }
}

/// The index of the current cell and its address, from place `n` on.
pub open spec fn current_cell(
    n: nat,
    index_name: &'static str,
    ptr_name: &'static str,
) -> Seq<Inst> {
    seq![index_load(index_name), cell_ptr(value(n), ptr_name)]
}

/// The code of one update, from place `n` on: the current cell, whose index was
/// read at `base`, has been read at `base + 2`.
pub open spec fn update_code(update: CellUpdate, base: nat, n: nat) -> Seq<Inst> {
    seq![
        index_moved(value(base), update.offset, "idx.scaled.add", "idx.scaled.sub"),
        cell_ptr(value(n), "cell.scaled.ptr"),
        cell_load(value(n + 1), "cell.scaled.cur"),
        Inst::Mul {
            lhs: value(base + 2),
            rhs: cell_constant(update.factor),
            name: "cell.scaled.mul",
        },
        Inst::Add { lhs: value(n + 2), rhs: value(n + 3), name: "cell.scaled.next" },
        Inst::Store { value: value(n + 4), ptr: value(n + 1) },
    ]
}

/// The code of the first `k` updates, from place `base + 3` on.
pub open spec fn updates_code(updates: Seq<CellUpdate>, base: nat, k: nat) -> Seq<Inst>
    decreases k,
{
    if k == 0 {
        Seq::empty()
    } else {
        let before = updates_code(updates, base, (k - 1) as nat);
        before + update_code(updates[k - 1], base, base + 3 + before.len())
    }
}

/// The code of an instruction that is no part of a loop, from place `n` on.
pub open spec fn plain_code(op: SpecOp, n: nat) -> Seq<Inst> {
    match op {
        SpecOp::PtrAdd(delta) => seq![
            index_load("idx.cur"),
            index_moved(value(n), delta, "idx.add", "idx.sub"),
            Inst::Store { value: value(n + 1), ptr: Operand::Value(INDEX) },
        ],
        SpecOp::CellAdd(delta) => current_cell(n, "idx.load", "cell.ptr") + seq![
            cell_load(value(n + 1), "cell.cur"),
            Inst::Add { lhs: value(n + 2), rhs: cell_constant(delta), name: "cell.next" },
            Inst::Store { value: value(n + 3), ptr: value(n + 1) },
        ],
        SpecOp::ClearCell => current_cell(n, "idx.load", "cell.ptr") + seq![
            Inst::Store { value: zero(Ty::I8), ptr: value(n + 1) },
        ],
        SpecOp::AddScaled(updates) => current_cell(n, "idx.load", "cell.ptr") + seq![
            cell_load(value(n + 1), "cell.mul"),
        ] + updates_code(updates, n, updates.len()) + seq![
            Inst::Store { value: zero(Ty::I8), ptr: value(n + 1) },
        ],
        SpecOp::Output => current_cell(n, "idx.load", "cell.ptr") + seq![
            cell_load(value(n + 1), "cell.out"),
            Inst::ZExt { value: value(n + 2), to: Ty::I32, name: "out.zext" },
            Inst::Call { callee: Function::Putchar, arg: Some(value(n + 3)), name: "" },
        ],
        SpecOp::Input => seq![
            Inst::Call { callee: Function::Getchar, arg: None, name: "in" },
            Inst::Trunc { value: value(n), to: Ty::I8, name: "in.byte" },
        ] + current_cell(n + 2, "idx.load", "cell.ptr") + seq![
            Inst::Store { value: value(n + 1), ptr: value(n + 3) },
        ],
        SpecOp::LoopStart => Seq::empty(),
        SpecOp::LoopEnd => Seq::empty(),
    }
}

/// The number of loops that start among the first `i` instructions.
pub open spec fn starts(ops: Seq<SpecOp>, i: int) -> nat
    decreases i,
{
    if i <= 0 {
        0
    } else if ops[i - 1] is LoopStart {
        starts(ops, i - 1) + 1
    } else {
        starts(ops, i - 1)
    }
}

/// Where the loop that ends at `i` starts.
pub open spec fn loop_start(ops: Seq<SpecOp>, i: int) -> int {
    choose|j: int| is_pair(ops, j, i)
}

/// The block that tests the cell before each round of the loop that starts at
/// `i`. Its body and its end are the next two blocks.
pub open spec fn loop_block(ops: Seq<SpecOp>, i: int) -> nat {
    3 * starts(ops, i) + 1
}

/// The code of a loop start, from place `n` on. The blocks of the loop are
/// `block` and the two after it.
pub open spec fn start_code(block: nat, n: nat) -> Seq<Inst> {
    seq![
        Inst::AppendBlock("loop.cond"),
        Inst::AppendBlock("loop.body"),
        Inst::AppendBlock("loop.end"),
        Inst::Br(block as usize),
        Inst::PositionAtEnd(block as usize),
    ] + current_cell(n + 5, "idx.loop", "cell.ptr") + seq![
        cell_load(value(n + 6), "cell.loop"),
        Inst::IsNotEqual { lhs: value(n + 7), rhs: zero(Ty::I8), name: "loop.nz" },
        Inst::CondBr {
            condition: value(n + 8),
            if_true: (block + 1) as usize,
            if_false: (block + 2) as usize,
        },
        Inst::PositionAtEnd((block + 1) as usize),
    ]
}

/// The code of the end of the loop whose blocks are `block` and the two after
/// it.
pub open spec fn end_code(block: nat) -> Seq<Inst> {
    seq![Inst::Br(block as usize), Inst::PositionAtEnd((block + 2) as usize)]
}

/// The code of instruction `i`, from place `n` on.
pub open spec fn op_code(ops: Seq<SpecOp>, i: int, n: nat) -> Seq<Inst> {
    match ops[i] {
        SpecOp::LoopStart => start_code(loop_block(ops, i), n),
        SpecOp::LoopEnd => end_code(loop_block(ops, loop_start(ops, i))),
        plain => plain_code(plain, n),
    }
}

/// The code of the first `i` instructions.
pub open spec fn code_upto(ops: Seq<SpecOp>, i: int) -> Seq<Inst>
    decreases i,
{
    if i <= 0 {
        prologue()
    } else {
        let before = code_upto(ops, i - 1);
        before + op_code(ops, i - 1, before.len())
    }
}

/// The code of a program.
pub open spec fn program_code(ops: Seq<SpecOp>) -> Seq<Inst> {
    code_upto(ops, ops.len() as int).push(Inst::Ret(zero(Ty::I32)))
}

} // verus!
