//! The code of a program, call by call.
use vstd::prelude::*;

use crate::brackets::{is_pair, lemma_pair_start_unique};
use crate::llvm::compiler::BuildError;
use crate::llvm::emit::{code_upto, loop_start, op_code, program_code, starts, update_code,
    updates_code};
use crate::llvm::error::Cause;
use crate::llvm::ir::{Function, Inst, Operand, Ty};
use crate::llvm::memory_buffer::SpecBuffer;
use crate::llvm::opt_level::OptLevel;
use crate::llvm::session::code_of;
use crate::llvm::straight::{lemma_updates_code_at, lemma_updates_code_len};
use crate::op::{CellUpdate, SpecOp};
use crate::reading_laws::{law_loops_are_counted, loop_ends, loop_starts};

verus! {

/// The constant zero of each type.
pub open spec fn zero_i8() -> Operand {
    Operand::Const(Ty::I8, 0)
}

pub open spec fn zero_i64() -> Operand {
    Operand::Const(Ty::I64, 0)
}

/// The value made at place `n`. The tape is made at place five, the pointer
/// register at place seven.
pub open spec fn at(n: int) -> Operand {
    Operand::Value(n as usize)
}

/// Moves an index that was read at `from` by `delta`: adds it if it is not
/// negative, else takes away its amount.
pub open spec fn moved_index(
    from: int,
    delta: i64,
    add_name: &'static str,
    sub_name: &'static str,
) -> Inst {
    if delta >= 0 {
        Inst::Add { lhs: at(from), rhs: Operand::Const(Ty::I64, delta as u64), name: add_name }
    } else {
        Inst::Sub { lhs: at(from), rhs: Operand::Const(Ty::I64, (-delta) as u64), name: sub_name }
    }
}

/// The address of the cell whose index was made at `index`.
pub open spec fn address_of_cell(index: int, name: &'static str) -> Inst {
    Inst::ElementPtr {
        ty: Ty::Tape,
        base: Operand::Value(5),
        zero: zero_i64(),
        index: at(index),
        name,
    }
}

/// The number from 0 to 255 that a cell takes for `n`.
pub open spec fn for_cell(n: i32) -> Operand {
    Operand::Const(Ty::I8, (n as int % 256) as u64)
}

/// The code begins with the functions, the entry block, a tape of 30,000 cells
/// that are zero, and the pointer register at zero; and ends with the return of
/// zero.
pub proof fn law_code_begins_and_ends(ops: Seq<SpecOp>)
    ensures
        code_upto(ops, 0) == seq![
            Inst::AddFunction(Function::Putchar),
            Inst::AddFunction(Function::Getchar),
            Inst::AddFunction(Function::Main),
            Inst::AppendBlock("entry"),
            Inst::PositionAtEnd(0),
            Inst::Alloca { ty: Ty::Tape, name: "tape" },
            Inst::MemSet {
                ptr: Operand::Value(5),
                value: zero_i8(),
                len: Operand::Const(Ty::I64, 30_000),
                align: 1,
            },
            Inst::Alloca { ty: Ty::I64, name: "idx" },
            Inst::Store { value: zero_i64(), ptr: Operand::Value(7) },
        ],
        program_code(ops) == code_upto(ops, ops.len() as int) + seq![
            Inst::Ret(Operand::Const(Ty::I32, 0)),
        ],
{
    assert(program_code(ops) =~= code_upto(ops, ops.len() as int) + seq![
        Inst::Ret(Operand::Const(Ty::I32, 0)),
    ]);
}

/// Behind the code of the instructions before it, each instruction puts its own
/// calls, and nothing else.
pub proof fn law_code_goes_on(ops: Seq<SpecOp>, i: int, part: Seq<Inst>)
    requires
        0 <= i < ops.len(),
        code_upto(ops, i + 1) == code_upto(ops, i) + part,
    ensures
        ({
            let n = code_upto(ops, i).len() as int;
            match ops[i] {
                SpecOp::PtrAdd(delta) => part == seq![
                    Inst::Load { ty: Ty::I64, ptr: Operand::Value(7), name: "idx.cur" },
                    moved_index(n, delta, "idx.add", "idx.sub"),
                    Inst::Store { value: at(n + 1), ptr: Operand::Value(7) },
                ],
                SpecOp::CellAdd(delta) => part == seq![
                    Inst::Load { ty: Ty::I64, ptr: Operand::Value(7), name: "idx.load" },
                    address_of_cell(n, "cell.ptr"),
                    Inst::Load { ty: Ty::I8, ptr: at(n + 1), name: "cell.cur" },
                    Inst::Add { lhs: at(n + 2), rhs: for_cell(delta), name: "cell.next" },
                    Inst::Store { value: at(n + 3), ptr: at(n + 1) },
                ],
                SpecOp::ClearCell => part == seq![
                    Inst::Load { ty: Ty::I64, ptr: Operand::Value(7), name: "idx.load" },
                    address_of_cell(n, "cell.ptr"),
                    Inst::Store { value: zero_i8(), ptr: at(n + 1) },
                ],
                SpecOp::AddScaled(updates) => {
                    let end = 3 + 6 * updates.len();
                    &&& part.len() == end + 1
                    &&& part[0] == (Inst::Load {
                        ty: Ty::I64,
                        ptr: Operand::Value(7),
                        name: "idx.load",
                    })
                    &&& part[1] == address_of_cell(n, "cell.ptr")
                    &&& part[2] == (Inst::Load { ty: Ty::I8, ptr: at(n + 1), name: "cell.mul" })
                    &&& forall|u: int|
                        0 <= u < updates.len() ==> is_update(
                            #[trigger] updates[u],
                            part,
                            n,
                            3 + 6 * u,
                        )
                    &&& part[end as int] == (Inst::Store { value: zero_i8(), ptr: at(n + 1) })
                },
                SpecOp::Output => part == seq![
                    Inst::Load { ty: Ty::I64, ptr: Operand::Value(7), name: "idx.load" },
                    address_of_cell(n, "cell.ptr"),
                    Inst::Load { ty: Ty::I8, ptr: at(n + 1), name: "cell.out" },
                    Inst::ZExt { value: at(n + 2), to: Ty::I32, name: "out.zext" },
                    Inst::Call { callee: Function::Putchar, arg: Some(at(n + 3)), name: "" },
                ],
                SpecOp::Input => part == seq![
                    Inst::Call { callee: Function::Getchar, arg: None, name: "in" },
                    Inst::Trunc { value: at(n), to: Ty::I8, name: "in.byte" },
                    Inst::Load { ty: Ty::I64, ptr: Operand::Value(7), name: "idx.load" },
                    address_of_cell(n + 2, "cell.ptr"),
                    Inst::Store { value: at(n + 1), ptr: at(n + 3) },
                ],
                SpecOp::LoopStart => {
                    // The blocks of the loop are the next three.
                    let block = 1 + 3 * loop_starts(ops, i);
                    part == seq![
                        Inst::AppendBlock("loop.cond"),
                        Inst::AppendBlock("loop.body"),
                        Inst::AppendBlock("loop.end"),
                        Inst::Br(block as usize),
                        Inst::PositionAtEnd(block as usize),
                        Inst::Load { ty: Ty::I64, ptr: Operand::Value(7), name: "idx.loop" },
                        address_of_cell(n + 5, "cell.ptr"),
                        Inst::Load { ty: Ty::I8, ptr: at(n + 6), name: "cell.loop" },
                        Inst::IsNotEqual { lhs: at(n + 7), rhs: zero_i8(), name: "loop.nz" },
                        Inst::CondBr {
                            condition: at(n + 8),
                            if_true: (block + 1) as usize,
                            if_false: (block + 2) as usize,
                        },
                        Inst::PositionAtEnd((block + 1) as usize),
                    ]
                },
                SpecOp::LoopEnd => forall|s: int| #[trigger]
                    is_pair(ops, s, i) ==> {
                        let block = 1 + 3 * loop_starts(ops, s);
                        part == seq![
                            Inst::Br(block as usize),
                            Inst::PositionAtEnd((block + 2) as usize),
                        ]
                    },
            }
        }),
{
    let before = code_upto(ops, i);
    let n = before.len() as int;
    let own = op_code(ops, i, n as nat);
    assert(before + part == before + own);
    assert(part =~= own) by {
        assert((before + part).subrange(n, n + part.len()) =~= part);
        assert((before + own).subrange(n, n + own.len()) =~= own);
    }
    lemma_starts_counted(ops, i);
    match ops[i] {
        SpecOp::AddScaled(updates) => {
            let count = updates.len();
            let inner = updates_code(updates, n as nat, count);
            lemma_updates_code_len(updates, n as nat, count);
            assert forall|u: int| 0 <= u < count implies is_update(
                #[trigger] updates[u],
                part,
                n,
                3 + 6 * u,
            ) by {
                assert forall|k: int| 0 <= k < 6 implies #[trigger] part[3 + 6 * u + k]
                    == update_code(updates[u], n as nat, (n + 3 + 6 * u) as nat)[k] by {
                    lemma_updates_code_at(updates, n as nat, count, u as nat, k);
                    assert(part[3 + 6 * u + k] == inner[6 * u + k]);
                }
                assert(part[3 + 6 * u + 0] == update_code(
                    updates[u],
                    n as nat,
                    (n + 3 + 6 * u) as nat,
                )[0]);
            }
        },
        SpecOp::LoopEnd => {
            assert forall|s: int| #[trigger] is_pair(ops, s, i) implies {
                let block = 1 + 3 * loop_starts(ops, s);
                part == seq![
                    Inst::Br(block as usize),
                    Inst::PositionAtEnd((block + 2) as usize),
                ]
            } by {
                lemma_pair_start_unique(ops, s, loop_start(ops, i), i);
                lemma_starts_counted(ops, s);
                let block = 1 + 3 * loop_starts(ops, s);
                assert(part =~= seq![
                    Inst::Br(block as usize),
                    Inst::PositionAtEnd((block + 2) as usize),
                ]);
            }
        },
        SpecOp::LoopStart => {
            let block = 1 + 3 * loop_starts(ops, i);
            assert(part =~= seq![
                Inst::AppendBlock("loop.cond"),
                Inst::AppendBlock("loop.body"),
                Inst::AppendBlock("loop.end"),
                Inst::Br(block as usize),
                Inst::PositionAtEnd(block as usize),
                Inst::Load { ty: Ty::I64, ptr: Operand::Value(7), name: "idx.loop" },
                address_of_cell(n + 5, "cell.ptr"),
                Inst::Load { ty: Ty::I8, ptr: at(n + 6), name: "cell.loop" },
                Inst::IsNotEqual { lhs: at(n + 7), rhs: zero_i8(), name: "loop.nz" },
                Inst::CondBr {
                    condition: at(n + 8),
                    if_true: (block + 1) as usize,
                    if_false: (block + 2) as usize,
                },
                Inst::PositionAtEnd((block + 1) as usize),
            ]);
        },
        SpecOp::CellAdd(delta) => {
            assert(part =~= seq![
                Inst::Load { ty: Ty::I64, ptr: Operand::Value(7), name: "idx.load" },
                address_of_cell(n, "cell.ptr"),
                Inst::Load { ty: Ty::I8, ptr: at(n + 1), name: "cell.cur" },
                Inst::Add { lhs: at(n + 2), rhs: for_cell(delta), name: "cell.next" },
                Inst::Store { value: at(n + 3), ptr: at(n + 1) },
            ]);
        },
        SpecOp::ClearCell => {
            assert(part =~= seq![
                Inst::Load { ty: Ty::I64, ptr: Operand::Value(7), name: "idx.load" },
                address_of_cell(n, "cell.ptr"),
                Inst::Store { value: zero_i8(), ptr: at(n + 1) },
            ]);
        },
        SpecOp::Output => {
            assert(part =~= seq![
                Inst::Load { ty: Ty::I64, ptr: Operand::Value(7), name: "idx.load" },
                address_of_cell(n, "cell.ptr"),
                Inst::Load { ty: Ty::I8, ptr: at(n + 1), name: "cell.out" },
                Inst::ZExt { value: at(n + 2), to: Ty::I32, name: "out.zext" },
                Inst::Call { callee: Function::Putchar, arg: Some(at(n + 3)), name: "" },
            ]);
        },
        SpecOp::Input => {
            assert(part =~= seq![
                Inst::Call { callee: Function::Getchar, arg: None, name: "in" },
                Inst::Trunc { value: at(n), to: Ty::I8, name: "in.byte" },
                Inst::Load { ty: Ty::I64, ptr: Operand::Value(7), name: "idx.load" },
                address_of_cell(n + 2, "cell.ptr"),
                Inst::Store { value: at(n + 1), ptr: at(n + 3) },
            ]);
        },
        SpecOp::PtrAdd(delta) => {
            assert(part =~= seq![
                Inst::Load { ty: Ty::I64, ptr: Operand::Value(7), name: "idx.cur" },
                moved_index(n, delta, "idx.add", "idx.sub"),
                Inst::Store { value: at(n + 1), ptr: Operand::Value(7) },
            ]);
        },
    }
}

/// The six calls from `k` on make one update; the code of the instruction starts
/// at place `n`, where the index of the current cell is read, and the cell two
/// places later.
pub open spec fn is_update(update: CellUpdate, part: Seq<Inst>, n: int, k: int) -> bool {
    &&& part[k] == moved_index(n, update.offset, "idx.scaled.add", "idx.scaled.sub")
    &&& part[k + 1] == address_of_cell(n + k, "cell.scaled.ptr")
    &&& part[k + 2] == (Inst::Load { ty: Ty::I8, ptr: at(n + k + 1), name: "cell.scaled.cur" })
    &&& part[k + 3] == (Inst::Mul {
        lhs: at(n + 2),
        rhs: for_cell(update.factor),
        name: "cell.scaled.mul",
    })
    &&& part[k + 4] == (Inst::Add {
        lhs: at(n + k + 2),
        rhs: at(n + k + 3),
        name: "cell.scaled.next",
    })
    &&& part[k + 5] == (Inst::Store { value: at(n + k + 4), ptr: at(n + k + 1) })
}

proof fn lemma_starts_counted(ops: Seq<SpecOp>, i: int)
    ensures
        starts(ops, i) == loop_starts(ops, i),
    decreases i,
{
    if i > 0 {
        lemma_starts_counted(ops, i - 1);
    }
}

/// There is code behind the code of the instructions before: that of the
/// instruction itself.
pub proof fn law_code_is_put_behind(ops: Seq<SpecOp>, i: int)
    requires
        0 <= i < ops.len(),
    ensures
        exists|part: Seq<Inst>| #[trigger] (code_upto(ops, i) + part) == code_upto(ops, i + 1),
{
    let part = op_code(ops, i, code_upto(ops, i).len());
    assert(code_upto(ops, i) + part == code_upto(ops, i + 1));
}

/// A program has code if and only if its loops match. If at some place more loops
/// have ended than started, that is the error; if in the end more have started,
/// that is.
pub proof fn law_which_programs_have_code(ops: Seq<SpecOp>)
    ensures
        ({
            let n = ops.len() as int;
            match code_of(ops) {
                Ok(code) => {
                    &&& loop_starts(ops, n) == loop_ends(ops, n)
                    &&& forall|i: int|
                        0 <= i <= n ==> #[trigger] loop_ends(ops, i) <= loop_starts(ops, i)
                    &&& code == program_code(ops)
                },
                Err(BuildError::LoopMismatch) => exists|i: int|
                    0 <= i <= n && #[trigger] loop_ends(ops, i) > loop_starts(ops, i),
                Err(BuildError::LoopStackNotEmpty) => loop_starts(ops, n) > loop_ends(ops, n)
                    && forall|i: int|
                    0 <= i <= n ==> #[trigger] loop_ends(ops, i) <= loop_starts(ops, i),
            }
        }),
        BuildError::LoopMismatch.spec_cause().spec_text() == "internal loop mismatch",
        BuildError::LoopStackNotEmpty.spec_cause().spec_text() == "internal loop stack not empty",
{
    law_loops_are_counted(ops, ops.len() as int);
}

/// What an optimisation level is to LLVM's code generator, to its passes and to
/// the C compiler.
pub proof fn law_levels(opt: OptLevel)
    ensures
        opt == OptLevel::O0 ==> opt.codegen_level() == 0 && opt.pass_pipeline() == "default<O0>"
            && opt.opt_flag() == "-O0",
        opt == OptLevel::O1 ==> opt.codegen_level() == 1 && opt.pass_pipeline() == "default<O1>"
            && opt.opt_flag() == "-O1",
        opt == OptLevel::O2 ==> opt.codegen_level() == 2 && opt.pass_pipeline() == "default<O2>"
            && opt.opt_flag() == "-O2",
        opt == OptLevel::O3 ==> opt.codegen_level() == 3 && opt.pass_pipeline() == "default<O3>"
            && opt.opt_flag() == "-O3",
{
}

/// The functions of a module, by their names in C and what they take.
pub proof fn law_functions()
    ensures
        Function::Putchar.spec_name() == "putchar",
        Function::Getchar.spec_name() == "getchar",
        Function::Main.spec_name() == "main",
        Function::Putchar.spec_params() == seq![Ty::I32],
        Function::Getchar.spec_params() == Seq::<Ty>::empty(),
        Function::Main.spec_params() == Seq::<Ty>::empty(),
{
}

/// Each failure is told in its own words.
pub proof fn law_failures_are_told(cause: Cause)
    ensures
        cause is Context ==> cause.spec_text() == "failed to create LLVM context",
        cause is LoopMismatch ==> cause.spec_text() == "internal loop mismatch",
        cause is LoopStackNotEmpty ==> cause.spec_text() == "internal loop stack not empty",
        cause is Verification ==> cause.spec_text() == "LLVM module verification failed",
        cause is Target ==> cause.spec_text() == "failed to get LLVM target from triple",
        cause is FileTarget ==> cause.spec_text() == "failed to get target from triple",
        cause is TargetMachine ==> cause.spec_text() == "failed to create target machine",
        cause is PassOptions ==> cause.spec_text() == "failed to create LLVM pass builder options",
        cause is Passes ==> cause.spec_text() == "failed to run LLVM optimization passes",
        cause is InteriorNul ==> cause.spec_text() == "string contains interior NUL",
        cause is Emit ==> cause.spec_text() == "failed to emit object file",
        cause is JitBuilder ==> cause.spec_text() == "failed to create LLVM JIT builder",
        cause is Jit ==> cause.spec_text() == "failed to create LLVM JIT",
        cause is AddObject ==> cause.spec_text() == "failed to add object file to LLVM JIT",
        cause is Lookup ==> cause.spec_text() == "failed to lookup main function in LLVM JIT",
        cause is DisposeJit ==> cause.spec_text() == "failed to dispose LLVM JIT",
{
}

/// A buffer is to be disposed of if and only if there is one and it was not given
/// away.
pub proof fn law_which_buffers_are_owed(buffer: SpecBuffer)
    ensures
        buffer.owed() <==> buffer.address != 0 && !buffer.taken,
{
}

} // verus!
