//! The code generator.
use vstd::prelude::*;

use crate::brackets::{balanced, is_pair, lemma_pair_start_unique, nesting, no_stray_end};
use crate::llvm::emit::{cell_constant, cell_ptr, code_upto, current_cell, index_moved, loop_block,
    loop_start, magnitude, op_code, plain_code, program_code, prologue, start_code, starts,
    update_code, updates_code, value, zero, INDEX, TAPE};
use crate::llvm::ir::{Function, Inst, Operand, Ty, ENTRY_BLOCK_NAME, INDEX_NAME, TAPE_LEN,
    TAPE_NAME};
use crate::op::{CellUpdate, Op, SpecOp};

verus! {

/// Why there is no code for a list of instructions.
#[derive(Clone, Copy, Debug, PartialEq, Eq, Structural)]
pub enum BuildError {
    /// A loop end without a loop start.
    LoopMismatch,
    /// A loop start without a loop end.
    LoopStackNotEmpty,
}

/// Collects the builder calls for a module.
pub struct LLVMCompiler {
    code: Vec<Inst>,
    blocks: usize,
}

impl View for LLVMCompiler {
    type V = Seq<Inst>;

    /// The calls so far.
    closed spec fn view(&self) -> Seq<Inst> {
        self.code@
    }
}

impl LLVMCompiler {
    /// The number of blocks appended so far.
    pub closed spec fn block_count(&self) -> nat {
        self.blocks as nat
    }

    /// No more blocks than calls.
    pub open spec fn wf(&self) -> bool {
        self.block_count() <= self@.len() <= usize::MAX
    }

    /// A compiler for an empty module.
    pub fn new() -> (res: Self)
        ensures
            res.wf(),
            res@ == Seq::<Inst>::empty(),
            res.block_count() == 0,
    {
        LLVMCompiler { code: Vec::new(), blocks: 0 }
    }

    /// Adds a call. Its place is what refers to its value.
    fn emit(&mut self, inst: Inst) -> (res: Operand)
        requires
            old(self).wf(),
        ensures
            final(self).wf(),
            final(self)@ == old(self)@.push(inst),
            final(self).block_count() == old(self).block_count(),
            res == value(old(self)@.len()),
    {
        let place = self.code.len();
        self.code.push(inst);
        assert(self.code.len() <= usize::MAX);
        Operand::Value(place)
    }

    /// Adds a block. Its number is what refers to it.
    fn append_block(&mut self, name: &'static str) -> (res: usize)
        requires
            old(self).wf(),
        ensures
            final(self).wf(),
            final(self)@ == old(self)@.push(Inst::AppendBlock(name)),
            final(self).block_count() == old(self).block_count() + 1,
            res == old(self).block_count(),
    {
        let block = self.blocks;
        self.code.push(Inst::AppendBlock(name));
        assert(self.blocks < self.code.len());
        self.blocks = self.blocks + 1;
        block
    }

    /// The address of the cell at `index`.
    fn build_cell_ptr(&mut self, index: Operand, name: &'static str) -> (res: Operand)
        requires
            old(self).wf(),
        ensures
            final(self).wf(),
            final(self)@ == old(self)@.push(cell_ptr(index, name)),
            final(self).block_count() == old(self).block_count(),
            res == value(old(self)@.len()),
    {
        self.emit(
            Inst::ElementPtr {
                ty: Ty::Tape,
                base: Operand::Value(TAPE),
                zero: Operand::Const(Ty::I64, 0),
                index,
                name,
            },
        )
    }

    /// The index of the current cell, and its address.
    fn build_current_cell_ptr(&mut self, index_name: &'static str, ptr_name: &'static str) -> (res:
        (Operand, Operand))
        requires
            old(self).wf(),
        ensures
            final(self).wf(),
            final(self)@ == old(self)@ + current_cell(old(self)@.len(), index_name, ptr_name),
            final(self).block_count() == old(self).block_count(),
            res.0 == value(old(self)@.len()),
            res.1 == value(old(self)@.len() + 1),
    {
        let cur_idx = self.emit(
            Inst::Load { ty: Ty::I64, ptr: Operand::Value(INDEX), name: index_name },
        );
        let cell_ptr = self.build_cell_ptr(cur_idx, ptr_name);
        assert(self@ =~= old(self)@ + current_cell(old(self)@.len(), index_name, ptr_name));
        (cur_idx, cell_ptr)
    }

    /// The index `from`, moved by `delta`.
    fn build_index_moved(
        &mut self,
        from: Operand,
        delta: i64,
        add_name: &'static str,
        sub_name: &'static str,
    ) -> (res: Operand)
        requires
            old(self).wf(),
        ensures
            final(self).wf(),
            final(self)@ == old(self)@.push(index_moved(from, delta, add_name, sub_name)),
            final(self).block_count() == old(self).block_count(),
            res == value(old(self)@.len()),
    {
        let by = Operand::Const(Ty::I64, unsigned_abs(delta));
        if delta >= 0 {
            self.emit(Inst::Add { lhs: from, rhs: by, name: add_name })
        } else {
            self.emit(Inst::Sub { lhs: from, rhs: by, name: sub_name })
        }
    }

    /// Adds the code of one update, for a current cell whose index is `cur_idx`
    /// and whose value is `cell`.
    fn build_update(
        &mut self,
        update: CellUpdate,
        cur_idx: Operand,
        cell: Operand,
        base: Ghost<nat>,
    )
        requires
            old(self).wf(),
            cur_idx == value(base@),
            cell == value(base@ + 2),
        ensures
            final(self).wf(),
            final(self)@ == old(self)@ + update_code(update, base@, old(self)@.len()),
            final(self).block_count() == old(self).block_count(),
    {
        let ghost n = self@.len();
        let target_idx = self.build_index_moved(
            cur_idx,
            update.offset,
            "idx.scaled.add",
            "idx.scaled.sub",
        );
        let target_ptr = self.build_cell_ptr(target_idx, "cell.scaled.ptr");
        let target = self.emit(
            Inst::Load { ty: Ty::I8, ptr: target_ptr, name: "cell.scaled.cur" },
        );
        let scale = cell_delta(update.factor);
        let scaled = self.emit(Inst::Mul { lhs: cell, rhs: scale, name: "cell.scaled.mul" });
        let next = self.emit(Inst::Add { lhs: target, rhs: scaled, name: "cell.scaled.next" });
        self.emit(Inst::Store { value: next, ptr: target_ptr });
        assert(self@ =~= old(self)@ + update_code(update, base@, n));
    }

    /// Adds the code of an instruction that is no part of a loop.
    fn build_plain(&mut self, op: &Op)
        requires
            old(self).wf(),
            !(op is LoopStart),
            !(op is LoopEnd),
        ensures
            final(self).wf(),
            final(self)@ == old(self)@ + plain_code(op.deep_view(), old(self)@.len()),
            final(self).block_count() == old(self).block_count(),
    {
        let ghost n = self@.len();
        let ghost before = self@;
        match op {
            Op::PtrAdd(delta) => {
                let cur = self.emit(
                    Inst::Load { ty: Ty::I64, ptr: Operand::Value(INDEX), name: "idx.cur" },
                );
                let next = self.build_index_moved(cur, *delta, "idx.add", "idx.sub");
                self.emit(Inst::Store { value: next, ptr: Operand::Value(INDEX) });
            },
            Op::CellAdd(delta) => {
                let (_, cell_ptr) = self.build_current_cell_ptr("idx.load", "cell.ptr");
                let cur_val = self.emit(
                    Inst::Load { ty: Ty::I8, ptr: cell_ptr, name: "cell.cur" },
                );
                let delta_val = cell_delta(*delta);
                let next = self.emit(
                    Inst::Add { lhs: cur_val, rhs: delta_val, name: "cell.next" },
                );
                self.emit(Inst::Store { value: next, ptr: cell_ptr });
            },
            Op::ClearCell => {
                let (_, cell_ptr) = self.build_current_cell_ptr("idx.load", "cell.ptr");
                self.emit(Inst::Store { value: Operand::Const(Ty::I8, 0), ptr: cell_ptr });
            },
            Op::AddScaled(updates) => {
                let (cur_idx, cell_ptr) = self.build_current_cell_ptr("idx.load", "cell.ptr");
                let cell = self.emit(Inst::Load { ty: Ty::I8, ptr: cell_ptr, name: "cell.mul" });
                let ghost head = self@;
                let mut k: usize = 0;
                assert(self@ =~= head + updates_code(updates@, n, 0));
                while k < updates.len()
                    invariant
                        k <= updates.len(),
                        self.wf(),
                        self.block_count() == old(self).block_count(),
                        cur_idx == value(n),
                        cell == value(n + 2),
                        head.len() == n + 3,
                        self@ == head + updates_code(updates@, n, k as nat),
                    decreases updates.len() - k,
                {
                    let ghost upto = updates_code(updates@, n, k as nat);
                    self.build_update(updates[k], cur_idx, cell, Ghost(n));
                    k += 1;
                    assert(self@ =~= head + (upto + update_code(
                        updates@[k - 1],
                        n,
                        n + 3 + upto.len(),
                    )));
                }
                self.emit(Inst::Store { value: Operand::Const(Ty::I8, 0), ptr: cell_ptr });
            },
            Op::Output => {
                let (_, cell_ptr) = self.build_current_cell_ptr("idx.load", "cell.ptr");
                let cell = self.emit(Inst::Load { ty: Ty::I8, ptr: cell_ptr, name: "cell.out" });
                let widened = self.emit(Inst::ZExt { value: cell, to: Ty::I32, name: "out.zext" });
                self.emit(
                    Inst::Call { callee: Function::Putchar, arg: Some(widened), name: "" },
                );
            },
            Op::Input => {
                let input = self.emit(
                    Inst::Call { callee: Function::Getchar, arg: None, name: "in" },
                );
                let byte = self.emit(Inst::Trunc { value: input, to: Ty::I8, name: "in.byte" });
                let (_, cell_ptr) = self.build_current_cell_ptr("idx.load", "cell.ptr");
                self.emit(Inst::Store { value: byte, ptr: cell_ptr });
            },
            Op::LoopStart => {},
            Op::LoopEnd => {},
        }
        assert(self@ =~= before + plain_code(op.deep_view(), n));
    }

    /// Adds the code of a loop start. Gives the blocks to which the loop end
    /// will refer: the test and the end.
    fn build_loop_start(&mut self) -> (res: (usize, usize))
        requires
            old(self).wf(),
        ensures
            final(self).wf(),
            final(self)@ == old(self)@ + start_code(old(self).block_count(), old(self)@.len()),
            final(self).block_count() == old(self).block_count() + 3,
            res.0 == old(self).block_count(),
            res.1 == old(self).block_count() + 2,
    {
        let ghost n = self@.len();
        let cond_bb = self.append_block("loop.cond");
        let body_bb = self.append_block("loop.body");
        let end_bb = self.append_block("loop.end");
        self.emit(Inst::Br(cond_bb));
        self.emit(Inst::PositionAtEnd(cond_bb));
        let (_, cell_ptr) = self.build_current_cell_ptr("idx.loop", "cell.ptr");
        let cell = self.emit(Inst::Load { ty: Ty::I8, ptr: cell_ptr, name: "cell.loop" });
        let is_non_zero = self.emit(
            Inst::IsNotEqual { lhs: cell, rhs: Operand::Const(Ty::I8, 0), name: "loop.nz" },
        );
        self.emit(Inst::CondBr { condition: is_non_zero, if_true: body_bb, if_false: end_bb });
        self.emit(Inst::PositionAtEnd(body_bb));
        assert(self@ =~= old(self)@ + start_code(old(self).block_count(), n));
        (cond_bb, end_bb)
    }

    /// Adds the functions, the entry block, the tape and the pointer register.
    fn build_prologue(&mut self)
        requires
            old(self).wf(),
            old(self)@ == Seq::<Inst>::empty(),
            old(self).block_count() == 0,
        ensures
            final(self).wf(),
            final(self)@ == prologue(),
            final(self).block_count() == 1,
    {
        self.emit(Inst::AddFunction(Function::Putchar));
        self.emit(Inst::AddFunction(Function::Getchar));
        self.emit(Inst::AddFunction(Function::Main));
        let entry = self.append_block(ENTRY_BLOCK_NAME);
        self.emit(Inst::PositionAtEnd(entry));
        let tape = self.emit(Inst::Alloca { ty: Ty::Tape, name: TAPE_NAME });
        self.emit(
            Inst::MemSet {
                ptr: tape,
                value: Operand::Const(Ty::I8, 0),
                len: Operand::Const(Ty::I64, TAPE_LEN),
                align: 1,
            },
        );
        let idx_ptr = self.emit(Inst::Alloca { ty: Ty::I64, name: INDEX_NAME });
        self.emit(Inst::Store { value: Operand::Const(Ty::I64, 0), ptr: idx_ptr });
        assert(self@ =~= prologue());
    }

    /// The builder calls for a program.
    pub fn build(self, ops: &[Op]) -> (res: Result<Vec<Inst>, BuildError>)
        requires
            self.wf(),
            self@ == Seq::<Inst>::empty(),
            self.block_count() == 0,
        ensures
            match res {
                Ok(code) => balanced(ops.deep_view()) && code@ == program_code(ops.deep_view()),
                Err(BuildError::LoopMismatch) => !no_stray_end(ops.deep_view(), ops.len() as int),
                Err(BuildError::LoopStackNotEmpty) => no_stray_end(
                    ops.deep_view(),
                    ops.len() as int,
                ) && nesting(ops.deep_view(), ops.len() as int) > 0,
            },
    {
        let ghost view = ops.deep_view();
        let mut this = self;
        this.build_prologue();
        let mut loop_stack: Vec<(usize, usize)> = Vec::new();
        // Where the open loops start.
        let ghost mut open: Seq<int> = Seq::empty();
        let mut index: usize = 0;
        while index < ops.len()
            invariant
                view == ops.deep_view(),
                index <= ops.len() == view.len(),
                this.wf(),
                this@ == code_upto(view, index as int),
                this.block_count() == 3 * starts(view, index as int) + 1,
                no_stray_end(view, index as int),
                loop_stack.len() == open.len() == nesting(view, index as int),
                open_loops(view, open, loop_stack@, index as int),
            decreases ops.len() - index,
        {
            let op = &ops[index];
            let ghost n = this@.len();
            let ghost before = this@;
            assert(view[index as int] == op.deep_view());
            assert(nesting(view, index + 1) == nesting(view, index as int)
                + crate::brackets::loop_delta(view[index as int]));
            match op {
                Op::LoopStart => {
                    let blocks = this.build_loop_start();
                    loop_stack.push(blocks);
                    proof {
                        open = open.push(index as int);
                    }
                },
                Op::LoopEnd => {
                    match loop_stack.pop() {
                        Some((cond_bb, end_bb)) => {
                            proof {
                                let start = open.last();
                                assert(is_pair(view, start, index as int));
                                lemma_pair_start_unique(
                                    view,
                                    start,
                                    loop_start(view, index as int),
                                    index as int,
                                );
                                open = open.drop_last();
                            }
                            this.emit(Inst::Br(cond_bb));
                            this.emit(Inst::PositionAtEnd(end_bb));
                            assert(this@ =~= before + op_code(view, index as int, n));
                        },
                        None => {
                            return Err(BuildError::LoopMismatch);
                        },
                    }
                },
                _ => {
                    this.build_plain(op);
                },
            }
            index += 1;
        }
        this.emit(Inst::Ret(Operand::Const(Ty::I32, 0)));
        if !loop_stack.is_empty() {
            return Err(BuildError::LoopStackNotEmpty);
        }
        Ok(this.code)
    }
}

/// `open` holds where the loops that are open before instruction `n` start, and
/// `stack` their blocks.
spec fn open_loops(ops: Seq<SpecOp>, open: Seq<int>, stack: Seq<(usize, usize)>, n: int) -> bool {
    &&& open.len() == stack.len()
    &&& forall|k: int|
        0 <= k < open.len() ==> {
            &&& 0 <= (#[trigger] open[k]) < n
            &&& ops[open[k]] is LoopStart
            &&& nesting(ops, open[k]) == k
            &&& stack[k].0 == loop_block(ops, open[k])
            &&& stack[k].1 == loop_block(ops, open[k]) + 2
        }
    &&& forall|k: int, j: int|
        0 <= k < open.len() && #[trigger] open[k] < j <= n ==> #[trigger] nesting(ops, j) > k
}

/// How far a number is from zero.
fn unsigned_abs(delta: i64) -> (res: u64)
    ensures
        res == magnitude(delta),
{
    if delta >= 0 {
        delta as u64
    } else {
        (-(delta + 1)) as u64 + 1
    }
}

/// The number that a cell takes for `delta`.
fn cell_delta(delta: i32) -> (res: Operand)
    ensures
        res == cell_constant(delta),
{
    let rest: i64 = match (delta as i64).checked_rem_euclid(256) {
        Some(rest) => rest,
        None => 0,
    };
    Operand::Const(Ty::I8, rest as u64)
}

} // verus!
