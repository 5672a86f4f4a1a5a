//! The code of a program makes a module that hangs together.
use vstd::prelude::*;

use crate::brackets::{balanced, is_pair, lemma_pair_exists, loop_end, nesting};
use crate::llvm::correct::{has_code, lemma_loop_blocks};
use crate::llvm::emit::{code_upto, loop_block, loop_start, op_code, plain_code, program_code,
    prologue, start_code, starts, update_code, updates_code, INDEX, TAPE};
use crate::llvm::interp::{block_at, block_start, following, is_instruction, upcoming};
use crate::llvm::ir::{Inst, Operand};
use crate::llvm::layout::{has_frame, lemma_block_stays, lemma_code_prefix, lemma_frame,
    lemma_loop_start, lemma_op_code_at, lemma_plain_are_instructions, lemma_position_once,
    lemma_positions, lemma_skip, lemma_starts_grow, place_of, positions};
use crate::llvm::straight::{lemma_prologue_places, lemma_updates_code_at, lemma_updates_code_len};
use crate::op::{CellUpdate, SpecOp};

verus! {

/// The operands of a call.
pub open spec fn operands(inst: Inst) -> Seq<Operand> {
    match inst {
        Inst::MemSet { ptr, value, len, .. } => seq![ptr, value, len],
        Inst::Store { value, ptr } => seq![value, ptr],
        Inst::Load { ptr, .. } => seq![ptr],
        Inst::ElementPtr { base, zero, index, .. } => seq![base, zero, index],
        Inst::Add { lhs, rhs, .. } => seq![lhs, rhs],
        Inst::Sub { lhs, rhs, .. } => seq![lhs, rhs],
        Inst::Mul { lhs, rhs, .. } => seq![lhs, rhs],
        Inst::ZExt { value, .. } => seq![value],
        Inst::Trunc { value, .. } => seq![value],
        Inst::Call { arg: Some(arg), .. } => seq![arg],
        Inst::IsNotEqual { lhs, rhs, .. } => seq![lhs, rhs],
        Inst::CondBr { condition, .. } => seq![condition],
        Inst::Ret(value) => seq![value],
        _ => seq![],
    }
}

/// The call works on the value made at place `k`.
pub open spec fn refers(inst: Inst, k: int) -> bool {
    exists|j: int|
        0 <= j < operands(inst).len() && (#[trigger] operands(inst)[j] matches Operand::Value(v)
            && v == k)
}

/// The call goes to a block.
pub open spec fn goes_to(inst: Inst, block: int) -> bool {
    match inst {
        Inst::Br(to) => to == block,
        Inst::CondBr { if_true, if_false, .. } => if_true == block || if_false == block,
        _ => false,
    }
}

/// The call makes a value that others can work on.
pub open spec fn makes_value(inst: Inst) -> bool {
    match inst {
        Inst::Alloca { .. } => true,
        Inst::Load { .. } => true,
        Inst::ElementPtr { .. } => true,
        Inst::Add { .. } => true,
        Inst::Sub { .. } => true,
        Inst::Mul { .. } => true,
        Inst::ZExt { .. } => true,
        Inst::Trunc { .. } => true,
        Inst::Call { .. } => true,
        Inst::IsNotEqual { .. } => true,
        _ => false,
    }
}

/// The instruction ends its block.
pub open spec fn is_terminator(inst: Inst) -> bool {
    match inst {
        Inst::Br(_) => true,
        Inst::CondBr { .. } => true,
        Inst::Ret(_) => true,
        _ => false,
    }
}

/// The number of blocks that the first `n` calls append.
pub open spec fn block_count(code: Seq<Inst>, n: int) -> int
    decreases n,
{
    if n <= 0 {
        0
    } else if code[n - 1] is AppendBlock {
        block_count(code, n - 1) + 1
    } else {
        block_count(code, n - 1)
    }
}

/// What is asked of call `n`.
pub open spec fn call_is_sound(code: Seq<Inst>, n: int) -> bool {
    // A value that it works on was made before, in the same block or in the
    // entry block, which every other block comes after.
    &&& forall|k: int| #[trigger]
        refers(code[n], k) ==> 0 <= k < n && makes_value(code[k]) && (block_at(code, k) == block_at(
            code,
            n,
        ) || block_at(code, k) == 0)
    // A block that it goes to exists, and is not the entry block.
    &&& forall|block: int| #[trigger]
        goes_to(code[n], block) ==> 1 <= block < block_count(code, code.len() as int)
    // A block at which it positions the builder has been appended.
    &&& code[n] matches Inst::PositionAtEnd(block) ==> block < block_count(code, n)
    // An instruction stands in a block, and is the last there if and only if
    // it ends the block.
    &&& is_instruction(code[n]) ==> block_at(code, n) >= 0 && (is_terminator(code[n])
        <==> following(code, n) >= code.len())
}

/// The module hangs together: its calls are sound, and no block is empty.
pub open spec fn well_formed(code: Seq<Inst>) -> bool {
    &&& forall|n: int| 0 <= n < code.len() ==> #[trigger] call_is_sound(code, n)
    &&& forall|block: int|
        0 <= block < block_count(code, code.len() as int) ==> #[trigger] block_start(code, block)
            < code.len()
}

/// The calls of an instruction work on the tape, on the pointer register, or on
/// what earlier calls of the same instruction made.
spec fn is_local(part: Seq<Inst>, first: int, k: int) -> bool {
    forall|v: int| #[trigger]
        refers(part[k], v) ==> v == TAPE || v == INDEX || (first <= v < first + k && makes_value(
            part[v - first],
        ))
}

proof fn lemma_update_is_local(update: CellUpdate, base: nat, n: nat, k: int, v: int)
    requires
        0 <= k < 6,
        base + 2 < n,
        n + 6 <= usize::MAX,
        refers(update_code(update, base, n)[k], v),
    ensures
        v == TAPE || v == INDEX || v == base || v == base + 2 || (n <= v < n + k && makes_value(
            update_code(update, base, n)[v - n],
        )),
{
    let part = update_code(update, base, n);
    let inst = part[k];
    let j = choose|j: int|
        0 <= j < operands(inst).len() && (#[trigger] operands(inst)[j] matches Operand::Value(w)
            && w == v);
    assert(k == 0 || k == 1 || k == 2 || k == 3 || k == 4 || k == 5);
    assert(operands(inst)[j] matches Operand::Value(w) && w == v);
}

proof fn lemma_plain_is_local(op: SpecOp, n: nat, k: int)
    requires
        !(op is LoopStart),
        !(op is LoopEnd),
        0 <= k < plain_code(op, n).len(),
        n + plain_code(op, n).len() <= usize::MAX,
    ensures
        is_local(plain_code(op, n), n as int, k),
{
    let part = plain_code(op, n);
    let inst = part[k];
    assert forall|v: int| #[trigger] refers(inst, v) implies v == TAPE || v == INDEX || (n <= v < n
        + k && makes_value(part[v - n])) by {
        let j = choose|j: int|
            0 <= j < operands(inst).len() && (#[trigger] operands(inst)[j] matches Operand::Value(
                w,
            ) && w == v);
        assert(operands(inst)[j] matches Operand::Value(w) && w == v);
        match op {
            SpecOp::AddScaled(updates) => {
                let count = updates.len();
                let inner = updates_code(updates, n, count);
                lemma_updates_code_len(updates, n, count);
                if 3 <= k < 3 + 6 * count {
                    let u = (k - 3) / 6;
                    let i = (k - 3) % 6;
                    let m = n + 3 + 6 * u;
                    lemma_updates_code_at(updates, n, count, u as nat, i);
                    assert(inst == update_code(updates[u], n, m as nat)[i]);
                    lemma_update_is_local(updates[u], n, m as nat, i, v);
                    if m <= v < m + i {
                        lemma_updates_code_at(updates, n, count, u as nat, v - m);
                        assert(part[v - n] == inner[6 * u + (v - m)]);
                    }
                } else if k >= 3 {
                    assert(k == 3 + 6 * count);
                }
            },
            _ => {},
        }
    }
}

proof fn lemma_start_is_local(block: nat, n: nat, k: int)
    requires
        0 <= k < 11,
        n + 11 <= usize::MAX,
    ensures
        forall|v: int| #[trigger]
            refers(start_code(block, n)[k], v) ==> v == TAPE || v == INDEX || (n + 5 <= v < n + k
                && makes_value(start_code(block, n)[v - n])),
{
    let part = start_code(block, n);
    let inst = part[k];
    assert forall|v: int| #[trigger] refers(inst, v) implies v == TAPE || v == INDEX || (n + 5 <= v
        < n + k && makes_value(part[v - n])) by {
        let j = choose|j: int|
            0 <= j < operands(inst).len() && (#[trigger] operands(inst)[j] matches Operand::Value(
                w,
            ) && w == v);
        assert(operands(inst)[j] matches Operand::Value(w) && w == v);
        assert(k == 0 || k == 1 || k == 2 || k == 3 || k == 4 || k == 5 || k == 6 || k == 7 || k
            == 8 || k == 9 || k == 10);
    }
}

/// No block is appended by instructions.
proof fn lemma_count_stays(code: Seq<Inst>, a: int, b: int)
    requires
        0 <= a <= b <= code.len(),
        forall|k: int| a <= k < b ==> !(#[trigger] code[k] is AppendBlock),
    ensures
        block_count(code, b) == block_count(code, a),
    decreases b - a,
{
    if a < b {
        lemma_count_stays(code, a, b - 1);
        assert(!(code[b - 1] is AppendBlock));
    }
}

/// How many blocks there are before the code of instruction `i`.
proof fn lemma_block_count(ops: Seq<SpecOp>, i: int)
    requires
        has_code(ops),
        0 <= i <= ops.len(),
    ensures
        block_count(program_code(ops), place_of(ops, i)) == 3 * starts(ops, i) + 1,
        i < ops.len() && ops[i] is LoopStart ==> forall|k: int|
            3 <= k <= 11 ==> #[trigger] block_count(program_code(ops), place_of(ops, i) + k) == 3
                * starts(ops, i) + 4,
    decreases i,
{
    let code = program_code(ops);
    lemma_frame(ops);
    if i == 0 {
        lemma_prologue_places(code);
        assert(code[3] == prologue()[3]);
        reveal_with_fuel(block_count, 10);
        assert(code[0] == prologue()[0]);
        assert(code[1] == prologue()[1]);
        assert(code[2] == prologue()[2]);
        assert(code[4] == prologue()[4]);
        assert(code[5] == prologue()[5]);
        assert(code[6] == prologue()[6]);
        assert(code[7] == prologue()[7]);
        assert(code[8] == prologue()[8]);
    } else {
        let n = place_of(ops, i - 1);
        lemma_block_count(ops, i - 1);
        lemma_op_code_at(ops, i - 1);
        let part = op_code(ops, i - 1, n as nat);
        match ops[i - 1] {
            SpecOp::LoopStart => {
                assert(part.len() == 11);
                assert(block_count(code, n + 11) == 3 * starts(ops, i - 1) + 4);
            },
            SpecOp::LoopEnd => {
                assert(code[n + 0] == part[0]);
                assert(code[n + 1] == part[1]);
                lemma_count_stays(code, n, n + 2);
            },
            op => {
                lemma_plain_are_instructions(op, n as nat);
                assert forall|k: int| n <= k < n + part.len() implies !(
                #[trigger] code[k] is AppendBlock) by {
                    assert(code[n + (k - n)] == part[k - n]);
                    assert(is_instruction(part[k - n]));
                }
                lemma_count_stays(code, n, n + part.len());
            },
        }
    }
    if i < ops.len() && ops[i] is LoopStart {
        let n = place_of(ops, i);
        lemma_op_code_at(ops, i);
        let part = start_code(loop_block(ops, i), n as nat);
        assert(code[n + 0] == part[0]);
        assert(code[n + 1] == part[1]);
        assert(code[n + 2] == part[2]);
        assert(block_count(code, n + 1) == block_count(code, n) + 1);
        assert(block_count(code, n + 2) == block_count(code, n) + 2);
        assert(block_count(code, n + 3) == block_count(code, n) + 3);
        assert forall|k: int| 3 <= k <= 11 implies #[trigger] block_count(code, n + k) == 3
            * starts(ops, i) + 4 by {
            assert forall|h: int| n + 3 <= h < n + k implies !(
            #[trigger] code[h] is AppendBlock) by {
                assert(code[n + (h - n)] == part[h - n]);
            }
            lemma_count_stays(code, n + 3, n + k);
        }
    }
}

/// An instruction of the block is at or before `h`.
proof fn lemma_upcoming_hit(code: Seq<Inst>, a: int, h: int, block: int)
    requires
        0 <= a <= h < code.len(),
        is_instruction(code[h]),
        block_at(code, h) == block,
    ensures
        upcoming(code, a, block) <= h,
    decreases h - a,
{
    if a < h {
        lemma_upcoming_hit(code, a + 1, h, block);
    }
}

/// Before each instruction of the program, and at its end, the block goes on.
proof fn lemma_block_goes_on(ops: Seq<SpecOp>, i: int)
    requires
        has_code(ops),
        0 <= i <= ops.len(),
    ensures
        upcoming(
            program_code(ops),
            place_of(ops, i),
            block_at(program_code(ops), place_of(ops, i)),
        ) < program_code(ops).len(),
{
    let code = program_code(ops);
    let n = place_of(ops, i);
    lemma_frame(ops);
    lemma_code_prefix(ops, 0, i);
    if i == ops.len() {
        lemma_upcoming_hit(code, n, n, block_at(code, n));
    } else {
        lemma_op_code_at(ops, i);
        let part = op_code(ops, i, n as nat);
        assert(code[n + 0] == part[0] || part.len() == 0);
        match ops[i] {
            SpecOp::LoopStart => {
                assert(code[n + 1] == part[1]);
                assert(code[n + 2] == part[2]);
                assert(code[n + 3] == part[3]);
                assert forall|k: int| n <= k < n + 3 implies !(
                #[trigger] code[k] is PositionAtEnd) by {
                    assert(code[n + (k - n)] == part[k - n]);
                }
                lemma_block_stays(code, n, n + 3);
                lemma_upcoming_hit(code, n, n + 3, block_at(code, n));
            },
            SpecOp::LoopEnd => {
                lemma_upcoming_hit(code, n, n, block_at(code, n));
            },
            op => {
                lemma_plain_are_instructions(op, n as nat);
                assert(is_instruction(part[0]));
                lemma_upcoming_hit(code, n, n, block_at(code, n));
            },
        }
    }
}

/// Where the builder was positioned at the block in which it stands.
proof fn lemma_last_position(code: Seq<Inst>, n: int) -> (p: int)
    requires
        0 <= n <= code.len(),
        block_at(code, n) >= 0,
    ensures
        0 <= p < n,
        code[p] == Inst::PositionAtEnd(block_at(code, n) as usize),
        code[p]->PositionAtEnd_0 == block_at(code, n),
        forall|k: int| p < k < n ==> !(#[trigger] code[k] is PositionAtEnd),
    decreases n,
{
    if code[n - 1] is PositionAtEnd {
        n - 1
    } else {
        lemma_last_position(code, n - 1)
    }
}

/// The builder is positioned at each block once.
proof fn lemma_positioned_once(ops: Seq<SpecOp>, h: int, k: int)
    requires
        has_code(ops),
        0 <= h < program_code(ops).len(),
        0 <= k < program_code(ops).len(),
        program_code(ops)[h] is PositionAtEnd,
        program_code(ops)[k] == program_code(ops)[h],
    ensures
        h == k,
{
    let code = program_code(ops);
    let all = ops.len() as int;
    let block = code[h]->PositionAtEnd_0 as int;
    lemma_frame(ops);
    assert(h < code.len() - 1 && k < code.len() - 1);
    assert(code_upto(ops, all)[h] == code[h]);
    assert(code_upto(ops, all)[k] == code[k]);
    lemma_positions(ops, all, h);
    lemma_positions(ops, all, k);
    if block != 0 {
        let i = choose|i: int| 0 <= i < all && #[trigger] positions(ops, i, block, h);
        let j = choose|j: int| 0 <= j < all && #[trigger] positions(ops, j, block, k);
        lemma_position_once(ops, i, j, block, h, k);
    }
}

/// A block is over when the builder leaves it.
proof fn lemma_block_is_over(ops: Seq<SpecOp>, n: int)
    requires
        has_code(ops),
        0 <= n < program_code(ops).len() - 1,
        is_instruction(program_code(ops)[n]),
        block_at(program_code(ops), n) >= 0,
        program_code(ops)[n + 1] is PositionAtEnd,
    ensures
        following(program_code(ops), n) == program_code(ops).len(),
{
    let code = program_code(ops);
    let block = block_at(code, n);
    let p = lemma_last_position(code, n);
    assert forall|h: int| n + 1 <= h < code.len() implies #[trigger] block_at(code, h) != block
        || !is_instruction(code[h]) by {
        if block_at(code, h) == block && h > n + 1 {
            let q = lemma_last_position(code, h);
            assert(q >= n + 1);
            lemma_positioned_once(ops, p, q);
        }
    }
    lemma_skip(code, n + 1, code.len() as int, block);
}

/// To which instruction of the program a call belongs.
pub proof fn lemma_whose(ops: Seq<SpecOp>, i: int, n: int) -> (res: int)
    requires
        0 <= i <= ops.len(),
        9 <= n < place_of(ops, i),
    ensures
        0 <= res < i,
        place_of(ops, res) <= n < place_of(ops, res + 1),
    decreases i,
{
    if n >= place_of(ops, i - 1) {
        i - 1
    } else {
        lemma_whose(ops, i - 1, n)
    }
}

/// A call before the code of the first instruction is sound.
proof fn lemma_prologue_is_sound(ops: Seq<SpecOp>, n: int)
    requires
        has_code(ops),
        0 <= n < 9,
    ensures
        call_is_sound(program_code(ops), n),
{
    let code = program_code(ops);
    lemma_frame(ops);
    lemma_prologue_places(code);
    assert(code[0] == prologue()[0]);
    assert(code[1] == prologue()[1]);
    assert(code[2] == prologue()[2]);
    assert(code[3] == prologue()[3]);
    assert(code[4] == prologue()[4]);
    assert(code[5] == prologue()[5]);
    assert(code[6] == prologue()[6]);
    assert(code[7] == prologue()[7]);
    assert(code[8] == prologue()[8]);
    assert(block_at(code, 5) == 0);
    assert(block_at(code, 6) == 0);
    assert(block_at(code, 7) == 0);
    assert(block_count(code, 4) == 1) by {
        reveal_with_fuel(block_count, 5);
    }
    assert(n == 0 || n == 1 || n == 2 || n == 3 || n == 4 || n == 5 || n == 6 || n == 7 || n == 8);
    assert forall|k: int| #[trigger] refers(code[n], k) implies 0 <= k < n && makes_value(code[k])
        && block_at(code, k) == 0 by {
        let inst = code[n];
        let j = choose|j: int|
            0 <= j < operands(inst).len() && (#[trigger] operands(inst)[j] matches Operand::Value(
                w,
            ) && w == k);
        assert(operands(inst)[j] matches Operand::Value(w) && w == k);
    }
    lemma_block_goes_on(ops, 0);
}

/// A call for an instruction that is no part of a loop is sound.
proof fn lemma_plain_is_sound(ops: Seq<SpecOp>, i: int, n: int)
    requires
        has_code(ops),
        0 <= i < ops.len(),
        !(ops[i] is LoopStart),
        !(ops[i] is LoopEnd),
        place_of(ops, i) <= n < place_of(ops, i + 1),
        block_at(program_code(ops), place_of(ops, i)) >= 0,
    ensures
        call_is_sound(program_code(ops), n),
{
    let code = program_code(ops);
    let first = place_of(ops, i);
    let part = plain_code(ops[i], first as nat);
    let k = n - first;
    lemma_frame(ops);
    lemma_prologue_places(code);
    assert(code[5] == prologue()[5]);
    assert(code[7] == prologue()[7]);
    lemma_op_code_at(ops, i);
    lemma_plain_are_instructions(ops[i], first as nat);
    lemma_plain_is_local(ops[i], first as nat, k);
    assert(code[first + k] == part[k]);
    assert(is_instruction(part[k]));
    assert forall|h: int| first <= h < first + part.len() implies !(
    #[trigger] code[h] is PositionAtEnd) && is_instruction(code[h]) by {
        assert(code[first + (h - first)] == part[h - first]);
        assert(is_instruction(part[h - first]));
    }
    lemma_block_stays(code, first, n);
    lemma_block_at_frame(code);
    assert forall|v: int| #[trigger] refers(code[n], v) implies 0 <= v < n && makes_value(code[v])
        && (block_at(code, v) == block_at(code, n) || block_at(code, v) == 0) by {
        if first <= v < n {
            lemma_block_stays(code, first, v);
            assert(code[first + (v - first)] == part[v - first]);
        }
    }
    lemma_no_terminator(ops[i], first as nat, k);
    assert(block_at(code, n + 1) == block_at(code, n));
    if k + 1 < part.len() {
        assert(is_instruction(code[n + 1]));
        lemma_upcoming_hit(code, n + 1, n + 1, block_at(code, n));
    } else {
        lemma_block_goes_on(ops, i + 1);
    }
}

/// The tape and the pointer register are made in the entry block.
proof fn lemma_block_at_frame(code: Seq<Inst>)
    requires
        has_frame(code),
    ensures
        block_at(code, 5) == 0,
        block_at(code, 7) == 0,
        makes_value(code[5]),
        makes_value(code[7]),
{
    assert(code[4] == prologue()[4]);
    assert(code[5] == prologue()[5]);
    assert(code[6] == prologue()[6]);
    assert(code[7] == prologue()[7]);
    assert(block_at(code, 5) == 0);
    assert(block_at(code, 6) == 0);
}

/// An instruction that is no part of a loop does not end a block.
proof fn lemma_no_terminator(op: SpecOp, n: nat, k: int)
    requires
        !(op is LoopStart),
        !(op is LoopEnd),
        0 <= k < plain_code(op, n).len(),
    ensures
        !is_terminator(plain_code(op, n)[k]),
{
    let part = plain_code(op, n);
    match op {
        SpecOp::AddScaled(updates) => {
            let count = updates.len();
            lemma_updates_code_len(updates, n, count);
            if 3 <= k < 3 + 6 * count {
                lemma_updates_code_at(updates, n, count, ((k - 3) / 6) as nat, (k - 3) % 6);
            }
        },
        _ => {},
    }
}

/// A call for a loop start is sound.
proof fn lemma_start_is_sound(ops: Seq<SpecOp>, i: int, n: int)
    requires
        has_code(ops),
        0 <= i < ops.len(),
        ops[i] is LoopStart,
        place_of(ops, i) <= n < place_of(ops, i + 1),
        block_at(program_code(ops), place_of(ops, i)) >= 0,
    ensures
        call_is_sound(program_code(ops), n),
        block_at(program_code(ops), place_of(ops, i + 1)) >= 0,
{
    let code = program_code(ops);
    let all = ops.len() as int;
    let first = place_of(ops, i);
    let block = loop_block(ops, i) as int;
    let part = start_code(block as nat, first as nat);
    let k = n - first;
    lemma_frame(ops);
    lemma_block_at_frame(code);
    lemma_op_code_at(ops, i);
    assert(part.len() == 11);
    lemma_closed(ops, i);
    lemma_loop_blocks(ops, i, loop_end(ops, i));
    lemma_start_is_local(block as nat, first as nat, k);
    lemma_block_count(ops, i);
    lemma_block_count(ops, all);
    lemma_count_stays(code, code.len() - 1, code.len() as int);
    lemma_starts_grow(ops, i + 1, all);
    assert forall|h: int| 0 <= h < 11 implies #[trigger] code[first + h] == part[h] by {}
    assert(code[first + 0] == part[0]);
    assert(code[first + 1] == part[1]);
    assert(code[first + 2] == part[2]);
    assert(code[first + 3] == part[3]);
    assert(code[first + 4] == part[4]);
    assert(code[first + 5] == part[5]);
    assert(code[first + 6] == part[6]);
    assert(code[first + 7] == part[7]);
    assert(code[first + 8] == part[8]);
    assert(code[first + 9] == part[9]);
    assert(code[first + 10] == part[10]);
    assert(block_at(code, first + 1) == block_at(code, first));
    assert(block_at(code, first + 2) == block_at(code, first));
    assert(block_at(code, first + 3) == block_at(code, first));
    assert(block_at(code, first + 5) == block);
    assert(block_at(code, first + 6) == block);
    assert(block_at(code, first + 7) == block);
    assert(block_at(code, first + 8) == block);
    assert(block_at(code, first + 9) == block);
    assert(block_count(code, first + 4) == 3 * starts(ops, i) + 4);
    assert(block_count(code, first + 10) == 3 * starts(ops, i) + 4);
    assert(k == 0 || k == 1 || k == 2 || k == 3 || k == 4 || k == 5 || k == 6 || k == 7 || k == 8
        || k == 9 || k == 10);
    assert(code[first + k] == part[k]);
    assert forall|v: int| #[trigger] refers(code[n], v) implies 0 <= v < n && makes_value(code[v])
        && (block_at(code, v) == block_at(code, n) || block_at(code, v) == 0) by {
        if first + 5 <= v < n {
            assert(code[first + (v - first)] == part[v - first]);
            assert(v == first + 5 || v == first + 6 || v == first + 7 || v == first + 8);
        }
    }
    if k == 3 || k == 9 {
        lemma_block_is_over(ops, n);
    } else if is_instruction(code[n]) {
        assert(is_instruction(code[n + 1]));
        lemma_upcoming_hit(code, n + 1, n + 1, block);
    }
}

/// A loop that starts ends.
proof fn lemma_closed(ops: Seq<SpecOp>, i: int)
    requires
        balanced(ops),
        0 <= i < ops.len(),
        ops[i] is LoopStart,
    ensures
        is_pair(ops, i, loop_end(ops, i)),
{
    assert(nesting(ops, i) >= 0);
    lemma_pair_exists(ops, i, ops.len() as int);
}

/// A call for a loop end is sound.
proof fn lemma_end_is_sound(ops: Seq<SpecOp>, i: int, n: int)
    requires
        has_code(ops),
        0 <= i < ops.len(),
        ops[i] is LoopEnd,
        place_of(ops, i) <= n < place_of(ops, i + 1),
        block_at(program_code(ops), place_of(ops, i)) >= 0,
    ensures
        call_is_sound(program_code(ops), n),
        block_at(program_code(ops), place_of(ops, i + 1)) >= 0,
{
    let code = program_code(ops);
    let all = ops.len() as int;
    let first = place_of(ops, i);
    let start = loop_start(ops, i);
    let block = loop_block(ops, start) as int;
    lemma_frame(ops);
    lemma_loop_start(ops, i);
    lemma_loop_blocks(ops, start, i);
    lemma_op_code_at(ops, i);
    let part = op_code(ops, i, first as nat);
    assert(code[first + 0] == part[0]);
    assert(code[first + 1] == part[1]);
    lemma_block_count(ops, i);
    lemma_block_count(ops, all);
    lemma_count_stays(code, code.len() - 1, code.len() as int);
    lemma_starts_grow(ops, start + 1, i);
    lemma_starts_grow(ops, i, all);
    lemma_count_stays(code, first, first + 1);
    assert forall|v: int| #[trigger] refers(code[n], v) implies false by {}
    if n == first {
        lemma_block_is_over(ops, n);
    }
}

/// The builder stands in a block before each instruction of the program.
proof fn lemma_in_a_block(ops: Seq<SpecOp>, i: int)
    requires
        has_code(ops),
        0 <= i <= ops.len(),
    ensures
        block_at(program_code(ops), place_of(ops, i)) >= 0,
    decreases i,
{
    let code = program_code(ops);
    lemma_frame(ops);
    if i == 0 {
        lemma_prologue_places(code);
    } else {
        let first = place_of(ops, i - 1);
        lemma_in_a_block(ops, i - 1);
        lemma_op_code_at(ops, i - 1);
        let part = op_code(ops, i - 1, first as nat);
        match ops[i - 1] {
            SpecOp::LoopStart => {
                lemma_start_is_sound(ops, i - 1, first);
            },
            SpecOp::LoopEnd => {
                lemma_end_is_sound(ops, i - 1, first);
            },
            op => {
                lemma_plain_are_instructions(op, first as nat);
                assert forall|h: int| first <= h < first + part.len() implies !(
                #[trigger] code[h] is PositionAtEnd) by {
                    assert(code[first + (h - first)] == part[h - first]);
                    assert(is_instruction(part[h - first]));
                }
                lemma_block_stays(code, first, first + part.len());
            },
        }
    }
}

/// Which loop a block belongs to.
proof fn lemma_loop_of_block(ops: Seq<SpecOp>, i: int, block: int) -> (res: int)
    requires
        0 <= i <= ops.len(),
        1 <= block < 3 * starts(ops, i) + 1,
    ensures
        0 <= res < i,
        ops[res] is LoopStart,
        loop_block(ops, res) <= block <= loop_block(ops, res) + 2,
    decreases i,
{
    if ops[i - 1] is LoopStart && block >= loop_block(ops, i - 1) {
        i - 1
    } else {
        lemma_loop_of_block(ops, i - 1, block)
    }
}

/// The code of a program makes a module that hangs together: what a call works
/// on has been made, branches lead to blocks that exist, and every block ends,
/// and ends once.
pub proof fn law_code_is_well_formed(ops: Seq<SpecOp>)
    requires
        has_code(ops),
    ensures
        well_formed(program_code(ops)),
{
    let code = program_code(ops);
    let all = ops.len() as int;
    lemma_frame(ops);
    assert forall|n: int| 0 <= n < code.len() implies #[trigger] call_is_sound(code, n) by {
        if n < 9 {
            lemma_prologue_is_sound(ops, n);
        } else if n < code.len() - 1 {
            let i = lemma_whose(ops, all, n);
            lemma_in_a_block(ops, i);
            match ops[i] {
                SpecOp::LoopStart => {
                    lemma_start_is_sound(ops, i, n);
                },
                SpecOp::LoopEnd => {
                    lemma_end_is_sound(ops, i, n);
                },
                _ => {
                    lemma_plain_is_sound(ops, i, n);
                },
            }
        } else {
            lemma_in_a_block(ops, all);
            assert forall|v: int| #[trigger] refers(code[n], v) implies false by {}
        }
    }
    assert forall|block: int| 0 <= block < block_count(code, code.len() as int) implies
        #[trigger] block_start(code, block) < code.len() by {
        lemma_prologue_places(code);
        lemma_block_count(ops, all);
        lemma_count_stays(code, code.len() - 1, code.len() as int);
        if block > 0 {
            let i = lemma_loop_of_block(ops, all, block);
            lemma_closed(ops, i);
            let e = loop_end(ops, i);
            lemma_loop_blocks(ops, i, e);
            lemma_op_code_at(ops, i);
            lemma_block_goes_on(ops, i + 1);
            lemma_block_goes_on(ops, e + 1);
        }
    }
}

} // verus!
