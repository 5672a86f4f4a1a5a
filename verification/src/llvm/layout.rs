//! Where the parts of a program's code stand.
use vstd::prelude::*;

use crate::brackets::{balanced, is_pair, lemma_pair_start_exists, lemma_pair_unique, nesting};
use crate::llvm::emit::{code_upto, loop_block, loop_start, op_code, plain_code, program_code,
    prologue, starts, updates_code};
use crate::llvm::interp::{block_at, block_start, is_instruction, upcoming};
use crate::llvm::ir::Inst;
use crate::op::{CellUpdate, SpecOp};

verus! {

/// The code begins with the prologue.
pub open spec fn has_frame(code: Seq<Inst>) -> bool {
    &&& 9 < code.len() <= usize::MAX
    &&& forall|k: int| 0 <= k < 9 ==> #[trigger] code[k] == prologue()[k]
}

/// The calls from `n` on are `part`.
pub open spec fn has_part(code: Seq<Inst>, n: int, part: Seq<Inst>) -> bool {
    &&& 0 <= n
    &&& n + part.len() <= code.len()
    &&& forall|k: int| 0 <= k < part.len() ==> #[trigger] code[n + k] == part[k]
}

/// The place of the first call for instruction `i`.
pub open spec fn place_of(ops: Seq<SpecOp>, i: int) -> int {
    code_upto(ops, i).len() as int
}

/// The code of the first instructions stays when more follow.
pub proof fn lemma_code_prefix(ops: Seq<SpecOp>, i: int, j: int)
    requires
        0 <= i <= j,
    ensures
        9 <= place_of(ops, i) <= place_of(ops, j),
        forall|k: int|
            0 <= k < place_of(ops, i) ==> #[trigger] code_upto(ops, j)[k] == code_upto(ops, i)[k],
    decreases j,
{
    if i < j {
        lemma_code_prefix(ops, i, j - 1);
    } else if i > 0 {
        lemma_code_prefix(ops, i - 1, i - 1);
    }
}

/// The code of instruction `i` stands from its place on to that of the next.
pub proof fn lemma_op_code_at(ops: Seq<SpecOp>, i: int)
    requires
        0 <= i < ops.len(),
    ensures
        9 <= place_of(ops, i),
        place_of(ops, i + 1) == place_of(ops, i) + op_code(ops, i, place_of(ops, i) as nat).len(),
        place_of(ops, i + 1) < program_code(ops).len(),
        has_part(
            program_code(ops),
            place_of(ops, i),
            op_code(ops, i, place_of(ops, i) as nat),
        ),
{
    let n = place_of(ops, i);
    let part = op_code(ops, i, n as nat);
    lemma_code_prefix(ops, i, i);
    lemma_code_prefix(ops, i + 1, ops.len() as int);
    assert forall|k: int| 0 <= k < part.len() implies #[trigger] program_code(ops)[n + k]
        == part[k] by {
        assert(code_upto(ops, i + 1)[n + k] == part[k]);
        assert(code_upto(ops, ops.len() as int)[n + k] == code_upto(ops, i + 1)[n + k]);
    }
}

/// The code of a program begins with the prologue and ends with the return.
pub proof fn lemma_frame(ops: Seq<SpecOp>)
    requires
        program_code(ops).len() <= usize::MAX,
    ensures
        has_frame(program_code(ops)),
        place_of(ops, 0) == 9,
        place_of(ops, ops.len() as int) == program_code(ops).len() - 1,
{
    lemma_code_prefix(ops, 0, ops.len() as int);
    assert forall|k: int| 0 <= k < 9 implies #[trigger] program_code(ops)[k] == prologue()[k] by {
        assert(code_upto(ops, ops.len() as int)[k] == code_upto(ops, 0)[k]);
    }
}

proof fn lemma_updates_are_instructions(updates: Seq<CellUpdate>, base: nat, k: nat, i: int)
    requires
        0 <= i < updates_code(updates, base, k).len(),
    ensures
        is_instruction(updates_code(updates, base, k)[i]),
    decreases k,
{
    let before = updates_code(updates, base, (k - 1) as nat);
    if i < before.len() {
        lemma_updates_are_instructions(updates, base, (k - 1) as nat, i);
    }
}

/// An instruction that is no part of a loop puts nothing but instructions into
/// the block, and at least one.
pub proof fn lemma_plain_are_instructions(op: SpecOp, n: nat)
    requires
        !(op is LoopStart),
        !(op is LoopEnd),
    ensures
        plain_code(op, n).len() > 0,
        forall|i: int|
            0 <= i < plain_code(op, n).len() ==> is_instruction(#[trigger] plain_code(op, n)[i]),
{
    let part = plain_code(op, n);
    assert forall|i: int| 0 <= i < part.len() implies is_instruction(#[trigger] part[i]) by {
        match op {
            SpecOp::AddScaled(updates) => {
                let inner = updates_code(updates, n, updates.len());
                if 3 <= i < 3 + inner.len() {
                    lemma_updates_are_instructions(updates, n, updates.len(), i - 3);
                }
            },
            _ => {},
        }
    }
}

/// The builder stays in a block until it is positioned anew.
pub proof fn lemma_block_stays(code: Seq<Inst>, a: int, b: int)
    requires
        0 <= a <= b <= code.len(),
        forall|k: int| a <= k < b ==> !(#[trigger] code[k] is PositionAtEnd),
    ensures
        block_at(code, b) == block_at(code, a),
    decreases b - a,
{
    if a < b {
        lemma_block_stays(code, a, b - 1);
        assert(!(code[b - 1] is PositionAtEnd));
    }
}

/// There are fewer blocks than calls.
pub proof fn lemma_block_bound(ops: Seq<SpecOp>, i: int)
    requires
        0 <= i,
    ensures
        3 * starts(ops, i) + 1 <= place_of(ops, i),
    decreases i,
{
    if i > 0 {
        lemma_block_bound(ops, i - 1);
    }
}

/// `starts` grows.
pub proof fn lemma_starts_grow(ops: Seq<SpecOp>, i: int, j: int)
    requires
        0 <= i <= j,
    ensures
        starts(ops, i) <= starts(ops, j),
    decreases j,
{
    if i < j {
        lemma_starts_grow(ops, i, j - 1);
    }
}

/// Two loops have different blocks.
proof fn lemma_loop_block_unique(ops: Seq<SpecOp>, i: int, j: int)
    requires
        0 <= i < ops.len(),
        0 <= j < ops.len(),
        ops[i] is LoopStart,
        ops[j] is LoopStart,
        loop_block(ops, i) == loop_block(ops, j),
    ensures
        i == j,
{
    if i < j {
        lemma_starts_grow(ops, i + 1, j);
    } else if j < i {
        lemma_starts_grow(ops, j + 1, i);
    }
}

/// Call `k`, for instruction `j`, positions the builder at `block`.
pub open spec fn positions(ops: Seq<SpecOp>, j: int, block: int, k: int) -> bool {
    match ops[j] {
        SpecOp::LoopStart => (block == loop_block(ops, j) && k == place_of(ops, j) + 4) || (block
            == loop_block(ops, j) + 1 && k == place_of(ops, j) + 10),
        SpecOp::LoopEnd => block == loop_block(ops, loop_start(ops, j)) + 2 && k == place_of(ops, j)
            + 1,
        _ => false,
    }
}

/// The start of a loop end in a balanced program.
pub proof fn lemma_loop_start(ops: Seq<SpecOp>, i: int)
    requires
        balanced(ops),
        0 <= i < ops.len(),
        ops[i] is LoopEnd,
    ensures
        is_pair(ops, loop_start(ops, i), i),
{
    assert(nesting(ops, i + 1) >= 0);
    assert(nesting(ops, i + 1) == nesting(ops, i) - 1);
    assert(nesting(ops, 0) == 0);
    lemma_pair_start_exists(ops, 0, i);
}

/// Which call of a program's code positions the builder at a block.
pub proof fn lemma_positions(ops: Seq<SpecOp>, i: int, k: int)
    requires
        balanced(ops),
        program_code(ops).len() <= usize::MAX,
        0 <= i <= ops.len(),
        0 <= k < place_of(ops, i),
        code_upto(ops, i)[k] is PositionAtEnd,
    ensures
        (code_upto(ops, i)[k] == Inst::PositionAtEnd(0) && k == 4) || exists|j: int|
            0 <= j < i && #[trigger] positions(
                ops,
                j,
                code_upto(ops, i)[k]->PositionAtEnd_0 as int,
                k,
            ),
    decreases i,
{
    if i > 0 {
        let n = place_of(ops, i - 1);
        let block = code_upto(ops, i)[k]->PositionAtEnd_0 as int;
        if k < n {
            lemma_positions(ops, i - 1, k);
            if k != 4 || block != 0 {
                let j = choose|j: int| 0 <= j < i - 1 && #[trigger] positions(ops, j, block, k);
                assert(positions(ops, j, block, k));
            }
        } else {
            lemma_op_code_at(ops, i - 1);
            lemma_code_prefix(ops, i, ops.len() as int);
            let part = op_code(ops, i - 1, n as nat);
            assert(code_upto(ops, i)[k] == part[k - n]);
            match ops[i - 1] {
                SpecOp::LoopStart => {
                    lemma_block_bound(ops, i);
                    assert(positions(ops, i - 1, block, k));
                },
                SpecOp::LoopEnd => {
                    lemma_loop_start(ops, i - 1);
                    let start = loop_start(ops, i - 1);
                    lemma_block_bound(ops, start + 1);
                    lemma_code_prefix(ops, start + 1, ops.len() as int);
                    assert(positions(ops, i - 1, block, k));
                },
                op => {
                    lemma_plain_are_instructions(op, n as nat);
                    assert(is_instruction(part[k - n]));
                },
            }
        }
    }
}

/// A block's instructions begin behind the call that positions the builder
/// there.
pub proof fn lemma_block_start(ops: Seq<SpecOp>, j: int, block: int, k: int)
    requires
        balanced(ops),
        program_code(ops).len() <= usize::MAX,
        0 <= j < ops.len(),
        positions(ops, j, block, k),
        0 <= k < program_code(ops).len(),
    ensures
        block_start(program_code(ops), block) == upcoming(program_code(ops), k + 1, block),
{
    let code = program_code(ops);
    let all = ops.len() as int;
    assert(block >= 1);
    assert forall|h: int| 0 <= h < k implies !positioned_at(#[trigger] code[h], block) by {
        if positioned_at(code[h], block) {
            lemma_positions(ops, all, h);
            let i = choose|i: int| 0 <= i < all && #[trigger] positions(ops, i, block, h);
            lemma_position_once(ops, i, j, block, h, k);
        }
    }
    lemma_not_yet(code, k, block);
    lemma_skip(code, 0, k + 1, block);
}

pub proof fn lemma_position_once(ops: Seq<SpecOp>, i: int, j: int, block: int, h: int, k: int)
    requires
        balanced(ops),
        0 <= i < ops.len(),
        0 <= j < ops.len(),
        positions(ops, i, block, h),
        positions(ops, j, block, k),
    ensures
        h == k,
{
    let a = if ops[i] is LoopEnd {
        lemma_loop_start(ops, i);
        loop_start(ops, i)
    } else {
        i
    };
    let b = if ops[j] is LoopEnd {
        lemma_loop_start(ops, j);
        loop_start(ops, j)
    } else {
        j
    };
    assert(loop_block(ops, a) == loop_block(ops, b));
    lemma_loop_block_unique(ops, a, b);
    if ops[i] is LoopEnd && ops[j] is LoopEnd {
        lemma_pair_unique(ops, a, i, j);
    }
}

/// The call positions the builder at the end of `block`.
spec fn positioned_at(inst: Inst, block: int) -> bool {
    inst matches Inst::PositionAtEnd(b) && b == block
}

/// A block to which no call has positioned the builder is not where it stands.
proof fn lemma_not_yet(code: Seq<Inst>, k: int, block: int)
    requires
        0 <= k <= code.len(),
        block >= 0,
        forall|h: int| 0 <= h < k ==> !positioned_at(#[trigger] code[h], block),
    ensures
        forall|h: int| 0 <= h <= k ==> #[trigger] block_at(code, h) != block,
    decreases k,
{
    if k > 0 {
        lemma_not_yet(code, k - 1, block);
        assert(!positioned_at(code[k - 1], block));
        assert(block_at(code, k - 1) != block);
    }
    assert(block_at(code, k) != block);
    assert forall|h: int| 0 <= h <= k implies #[trigger] block_at(code, h) != block by {
        if h < k {
            assert(0 <= h <= k - 1);
        }
    }
}

/// Calls for other blocks do not matter.
pub proof fn lemma_skip(code: Seq<Inst>, a: int, b: int, block: int)
    requires
        0 <= a <= b <= code.len(),
        forall|h: int|
            a <= h < b ==> #[trigger] block_at(code, h) != block || !is_instruction(code[h]),
    ensures
        upcoming(code, a, block) == upcoming(code, b, block),
    decreases b - a,
{
    if a < b {
        assert(block_at(code, a) != block || !is_instruction(code[a]));
        lemma_skip(code, a + 1, b, block);
    }
}

} // verus!
