//! What generated code hands to `putchar`.
use vstd::prelude::*;

use crate::llvm::correct::has_code;
use crate::llvm::emit::{op_code, plain_code, program_code, prologue, value, INDEX, TAPE};
use crate::llvm::interp::{advance, after, block_at, entered, is_instruction, operand, size,
    upcoming, wrapped, Place, Progress, State, Val};
use crate::llvm::ir::{Function, Inst, Operand, Ty};
use crate::llvm::layout::{has_frame, has_part, lemma_block_stays, lemma_frame, lemma_op_code_at,
    lemma_plain_are_instructions, place_of};
use crate::llvm::straight::{cell_place, index_place, lemma_prologue_places, lemma_updates_code_at,
    lemma_updates_code_len};
use crate::llvm::well_formed::lemma_whose;
use crate::machine::Event;
use crate::op::SpecOp;

verus! {

/// The value of the cell at which the pointer register points, if both have
/// been stored.
pub open spec fn pointed_at(s: State) -> Option<int> {
    match (s.memory)(index_place()) {
        Some(Val::Int(Ty::I64, i)) => match (s.memory)(cell_place(i)) {
            Some(Val::Int(Ty::I8, c)) => Some(c),
            _ => None,
        },
        _ => None,
    }
}

/// An integer is one of its type.
spec fn in_range(v: Val) -> bool {
    v matches Val::Int(ty, n) ==> 0 <= n < size(ty)
}

/// What has been made and stored are integers of their types, and what was
/// reserved is where it was reserved.
spec fn is_tidy(code: Seq<Inst>, s: State) -> bool {
    &&& forall|k: int| #[trigger] s.values.contains_key(k) ==> in_range(s.values[k])
    &&& forall|k: int| #[trigger]
        s.values.contains_key(k) && code[k] is Alloca ==> s.values[k] == Val::Ptr(
            Place { object: k, offset: 0 },
        )
    &&& forall|p: Place|
        (#[trigger] (s.memory)(p) matches Some(v) ==> in_range(v))
}

proof fn lemma_wrapped(ty: Ty, v: int)
    ensures
        in_range(Val::Int(ty, wrapped(ty, v))),
{
}

proof fn lemma_operand_in_range(code: Seq<Inst>, s: State, o: Operand)
    requires
        is_tidy(code, s),
    ensures
        operand(s, o) matches Some(v) ==> in_range(v),
{
    match o {
        Operand::Const(ty, v) => {
            lemma_wrapped(ty, v as int);
        },
        Operand::Value(n) => {
            assert(s.values.contains_key(n as int) ==> in_range(s.values[n as int]));
        },
    }
}

/// An instruction keeps the state tidy.
proof fn lemma_tidy_step(code: Seq<Inst>, s: State, t: State)
    requires
        is_tidy(code, s),
        advance(code, s) == Progress::Next(t),
    ensures
        is_tidy(code, t),
{
    match code[s.pc] {
        Inst::MemSet { value, .. } => {
            lemma_operand_in_range(code, s, value);
        },
        Inst::Store { value, .. } => {
            lemma_operand_in_range(code, s, value);
        },
        Inst::Load { ptr, .. } => {
            assert(operand(s, ptr) matches Some(Val::Ptr(p)) && (s.memory)(p) is Some);
        },
        Inst::Add { lhs, rhs, .. } => {
            lemma_wrapped(
                operand(s, lhs)->0->Int_0,
                operand(s, lhs)->0->Int_1 + operand(s, rhs)->0->Int_1,
            );
        },
        Inst::Sub { lhs, rhs, .. } => {
            lemma_wrapped(
                operand(s, lhs)->0->Int_0,
                operand(s, lhs)->0->Int_1 - operand(s, rhs)->0->Int_1,
            );
        },
        Inst::Mul { lhs, rhs, .. } => {
            lemma_wrapped(
                operand(s, lhs)->0->Int_0,
                operand(s, lhs)->0->Int_1 * operand(s, rhs)->0->Int_1,
            );
        },
        Inst::ZExt { value, .. } => {
            lemma_operand_in_range(code, s, value);
        },
        Inst::Trunc { value, to, .. } => {
            lemma_wrapped(to, operand(s, value)->0->Int_1);
        },
        _ => {},
    }
}

/// Every state that the code comes to is tidy.
proof fn lemma_tidy(code: Seq<Inst>, s: State, k: nat)
    requires
        is_tidy(code, s),
        after(code, s, k) is Some,
    ensures
        is_tidy(code, after(code, s, k)->0),
    decreases k,
{
    if k > 0 {
        let t = advance(code, s)->Next_0;
        lemma_tidy_step(code, s, t);
        lemma_tidy(code, t, (k - 1) as nat);
    }
}

/// What a search for an instruction of a block finds.
proof fn lemma_upcoming_found(code: Seq<Inst>, a: int, block: int)
    requires
        0 <= a,
    ensures
        upcoming(code, a, block) >= a,
        upcoming(code, a, block) < code.len() ==> is_instruction(
            code[upcoming(code, a, block)],
        ) && block_at(code, upcoming(code, a, block)) == block,
    decreases code.len() - a,
{
    if a < code.len() && !(is_instruction(code[a]) && block_at(code, a) == block) {
        lemma_upcoming_found(code, a + 1, block);
    }
}

/// Behind an instruction of the same block, a search finds an instruction only
/// if it starts there.
proof fn lemma_upcoming_is_next(code: Seq<Inst>, a: int, q: int, block: int)
    requires
        0 <= a,
        1 <= q < code.len(),
        upcoming(code, a, block) == q,
        is_instruction(code[q - 1]),
        is_instruction(code[q]),
        block_at(code, q - 1) == block_at(code, q),
    ensures
        a == q,
    decreases code.len() - a,
{
    lemma_upcoming_found(code, a, block);
    if a < code.len() && !(is_instruction(code[a]) && block_at(code, a) == block) {
        lemma_upcoming_is_next(code, a + 1, q, block);
    }
}

/// In the middle of a block, the code comes from the instruction before.
proof fn lemma_comes_from(code: Seq<Inst>, s: State, t: State)
    requires
        advance(code, s) == Progress::Next(t),
        1 <= t.pc < code.len(),
        is_instruction(code[t.pc - 1]),
        is_instruction(code[t.pc]),
        block_at(code, t.pc - 1) == block_at(code, t.pc),
    ensures
        s.pc == t.pc - 1,
{
    match code[s.pc] {
        Inst::Br(block) => {
            lemma_upcoming_is_next(code, 0, t.pc, block as int);
        },
        Inst::CondBr { condition, if_true, if_false } => {
            if operand(s, condition)->0->Int_1 != 0 {
                lemma_upcoming_is_next(code, 0, t.pc, if_true as int);
            } else {
                lemma_upcoming_is_next(code, 0, t.pc, if_false as int);
            }
        },
        _ => {
            lemma_upcoming_is_next(code, s.pc + 1, t.pc, block_at(code, s.pc));
        },
    }
}

/// The last of several instructions.
proof fn lemma_last_step(code: Seq<Inst>, s: State, k: nat) -> (res: State)
    requires
        k > 0,
        after(code, s, k) is Some,
    ensures
        after(code, s, (k - 1) as nat) == Some(res),
        advance(code, res) == Progress::Next(after(code, s, k)->0),
    decreases k,
{
    if k == 1 {
        assert(after(code, advance(code, s)->Next_0, 0) == after(code, s, 1));
        s
    } else {
        let t = advance(code, s)->Next_0;
        lemma_last_step(code, t, (k - 1) as nat)
    }
}

/// A state that the code comes to in the middle of a block, and the one before.
proof fn lemma_one_back(code: Seq<Inst>, stdin: spec_fn(nat) -> i32, k: nat) -> (res: State)
    requires
        has_frame(code),
        after(code, entered(code, stdin), k) is Some,
        ({
            let t = after(code, entered(code, stdin), k)->0;
            &&& 9 < t.pc < code.len()
            &&& is_instruction(code[t.pc - 1])
            &&& is_instruction(code[t.pc])
            &&& block_at(code, t.pc - 1) == block_at(code, t.pc)
        }),
    ensures
        k > 0,
        after(code, entered(code, stdin), (k - 1) as nat) == Some(res),
        advance(code, res) == Progress::Next(after(code, entered(code, stdin), k)->0),
        res.pc == after(code, entered(code, stdin), k)->0.pc - 1,
{
    lemma_prologue_places(code);
    let res = lemma_last_step(code, entered(code, stdin), k);
    lemma_comes_from(code, res, after(code, entered(code, stdin), k)->0);
    res
}

/// Calls of `putchar` stand in the code of outputs, and only there.
proof fn lemma_putchar_is_output(op: SpecOp, n: nat, k: int)
    requires
        !(op is LoopStart),
        !(op is LoopEnd),
        0 <= k < plain_code(op, n).len(),
        plain_code(op, n)[k] matches Inst::Call { callee: Function::Putchar, .. },
    ensures
        op is Output,
        k == 4,
{
    match op {
        SpecOp::AddScaled(updates) => {
            let count = updates.len();
            lemma_updates_code_len(updates, n, count);
            if 3 <= k < 3 + 6 * count {
                lemma_updates_code_at(updates, n, count, ((k - 3) / 6) as nat, (k - 3) % 6);
            }
        },
        _ => {},
    }
}

/// The output to which a call of `putchar` belongs starts four calls before it,
/// in the same block.
proof fn lemma_putchar_place(ops: Seq<SpecOp>, p: int) -> (n: int)
    requires
        has_code(ops),
        0 <= p < program_code(ops).len(),
        program_code(ops)[p] matches Inst::Call { callee: Function::Putchar, .. },
    ensures
        9 <= n == p - 4,
        has_part(program_code(ops), n, plain_code(SpecOp::Output, n as nat)),
        forall|h: int| n <= h <= p ==> is_instruction(#[trigger] program_code(ops)[h]),
        forall|h: int|
            n <= h <= p ==> #[trigger] block_at(program_code(ops), h) == block_at(
                program_code(ops),
                n,
            ),
{
    let code = program_code(ops);
    lemma_frame(ops);
    if p < 9 {
        assert(code[p] == prologue()[p]);
        assert(p == 0 || p == 1 || p == 2 || p == 3 || p == 4 || p == 5 || p == 6 || p == 7 || p
            == 8);
    }
    let i = lemma_whose(ops, ops.len() as int, p);
    let n = place_of(ops, i);
    lemma_op_code_at(ops, i);
    let part = op_code(ops, i, n as nat);
    let k = p - n;
    assert(code[n + k] == part[k]);
    match ops[i] {
        SpecOp::LoopStart => {
            assert(k == 0 || k == 1 || k == 2 || k == 3 || k == 4 || k == 5 || k == 6 || k == 7
                || k == 8 || k == 9 || k == 10);
        },
        SpecOp::LoopEnd => {},
        op => {
            lemma_putchar_is_output(op, n as nat, k);
        },
    }
    lemma_plain_are_instructions(SpecOp::Output, n as nat);
    assert forall|h: int| n <= h <= p implies is_instruction(#[trigger] code[h]) by {
        assert(code[n + (h - n)] == part[h - n]);
        assert(is_instruction(part[h - n]));
    }
    assert forall|h: int| n <= h <= p implies #[trigger] block_at(code, h) == block_at(code, n) by {
        assert forall|g: int| n <= g < h implies !(#[trigger] code[g] is PositionAtEnd) by {
            assert(is_instruction(code[g]));
        }
        lemma_block_stays(code, n, h);
    }
    n
}

/// From the start of an output to its call: what the cell holds becomes the
/// argument.
proof fn lemma_output_argument(
    code: Seq<Inst>,
    n: int,
    s0: State,
    s1: State,
    s2: State,
    s3: State,
    s4: State,
)
    requires
        has_frame(code),
        9 <= n,
        has_part(code, n, plain_code(SpecOp::Output, n as nat)),
        is_tidy(code, s0),
        s0.pc == n,
        s1.pc == n + 1,
        s2.pc == n + 2,
        s3.pc == n + 3,
        s4.pc == n + 4,
        advance(code, s0) == Progress::Next(s1),
        advance(code, s1) == Progress::Next(s2),
        advance(code, s2) == Progress::Next(s3),
        advance(code, s3) == Progress::Next(s4),
    ensures
        ({
            let c = pointed_at(s4);
            &&& c is Some
            &&& 0 <= c->0 < 256
            &&& operand(s4, value((n + 3) as nat)) == Some(Val::Int(Ty::I32, c->0))
        }),
{
    let part = plain_code(SpecOp::Output, n as nat);
    assert(code[n + 0] == part[0]);
    assert(code[n + 1] == part[1]);
    assert(code[n + 2] == part[2]);
    assert(code[n + 3] == part[3]);
    assert(code[5] == prologue()[5]);
    assert(code[7] == prologue()[7]);
    // The index.
    assert(s0.values.contains_key(INDEX as int));
    assert(s0.values[INDEX as int] == Val::Ptr(index_place()));
    let i = (s0.memory)(index_place())->0->Int_1;
    assert((s0.memory)(index_place()) == Some(Val::Int(Ty::I64, i)));
    assert(s1.values == s0.values.insert(n, Val::Int(Ty::I64, i)) && s1.memory == s0.memory);
    // The address.
    assert(operand(s1, value(n as nat)) == Some(Val::Int(Ty::I64, i)));
    assert(s1.values.contains_key(TAPE as int));
    assert(s0.values.contains_key(TAPE as int));
    assert(s1.values[TAPE as int] == Val::Ptr(cell_place(0)));
    assert(s2.values == s1.values.insert(n + 1, Val::Ptr(cell_place(i))) && s2.memory
        == s0.memory);
    // The cell.
    assert(operand(s2, value((n + 1) as nat)) == Some(Val::Ptr(cell_place(i))));
    let c = (s0.memory)(cell_place(i))->0->Int_1;
    assert((s0.memory)(cell_place(i)) == Some(Val::Int(Ty::I8, c)));
    assert(in_range(Val::Int(Ty::I8, c)));
    assert(s3.values == s2.values.insert(n + 2, Val::Int(Ty::I8, c)) && s3.memory == s0.memory);
    // The argument.
    assert(operand(s3, value((n + 2) as nat)) == Some(Val::Int(Ty::I8, c)));
    assert(s4.values == s3.values.insert(n + 3, Val::Int(Ty::I32, c)) && s4.memory == s0.memory);
}

/// The call of an output, when the code has come to it.
proof fn lemma_reached_output(code: Seq<Inst>, stdin: spec_fn(nat) -> i32, k: nat, n: int)
    requires
        has_frame(code),
        9 <= n,
        has_part(code, n, plain_code(SpecOp::Output, n as nat)),
        forall|h: int| n <= h <= n + 4 ==> is_instruction(#[trigger] code[h]),
        forall|h: int| n <= h <= n + 4 ==> #[trigger] block_at(code, h) == block_at(code, n),
        after(code, entered(code, stdin), k) is Some,
        after(code, entered(code, stdin), k)->0.pc == n + 4,
    ensures
        ({
            let s = after(code, entered(code, stdin), k)->0;
            let c = pointed_at(s);
            &&& c is Some
            &&& 0 <= c->0 < 256
            &&& operand(s, value((n + 3) as nat)) == Some(Val::Int(Ty::I32, c->0))
        }),
{
    let start = entered(code, stdin);
    assert(n + 4 < code.len());
    assert(block_at(code, n + 1) == block_at(code, n));
    assert(block_at(code, n + 2) == block_at(code, n));
    assert(block_at(code, n + 3) == block_at(code, n));
    assert(block_at(code, n + 4) == block_at(code, n));
    let s4 = after(code, start, k)->0;
    let s3 = lemma_one_back(code, stdin, k);
    let s2 = lemma_one_back(code, stdin, (k - 1) as nat);
    let s1 = lemma_one_back(code, stdin, (k - 2) as nat);
    let s0 = lemma_one_back(code, stdin, (k - 3) as nat);
    assert(is_tidy(code, start));
    lemma_tidy(code, start, (k - 4) as nat);
    lemma_output_argument(code, n, s0, s1, s2, s3, s4);
}

/// What a call of `putchar` with a byte writes.
proof fn lemma_putchar_writes(code: Seq<Inst>, s: State, arg: Operand, name: &'static str, c: int)
    requires
        0 <= s.pc < code.len(),
        code[s.pc] == (Inst::Call { callee: Function::Putchar, arg: Some(arg), name }),
        operand(s, arg) == Some(Val::Int(Ty::I32, c)),
        0 <= c < 256,
    ensures
        advance(code, s) matches Progress::Next(t) && t.events == s.events.push(
            Event::Write(c as u8),
        ) && t.output == s.output.push(c as u8),
{
}

/// Whenever generated code comes to a call of `putchar`, the argument is the
/// value of the current cell, from 0 to 255, widened with zeros; and that value
/// is what the call writes. This holds of every program, also of one that leaves
/// the tape later on.
pub proof fn law_putchar_gets_current_cell(
    ops: Seq<SpecOp>,
    stdin: spec_fn(nat) -> i32,
    k: nat,
    s: State,
    arg: Option<Operand>,
    name: &'static str,
)
    requires
        has_code(ops),
        after(program_code(ops), entered(program_code(ops), stdin), k) == Some(s),
        0 <= s.pc < program_code(ops).len(),
        program_code(ops)[s.pc] == (Inst::Call { callee: Function::Putchar, arg, name }),
    ensures
        ({
            let c = pointed_at(s);
            &&& c is Some
            &&& 0 <= c->0 < 256
            &&& arg is Some
            &&& operand(s, arg->0) == Some(Val::Int(Ty::I32, c->0))
            &&& advance(program_code(ops), s) matches Progress::Next(t) && t.events
                == s.events.push(Event::Write(c->0 as u8)) && t.output == s.output.push(
                c->0 as u8,
            )
        }),
{
    let code = program_code(ops);
    lemma_frame(ops);
    let n = lemma_putchar_place(ops, s.pc);
    lemma_reached_output(code, stdin, k, n);
    let part = plain_code(SpecOp::Output, n as nat);
    assert(code[n + 4] == part[4]);
    assert(arg == Some(value((n + 3) as nat)));
    lemma_putchar_writes(code, s, arg->0, name, pointed_at(s)->0);
}

} // verus!
