//! The code of a program does what the program does.
use vstd::prelude::*;

use crate::brackets::{balanced, balanced_span, is_pair, lemma_balanced_subrange, lemma_loop_end,
    lemma_pair_start_unique, lemma_pair_subrange, lemma_span_loop, lemma_span_plain, loop_end};
use crate::llvm::emit::{loop_block, loop_start, op_code, plain_code, program_code, start_code};
use crate::llvm::interp::{advance, after, block_at, block_start, entered, is_instruction,
    lemma_after_twice, upcoming, Progress, State};
use crate::llvm::ir::{Inst, Ty, TAPE_LEN};
use crate::llvm::layout::{has_part, lemma_block_bound, lemma_block_start, lemma_block_stays,
    lemma_frame, lemma_loop_start, lemma_op_code_at, lemma_plain_are_instructions, place_of,
    positions};
use crate::llvm::straight::{lemma_loop_test, lemma_plain, lemma_prologue, mirrors};
use crate::machine::{all_cells, cell, fresh, law_longer_tape, run, run_loop, step, Machine,
    Outcome};
use crate::meaning::law_parsing_keeps_meaning;
use crate::op::SpecOp;
use crate::rewrite::{commands, parsed};

verus! {

/// The state of the code is before instruction `i` of the program.
pub open spec fn stands_before(ops: Seq<SpecOp>, s: State, i: int) -> bool {
    s.pc == upcoming(
        program_code(ops),
        place_of(ops, i),
        block_at(program_code(ops), place_of(ops, i)),
    )
}

/// The program has code: its loops match, and its calls can be numbered.
pub open spec fn has_code(ops: Seq<SpecOp>) -> bool {
    balanced(ops) && program_code(ops).len() <= usize::MAX
}

/// An instruction that is no part of a loop.
proof fn lemma_step(ops: Seq<SpecOp>, i: int, s: State, m: Machine<u64>) -> (res: (nat, State))
    requires
        has_code(ops),
        0 <= i < ops.len(),
        !(ops[i] is LoopStart),
        !(ops[i] is LoopEnd),
        stands_before(ops, s, i),
        mirrors(s, m),
        step(m, ops[i], TAPE_LEN as nat) is Some,
    ensures
        after(program_code(ops), s, res.0) == Some(res.1),
        stands_before(ops, res.1, i + 1),
        mirrors(res.1, step(m, ops[i], TAPE_LEN as nat)->0),
{
    let code = program_code(ops);
    let n = place_of(ops, i);
    let part = plain_code(ops[i], n as nat);
    lemma_frame(ops);
    lemma_op_code_at(ops, i);
    lemma_plain_are_instructions(ops[i], n as nat);
    assert(code[n + 0] == part[0]);
    let last = part.len() - 1;
    assert(code[n + last] == part[last]);
    assert forall|k: int| n <= k < n + last implies !(#[trigger] code[k] is PositionAtEnd) by {
        assert(code[n + (k - n)] == part[k - n]);
        assert(is_instruction(part[k - n]));
    }
    lemma_block_stays(code, n, n + last);
    assert(is_instruction(part[last]));
    assert(block_at(code, n + last + 1) == block_at(code, n + last));
    lemma_plain(code, s, m, ops[i], n)
}

/// The blocks of a loop.
pub proof fn lemma_loop_blocks(ops: Seq<SpecOp>, a: int, e: int)
    requires
        has_code(ops),
        is_pair(ops, a, e),
    ensures
        loop_start(ops, e) == a,
        loop_block(ops, a) + 2 <= usize::MAX,
        has_part(
            program_code(ops),
            place_of(ops, a),
            start_code(loop_block(ops, a), place_of(ops, a) as nat),
        ),
        place_of(ops, a + 1) == place_of(ops, a) + 11,
        place_of(ops, e + 1) == place_of(ops, e) + 2,
        place_of(ops, e + 1) < program_code(ops).len(),
        program_code(ops)[place_of(ops, e)] == Inst::Br(loop_block(ops, a) as usize),
        block_start(program_code(ops), loop_block(ops, a) as int) == place_of(ops, a) + 5,
        block_start(program_code(ops), loop_block(ops, a) as int + 1) == upcoming(
            program_code(ops),
            place_of(ops, a + 1),
            loop_block(ops, a) as int + 1,
        ),
        block_at(program_code(ops), place_of(ops, a + 1)) == loop_block(ops, a) as int + 1,
        block_start(program_code(ops), loop_block(ops, a) as int + 2) == upcoming(
            program_code(ops),
            place_of(ops, e + 1),
            loop_block(ops, a) as int + 2,
        ),
        block_at(program_code(ops), place_of(ops, e + 1)) == loop_block(ops, a) as int + 2,
{
    let code = program_code(ops);
    let block = loop_block(ops, a) as int;
    let n = place_of(ops, a);
    let h = place_of(ops, e);
    lemma_loop_start(ops, e);
    lemma_pair_start_unique(ops, a, loop_start(ops, e), e);
    lemma_op_code_at(ops, a);
    lemma_op_code_at(ops, e);
    lemma_block_bound(ops, a + 1);
    let start = start_code(block as nat, n as nat);
    assert(op_code(ops, a, n as nat) == start);
    assert(start.len() == 11);
    assert(code[n + 4] == start[4]);
    assert(code[n + 5] == start[5]);
    assert(code[n + 10] == start[10]);
    let end = op_code(ops, e, h as nat);
    assert(code[h + 0] == end[0]);
    assert(code[h + 1] == end[1]);
    assert(positions(ops, a, block, n + 4));
    lemma_block_start(ops, a, block, n + 4);
    assert(positions(ops, a, block + 1, n + 10));
    lemma_block_start(ops, a, block + 1, n + 10);
    assert(positions(ops, e, block + 2, h + 1));
    lemma_block_start(ops, e, block + 2, h + 1);
    assert(block_at(code, n + 5) == block);
}

/// The part of a program from `a` to `b`.
proof fn lemma_span(
    ops: Seq<SpecOp>,
    a: int,
    b: int,
    s: State,
    m: Machine<u64>,
    rounds: nat,
) -> (res: (
    nat,
    State,
))
    requires
        has_code(ops),
        balanced_span(ops, a, b),
        stands_before(ops, s, a),
        mirrors(s, m),
        !(run(ops.subrange(a, b), m, rounds, TAPE_LEN as nat) is Fault),
    ensures
        after(program_code(ops), s, res.0) == Some(res.1),
        match run(ops.subrange(a, b), m, rounds, TAPE_LEN as nat) {
            Outcome::Done(end) => stands_before(ops, res.1, b) && mirrors(res.1, end),
            Outcome::Spent(end) => res.0 >= rounds && mirrors(res.1, end),
            Outcome::Fault => false,
        },
    decreases b - a, 0nat,
{
    let code = program_code(ops);
    let part = ops.subrange(a, b);
    let cells = TAPE_LEN as nat;
    if a == b {
        (0, s)
    } else {
        assert(part[0] == ops[a]);
        lemma_span_plain(ops, a, b);
        if ops[a] is LoopStart {
            lemma_span_loop(ops, a, b);
            let e = loop_end(ops, a);
            lemma_pair_subrange(ops, a, b, 0, e - a);
            lemma_loop_end(part, 0, e - a);
            let body = ops.subrange(a + 1, e);
            assert(part.subrange(1, e - a) =~= body);
            assert(part.subrange(e - a + 1, part.len() as int) =~= ops.subrange(e + 1, b));
            let t = lemma_enter_loop(ops, a, e, s, m);
            let (k, u) = lemma_loop(ops, a, e, t, m, rounds, rounds);
            lemma_after_twice(code, s, 1, k);
            match run_loop(body, m, rounds, rounds, cells) {
                Outcome::Done(next) => {
                    let (h, v) = lemma_span(ops, e + 1, b, u, next, rounds);
                    lemma_after_twice(code, s, 1 + k, h);
                    (1 + k + h, v)
                },
                _ => (1 + k, u),
            }
        } else {
            assert(part.subrange(1, part.len() as int) =~= ops.subrange(a + 1, b));
            let (k, t) = lemma_step(ops, a, s, m);
            let next = step(m, ops[a], cells)->0;
            let (h, u) = lemma_span(ops, a + 1, b, t, next, rounds);
            lemma_after_twice(code, s, k, h);
            (k + h, u)
        }
    }
}

/// From before a loop to its first test.
proof fn lemma_enter_loop(
    ops: Seq<SpecOp>,
    a: int,
    e: int,
    s: State,
    m: Machine<u64>,
) -> (res: State)
    requires
        has_code(ops),
        is_pair(ops, a, e),
        stands_before(ops, s, a),
        mirrors(s, m),
    ensures
        after(program_code(ops), s, 1) == Some(res),
        res.pc == place_of(ops, a) + 5,
        mirrors(res, m),
{
    let code = program_code(ops);
    let n = place_of(ops, a);
    let block = loop_block(ops, a);
    lemma_loop_blocks(ops, a, e);
    lemma_op_code_at(ops, a);
    let start = start_code(block, n as nat);
    assert(code[n + 0] == start[0]);
    assert(code[n + 1] == start[1]);
    assert(code[n + 2] == start[2]);
    assert(code[n + 3] == start[3]);
    assert(block_at(code, n + 1) == block_at(code, n));
    assert(block_at(code, n + 2) == block_at(code, n));
    assert(block_at(code, n + 3) == block_at(code, n));
    assert(upcoming(code, n, block_at(code, n)) == n + 3) by {
        reveal_with_fuel(upcoming, 4);
    }
    let t = State { pc: n + 5, ..s };
    assert(advance(code, s) == Progress::Next(t));
    assert(after(code, t, 0) == Some(t));
    t
}

/// A loop, from its test on.
proof fn lemma_loop(
    ops: Seq<SpecOp>,
    a: int,
    e: int,
    s: State,
    m: Machine<u64>,
    left: nat,
    rounds: nat,
) -> (res: (nat, State))
    requires
        has_code(ops),
        is_pair(ops, a, e),
        balanced_span(ops, a + 1, e),
        left <= rounds,
        s.pc == place_of(ops, a) + 5,
        mirrors(s, m),
        !(run_loop(ops.subrange(a + 1, e), m, left, rounds, TAPE_LEN as nat) is Fault),
    ensures
        after(program_code(ops), s, res.0) == Some(res.1),
        match run_loop(ops.subrange(a + 1, e), m, left, rounds, TAPE_LEN as nat) {
            Outcome::Done(end) => stands_before(ops, res.1, e + 1) && mirrors(res.1, end),
            Outcome::Spent(end) => res.0 >= left && mirrors(res.1, end),
            Outcome::Fault => false,
        },
    decreases e - a, left + 1,
{
    let code = program_code(ops);
    let n = place_of(ops, a);
    let block = loop_block(ops, a);
    let body = ops.subrange(a + 1, e);
    let cells = TAPE_LEN as nat;
    lemma_frame(ops);
    lemma_op_code_at(ops, a);
    lemma_loop_blocks(ops, a, e);
    if cell(m) == 0 {
        (5, lemma_loop_test(code, s, m, block, n))
    } else if left == 0 {
        assert(after(code, s, 0) == Some(s));
        (0, s)
    } else {
        let t = lemma_loop_test(code, s, m, block, n);
        assert(stands_before(ops, t, a + 1));
        let (k, u) = lemma_span(ops, a + 1, e, t, m, rounds);
        lemma_after_twice(code, s, 5, k);
        match run(body, m, rounds, cells) {
            Outcome::Done(next) => {
                assert(u.pc == place_of(ops, e));
                let v = State { pc: n + 5, ..u };
                assert(advance(code, u) == Progress::Next(v));
                assert(after(code, v, 0) == Some(v));
                assert(after(code, u, 1) == Some(v));
                lemma_after_twice(code, s, 5 + k, 1);
                let (h, w) = lemma_loop(ops, a, e, v, next, (left - 1) as nat, rounds);
                lemma_after_twice(code, s, 6 + k, h);
                (6 + k + h, w)
            },
            _ => (5 + k, u),
        }
    }
}

/// The code returns zero after `k` more instructions, in the state `end`.
pub open spec fn comes_back(code: Seq<Inst>, s: State, k: nat, end: State) -> bool {
    after(code, s, k) == Some(end) && advance(code, end) == Progress::Returned(end, 0)
}

/// The code of a program does what the program does, on a tape of
/// [`TAPE_LEN`] cells that it does not leave. Where the program comes to its
/// end, so does the code, and returns zero, with the same tape, and having read
/// and written the same in the same order. Where a loop takes more rounds than it
/// may, the code takes at least as many instructions and has by then read and
/// written the same; so the code of a program that does not end does not end.
pub proof fn law_code_does_what_program_does(
    ops: Seq<SpecOp>,
    stdin: spec_fn(nat) -> i32,
    rounds: nat,
)
    requires
        has_code(ops),
        !(run(ops, fresh(stdin), rounds, TAPE_LEN as nat) is Fault),
    ensures
        match run(ops, fresh(stdin), rounds, TAPE_LEN as nat) {
            Outcome::Done(m) => exists|k: nat, end: State| #[trigger]
                comes_back(program_code(ops), entered(program_code(ops), stdin), k, end) && mirrors(
                    end,
                    m,
                ),
            Outcome::Spent(m) => exists|k: nat|
                k >= rounds && (#[trigger] after(
                    program_code(ops),
                    entered(program_code(ops), stdin),
                    k,
                ) matches Some(s) && mirrors(s, m)),
            Outcome::Fault => false,
        },
{
    let code = program_code(ops);
    let n = ops.len() as int;
    let s = entered(code, stdin);
    lemma_frame(ops);
    let t = lemma_prologue(code, stdin);
    assert(stands_before(ops, t, 0));
    assert(ops.subrange(0, n) =~= ops);
    lemma_balanced_subrange(ops, 0, n);
    let (k, u) = lemma_span(ops, 0, n, t, fresh(stdin), rounds);
    lemma_after_twice(code, s, 4, k);
    match run(ops, fresh(stdin), rounds, TAPE_LEN as nat) {
        Outcome::Done(m) => {
            let last = code.len() - 1;
            assert(code[last] == Inst::Ret(crate::llvm::emit::zero(Ty::I32)));
            assert(u.pc == last);
            assert(comes_back(code, s, 4 + k, u));
        },
        _ => {},
    }
}

/// The code of a source text does what the source text says, as long as the
/// rewritten program does not leave the tape of [`TAPE_LEN`] cells: it comes to
/// its end if and only if the source text does, with the same tape, and reads
/// and writes the same in the same order, also where it does not end.
pub proof fn law_code_does_what_source_says(
    source: Seq<u8>,
    stdin: spec_fn(nat) -> i32,
    rounds: nat,
)
    requires
        balanced(commands(source)),
        has_code(parsed(source)),
        rounds >= 255,
        !(run(parsed(source), fresh(stdin), rounds, TAPE_LEN as nat) is Fault),
    ensures
        match run(commands(source), fresh(stdin), rounds, all_cells()) {
            Outcome::Done(m) => exists|k: nat, end: State| #[trigger]
                comes_back(
                    program_code(parsed(source)),
                    entered(program_code(parsed(source)), stdin),
                    k,
                    end,
                ) && mirrors(end, m),
            Outcome::Spent(m) => exists|k: nat|
                k >= rounds && (#[trigger] after(
                    program_code(parsed(source)),
                    entered(program_code(parsed(source)), stdin),
                    k,
                ) matches Some(s) && mirrors(s, m)),
            Outcome::Fault => false,
        },
{
    law_parsing_keeps_meaning(source, fresh(stdin), rounds);
    law_longer_tape(parsed(source), fresh(stdin), rounds, TAPE_LEN as nat, all_cells());
    law_code_does_what_program_does(parsed(source), stdin, rounds);
}

} // verus!
