//! Rewriting a program keeps what it means.
use vstd::prelude::*;
use vstd::wrapping::{i32_specs, i64_specs};

use crate::brackets::{balanced, balanced_span, lemma_balanced_concat, lemma_balanced_subrange,
    lemma_nesting_concat, lemma_span_loop, lemma_span_plain, loop_end, nesting};
use crate::machine::{all_cells, bumped, cell, lemma_loop_of, lemma_run_concat,
    lemma_run_loop_congruent, lemma_run_loop_of, lemma_run_single, loop_of, run, step, with_cell,
    Machine, Outcome, Position};
use crate::merge::lemma_pushed_nesting;
use crate::op::SpecOp;
use crate::loops::{lemma_clear_loop, lemma_straight_is_balanced, lemma_transfer_loop};
use crate::rewrite::{body_fits, commands, is_clear_loop, is_move, lemma_transfers_exist, loop_op,
    merge_fits, merged, optimize_fits, optimized, optimized_span, parsed, placed, push_fits, pushed,
    span_fits, straight, transfers};

verus! {

/// Two additions are one addition.
pub proof fn lemma_bumped_twice(value: u8, a: int, b: int)
    ensures
        bumped(bumped(value, a), b) == bumped(value, a + b),
        bumped(value, 0) == value,
        bumped(value, a + 0x1_0000_0000) == bumped(value, a),
        bumped(value, a - 0x1_0000_0000) == bumped(value, a),
{
}

/// A program that ends in an instruction that is no part of a loop is balanced
/// without it.
pub proof fn lemma_balanced_drop_last(ops: Seq<SpecOp>)
    requires
        balanced(ops),
        ops.len() > 0,
        !(ops.last() is LoopStart),
        !(ops.last() is LoopEnd),
    ensures
        balanced(ops.drop_last()),
{
    let rest = ops.drop_last();
    let n = rest.len() as int;
    assert(ops =~= rest + seq![ops.last()]);
    assert forall|i: int| 0 <= i <= n implies #[trigger] nesting(rest, i) >= 0 by {
        lemma_nesting_concat(rest, seq![ops.last()], i);
        assert(nesting(ops, i) >= 0);
    }
    lemma_nesting_concat(rest, seq![ops.last()], n);
    assert(nesting(ops, n + 1) == nesting(ops, n));
}

/// An instruction that is no part of a loop is a balanced program.
pub proof fn lemma_balanced_single(op: SpecOp)
    requires
        !(op is LoopStart),
        !(op is LoopEnd),
    ensures
        balanced(seq![op]),
{
    reveal_with_fuel(nesting, 2);
    assert forall|i: int| 0 <= i <= seq![op].len() implies #[trigger] nesting(seq![op], i)
        >= 0 by {
        assert(i == 0 || i == 1);
    }
}

/// Merging two steps of a kind keeps what they do.
proof fn lemma_merged_step<P: Position>(m: Machine<P>, a: SpecOp, b: SpecOp)
    requires
        (a is PtrAdd && b is PtrAdd) || (a is CellAdd && b is CellAdd),
        P::wraps() || (a is PtrAdd ==> is_move(a->PtrAdd_0 + b->PtrAdd_0)),
    ensures
        a is PtrAdd ==> step(step(m, a, all_cells())->0, b, all_cells()) == step(
            m,
            SpecOp::PtrAdd(i64_specs::wrapping_add(a->PtrAdd_0, b->PtrAdd_0)),
            all_cells(),
        ),
        a is CellAdd ==> step(step(m, a, all_cells())->0, b, all_cells()) == step(
            m,
            SpecOp::CellAdd(i32_specs::wrapping_add(a->CellAdd_0, b->CellAdd_0)),
            all_cells(),
        ),
        step(m, a, all_cells()) is Some,
{
    match (a, b) {
        (SpecOp::PtrAdd(x), SpecOp::PtrAdd(y)) => {
            m.ptr.lemma_moved(x as int, y as int);
            m.ptr.lemma_moved(x + y, 0);
        },
        (SpecOp::CellAdd(x), SpecOp::CellAdd(y)) => {
            lemma_bumped_twice(cell(m), x as int, y as int);
            lemma_bumped_twice(cell(m), x + y, 0);
            m.ptr.lemma_moved(0, 0);
            let once = step(m, a, all_cells())->0;
            let twice = step(once, b, all_cells())->0;
            let sum = step(
                m,
                SpecOp::CellAdd(i32_specs::wrapping_add(x, y)),
                all_cells(),
            )->0;
            assert(twice.tape =~= sum.tape);
        },
        _ => {},
    }
}

/// A step by nothing does nothing.
proof fn lemma_idle_step<P: Position>(m: Machine<P>)
    ensures
        step(m, SpecOp::PtrAdd(0), all_cells()) == Some(m),
        step(m, SpecOp::CellAdd(0), all_cells()) == Some(m),
{
    m.ptr.lemma_moved(0, 0);
    lemma_bumped_twice(cell(m), 0, 0);
    let next = with_cell(m, m.ptr, cell(m));
    assert(next.tape =~= m.tape);
}

/// Setting an instruction behind a program with [`pushed`] does what the
/// program and then the instruction do.
pub proof fn lemma_pushed_meaning<P: Position>(
    ops: Seq<SpecOp>,
    op: SpecOp,
    m: Machine<P>,
    rounds: nat,
)
    requires
        balanced(ops),
        !(op is LoopStart),
        !(op is LoopEnd),
        P::wraps() || push_fits(ops, op),
    ensures
        balanced(pushed(ops, op)),
        run(pushed(ops, op), m, rounds, all_cells()) == run(
            ops + seq![op],
            m,
            rounds,
            all_cells(),
        ),
{
    let c = all_cells();
    lemma_run_concat(ops, seq![op], m, rounds, c);
    lemma_balanced_single(op);
    lemma_balanced_concat(ops, seq![op]);
    assert(ops.push(op) =~= ops + seq![op]);
    if op == SpecOp::PtrAdd(0) || op == SpecOp::CellAdd(0) {
        if let Outcome::Done(next) = run(ops, m, rounds, c) {
            lemma_run_single(op, next, rounds, c);
            lemma_idle_step(next);
        }
    } else if ops.len() > 0 && ((op is PtrAdd && ops.last() is PtrAdd) || (op is CellAdd
        && ops.last() is CellAdd)) {
        let rest = ops.drop_last();
        let last = ops.last();
        lemma_balanced_drop_last(ops);
        assert(ops =~= rest + seq![last]);
        lemma_run_concat(rest, seq![last], m, rounds, c);
        let sum = if op is PtrAdd {
            SpecOp::PtrAdd(i64_specs::wrapping_add(last->PtrAdd_0, op->PtrAdd_0))
        } else {
            SpecOp::CellAdd(i32_specs::wrapping_add(last->CellAdd_0, op->CellAdd_0))
        };
        lemma_run_concat(rest, seq![sum], m, rounds, c);
        lemma_balanced_single(sum);
        lemma_balanced_concat(rest, seq![sum]);
        assert(rest.push(sum) =~= rest + seq![sum]);
        if let Outcome::Done(s) = run(rest, m, rounds, c) {
            lemma_run_single(last, s, rounds, c);
            lemma_merged_step(s, last, op);
            lemma_run_single(sum, s, rounds, c);
            lemma_run_single(op, step(s, last, c)->0, rounds, c);
            lemma_idle_step(s);
        }
    }
}

/// Setting an instruction behind a balanced program keeps it balanced.
pub proof fn lemma_pushed_balanced(ops: Seq<SpecOp>, op: SpecOp)
    requires
        balanced(ops),
        !(op is LoopStart),
        !(op is LoopEnd),
    ensures
        balanced(pushed(ops, op)),
{
    lemma_pushed_nesting(ops, op);
}

/// The instruction that replaces a loop does what the loop does.
pub proof fn lemma_loop_op_meaning<P: Position>(body: Seq<SpecOp>, m: Machine<P>, rounds: nat)
    requires
        loop_op(body) is Some,
        rounds >= 255,
        P::wraps() || body_fits(body),
    ensures
        balanced(body),
        !(loop_op(body)->0 is LoopStart),
        !(loop_op(body)->0 is LoopEnd),
        run(loop_of(body), m, rounds, all_cells()) == run(
            seq![loop_op(body)->0],
            m,
            rounds,
            all_cells(),
        ),
{
    let c = all_cells();
    let op = loop_op(body)->0;
    assert(straight(body)) by {
        if is_clear_loop(body) {
            assert(body[0] is CellAdd);
        }
    }
    lemma_straight_is_balanced(body);
    lemma_run_loop_of(body, m, rounds, c);
    lemma_run_single(op, m, rounds, c);
    if is_clear_loop(body) {
        lemma_clear_loop(body, m, rounds, rounds);
    } else {
        lemma_transfers_exist(body);
        lemma_transfer_loop(body, transfers(body), m, rounds, rounds);
    }
}

/// Setting a loop behind a program with [`placed`] does what the program and
/// then the loop do.
pub proof fn lemma_placed_meaning<P: Position>(
    acc: Seq<SpecOp>,
    body: Seq<SpecOp>,
    m: Machine<P>,
    rounds: nat,
)
    requires
        balanced(acc),
        balanced(body),
        rounds >= 255,
        P::wraps() || body_fits(body),
    ensures
        balanced(placed(acc, body)),
        run(placed(acc, body), m, rounds, all_cells()) == run(
            acc + loop_of(body),
            m,
            rounds,
            all_cells(),
        ),
{
    let c = all_cells();
    match loop_op(body) {
        Some(op) => {
            lemma_loop_op_meaning(body, m, rounds);
            lemma_pushed_meaning(acc, op, m, rounds);
            lemma_run_concat(acc, seq![op], m, rounds, c);
            lemma_run_concat(acc, loop_of(body), m, rounds, c);
            if let Outcome::Done(s) = run(acc, m, rounds, c) {
                lemma_loop_op_meaning(body, s, rounds);
            }
        },
        None => {
            lemma_loop_of(body);
            lemma_balanced_concat(acc, loop_of(body));
        },
    }
}

/// Rewriting a part of a program keeps what it means.
pub proof fn lemma_optimized_span_meaning<P: Position>(
    ops: Seq<SpecOp>,
    acc: Seq<SpecOp>,
    i: int,
    end: int,
    m: Machine<P>,
    rounds: nat,
)
    requires
        balanced(acc),
        balanced_span(ops, i, end),
        rounds >= 255,
        P::wraps() || span_fits(ops, acc, i, end),
    ensures
        optimized_span(ops, acc, i, end) is Some,
        balanced(optimized_span(ops, acc, i, end)->0),
        run(optimized_span(ops, acc, i, end)->0, m, rounds, all_cells()) == run(
            acc + ops.subrange(i, end),
            m,
            rounds,
            all_cells(),
        ),
    decreases end - i,
{
    let c = all_cells();
    let part = ops.subrange(i, end);
    lemma_balanced_subrange(ops, i, end);
    if i == end {
        assert(acc + part =~= acc);
    } else {
        lemma_span_plain(ops, i, end);
        if ops[i] is LoopStart {
            lemma_span_loop(ops, i, end);
            let e = loop_end(ops, i);
            let inner = ops.subrange(i + 1, e);
            let rest = ops.subrange(e + 1, end);
            lemma_balanced_subrange(ops, i + 1, e);
            lemma_balanced_subrange(ops, e + 1, end);
            assert(balanced(Seq::<SpecOp>::empty())) by {
                assert(ops.subrange(i, i) =~= Seq::<SpecOp>::empty());
                lemma_balanced_subrange(ops, i, i);
            }
            // The body.
            lemma_optimized_span_meaning(ops, Seq::empty(), i + 1, e, m, rounds);
            let body = optimized_span(ops, Seq::empty(), i + 1, e)->0;
            assert forall|s: Machine<P>| #[trigger] run(body, s, rounds, c) == run(
                inner,
                s,
                rounds,
                c,
            ) by {
                lemma_optimized_span_meaning(ops, Seq::empty(), i + 1, e, s, rounds);
                assert(Seq::<SpecOp>::empty() + inner =~= inner);
            }
            // What follows the loop.
            let next = placed(acc, body);
            lemma_placed_meaning(acc, body, m, rounds);
            lemma_optimized_span_meaning(ops, next, e + 1, end, m, rounds);
            lemma_run_concat(next, rest, m, rounds, c);
            // The loop with the body as it was.
            lemma_loop_of(inner);
            lemma_run_concat(acc, loop_of(body), m, rounds, c);
            lemma_run_concat(acc, loop_of(inner), m, rounds, c);
            if let Outcome::Done(s) = run(acc, m, rounds, c) {
                lemma_run_loop_of(body, s, rounds, c);
                lemma_run_loop_of(inner, s, rounds, c);
                lemma_run_loop_congruent(body, inner, s, rounds, rounds, c);
            }
            lemma_balanced_concat(acc, loop_of(inner));
            lemma_run_concat(acc + loop_of(inner), rest, m, rounds, c);
            assert(acc + part =~= (acc + loop_of(inner)) + rest);
        } else {
            let op = ops[i];
            let rest = ops.subrange(i + 1, end);
            let next = pushed(acc, op);
            lemma_pushed_meaning(acc, op, m, rounds);
            lemma_optimized_span_meaning(ops, next, i + 1, end, m, rounds);
            lemma_run_concat(next, rest, m, rounds, c);
            lemma_balanced_single(op);
            lemma_balanced_concat(acc, seq![op]);
            lemma_run_concat(acc + seq![op], rest, m, rounds, c);
            assert(acc + part =~= (acc + seq![op]) + rest);
        }
    }
}

/// The program made of `acc` and `ops` set behind it, merging steps.
spec fn merged_onto(acc: Seq<SpecOp>, ops: Seq<SpecOp>) -> Seq<SpecOp>
    decreases ops.len(),
{
    if ops.len() == 0 {
        acc
    } else {
        pushed(merged_onto(acc, ops.drop_last()), ops.last())
    }
}

/// No sum of moves is too large for a move when `ops` is set behind `acc`,
/// merging steps.
spec fn merge_onto_fits(acc: Seq<SpecOp>, ops: Seq<SpecOp>) -> bool
    decreases ops.len(),
{
    ops.len() == 0 || (merge_onto_fits(acc, ops.drop_last()) && push_fits(
        merged_onto(acc, ops.drop_last()),
        ops.last(),
    ))
}

proof fn lemma_merged_onto_empty(ops: Seq<SpecOp>)
    ensures
        merged_onto(Seq::empty(), ops) == merged(ops),
        merge_onto_fits(Seq::empty(), ops) == merge_fits(ops),
    decreases ops.len(),
{
    if ops.len() == 0 {
        assert(ops =~= Seq::empty());
    } else {
        lemma_merged_onto_empty(ops.drop_last());
    }
}

proof fn lemma_merged_onto_concat(acc: Seq<SpecOp>, a: Seq<SpecOp>, b: Seq<SpecOp>)
    ensures
        merged_onto(acc, a + b) == merged_onto(merged_onto(acc, a), b),
        merge_onto_fits(acc, a + b) == (merge_onto_fits(acc, a) && merge_onto_fits(
            merged_onto(acc, a),
            b,
        )),
    decreases b.len(),
{
    if b.len() == 0 {
        assert(a + b =~= a);
    } else {
        assert((a + b).drop_last() =~= a + b.drop_last());
        lemma_merged_onto_concat(acc, a, b.drop_last());
    }
}

/// No step is merged across the start of a loop.
proof fn lemma_merged_after_start(acc: Seq<SpecOp>, ops: Seq<SpecOp>)
    ensures
        merged_onto(acc.push(SpecOp::LoopStart), ops) == acc.push(SpecOp::LoopStart) + merged(ops),
        merge_onto_fits(acc.push(SpecOp::LoopStart), ops) == merge_fits(ops),
    decreases ops.len(),
{
    let start = acc.push(SpecOp::LoopStart);
    if ops.len() == 0 {
        assert(start + merged(ops) =~= start);
    } else {
        lemma_merged_after_start(acc, ops.drop_last());
        let inner = merged(ops.drop_last());
        let op = ops.last();
        assert(inner.len() == 0 ==> (start + inner).last() is LoopStart);
        if inner.len() > 0 {
            assert((start + inner).last() == inner.last());
            assert((start + inner).drop_last() =~= start + inner.drop_last());
        }
        assert(pushed(start + inner, op) =~= start + pushed(inner, op));
    }
}

/// Merging steps keeps what a program means.
proof fn lemma_merged_onto_meaning<P: Position>(
    acc: Seq<SpecOp>,
    ops: Seq<SpecOp>,
    m: Machine<P>,
    rounds: nat,
)
    requires
        balanced(acc),
        balanced(ops),
        P::wraps() || merge_onto_fits(acc, ops),
    ensures
        balanced(merged_onto(acc, ops)),
        run(merged_onto(acc, ops), m, rounds, all_cells()) == run(
            acc + ops,
            m,
            rounds,
            all_cells(),
        ),
    decreases ops.len(),
{
    let c = all_cells();
    let n = ops.len() as int;
    if n == 0 {
        assert(acc + ops =~= acc);
    } else {
        assert(ops =~= ops.subrange(0, n));
        lemma_balanced_subrange(ops, 0, n);
        lemma_span_plain(ops, 0, n);
        if ops[0] is LoopStart {
            lemma_span_loop(ops, 0, n);
            let e = loop_end(ops, 0);
            let inner = ops.subrange(1, e);
            let rest = ops.subrange(e + 1, n);
            lemma_balanced_subrange(ops, 1, e);
            lemma_balanced_subrange(ops, e + 1, n);
            assert(ops =~= loop_of(inner) + rest);
            // The loop, with steps merged in its body.
            let start = seq![SpecOp::LoopStart];
            let close = seq![SpecOp::LoopEnd];
            lemma_merged_onto_concat(acc, loop_of(inner), rest);
            assert(P::wraps() || merge_fits(inner)) by {
                lemma_merged_onto_concat(acc, start + inner, close);
                lemma_merged_onto_concat(acc, start, inner);
                assert(start.drop_last() =~= Seq::empty());
                assert(merged_onto(acc, Seq::empty()) == acc);
                assert(merged_onto(acc, start) =~= acc.push(SpecOp::LoopStart));
                lemma_merged_after_start(acc, inner);
            }
            lemma_merged_onto_empty(inner);
            let body = merged(inner);
            let next = merged_onto(acc, loop_of(inner));
            assert(next =~= acc + loop_of(body)) by {
                lemma_merged_onto_concat(acc, start + inner, close);
                lemma_merged_onto_concat(acc, start, inner);
                assert(start.drop_last() =~= Seq::empty());
                assert(merged_onto(acc, start) =~= acc.push(SpecOp::LoopStart)) by {
                    assert(merged_onto(acc, Seq::empty()) == acc);
                }
                lemma_merged_after_start(acc, inner);
                let open = merged_onto(acc, start + inner);
                assert(close.drop_last() =~= Seq::empty());
                assert(merged_onto(open, Seq::empty()) == open);
                assert(merged_onto(open, close) =~= open.push(SpecOp::LoopEnd));
            }
            assert(balanced(Seq::<SpecOp>::empty())) by {
                assert(ops.subrange(0, 0) =~= Seq::<SpecOp>::empty());
                lemma_balanced_subrange(ops, 0, 0);
            }
            assert forall|s: Machine<P>| #[trigger] run(body, s, rounds, c) == run(
                inner,
                s,
                rounds,
                c,
            ) by {
                lemma_merged_onto_meaning(Seq::empty(), inner, s, rounds);
                lemma_merged_onto_empty(inner);
                assert(Seq::<SpecOp>::empty() + inner =~= inner);
            }
            assert(balanced(body)) by {
                lemma_merged_onto_meaning(Seq::empty(), inner, m, rounds);
                lemma_merged_onto_empty(inner);
            }
            lemma_loop_of(body);
            lemma_loop_of(inner);
            lemma_balanced_concat(acc, loop_of(body));
            lemma_balanced_concat(acc, loop_of(inner));
            lemma_run_concat(acc, loop_of(body), m, rounds, c);
            lemma_run_concat(acc, loop_of(inner), m, rounds, c);
            if let Outcome::Done(s) = run(acc, m, rounds, c) {
                lemma_run_loop_of(body, s, rounds, c);
                lemma_run_loop_of(inner, s, rounds, c);
                lemma_run_loop_congruent(body, inner, s, rounds, rounds, c);
            }
            // What follows the loop.
            lemma_merged_onto_concat(acc, loop_of(inner), rest);
            lemma_merged_onto_meaning(next, rest, m, rounds);
            lemma_run_concat(next, rest, m, rounds, c);
            lemma_run_concat(acc + loop_of(inner), rest, m, rounds, c);
            assert(acc + ops =~= (acc + loop_of(inner)) + rest);
        } else {
            let op = ops[0];
            let rest = ops.subrange(1, n);
            lemma_balanced_subrange(ops, 1, n);
            assert(ops =~= seq![op] + rest);
            lemma_merged_onto_concat(acc, seq![op], rest);
            assert(seq![op].drop_last() =~= Seq::empty());
            assert(merged_onto(acc, Seq::empty()) == acc);
            assert(merged_onto(acc, seq![op]) == pushed(acc, op));
            lemma_pushed_meaning(acc, op, m, rounds);
            lemma_merged_onto_meaning(pushed(acc, op), rest, m, rounds);
            lemma_run_concat(pushed(acc, op), rest, m, rounds, c);
            lemma_balanced_single(op);
            lemma_balanced_concat(acc, seq![op]);
            lemma_run_concat(acc + seq![op], rest, m, rounds, c);
            assert(acc + ops =~= (acc + seq![op]) + rest);
        }
    }
}

/// Merging steps keeps what a program means.
proof fn lemma_merging_keeps_meaning<P: Position>(ops: Seq<SpecOp>, m: Machine<P>, rounds: nat)
    requires
        balanced(ops),
        P::wraps() || merge_fits(ops),
    ensures
        balanced(merged(ops)),
        run(merged(ops), m, rounds, all_cells()) == run(ops, m, rounds, all_cells()),
{
    lemma_merged_onto_empty(ops);
    assert(balanced(Seq::<SpecOp>::empty())) by {
        assert(ops.subrange(0, 0) =~= Seq::<SpecOp>::empty());
        lemma_balanced_subrange(ops, 0, 0);
    }
    lemma_merged_onto_meaning(Seq::empty(), ops, m, rounds);
    assert(Seq::<SpecOp>::empty() + ops =~= ops);
}

/// Rewriting a program keeps what it means.
proof fn lemma_optimizing_keeps_meaning<P: Position>(ops: Seq<SpecOp>, m: Machine<P>, rounds: nat)
    requires
        balanced(ops),
        rounds >= 255,
        P::wraps() || optimize_fits(ops),
    ensures
        optimized(ops) is Some,
        balanced(optimized(ops)->0),
        run(optimized(ops)->0, m, rounds, all_cells()) == run(ops, m, rounds, all_cells()),
{
    let n = ops.len() as int;
    assert(ops =~= ops.subrange(0, n));
    lemma_balanced_subrange(ops, 0, n);
    assert(balanced(Seq::<SpecOp>::empty())) by {
        assert(ops.subrange(0, 0) =~= Seq::<SpecOp>::empty());
        lemma_balanced_subrange(ops, 0, 0);
    }
    lemma_optimized_span_meaning(ops, Seq::empty(), 0, n, m, rounds);
    assert(Seq::<SpecOp>::empty() + ops =~= ops);
}

/// Merging steps keeps what a program means.
pub proof fn law_merging_keeps_meaning(ops: Seq<SpecOp>, m: Machine<u64>, rounds: nat)
    requires
        balanced(ops),
    ensures
        balanced(merged(ops)),
        run(merged(ops), m, rounds, all_cells()) == run(ops, m, rounds, all_cells()),
{
    lemma_merging_keeps_meaning(ops, m, rounds);
}

/// Merging steps keeps what a program means on a tape without end, as long as
/// no sum of moves is too large for a move.
pub proof fn law_merging_keeps_meaning_on_endless_tape(
    ops: Seq<SpecOp>,
    m: Machine<int>,
    rounds: nat,
)
    requires
        balanced(ops),
        merge_fits(ops),
    ensures
        balanced(merged(ops)),
        run(merged(ops), m, rounds, all_cells()) == run(ops, m, rounds, all_cells()),
{
    lemma_merging_keeps_meaning(ops, m, rounds);
}

/// Rewriting a program keeps what it means: from every state, the rewritten
/// program ends as the program does, in the same state, having read and written
/// the same in the same order, or runs on as the program does. A loop that is
/// replaced would have ended within 255 rounds; the others take the rounds that
/// they took.
pub proof fn law_optimizing_keeps_meaning(ops: Seq<SpecOp>, m: Machine<u64>, rounds: nat)
    requires
        balanced(ops),
        rounds >= 255,
    ensures
        optimized(ops) is Some,
        balanced(optimized(ops)->0),
        run(optimized(ops)->0, m, rounds, all_cells()) == run(ops, m, rounds, all_cells()),
{
    lemma_optimizing_keeps_meaning(ops, m, rounds);
}

/// Rewriting a program keeps what it means on a tape without end, as long as no
/// sum of moves is too large for a move: the rewritten program ends as the
/// program does, in the same state, having read and written the same in the
/// same order, or runs on as the program does.
pub proof fn law_optimizing_keeps_meaning_on_endless_tape(
    ops: Seq<SpecOp>,
    m: Machine<int>,
    rounds: nat,
)
    requires
        balanced(ops),
        rounds >= 255,
        optimize_fits(ops),
    ensures
        optimized(ops) is Some,
        balanced(optimized(ops)->0),
        run(optimized(ops)->0, m, rounds, all_cells()) == run(ops, m, rounds, all_cells()),
{
    lemma_optimizing_keeps_meaning(ops, m, rounds);
}

/// The program that is made of a source text means what the text means, command
/// by command.
pub proof fn law_parsing_keeps_meaning(source: Seq<u8>, m: Machine<u64>, rounds: nat)
    requires
        balanced(commands(source)),
        rounds >= 255,
    ensures
        optimized(merged(commands(source))) is Some,
        balanced(parsed(source)),
        run(parsed(source), m, rounds, all_cells()) == run(
            commands(source),
            m,
            rounds,
            all_cells(),
        ),
{
    law_merging_keeps_meaning(commands(source), m, rounds);
    law_optimizing_keeps_meaning(merged(commands(source)), m, rounds);
}

} // verus!
