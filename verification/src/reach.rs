//! How far the moves of a program reach.
use vstd::prelude::*;

use crate::brackets::{balanced, balanced_span, lemma_balanced_subrange, lemma_span_loop,
    lemma_span_plain, loop_end};
use crate::machine::{all_cells, loop_of, run, Machine};
use crate::meaning::{law_merging_keeps_meaning_on_endless_tape,
    law_optimizing_keeps_meaning_on_endless_tape};
use crate::merge::lemma_merged_nesting;
use crate::op::SpecOp;
use crate::rewrite::{body_fits, command, commands, is_move, loop_op, merge_fits, merged, offset_at,
    optimize_fits, optimized, optimized_span, parsed, placed, push_fits, pushed, span_fits};

verus! {

/// The number of cells that an instruction moves the pointer by.
pub open spec fn distance(op: SpecOp) -> nat {
    match op {
        SpecOp::PtrAdd(delta) => if delta >= 0 {
            delta as nat
        } else {
            (-delta) as nat
        },
        _ => 0,
    }
}

/// The number of cells that the first `n` instructions move the pointer by, one
/// way or the other.
pub open spec fn reach(ops: Seq<SpecOp>, n: int) -> nat
    decreases n,
{
    if n <= 0 {
        0
    } else {
        reach(ops, n - 1) + distance(ops[n - 1])
    }
}

proof fn lemma_reach_prefix(a: Seq<SpecOp>, b: Seq<SpecOp>, n: int)
    requires
        n <= a.len(),
        n <= b.len(),
        forall|k: int| 0 <= k < n ==> a[k] == b[k],
    ensures
        reach(a, n) == reach(b, n),
    decreases n,
{
    if n > 0 {
        lemma_reach_prefix(a, b, n - 1);
    }
}

proof fn lemma_reach_concat(a: Seq<SpecOp>, b: Seq<SpecOp>, n: int)
    requires
        0 <= n <= b.len(),
    ensures
        reach(a + b, a.len() + n) == reach(a, a.len() as int) + reach(b, n),
    decreases n,
{
    if n == 0 {
        lemma_reach_prefix(a + b, a, a.len() as int);
    } else {
        lemma_reach_concat(a, b, n - 1);
        assert((a + b)[a.len() + n - 1] == b[n - 1]);
    }
}

proof fn lemma_reach_grows(ops: Seq<SpecOp>, a: int, b: int)
    requires
        a <= b,
    ensures
        reach(ops, a) <= reach(ops, b),
    decreases b - a,
{
    if a < b {
        lemma_reach_grows(ops, a, b - 1);
    }
}

/// Setting an instruction behind a program makes it reach no further than the
/// two do.
proof fn lemma_pushed_reach(ops: Seq<SpecOp>, op: SpecOp)
    requires
        reach(ops, ops.len() as int) + distance(op) <= i64::MAX,
    ensures
        push_fits(ops, op),
        reach(pushed(ops, op), pushed(ops, op).len() as int) <= reach(ops, ops.len() as int)
            + distance(op),
{
    let n = ops.len() as int;
    let out = pushed(ops, op);
    let m = out.len() as int;
    if m > n {
        assert(out =~= ops.push(op));
        lemma_reach_prefix(out, ops, n);
    } else if n > 0 && out != ops {
        lemma_reach_prefix(out, ops, n - 1);
        if m == n {
            lemma_reach_prefix(out, ops, n - 1);
        }
    }
}

/// Merging steps needs no sum that is too large, in a program that does not
/// reach too far, and makes it reach no further.
proof fn lemma_merged_reach(ops: Seq<SpecOp>)
    requires
        reach(ops, ops.len() as int) <= i64::MAX,
    ensures
        merge_fits(ops),
        reach(merged(ops), merged(ops).len() as int) <= reach(ops, ops.len() as int),
    decreases ops.len(),
{
    if ops.len() > 0 {
        let rest = ops.drop_last();
        lemma_reach_prefix(rest, ops, rest.len() as int);
        lemma_merged_reach(rest);
        lemma_pushed_reach(merged(rest), ops.last());
    }
}

proof fn lemma_offset_reach(body: Seq<SpecOp>, n: int)
    requires
        0 <= n <= body.len(),
        reach(body, n) <= i64::MAX,
    ensures
        -reach(body, n) <= offset_at(body, n) <= reach(body, n),
    decreases n,
{
    if n > 0 {
        lemma_offset_reach(body, n - 1);
    }
}

proof fn lemma_body_reach(body: Seq<SpecOp>)
    requires
        reach(body, body.len() as int) <= i64::MAX,
    ensures
        body_fits(body),
{
    assert forall|i: int| 0 <= i < body.len() && #[trigger] body[i] is PtrAdd implies is_move(
        offset_at(body, i) + body[i]->PtrAdd_0,
    ) by {
        lemma_reach_grows(body, i + 1, body.len() as int);
        lemma_offset_reach(body, i);
    }
}

proof fn lemma_placed_reach(acc: Seq<SpecOp>, body: Seq<SpecOp>)
    requires
        reach(acc, acc.len() as int) + reach(body, body.len() as int) <= i64::MAX,
    ensures
        reach(placed(acc, body), placed(acc, body).len() as int) <= reach(acc, acc.len() as int)
            + reach(body, body.len() as int),
{
    match loop_op(body) {
        Some(op) => {
            lemma_pushed_reach(acc, op);
        },
        None => {
            let start = seq![SpecOp::LoopStart];
            let end = seq![SpecOp::LoopEnd];
            reveal_with_fuel(reach, 2);
            lemma_reach_concat(start, body, body.len() as int);
            lemma_reach_concat(start + body, end, 1);
            lemma_reach_concat(acc, loop_of(body), loop_of(body).len() as int);
        },
    }
}

/// Rewriting a part needs no sum that is too large, if it and what it is set
/// behind do not reach too far.
proof fn lemma_span_reach(ops: Seq<SpecOp>, acc: Seq<SpecOp>, i: int, end: int)
    requires
        balanced_span(ops, i, end),
        reach(acc, acc.len() as int) + reach(ops, end) - reach(ops, i) <= i64::MAX,
    ensures
        span_fits(ops, acc, i, end),
        optimized_span(ops, acc, i, end) is Some,
        ({
            let out = optimized_span(ops, acc, i, end)->0;
            reach(out, out.len() as int) <= reach(acc, acc.len() as int) + reach(ops, end) - reach(
                ops,
                i,
            )
        }),
    decreases end - i,
{
    if i < end {
        lemma_span_plain(ops, i, end);
        if ops[i] is LoopStart {
            lemma_span_loop(ops, i, end);
            let e = loop_end(ops, i);
            let none = Seq::<SpecOp>::empty();
            lemma_reach_grows(ops, e + 1, end);
            lemma_reach_grows(ops, i + 1, e);
            assert(reach(ops, i + 1) == reach(ops, i));
            assert(reach(ops, e + 1) == reach(ops, e));
            assert(reach(none, 0) == 0);
            lemma_span_reach(ops, none, i + 1, e);
            let body = optimized_span(ops, none, i + 1, e)->0;
            lemma_body_reach(body);
            lemma_placed_reach(acc, body);
            lemma_span_reach(ops, placed(acc, body), e + 1, end);
        } else {
            lemma_reach_grows(ops, i + 1, end);
            lemma_pushed_reach(acc, ops[i]);
            lemma_span_reach(ops, pushed(acc, ops[i]), i + 1, end);
        }
    }
}

/// A source text reaches no further than it is long.
proof fn lemma_commands_reach(source: Seq<u8>)
    ensures
        reach(commands(source), commands(source).len() as int) <= source.len(),
    decreases source.len(),
{
    if source.len() > 0 {
        let rest = source.drop_last();
        lemma_commands_reach(rest);
        match command(source.last()) {
            Some(op) => {
                lemma_reach_prefix(commands(source), commands(rest), commands(rest).len() as int);
            },
            None => {},
        }
    }
}

/// A program whose moves come to no more cells than a move can be by is
/// rewritten without a sum that is too large.
pub proof fn law_short_reach_fits(ops: Seq<SpecOp>)
    requires
        balanced(ops),
        reach(ops, ops.len() as int) <= i64::MAX,
    ensures
        merge_fits(ops),
        optimize_fits(ops),
{
    let n = ops.len() as int;
    assert(ops =~= ops.subrange(0, n));
    lemma_balanced_subrange(ops, 0, n);
    lemma_merged_reach(ops);
    lemma_span_reach(ops, Seq::empty(), 0, n);
}

/// The program that is made of a source text means what the text means, command
/// by command, on a tape without end. The text is no longer than memory can be.
pub proof fn law_parsing_keeps_meaning_on_endless_tape(
    source: Seq<u8>,
    m: Machine<int>,
    rounds: nat,
)
    requires
        balanced(commands(source)),
        source.len() <= i64::MAX,
        rounds >= 255,
    ensures
        optimized(merged(commands(source))) is Some,
        balanced(parsed(source)),
        run(parsed(source), m, rounds, all_cells()) == run(
            commands(source),
            m,
            rounds,
            all_cells(),
        ),
{
    let program = commands(source);
    lemma_commands_reach(source);
    lemma_merged_reach(program);
    lemma_merged_nesting(program);
    law_merging_keeps_meaning_on_endless_tape(program, m, rounds);
    law_short_reach_fits(merged(program));
    law_optimizing_keeps_meaning_on_endless_tape(merged(program), m, rounds);
}

} // verus!
