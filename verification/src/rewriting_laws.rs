//! What rewriting gives, in terms of the instructions that are rewritten.
use vstd::prelude::*;

use crate::brackets::{balanced, balanced_span, is_pair, lemma_balanced_subrange, lemma_loop_end,
    lemma_pair_subrange, lemma_span_loop, lemma_span_plain, loop_end, nesting};
use crate::machine::{lemma_loop_of, loop_of};
use crate::merge::{lemma_pushed_cell_twice, lemma_pushed_ptr_twice, tight};
use crate::op::{CellUpdate, SpecOp};
use crate::rewrite::{are_transfers, factor, factor_at, is_clear_loop, is_target, is_transfer_loop,
    lemma_optimized_span_some, lemma_transfers_exist, loop_op, merged, offset_at, optimized,
    optimized_span, placed, pushed, transfers};

verus! {

/// The number that a register of 64 bits holds for `n`, read with a sign.
pub open spec fn as_move(n: int) -> int {
    if n > 0x7fff_ffff_ffff_ffff {
        n - 0x1_0000_0000_0000_0000
    } else if n < -0x8000_0000_0000_0000 {
        n + 0x1_0000_0000_0000_0000
    } else {
        n
    }
}

/// The number that a register of 32 bits holds for `n`, read with a sign.
pub open spec fn as_addend(n: int) -> int {
    if n > 0x7fff_ffff {
        n - 0x1_0000_0000
    } else if n < -0x8000_0000 {
        n + 0x1_0000_0000
    } else {
        n
    }
}

/// An instruction is set behind a program as it is, unless it is a step by
/// nothing, which is left out, or a step behind a step of its kind: then the two
/// become one by their sum, or are left out if they cancel.
pub proof fn law_setting_behind(ops: Seq<SpecOp>, op: SpecOp, d: i64, e: i64, x: i32, y: i32)
    ensures
        pushed(ops, SpecOp::PtrAdd(0)) == ops,
        pushed(ops, SpecOp::CellAdd(0)) == ops,
        !(op is PtrAdd) && !(op is CellAdd) ==> pushed(ops, op) == ops + seq![op],
        e != 0 && (ops.len() == 0 || !(ops.last() is PtrAdd)) ==> pushed(ops, SpecOp::PtrAdd(e))
            == ops + seq![SpecOp::PtrAdd(e)],
        y != 0 && (ops.len() == 0 || !(ops.last() is CellAdd)) ==> pushed(ops, SpecOp::CellAdd(y))
            == ops + seq![SpecOp::CellAdd(y)],
        e != 0 && as_move(d + e) != 0 ==> pushed(
            ops + seq![SpecOp::PtrAdd(d)],
            SpecOp::PtrAdd(e),
        ) == ops + seq![SpecOp::PtrAdd(as_move(d + e) as i64)],
        e != 0 && as_move(d + e) == 0 ==> pushed(ops + seq![SpecOp::PtrAdd(d)], SpecOp::PtrAdd(e))
            == ops,
        y != 0 && as_addend(x + y) != 0 ==> pushed(
            ops + seq![SpecOp::CellAdd(x)],
            SpecOp::CellAdd(y),
        ) == ops + seq![SpecOp::CellAdd(as_addend(x + y) as i32)],
        y != 0 && as_addend(x + y) == 0 ==> pushed(
            ops + seq![SpecOp::CellAdd(x)],
            SpecOp::CellAdd(y),
        ) == ops,
{
    let a = ops + seq![SpecOp::PtrAdd(d)];
    let b = ops + seq![SpecOp::CellAdd(x)];
    assert(a.drop_last() =~= ops);
    assert(b.drop_last() =~= ops);
    assert(ops.push(op) =~= ops + seq![op]);
    assert(ops.push(SpecOp::PtrAdd(e)) =~= ops + seq![SpecOp::PtrAdd(e)]);
    assert(ops.push(SpecOp::CellAdd(y)) =~= ops + seq![SpecOp::CellAdd(y)]);
    assert(ops.push(SpecOp::PtrAdd(as_move(d + e) as i64)) =~= ops + seq![
        SpecOp::PtrAdd(as_move(d + e) as i64),
    ]);
    assert(ops.push(SpecOp::CellAdd(as_addend(x + y) as i32)) =~= ops + seq![
        SpecOp::CellAdd(as_addend(x + y) as i32),
    ]);
}

/// A step and the step back leave a program with merged steps as it was.
pub proof fn law_step_and_back(ops: Seq<SpecOp>, d: i64, x: i32)
    requires
        tight(ops),
        d > i64::MIN,
        x > i32::MIN,
    ensures
        pushed(pushed(ops, SpecOp::PtrAdd(d)), SpecOp::PtrAdd((-d) as i64)) == ops,
        pushed(pushed(ops, SpecOp::CellAdd(x)), SpecOp::CellAdd((-x) as i32)) == ops,
{
    lemma_pushed_ptr_twice(ops, d, (-d) as i64);
    lemma_pushed_cell_twice(ops, x, (-x) as i32);
}

/// Merging goes from left to right, one instruction at a time.
pub proof fn law_merging_goes_on(ops: Seq<SpecOp>, op: SpecOp)
    ensures
        merged(Seq::empty()) == Seq::<SpecOp>::empty(),
        merged(ops + seq![op]) == pushed(merged(ops), op),
{
    assert((ops + seq![op]).drop_last() =~= ops);
}

/// What merging leaves are the instructions that are no steps, in their order.
pub proof fn law_merging_keeps_the_rest(ops: Seq<SpecOp>)
    ensures
        merged(ops).filter(|op: SpecOp| !(op is PtrAdd) && !(op is CellAdd)) == ops.filter(
            |op: SpecOp| !(op is PtrAdd) && !(op is CellAdd),
        ),
    decreases ops.len(),
{
    let rest = |op: SpecOp| !(op is PtrAdd) && !(op is CellAdd);
    reveal(Seq::filter);
    if ops.len() > 0 {
        let before = ops.drop_last();
        law_merging_keeps_the_rest(before);
        let a = merged(before);
        let out = merged(ops);
        if out.len() > a.len() {
            assert(out.drop_last() =~= a);
        } else if out.len() == a.len() && out != a {
            assert(out.drop_last() =~= a.drop_last());
        } else if out.len() < a.len() {
            assert(out =~= a.drop_last());
        }
    }
}

/// By how much the first `n` instructions move the pointer.
pub open spec fn moves(body: Seq<SpecOp>, n: int) -> int
    decreases n,
{
    if n <= 0 {
        0
    } else {
        moves(body, n - 1) + match body[n - 1] {
            SpecOp::PtrAdd(delta) => delta as int,
            _ => 0,
        }
    }
}

/// What the first `n` instructions add to the cell at `offset` from where they
/// start.
pub open spec fn gains(body: Seq<SpecOp>, n: int, offset: int) -> int
    decreases n,
{
    if n <= 0 {
        0
    } else {
        gains(body, n - 1, offset) + match body[n - 1] {
            SpecOp::CellAdd(delta) => if moves(body, n - 1) == offset {
                delta as int
            } else {
                0
            },
            _ => 0,
        }
    }
}

/// All sums of moves and of additions fit into the numbers that hold them.
pub open spec fn sums_fit(body: Seq<SpecOp>) -> bool {
    &&& forall|n: int|
        0 <= n <= body.len() ==> i64::MIN <= #[trigger] moves(body, n) <= i64::MAX
    &&& forall|n: int, o: int|
        0 <= n <= body.len() ==> i32::MIN <= #[trigger] gains(body, n, o) <= i32::MAX
}

proof fn lemma_sums(body: Seq<SpecOp>, n: int)
    requires
        sums_fit(body),
        0 <= n <= body.len(),
    ensures
        offset_at(body, n) == moves(body, n),
        forall|o: i64| #[trigger] factor_at(body, n, o) == gains(body, n, o as int),
    decreases n,
{
    if n > 0 {
        lemma_sums(body, n - 1);
        assert(i64::MIN <= moves(body, n) <= i64::MAX);
        assert forall|o: i64| #[trigger] factor_at(body, n, o) == gains(body, n, o as int) by {
            assert(factor_at(body, n - 1, o) == gains(body, n - 1, o as int));
            assert(i32::MIN <= gains(body, n, o as int) <= i32::MAX);
        }
    }
}

/// Sums are kept step by step, in registers that wrap around: a move changes
/// where the additions go, an addition changes the sum of the cell where it goes,
/// and nothing changes anything else.
pub proof fn law_sums_are_kept_step_by_step(body: Seq<SpecOp>, n: int, o: i64)
    requires
        0 <= n < body.len(),
    ensures
        offset_at(body, 0) == 0,
        factor_at(body, 0, o) == 0,
        factor(body, o) == factor_at(body, body.len() as int, o),
        body[n] matches SpecOp::PtrAdd(delta) ==> offset_at(body, n + 1) == as_move(
            offset_at(body, n) + delta,
        ),
        !(body[n] is PtrAdd) ==> offset_at(body, n + 1) == offset_at(body, n),
        body[n] matches SpecOp::CellAdd(delta) && offset_at(body, n) == o ==> factor_at(
            body,
            n + 1,
            o,
        ) == as_addend(factor_at(body, n, o) + body[n]->CellAdd_0),
        !(body[n] is CellAdd && offset_at(body, n) == o) ==> factor_at(body, n + 1, o)
            == factor_at(body, n, o),
{
}

/// Whether a loop is replaced, and by what, in terms of these sums: for every
/// body, also one whose sums wrap around.
pub proof fn law_loops_are_replaced_by_their_sums(body: Seq<SpecOp>)
    ensures
        is_clear_loop(body) <==> adds_odd(body),
        is_transfer_loop(body) <==> {
            &&& forall|i: int|
                0 <= i < body.len() ==> (#[trigger] body[i] is PtrAdd || body[i] is CellAdd)
            &&& offset_at(body, body.len() as int) == 0
            &&& factor_at(body, body.len() as int, 0) as int % 256 == 255
        },
        loop_op(body) is Some <==> is_clear_loop(body) || is_transfer_loop(body),
        match loop_op(body) {
            None => true,
            Some(SpecOp::ClearCell) => adds_odd(body) || forall|o: i64|
                o != 0 ==> #[trigger] factor_at(body, body.len() as int, o) as int % 256 == 0,
            Some(SpecOp::AddScaled(updates)) => {
                &&& !adds_odd(body)
                &&& updates.len() > 0
                &&& forall|i: int, j: int|
                    0 <= i < j < updates.len() ==> (#[trigger] updates[i]).offset < (
                    #[trigger] updates[j]).offset
                &&& forall|i: int|
                    0 <= i < updates.len() ==> (#[trigger] updates[i]).offset != 0
                        && updates[i].factor == factor_at(
                        body,
                        body.len() as int,
                        updates[i].offset,
                    ) && updates[i].factor as int % 256 != 0
                &&& forall|o: i64|
                    o != 0 && #[trigger] factor_at(body, body.len() as int, o) as int % 256 != 0
                        ==> exists|i: int|
                        0 <= i < updates.len() && (#[trigger] updates[i]).offset == o
            },
            Some(_) => false,
        },
{
    let n = body.len() as int;
    if !is_clear_loop(body) && is_transfer_loop(body) {
        lemma_transfers_exist(body);
        let updates = transfers(body);
        assert forall|i: int| 0 <= i < updates.len() implies (#[trigger] updates[i]).offset != 0
            && updates[i].factor == factor_at(body, n, updates[i].offset)
            && updates[i].factor as int % 256 != 0 by {
            assert(is_target(body, updates[i].offset));
        }
        assert forall|o: i64|
            o != 0 && #[trigger] factor_at(body, n, o) as int % 256 != 0 implies exists|i: int|
            0 <= i < updates.len() && (#[trigger] updates[i]).offset == o by {
            assert(is_target(body, o));
        }
    }
}

/// The body of a loop that only adds an odd number to its cell.
pub open spec fn adds_odd(body: Seq<SpecOp>) -> bool {
    body.len() == 1 && (body[0] matches SpecOp::CellAdd(delta) && delta as int % 2 == 1)
}

/// The body of a loop that only moves and adds, ends where it starts, and takes
/// one from its cell.
pub open spec fn counts_down(body: Seq<SpecOp>) -> bool {
    &&& forall|i: int| 0 <= i < body.len() ==> (#[trigger] body[i] is PtrAdd || body[i] is CellAdd)
    &&& moves(body, body.len() as int) == 0
    &&& gains(body, body.len() as int, 0) % 256 == 255
}

/// A loop is replaced if and only if it adds an odd number to its cell and does
/// nothing else, or counts its cell down and changes cells around it. It is
/// replaced by a clear if it changes no cell around it; else by the list of those
/// that it changes, by rising offset, each with the sum of what a round adds to
/// it.
pub proof fn law_which_loops_are_replaced(body: Seq<SpecOp>)
    requires
        sums_fit(body),
    ensures
        loop_op(body) is Some <==> adds_odd(body) || counts_down(body),
        match loop_op(body) {
            None => true,
            Some(SpecOp::ClearCell) => adds_odd(body) || forall|o: i64|
                o != 0 ==> #[trigger] gains(body, body.len() as int, o as int) % 256 == 0,
            Some(SpecOp::AddScaled(updates)) => {
                &&& !adds_odd(body)
                &&& updates.len() > 0
                &&& forall|i: int, j: int|
                    0 <= i < j < updates.len() ==> (#[trigger] updates[i]).offset < (
                    #[trigger] updates[j]).offset
                &&& forall|i: int|
                    0 <= i < updates.len() ==> (#[trigger] updates[i]).offset != 0
                        && updates[i].factor == gains(
                        body,
                        body.len() as int,
                        updates[i].offset as int,
                    ) && updates[i].factor as int % 256 != 0
                &&& forall|o: i64|
                    o != 0 && #[trigger] gains(body, body.len() as int, o as int) % 256 != 0
                        ==> exists|i: int|
                        0 <= i < updates.len() && (#[trigger] updates[i]).offset == o
            },
            Some(_) => false,
        },
{
    let n = body.len() as int;
    lemma_sums(body, n);
    assert(factor_at(body, n, 0) == gains(body, n, 0i64 as int));
    if !is_clear_loop(body) && is_transfer_loop(body) {
        lemma_transfers_exist(body);
        let updates = transfers(body);
        assert forall|i: int| 0 <= i < updates.len() implies (#[trigger] updates[i]).offset != 0
            && updates[i].factor == gains(body, n, updates[i].offset as int)
            && updates[i].factor as int % 256 != 0 by {
            assert(is_target(body, updates[i].offset));
            assert(factor_at(body, n, updates[i].offset) == gains(
                body,
                n,
                updates[i].offset as int,
            ));
        }
        assert forall|o: i64| o != 0 && #[trigger] gains(body, n, o as int) % 256 != 0 implies exists|
            i: int,
        |
            0 <= i < updates.len() && (#[trigger] updates[i]).offset == o by {
            assert(factor_at(body, n, o) == gains(body, n, o as int));
            assert(is_target(body, o));
        }
    }
}

/// The two ways in which a loop is found to be replaceable, each by itself: what
/// the second finds are the cells that a round changes beside the loop's own, by
/// rising offset, with what it adds to each.
pub proof fn law_how_loops_are_found(body: Seq<SpecOp>, updates: Seq<CellUpdate>)
    requires
        sums_fit(body),
    ensures
        is_clear_loop(body) <==> adds_odd(body),
        is_transfer_loop(body) <==> counts_down(body),
        are_transfers(body, updates) <==> {
            &&& forall|i: int, j: int|
                0 <= i < j < updates.len() ==> (#[trigger] updates[i]).offset < (
                #[trigger] updates[j]).offset
            &&& forall|i: int|
                0 <= i < updates.len() ==> (#[trigger] updates[i]).offset != 0
                    && updates[i].factor == gains(
                    body,
                    body.len() as int,
                    updates[i].offset as int,
                ) && updates[i].factor as int % 256 != 0
            &&& forall|o: i64|
                o != 0 && #[trigger] gains(body, body.len() as int, o as int) % 256 != 0
                    ==> exists|i: int|
                    0 <= i < updates.len() && (#[trigger] updates[i]).offset == o
        },
{
    let n = body.len() as int;
    lemma_sums(body, n);
    assert(factor_at(body, n, 0) == gains(body, n, 0i64 as int));
    assert forall|o: i64| o != 0 implies #[trigger] is_target(body, o) == (gains(
        body,
        n,
        o as int,
    ) % 256 != 0) by {
        assert(factor_at(body, n, o) == gains(body, n, o as int));
    }
    assert forall|i: int| 0 <= i < updates.len() implies factor(
        body,
        (#[trigger] updates[i]).offset,
    ) == gains(body, n, updates[i].offset as int) && (is_target(body, updates[i].offset) <==> (
    updates[i].offset != 0 && gains(body, n, updates[i].offset as int) % 256 != 0)) by {
        assert(factor_at(body, n, updates[i].offset) == gains(
            body,
            n,
            updates[i].offset as int,
        ));
    }
    if are_transfers(body, updates) {
        assert forall|o: i64| o != 0 && #[trigger] gains(body, n, o as int) % 256 != 0 implies exists|
            i: int,
        |
            0 <= i < updates.len() && (#[trigger] updates[i]).offset == o by {
            assert(is_target(body, o));
        }
    }
    if forall|o: i64|
        o != 0 && #[trigger] gains(body, n, o as int) % 256 != 0 ==> exists|i: int|
            0 <= i < updates.len() && (#[trigger] updates[i]).offset == o {
        assert forall|o: i64| #[trigger] is_target(body, o) implies exists|i: int|
            0 <= i < updates.len() && (#[trigger] updates[i]).offset == o by {
            assert(gains(body, n, o as int) % 256 != 0);
        }
    }
}

/// Rewriting goes on behind what is rewritten.
proof fn lemma_span_split(ops: Seq<SpecOp>, acc: Seq<SpecOp>, i: int, mid: int, end: int)
    requires
        balanced_span(ops, i, mid),
        mid <= end <= ops.len(),
    ensures
        optimized_span(ops, acc, i, mid) is Some,
        optimized_span(ops, acc, i, end) == optimized_span(
            ops,
            optimized_span(ops, acc, i, mid)->0,
            mid,
            end,
        ),
    decreases mid - i,
{
    if i < mid {
        lemma_span_plain(ops, i, mid);
        if ops[i] is LoopStart {
            lemma_span_loop(ops, i, mid);
            let e = loop_end(ops, i);
            lemma_optimized_span_some(ops, Seq::empty(), i + 1, e);
            let body = optimized_span(ops, Seq::empty(), i + 1, e)->0;
            lemma_span_split(ops, placed(acc, body), e + 1, mid, end);
        } else {
            lemma_span_split(ops, pushed(acc, ops[i]), i + 1, mid, end);
        }
    }
}

/// A part is rewritten as it would be by itself.
proof fn lemma_span_local(ops: Seq<SpecOp>, acc: Seq<SpecOp>, a: int, b: int, i: int, end: int)
    requires
        0 <= a <= i,
        end <= b <= ops.len(),
        balanced_span(ops, i, end),
    ensures
        optimized_span(ops, acc, i, end) == optimized_span(
            ops.subrange(a, b),
            acc,
            i - a,
            end - a,
        ),
    decreases end - i,
{
    let part = ops.subrange(a, b);
    if i < end {
        assert(part[i - a] == ops[i]);
        lemma_span_plain(ops, i, end);
        if ops[i] is LoopStart {
            lemma_span_loop(ops, i, end);
            let e = loop_end(ops, i);
            lemma_pair_subrange(ops, a, b, i - a, e - a);
            lemma_loop_end(part, i - a, e - a);
            lemma_span_local(ops, Seq::empty(), a, b, i + 1, e);
            lemma_optimized_span_some(ops, Seq::empty(), i + 1, e);
            let body = optimized_span(ops, Seq::empty(), i + 1, e)->0;
            lemma_span_local(ops, placed(acc, body), a, b, e + 1, end);
        } else {
            lemma_span_local(ops, pushed(acc, ops[i]), a, b, i + 1, end);
        }
    }
}

/// A part of a program whose loops match is rewritten as it would be by itself.
pub proof fn law_part_is_rewritten_by_itself(ops: Seq<SpecOp>, a: int, b: int)
    requires
        0 <= a <= b <= ops.len(),
        balanced(ops.subrange(a, b)),
    ensures
        optimized_span(ops, Seq::empty(), a, b) == optimized(ops.subrange(a, b)),
        optimized(ops.subrange(a, b)) is Some,
{
    lemma_balanced_subrange(ops, a, b);
    lemma_span_local(ops, Seq::empty(), a, b, a, b);
    lemma_optimized_span_some(ops, Seq::empty(), a, b);
}

/// Where a part comes to a loop end that belongs to no loop of the part, it is
/// not rewritten; so a part whose loops match up to such a loop end is refused.
pub proof fn law_stray_end_stops_rewriting(ops: Seq<SpecOp>, a: int, e: int, b: int)
    requires
        0 <= a <= e < b <= ops.len(),
        balanced(ops.subrange(a, e)),
        ops[e] == SpecOp::LoopEnd,
    ensures
        optimized_span(ops, Seq::empty(), a, b) is None,
{
    lemma_balanced_subrange(ops, a, e);
    lemma_span_split(ops, Seq::empty(), a, e, b);
}

/// A part that cuts a loop short is rewritten with the whole loop.
pub proof fn law_cut_loop_is_rewritten_whole(ops: Seq<SpecOp>, a: int, i: int, e: int, b: int)
    requires
        0 <= a <= i < b <= e + 1,
        balanced(ops.subrange(a, i)),
        is_pair(ops, i, e),
    ensures
        optimized_span(ops, Seq::empty(), a, b) == optimized(ops.subrange(a, e + 1)),
{
    let none = Seq::<SpecOp>::empty();
    lemma_balanced_subrange(ops, a, i);
    lemma_loop_end(ops, i, e);
    lemma_span_split(ops, none, a, i, b);
    lemma_span_split(ops, none, a, i, e + 1);
    let x = optimized_span(ops, none, a, i)->0;
    assert(optimized_span(ops, x, i, b) == optimized_span(ops, x, i, e + 1)) by {
        match optimized_span(ops, none, i + 1, e) {
            Some(body) => {
                assert(optimized_span(ops, placed(x, body), e + 1, b) == Some(placed(x, body)));
                assert(optimized_span(ops, placed(x, body), e + 1, e + 1) == Some(placed(x, body)));
            },
            None => {},
        }
    }
    assert(balanced_span(ops, a, e + 1)) by {
        assert(nesting(ops, e + 1) == nesting(ops, i));
        assert forall|k: int| a <= k <= e + 1 implies #[trigger] nesting(ops, k) >= nesting(
            ops,
            a,
        ) by {
            if k <= i {
                assert(nesting(ops, k) >= nesting(ops, a));
            } else if k <= e {
                assert(nesting(ops, k) > nesting(ops, i));
            }
        }
    }
    lemma_balanced_subrange(ops, a, e + 1);
    law_part_is_rewritten_by_itself(ops, a, e + 1);
}

/// A program is rewritten from left to right. An instruction that is no part of a
/// loop is set behind what has been rewritten. Of a loop, the body is rewritten
/// first; then the instruction that replaces the loop is set behind what has been
/// rewritten, or, if there is none, the loop with its rewritten body.
pub proof fn law_rewriting_goes_on(a: Seq<SpecOp>, op: SpecOp, body: Seq<SpecOp>)
    requires
        balanced(a),
        balanced(body),
        op != SpecOp::LoopStart,
        op != SpecOp::LoopEnd,
    ensures
        optimized(Seq::empty()) == Some(Seq::<SpecOp>::empty()),
        optimized(a) is Some,
        optimized(body) is Some,
        optimized(a + seq![op]) == Some(pushed(optimized(a)->0, op)),
        optimized(a + (seq![SpecOp::LoopStart] + body + seq![SpecOp::LoopEnd])) == (match loop_op(
            optimized(body)->0,
        ) {
            Some(new) => Some(pushed(optimized(a)->0, new)),
            None => Some(
                optimized(a)->0 + (seq![SpecOp::LoopStart] + optimized(body)->0 + seq![
                    SpecOp::LoopEnd,
                ]),
            ),
        }),
{
    let n = a.len() as int;
    let none = Seq::<SpecOp>::empty();
    // An instruction behind.
    let with = a + seq![op];
    assert(with.subrange(0, n) =~= a);
    lemma_balanced_subrange(with, 0, n);
    lemma_span_split(with, none, 0, n, n + 1);
    lemma_span_local(with, none, 0, n, 0, n);
    assert(with[n] == op);
    let x = optimized(a)->0;
    assert(optimized_span(with, x, n, n + 1) == optimized_span(with, pushed(x, op), n + 1, n + 1));
    // A loop behind.
    let tail = seq![SpecOp::LoopStart] + body + seq![SpecOp::LoopEnd];
    assert(tail == loop_of(body));
    lemma_loop_of(body);
    let all = a + tail;
    let m = all.len() as int;
    assert(all.subrange(0, n) =~= a);
    assert(all.subrange(n, m) =~= tail);
    let e = m - 1;
    assert(all.subrange(n + 1, e) =~= body);
    lemma_balanced_subrange(all, 0, n);
    lemma_balanced_subrange(all, n + 1, e);
    lemma_pair_subrange(all, n, m, 0, e - n);
    lemma_loop_end(all, n, e);
    lemma_span_split(all, none, 0, n, m);
    lemma_span_local(all, none, 0, n, 0, n);
    lemma_span_local(all, none, n + 1, e, n + 1, e);
    lemma_optimized_span_some(all, none, n + 1, e);
    let y = optimized(body)->0;
    assert(optimized_span(all, none, n + 1, e) == optimized(body));
    assert(all[n] == SpecOp::LoopStart);
    assert(optimized_span(all, x, n, m) == optimized_span(all, placed(x, y), m, m));
}

} // verus!
