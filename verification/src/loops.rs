//! The loops that are replaced by an instruction do what the instruction does.
use vstd::prelude::*;

use crate::brackets::{balanced, nesting};
use crate::machine::{all_cells, bumped, cell, lemma_run_concat, lemma_run_single, run, run_loop,
    scaled, step, with_cell, Machine, Outcome, Position};
use crate::meaning::lemma_bumped_twice;
use crate::op::{CellUpdate, SpecOp};
use crate::rewrite::{are_transfers, body_fits, factor, factor_at, is_clear_loop, is_target,
    is_transfer_loop, offset_at, straight};

verus! {

/// Adding an odd number often enough makes any cell zero.
proof fn lemma_odd_reaches_zero(c: u32, d: u32) -> (j: u32)
    requires
        c < 256,
        d < 256,
        d % 2 == 1,
    ensures
        j < 256,
        (c + j * d) % 256 == 0,
{
    // Each of these is an inverse of `d` to twice as many bits as the one before.
    let x1: u32 = ((d * ((258u32 - ((d * d) as u32 & 255u32)) as u32)) as u32) & 255u32;
    let x2: u32 = ((x1 * ((258u32 - ((d * x1) as u32 & 255u32)) as u32)) as u32) & 255u32;
    let j: u32 = ((((256u32 - c) as u32) * x2) as u32) & 255u32;
    assert(j < 256 && ((c + ((j * d) as u32)) as u32) & 255u32 == 0u32) by (bit_vector)
        requires
            c < 256u32,
            d < 256u32,
            d % 2u32 == 1u32,
            x1 == ((d * ((258u32 - ((d * d) as u32 & 255u32)) as u32)) as u32) & 255u32,
            x2 == ((x1 * ((258u32 - ((d * x1) as u32 & 255u32)) as u32)) as u32) & 255u32,
            j == ((((256u32 - c) as u32) * x2) as u32) & 255u32,
    ;
    assert(j * d < 65536) by (nonlinear_arith)
        requires
            j < 256,
            d < 256,
    ;
    let sum: u32 = (c + j * d) as u32;
    assert(sum & 255u32 == sum % 256u32) by (bit_vector);
    j
}

/// What is added matters only modulo the size of a cell.
proof fn lemma_bumped_mod(value: u8, n: int, a: int)
    ensures
        bumped(value, n * a) == bumped(value, n * (a % 256)),
        a % 256 == 0 ==> bumped(value, n * a) == value,
{
    let q = n * (a / 256);
    assert(n * a == 256 * q + n * (a % 256)) by (nonlinear_arith)
        requires
            q == n * (a / 256),
    ;
    if a % 256 == 0 {
        assert(n * (a % 256) == 0);
    }
}

/// A round of a loop that only adds to its cell.
proof fn lemma_run_cell_add<P: Position>(body: Seq<SpecOp>, m: Machine<P>, rounds: nat)
    requires
        body.len() == 1,
        body[0] is CellAdd,
    ensures
        run(body, m, rounds, all_cells()) == Outcome::Done(
            with_cell(m, m.ptr, bumped(cell(m), body[0]->CellAdd_0 as int)),
        ),
{
    assert(body =~= seq![body[0]]);
    m.ptr.lemma_moved(0, 0);
    lemma_run_single(body[0], m, rounds, all_cells());
}

/// A loop that only adds to its cell ends when the cell is zero.
proof fn lemma_clear_countdown<P: Position>(
    body: Seq<SpecOp>,
    m: Machine<P>,
    j: nat,
    left: nat,
    rounds: nat,
)
    requires
        body.len() == 1,
        body[0] is CellAdd,
        (cell(m) + j * body[0]->CellAdd_0) % 256 == 0,
        j <= left,
    ensures
        run_loop(body, m, left, rounds, all_cells()) == Outcome::Done(with_cell(m, m.ptr, 0)),
    decreases j,
{
    let d = body[0]->CellAdd_0 as int;
    let cleared = with_cell(m, m.ptr, 0);
    m.ptr.lemma_moved(0, 0);
    if cell(m) == 0 {
        assert(cleared.tape =~= m.tape);
    } else {
        if j == 0 {
            assert(j * d == 0);
        }
        let next = with_cell(m, m.ptr, bumped(cell(m), d));
        lemma_run_cell_add(body, m, rounds);
        assert(j * d == (j - 1) * d + d) by (nonlinear_arith);
        lemma_clear_countdown(body, next, (j - 1) as nat, (left - 1) as nat, rounds);
        assert(with_cell(next, next.ptr, 0).tape =~= cleared.tape);
    }
}

/// A loop that adds an odd number to its cell clears it, in fewer rounds than a
/// cell has values.
pub proof fn lemma_clear_loop<P: Position>(body: Seq<SpecOp>, m: Machine<P>, left: nat, rounds: nat)
    requires
        is_clear_loop(body),
        left >= 255,
    ensures
        run_loop(body, m, left, rounds, all_cells()) == Outcome::Done(with_cell(m, m.ptr, 0)),
{
    let d = body[0]->CellAdd_0 as int;
    let low = (d % 256) as u32;
    let j = lemma_odd_reaches_zero(cell(m) as u32, low);
    lemma_bumped_mod(cell(m), j as int, d);
    assert(bumped(cell(m), j * d) == bumped(cell(m), j * low));
    lemma_clear_countdown(body, m, j as nat, left, rounds);
}

/// How far it is from cell `ptr` to cell `x`, if an offset can say it.
pub open spec fn offset_between<P: Position>(ptr: P, x: P) -> Option<i64> {
    if exists|o: i64| #[trigger] ptr.moved(o as int) == x {
        Some(choose|o: i64| #[trigger] ptr.moved(o as int) == x)
    } else {
        None
    }
}

/// There is one offset from a cell to another.
proof fn lemma_offset_between<P: Position>(ptr: P, x: P, o: i64)
    ensures
        ptr.moved(o as int) == x <==> offset_between(ptr, x) == Some(o),
        ptr == x <==> offset_between(ptr, x) == Some(0i64),
{
    ptr.lemma_moved(0, 0);
    if offset_between(ptr, x) is Some {
        ptr.lemma_apart(offset_between(ptr, x)->0, o);
        ptr.lemma_apart(offset_between(ptr, x)->0, 0);
    }
    assert(ptr.moved(0i64 as int) == ptr);
}

/// What the first `n` instructions add to a cell that is so far away.
pub open spec fn gain_at(body: Seq<SpecOp>, n: int, away: Option<i64>) -> int {
    match away {
        Some(offset) => factor_at(body, n, offset) as int,
        None => 0,
    }
}

/// The machine after the first `n` instructions of a straight body.
pub open spec fn after_steps<P: Position>(m: Machine<P>, body: Seq<SpecOp>, n: int) -> Machine<P> {
    Machine {
        ptr: m.ptr.moved(offset_at(body, n) as int),
        tape: |x: P|
            bumped((m.tape)(x), gain_at(body, n, offset_between(m.ptr, x))),
        ..m
    }
}

proof fn lemma_straight_balanced(body: Seq<SpecOp>, n: int)
    requires
        straight(body),
        0 <= n <= body.len(),
    ensures
        nesting(body, n) == 0,
    decreases n,
{
    if n > 0 {
        lemma_straight_balanced(body, n - 1);
        assert(body[n - 1] is PtrAdd || body[n - 1] is CellAdd);
    }
}

/// A straight body has no loops.
pub proof fn lemma_straight_is_balanced(body: Seq<SpecOp>)
    requires
        straight(body),
    ensures
        balanced(body),
{
    assert forall|i: int| 0 <= i <= body.len() implies #[trigger] nesting(body, i) >= 0 by {
        lemma_straight_balanced(body, i);
    }
    lemma_straight_balanced(body, body.len() as int);
}

/// What the first instructions of a straight body do.
proof fn lemma_straight_run<P: Position>(body: Seq<SpecOp>, m: Machine<P>, n: int, rounds: nat)
    requires
        straight(body),
        0 <= n <= body.len(),
        P::wraps() || body_fits(body),
    ensures
        run(body.subrange(0, n), m, rounds, all_cells()) == Outcome::Done(after_steps(m, body, n)),
    decreases n,
{
    let c = all_cells();
    let now = after_steps(m, body, n);
    if n == 0 {
        m.ptr.lemma_moved(0, 0);
        assert forall|x: P| #[trigger] (now.tape)(x) == (m.tape)(x) by {
            lemma_bumped_twice((m.tape)(x), 0, 0);
        }
        assert(now.tape =~= m.tape);
    } else {
        lemma_straight_run(body, m, n - 1, rounds);
        let before = after_steps(m, body, n - 1);
        let op = body[n - 1];
        let part = body.subrange(0, n - 1);
        assert(body.subrange(0, n) =~= part + seq![op]);
        assert(straight(part));
        lemma_straight_is_balanced(part);
        lemma_run_concat(part, seq![op], m, rounds, c);
        lemma_run_single(op, before, rounds, c);
        before.ptr.lemma_moved(0, 0);
        match op {
            SpecOp::PtrAdd(delta) => {
                m.ptr.lemma_moved(offset_at(body, n - 1) as int, delta as int);
                m.ptr.lemma_moved(offset_at(body, n - 1) + delta, 0);
                let next = step(before, op, c)->0;
                assert(next.tape =~= now.tape);
            },
            SpecOp::CellAdd(delta) => {
                let next = step(before, op, c)->0;
                let here = before.ptr;
                assert forall|x: P| #[trigger] (next.tape)(x) == (now.tape)(x) by {
                    lemma_offset_between(m.ptr, x, offset_at(body, n - 1));
                    let f = gain_at(body, n - 1, offset_between(m.ptr, x));
                    lemma_bumped_twice((m.tape)(x), f, delta as int);
                    lemma_bumped_twice((m.tape)(x), f + delta, 0);
                }
                assert(next.tape =~= now.tape);
            },
            _ => {},
        }
    }
}

/// The machine after a transfer loop.
pub open spec fn after_transfer<P: Position>(m: Machine<P>, body: Seq<SpecOp>) -> Machine<P> {
    Machine {
        tape: |x: P|
            if x == m.ptr {
                0
            } else {
                bumped(
                    (m.tape)(x),
                    cell(m) * gain_at(body, body.len() as int, offset_between(m.ptr, x)),
                )
            },
        ..m
    }
}

/// A transfer loop takes as many rounds as its cell says, and no fewer.
proof fn lemma_transfer_rounds<P: Position>(
    body: Seq<SpecOp>,
    m: Machine<P>,
    left: nat,
    rounds: nat,
)
    requires
        is_transfer_loop(body),
        P::wraps() || body_fits(body),
    ensures
        cell(m) <= left ==> run_loop(body, m, left, rounds, all_cells()) == Outcome::Done(
            after_transfer(m, body),
        ),
        cell(m) > left ==> run_loop(body, m, left, rounds, all_cells()) is Spent,
    decreases cell(m),
{
    let end = after_transfer(m, body);
    let n = body.len() as int;
    m.ptr.lemma_moved(0, 0);
    if cell(m) == 0 {
        assert forall|x: P| #[trigger] (end.tape)(x) == (m.tape)(x) by {
            let f = gain_at(body, n, offset_between(m.ptr, x));
            assert(0 * f == 0);
            lemma_bumped_twice((m.tape)(x), 0, 0);
        }
        assert(end.tape =~= m.tape);
    } else if left > 0 {
        lemma_straight_run(body, m, n, rounds);
        assert(body.subrange(0, n) =~= body);
        let next = after_steps(m, body, n);
        m.ptr.lemma_moved(0, 0);
        lemma_offset_between(m.ptr, m.ptr, 0);
        assert(next.ptr == m.ptr);
        lemma_bumped_mod(cell(m), 1, factor(body, 0) as int);
        assert(cell(next) == cell(m) - 1);
        lemma_transfer_rounds(body, next, (left - 1) as nat, rounds);
        let rest = after_transfer(next, body);
        assert forall|x: P| #[trigger] (rest.tape)(x) == (end.tape)(x) by {
            let f = gain_at(body, n, offset_between(m.ptr, x));
            let c = cell(m) as int;
            assert(c * f == f + (c - 1) * f) by (nonlinear_arith);
            lemma_bumped_twice((m.tape)(x), f, (c - 1) * f);
        }
        assert(rest.tape =~= end.tape);
    }
}

/// What updates with rising offsets do.
proof fn lemma_scaled<P: Position>(m: Machine<P>, base: u8, updates: Seq<CellUpdate>)
    requires
        forall|i: int, j: int|
            0 <= i < j < updates.len() ==> (#[trigger] updates[i]).offset < (
            #[trigger] updates[j]).offset,
    ensures
        scaled(m, base, updates, all_cells()) is Some,
        ({
            let end = scaled(m, base, updates, all_cells())->0;
            &&& end == Machine { tape: end.tape, ..m }
            &&& forall|i: int|
                0 <= i < updates.len() ==> (end.tape)(
                    m.ptr.moved((#[trigger] updates[i]).offset as int),
                ) == bumped(
                    (m.tape)(m.ptr.moved(updates[i].offset as int)),
                    base * updates[i].factor,
                )
            &&& forall|x: P|
                (forall|i: int|
                    0 <= i < updates.len() ==> m.ptr.moved((#[trigger] updates[i]).offset as int)
                        != x) ==> #[trigger] (end.tape)(x) == (m.tape)(x)
        }),
    decreases updates.len(),
{
    if updates.len() > 0 {
        let at = m.ptr.moved(updates[0].offset as int);
        let next = with_cell(m, at, bumped((m.tape)(at), base * updates[0].factor));
        at.lemma_moved(0, 0);
        let rest = updates.drop_first();
        assert forall|i: int, j: int| 0 <= i < j < rest.len() implies (#[trigger] rest[i]).offset
            < (#[trigger] rest[j]).offset by {
            assert(updates[i + 1].offset < updates[j + 1].offset);
        }
        lemma_scaled(next, base, rest);
        let end = scaled(m, base, updates, all_cells())->0;
        assert(end == scaled(next, base, rest, all_cells())->0);
        assert forall|i: int| 0 < i < updates.len() implies m.ptr.moved(
            (#[trigger] updates[i]).offset as int,
        ) != at by {
            lemma_offset_between(m.ptr, at, updates[0].offset);
            lemma_offset_between(m.ptr, at, updates[i].offset);
            assert(updates[0].offset < updates[i].offset);
        }
        assert forall|i: int| 0 <= i < rest.len() implies next.ptr.moved(
            (#[trigger] rest[i]).offset as int,
        ) != at by {
            assert(updates[i + 1] == rest[i]);
        }
        assert forall|i: int| 0 <= i < updates.len() implies (end.tape)(
            m.ptr.moved((#[trigger] updates[i]).offset as int),
        ) == bumped(
            (m.tape)(m.ptr.moved(updates[i].offset as int)),
            base * updates[i].factor,
        ) by {
            if i > 0 {
                assert(rest[i - 1] == updates[i]);
            }
        }
        assert forall|x: P|
            (forall|i: int|
                0 <= i < updates.len() ==> m.ptr.moved((#[trigger] updates[i]).offset as int)
                    != x) implies #[trigger] (end.tape)(x) == (m.tape)(x) by {
            assert(updates[0].offset == updates[0].offset);
            assert(x != at);
            assert forall|i: int| 0 <= i < rest.len() implies next.ptr.moved(
                (#[trigger] rest[i]).offset as int,
            ) != x by {
                assert(updates[i + 1] == rest[i]);
            }
        }
    }
}

/// A transfer loop does what its list of updates does, in as many rounds as its
/// cell says: with fewer rounds it does not come to its end.
pub proof fn lemma_transfer_loop<P: Position>(
    body: Seq<SpecOp>,
    updates: Seq<CellUpdate>,
    m: Machine<P>,
    left: nat,
    rounds: nat,
)
    requires
        is_transfer_loop(body),
        P::wraps() || body_fits(body),
        are_transfers(body, updates),
    ensures
        step(m, SpecOp::AddScaled(updates), all_cells()) is Some,
        cell(m) <= left ==> run_loop(body, m, left, rounds, all_cells()) == Outcome::Done(
            step(m, SpecOp::AddScaled(updates), all_cells())->0,
        ),
        cell(m) > left ==> run_loop(body, m, left, rounds, all_cells()) is Spent,
        updates.len() == 0 ==> step(m, SpecOp::AddScaled(updates), all_cells()) == step(
            m,
            SpecOp::ClearCell,
            all_cells(),
        ),
{
    lemma_transfer_rounds(body, m, left, rounds);
    lemma_scaled(m, cell(m), updates);
    let end = after_transfer(m, body);
    let sum = scaled(m, cell(m), updates, all_cells())->0;
    let next = with_cell(sum, m.ptr, 0);
    assert forall|x: P| #[trigger] (end.tape)(x) == (next.tape)(x) by {
        let o = offset_between(m.ptr, x);
        lemma_offset_between(m.ptr, x, 0);
        if x != m.ptr {
            if o is Some && is_target(body, o->0) {
                let i = choose|i: int|
                    0 <= i < updates.len() && (#[trigger] updates[i]).offset == o->0;
                lemma_offset_between(m.ptr, x, o->0);
                assert(m.ptr.moved(updates[i].offset as int) == x);
            } else {
                assert forall|i: int| 0 <= i < updates.len() implies m.ptr.moved(
                    (#[trigger] updates[i]).offset as int,
                ) != x by {
                    lemma_offset_between(m.ptr, x, updates[i].offset);
                    assert(is_target(body, updates[i].offset));
                }
                lemma_bumped_mod(
                    (m.tape)(x),
                    cell(m) as int,
                    gain_at(body, body.len() as int, o),
                );
            }
        }
    }
    assert(end.tape =~= next.tape);
}

} // verus!
