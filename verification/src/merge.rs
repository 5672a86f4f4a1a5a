//! Facts about merging steps.
use vstd::prelude::*;
use vstd::wrapping::{i32_specs, i64_specs};

use crate::brackets::{lemma_nesting_prefix, loop_delta, nesting, no_stray_end};
use crate::op::SpecOp;
use crate::rewrite::{command, commands, merged, pushed};

verus! {

/// Two instructions that could be one step.
pub open spec fn same_kind(a: SpecOp, b: SpecOp) -> bool {
    (a is PtrAdd && b is PtrAdd) || (a is CellAdd && b is CellAdd)
}

/// A step by nothing.
pub open spec fn is_idle(op: SpecOp) -> bool {
    op == SpecOp::PtrAdd(0) || op == SpecOp::CellAdd(0)
}

/// The program has no step by nothing, and no two steps that could be one.
pub open spec fn tight(ops: Seq<SpecOp>) -> bool {
    &&& forall|i: int| 0 <= i < ops.len() ==> !is_idle(#[trigger] ops[i])
    &&& forall|i: int, j: int|
        0 <= i < ops.len() - 1 && j == i + 1 ==> !same_kind(#[trigger] ops[i], #[trigger] ops[j])
}

/// Setting an instruction behind a tight program keeps it tight.
pub proof fn lemma_pushed_tight(ops: Seq<SpecOp>, op: SpecOp)
    requires
        tight(ops),
    ensures
        tight(pushed(ops, op)),
{
}

/// Merging steps makes a program tight.
pub proof fn lemma_merged_tight(ops: Seq<SpecOp>)
    ensures
        tight(merged(ops)),
    decreases ops.len(),
{
    if ops.len() > 0 {
        lemma_merged_tight(ops.drop_last());
        lemma_pushed_tight(merged(ops.drop_last()), ops.last());
    }
}

/// Two moves behind a tight program are one move.
pub proof fn lemma_pushed_ptr_twice(ops: Seq<SpecOp>, a: i64, b: i64)
    requires
        tight(ops),
    ensures
        pushed(pushed(ops, SpecOp::PtrAdd(a)), SpecOp::PtrAdd(b)) == pushed(
            ops,
            SpecOp::PtrAdd(i64_specs::wrapping_add(a, b)),
        ),
{
    let once = pushed(ops, SpecOp::PtrAdd(a));
    let twice = pushed(once, SpecOp::PtrAdd(b));
    let sum = pushed(ops, SpecOp::PtrAdd(i64_specs::wrapping_add(a, b)));
    lemma_pushed_tight(ops, SpecOp::PtrAdd(a));
    if ops.len() > 0 && ops.last() is PtrAdd {
        let rest = ops.drop_last();
        assert(rest.len() > 0 ==> !same_kind(ops[rest.len() - 1], ops[rest.len() as int]));
        assert(rest.push(ops.last()) =~= ops);
    }
    assert(twice =~= sum);
}

/// Two additions behind a tight program are one addition.
pub proof fn lemma_pushed_cell_twice(ops: Seq<SpecOp>, a: i32, b: i32)
    requires
        tight(ops),
    ensures
        pushed(pushed(ops, SpecOp::CellAdd(a)), SpecOp::CellAdd(b)) == pushed(
            ops,
            SpecOp::CellAdd(i32_specs::wrapping_add(a, b)),
        ),
{
    let once = pushed(ops, SpecOp::CellAdd(a));
    let twice = pushed(once, SpecOp::CellAdd(b));
    let sum = pushed(ops, SpecOp::CellAdd(i32_specs::wrapping_add(a, b)));
    lemma_pushed_tight(ops, SpecOp::CellAdd(a));
    if ops.len() > 0 && ops.last() is CellAdd {
        let rest = ops.drop_last();
        assert(rest.len() > 0 ==> !same_kind(ops[rest.len() - 1], ops[rest.len() as int]));
        assert(rest.push(ops.last()) =~= ops);
    }
    assert(twice =~= sum);
}

/// Setting an instruction behind a program opens and closes the loops that the
/// instruction does.
pub proof fn lemma_pushed_nesting(ops: Seq<SpecOp>, op: SpecOp)
    ensures
        nesting(pushed(ops, op), pushed(ops, op).len() as int) == nesting(ops, ops.len() as int)
            + loop_delta(op),
        no_stray_end(ops, ops.len() as int) && nesting(ops, ops.len() as int) + loop_delta(op) >= 0
            ==> no_stray_end(pushed(ops, op), pushed(ops, op).len() as int),
{
    let out = pushed(ops, op);
    let n = ops.len() as int;
    let m = out.len() as int;
    assert forall|i: int| 0 <= i < n && i <= m implies #[trigger] nesting(out, i) == nesting(
        ops,
        i,
    ) by {
        lemma_nesting_prefix(out, ops, i);
    }
    if m == n + 1 {
        lemma_nesting_prefix(out, ops, n);
        assert(out[n] == op);
    } else if n > 0 {
        assert(nesting(ops, n) == nesting(ops, n - 1) + loop_delta(ops[n - 1]));
        if m == n {
            assert(nesting(out, n) == nesting(out, n - 1) + loop_delta(out[n - 1]));
        }
    }
    if no_stray_end(ops, n) && nesting(ops, n) + loop_delta(op) >= 0 {
        assert forall|i: int| 0 <= i <= m implies #[trigger] nesting(out, i) >= 0 by {
            if i < n {
                assert(nesting(ops, i) >= 0);
            }
        }
    }
}

/// `nesting` after one more instruction.
pub proof fn lemma_nesting_push(ops: Seq<SpecOp>, op: SpecOp)
    ensures
        nesting(ops.push(op), ops.len() as int + 1) == nesting(ops, ops.len() as int) + loop_delta(
            op,
        ),
        no_stray_end(ops, ops.len() as int) && nesting(ops, ops.len() as int) + loop_delta(op) >= 0
            <==> no_stray_end(ops.push(op), ops.len() as int + 1),
{
    let out = ops.push(op);
    let n = ops.len() as int;
    assert forall|i: int| 0 <= i <= n implies #[trigger] nesting(out, i) == nesting(ops, i) by {
        lemma_nesting_prefix(out, ops, i);
    }
    assert(nesting(out, n + 1) == nesting(out, n) + loop_delta(op));
    if no_stray_end(out, n + 1) {
        assert forall|i: int| 0 <= i <= n implies #[trigger] nesting(ops, i) >= 0 by {
            assert(nesting(out, i) >= 0);
        }
        assert(nesting(out, n + 1) >= 0);
    }
}

/// Merging steps does not touch the loops.
pub proof fn lemma_merged_nesting(ops: Seq<SpecOp>)
    ensures
        nesting(merged(ops), merged(ops).len() as int) == nesting(ops, ops.len() as int),
        no_stray_end(ops, ops.len() as int) ==> no_stray_end(
            merged(ops),
            merged(ops).len() as int,
        ),
    decreases ops.len(),
{
    if ops.len() > 0 {
        let rest = ops.drop_last();
        lemma_merged_nesting(rest);
        assert(rest.push(ops.last()) =~= ops);
        lemma_nesting_push(rest, ops.last());
        lemma_pushed_nesting(merged(rest), ops.last());
    }
}

/// One more byte of source.
pub proof fn lemma_commands_push(source: Seq<u8>, byte: u8)
    ensures
        commands(source.push(byte)) == (match command(byte) {
            Some(op) => commands(source).push(op),
            None => commands(source),
        }),
        merged(commands(source.push(byte))) == (match command(byte) {
            Some(op) => pushed(merged(commands(source)), op),
            None => merged(commands(source)),
        }),
{
    assert(source.push(byte).drop_last() =~= source);
    match command(byte) {
        Some(op) => {
            assert(commands(source).push(op).drop_last() =~= commands(source));
        },
        None => {},
    }
}

/// The commands of two texts one behind the other.
pub proof fn lemma_commands_concat(a: Seq<u8>, b: Seq<u8>)
    ensures
        commands(a + b) == commands(a) + commands(b),
    decreases b.len(),
{
    if b.len() == 0 {
        assert(a + b =~= a);
        assert(commands(a) + commands(b) =~= commands(a));
    } else {
        assert((a + b).drop_last() =~= a + b.drop_last());
        lemma_commands_concat(a, b.drop_last());
        match command(b.last()) {
            Some(op) => {
                assert((commands(a) + commands(b.drop_last())).push(op) =~= commands(a)
                    + commands(b.drop_last()).push(op));
            },
            None => {},
        }
    }
}

/// A loop end without its start stays one, whatever follows.
pub proof fn lemma_stray_end_stays(a: Seq<u8>, b: Seq<u8>)
    requires
        !no_stray_end(commands(a), commands(a).len() as int),
    ensures
        !no_stray_end(commands(a + b), commands(a + b).len() as int),
{
    lemma_commands_concat(a, b);
    let i = choose|i: int|
        0 <= i <= commands(a).len() && !(#[trigger] nesting(commands(a), i) >= 0);
    lemma_nesting_prefix(commands(a), commands(a + b), i);
    assert(nesting(commands(a + b), i) < 0);
}

/// No more loops are open than there are instructions.
pub proof fn lemma_nesting_bound(ops: Seq<SpecOp>, i: int)
    requires
        0 <= i,
    ensures
        nesting(ops, i) <= i,
    decreases i,
{
    if i > 0 {
        lemma_nesting_bound(ops, i - 1);
    }
}

} // verus!
