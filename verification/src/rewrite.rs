//! The rules by which programs are rewritten.
use vstd::prelude::*;
use vstd::wrapping::{i32_specs, i64_specs};

use crate::brackets::{balanced, balanced_span, is_pair, lemma_balanced_subrange, lemma_span_loop,
    lemma_span_plain, loop_end};
use crate::machine::loop_of;
use crate::op::{CellUpdate, SpecOp};

verus! {

/// The program `ops` with `op` set behind it, where a step that follows a step
/// of its kind is merged with it, and a step by nothing is left out.
pub open spec fn pushed(ops: Seq<SpecOp>, op: SpecOp) -> Seq<SpecOp> {
    match op {
        SpecOp::PtrAdd(delta) => if delta == 0 {
            ops
        } else if ops.len() > 0 && ops.last() is PtrAdd {
            let sum = i64_specs::wrapping_add(ops.last()->PtrAdd_0, delta);
            if sum == 0 {
                ops.drop_last()
            } else {
                ops.drop_last().push(SpecOp::PtrAdd(sum))
            }
        } else {
            ops.push(op)
        },
        SpecOp::CellAdd(delta) => if delta == 0 {
            ops
        } else if ops.len() > 0 && ops.last() is CellAdd {
            let sum = i32_specs::wrapping_add(ops.last()->CellAdd_0, delta);
            if sum == 0 {
                ops.drop_last()
            } else {
                ops.drop_last().push(SpecOp::CellAdd(sum))
            }
        } else {
            ops.push(op)
        },
        _ => ops.push(op),
    }
}

/// The program made of `ops` set one behind the other, merging steps.
pub open spec fn merged(ops: Seq<SpecOp>) -> Seq<SpecOp>
    decreases ops.len(),
{
    if ops.len() == 0 {
        ops
    } else {
        pushed(merged(ops.drop_last()), ops.last())
    }
}

/// `>`
pub const RIGHT: u8 = 62;

/// `<`
pub const LEFT: u8 = 60;

/// `+`
pub const PLUS: u8 = 43;

/// `-`
pub const MINUS: u8 = 45;

/// `.`
pub const DOT: u8 = 46;

/// `,`
pub const COMMA: u8 = 44;

/// `[`
pub const OPEN: u8 = 91;

/// `]`
pub const CLOSE: u8 = 93;

/// The instruction that a source byte stands for; any other byte is a comment.
pub open spec fn command(byte: u8) -> Option<SpecOp> {
    if byte == RIGHT {
        Some(SpecOp::PtrAdd(1))
    } else if byte == LEFT {
        Some(SpecOp::PtrAdd((-1) as i64))
    } else if byte == PLUS {
        Some(SpecOp::CellAdd(1))
    } else if byte == MINUS {
        Some(SpecOp::CellAdd((-1) as i32))
    } else if byte == DOT {
        Some(SpecOp::Output)
    } else if byte == COMMA {
        Some(SpecOp::Input)
    } else if byte == OPEN {
        Some(SpecOp::LoopStart)
    } else if byte == CLOSE {
        Some(SpecOp::LoopEnd)
    } else {
        None
    }
}

/// The instructions that a source text stands for, one for each command.
pub open spec fn commands(source: Seq<u8>) -> Seq<SpecOp>
    decreases source.len(),
{
    if source.len() == 0 {
        Seq::empty()
    } else {
        match command(source.last()) {
            Some(op) => commands(source.drop_last()).push(op),
            None => commands(source.drop_last()),
        }
    }
}

/// The body only moves the pointer and adds to cells.
pub open spec fn straight(body: Seq<SpecOp>) -> bool {
    forall|i: int| 0 <= i < body.len() ==> (#[trigger] body[i] is PtrAdd || body[i] is CellAdd)
}

/// How far the first `n` instructions move the pointer.
pub open spec fn offset_at(body: Seq<SpecOp>, n: int) -> i64
    decreases n,
{
    if n <= 0 {
        0
    } else {
        match body[n - 1] {
            SpecOp::PtrAdd(delta) => i64_specs::wrapping_add(offset_at(body, n - 1), delta),
            _ => offset_at(body, n - 1),
        }
    }
}

/// What the first `n` instructions add to the cell at `offset`.
pub open spec fn factor_at(body: Seq<SpecOp>, n: int, offset: i64) -> i32
    decreases n,
{
    if n <= 0 {
        0
    } else {
        match body[n - 1] {
            SpecOp::CellAdd(delta) => if offset_at(body, n - 1) == offset {
                i32_specs::wrapping_add(factor_at(body, n - 1, offset), delta)
            } else {
                factor_at(body, n - 1, offset)
            },
            _ => factor_at(body, n - 1, offset),
        }
    }
}

/// What a round of the loop adds to the cell at `offset`.
pub open spec fn factor(body: Seq<SpecOp>, offset: i64) -> i32 {
    factor_at(body, body.len() as int, offset)
}

/// A loop that only adds an odd number to its cell. It ends with the cell zero.
pub open spec fn is_clear_loop(body: Seq<SpecOp>) -> bool {
    body.len() == 1 && body[0] is CellAdd && body[0]->CellAdd_0 as int % 2 != 0
}

/// A loop that counts its cell down by one each round, adds to other cells, and
/// ends each round where it began it.
pub open spec fn is_transfer_loop(body: Seq<SpecOp>) -> bool {
    &&& straight(body)
    &&& offset_at(body, body.len() as int) == 0
    &&& factor(body, 0) as int % 256 == 255
}

/// A round of the loop changes the cell at `offset`, which is not the loop's own.
pub open spec fn is_target(body: Seq<SpecOp>, offset: i64) -> bool {
    offset != 0 && factor(body, offset) as int % 256 != 0
}

/// `updates` are the cells that a round of the loop changes beside its own, by
/// rising offset, with what it adds to each.
pub open spec fn are_transfers(body: Seq<SpecOp>, updates: Seq<CellUpdate>) -> bool {
    &&& forall|i: int, j: int|
        0 <= i < j < updates.len() ==> (#[trigger] updates[i]).offset < (
        #[trigger] updates[j]).offset
    &&& forall|i: int|
        0 <= i < updates.len() ==> is_target(body, (#[trigger] updates[i]).offset)
            && updates[i].factor == factor(body, updates[i].offset)
    &&& forall|offset: i64| #[trigger]
        is_target(body, offset) ==> exists|i: int|
            0 <= i < updates.len() && (#[trigger] updates[i]).offset == offset
}

/// The cells that a round of the loop changes beside its own.
pub open spec fn transfers(body: Seq<SpecOp>) -> Seq<CellUpdate> {
    choose|updates: Seq<CellUpdate>| are_transfers(body, updates)
}

/// The single instruction that does what a loop does, if there is one.
pub open spec fn loop_op(body: Seq<SpecOp>) -> Option<SpecOp> {
    if is_clear_loop(body) {
        Some(SpecOp::ClearCell)
    } else if is_transfer_loop(body) {
        if transfers(body).len() == 0 {
            Some(SpecOp::ClearCell)
        } else {
            Some(SpecOp::AddScaled(transfers(body)))
        }
    } else {
        None
    }
}

/// The program `ops` with a loop set behind it, or the instruction that does
/// what the loop does.
pub open spec fn placed(ops: Seq<SpecOp>, body: Seq<SpecOp>) -> Seq<SpecOp> {
    match loop_op(body) {
        Some(op) => pushed(ops, op),
        None => ops + loop_of(body),
    }
}

/// The program `acc` with the instructions from `i` to `end` of `ops` set behind
/// it, rewritten from the innermost loops outwards. There is none if a loop end
/// comes up that belongs to no loop of that part.
pub open spec fn optimized_span(
    ops: Seq<SpecOp>,
    acc: Seq<SpecOp>,
    i: int,
    end: int,
) -> Option<Seq<SpecOp>>
    decreases ops.len() - i,
{
    if i < 0 || i >= end || i >= ops.len() {
        Some(acc)
    } else if ops[i] is LoopStart {
        let e = loop_end(ops, i);
        if is_pair(ops, i, e) {
            match optimized_span(ops, Seq::empty(), i + 1, e) {
                Some(body) => optimized_span(ops, placed(acc, body), e + 1, end),
                None => None,
            }
        } else {
            None
        }
    } else if ops[i] is LoopEnd {
        None
    } else {
        optimized_span(ops, pushed(acc, ops[i]), i + 1, end)
    }
}

/// The program rewritten, if its loops match.
pub open spec fn optimized(ops: Seq<SpecOp>) -> Option<Seq<SpecOp>> {
    optimized_span(ops, Seq::empty(), 0, ops.len() as int)
}

/// The program that a source text is read as, if its loops match.
pub open spec fn parsed(source: Seq<u8>) -> Seq<SpecOp> {
    optimized(merged(commands(source)))->0
}

/// The number is one that a move can be by.
pub open spec fn is_move(by: int) -> bool {
    i64::MIN <= by <= i64::MAX
}

/// Setting `op` behind the program merges no two moves whose sum is too large
/// for a move.
pub open spec fn push_fits(ops: Seq<SpecOp>, op: SpecOp) -> bool {
    ops.len() > 0 && ops.last() is PtrAdd && op is PtrAdd ==> is_move(
        ops.last()->PtrAdd_0 + op->PtrAdd_0,
    )
}

/// No sum of moves is too large for a move when the program's steps are merged.
pub open spec fn merge_fits(ops: Seq<SpecOp>) -> bool
    decreases ops.len(),
{
    ops.len() == 0 || (merge_fits(ops.drop_last()) && push_fits(
        merged(ops.drop_last()),
        ops.last(),
    ))
}

/// No sum of moves is too large for a move when it is found out what a straight
/// body does.
pub open spec fn body_fits(body: Seq<SpecOp>) -> bool {
    straight(body) ==> forall|i: int|
        0 <= i < body.len() && #[trigger] body[i] is PtrAdd ==> is_move(
            offset_at(body, i) + body[i]->PtrAdd_0,
        )
}

/// No sum of moves is too large for a move when the instructions from `i` to
/// `end` are rewritten and set behind `acc`.
pub open spec fn span_fits(ops: Seq<SpecOp>, acc: Seq<SpecOp>, i: int, end: int) -> bool
    decreases ops.len() - i,
{
    if i < 0 || i >= end || i >= ops.len() {
        true
    } else if ops[i] is LoopStart {
        let e = loop_end(ops, i);
        let body = optimized_span(ops, Seq::empty(), i + 1, e)->0;
        is_pair(ops, i, e) ==> span_fits(ops, Seq::empty(), i + 1, e) && body_fits(body)
            && span_fits(ops, placed(acc, body), e + 1, end)
    } else {
        push_fits(acc, ops[i]) && span_fits(ops, pushed(acc, ops[i]), i + 1, end)
    }
}

/// No sum of moves is too large for a move when the program is rewritten.
pub open spec fn optimize_fits(ops: Seq<SpecOp>) -> bool {
    span_fits(ops, Seq::empty(), 0, ops.len() as int)
}

proof fn lemma_transfers_agree(
    body: Seq<SpecOp>,
    a: Seq<CellUpdate>,
    b: Seq<CellUpdate>,
    n: int,
)
    requires
        are_transfers(body, a),
        are_transfers(body, b),
        0 <= n <= a.len(),
        n <= b.len(),
    ensures
        forall|k: int| 0 <= k < n ==> a[k] == b[k],
    decreases n,
{
    if n > 0 {
        lemma_transfers_agree(body, a, b, n - 1);
        let x = a[n - 1];
        let y = b[n - 1];
        assert(is_target(body, x.offset) && is_target(body, y.offset));
        let i = choose|i: int| 0 <= i < b.len() && (#[trigger] b[i]).offset == x.offset;
        let j = choose|j: int| 0 <= j < a.len() && (#[trigger] a[j]).offset == y.offset;
        assert(b[i].offset == x.offset && a[j].offset == y.offset);
        if x.offset < y.offset {
            assert(i < n - 1);
            assert(a[i] == b[i]);
        } else if y.offset < x.offset {
            assert(j < n - 1);
            assert(a[j] == b[j]);
        }
    }
}

/// There is one list of the cells that a loop changes.
pub proof fn lemma_transfers_unique(
    body: Seq<SpecOp>,
    a: Seq<CellUpdate>,
    b: Seq<CellUpdate>,
)
    requires
        are_transfers(body, a),
        are_transfers(body, b),
    ensures
        a == b,
{
    let n = if a.len() < b.len() {
        a.len() as int
    } else {
        b.len() as int
    };
    lemma_transfers_agree(body, a, b, n);
    if n < b.len() {
        assert(is_target(body, b[n].offset));
        let j = choose|j: int| 0 <= j < a.len() && (#[trigger] a[j]).offset == b[n].offset;
        assert(a[j] == b[j]);
    }
    if n < a.len() {
        assert(is_target(body, a[n].offset));
        let j = choose|j: int| 0 <= j < b.len() && (#[trigger] b[j]).offset == a[n].offset;
        assert(a[j] == b[j]);
    }
    assert(a =~= b);
}

/// `transfers` is the list of the cells that a loop changes.
pub proof fn lemma_transfers(body: Seq<SpecOp>, updates: Seq<CellUpdate>)
    requires
        are_transfers(body, updates),
    ensures
        transfers(body) == updates,
{
    lemma_transfers_unique(body, transfers(body), updates);
}

spec fn rising(offsets: Seq<i64>) -> bool {
    forall|i: int, j: int|
        0 <= i < j < offsets.len() ==> #[trigger] offsets[i] < #[trigger] offsets[j]
}

proof fn lemma_rising_insert(offsets: Seq<i64>, o: i64) -> (res: Seq<i64>)
    requires
        rising(offsets),
    ensures
        rising(res),
        forall|x: i64| #[trigger] res.contains(x) <==> offsets.contains(x) || x == o,
    decreases offsets.len(),
{
    if offsets.len() == 0 || offsets.last() < o {
        let res = offsets.push(o);
        assert forall|x: i64| #[trigger] res.contains(x) <==> offsets.contains(x) || x == o by {
            if offsets.contains(x) {
                let k = choose|k: int| 0 <= k < offsets.len() && offsets[k] == x;
                assert(res[k] == x);
            }
            assert(res[offsets.len() as int] == o);
        }
        res
    } else if offsets.last() == o {
        assert(offsets[offsets.len() - 1] == o);
        offsets
    } else {
        let rest = offsets.drop_last();
        let last = offsets.last();
        let part = lemma_rising_insert(rest, o);
        let res = part.push(last);
        assert forall|i: int| 0 <= i < part.len() implies #[trigger] part[i] < last by {
            assert(part.contains(part[i]));
            if part[i] != o {
                let k = choose|k: int| 0 <= k < rest.len() && rest[k] == part[i];
                assert(offsets[k] < offsets[offsets.len() - 1]);
            }
        }
        assert forall|x: i64| #[trigger] res.contains(x) <==> offsets.contains(x) || x == o by {
            if res.contains(x) {
                let k = choose|k: int| 0 <= k < res.len() && res[k] == x;
                if k < part.len() {
                    assert(part.contains(x));
                    if rest.contains(x) {
                        let h = choose|h: int| 0 <= h < rest.len() && rest[h] == x;
                        assert(offsets[h] == x);
                    }
                } else {
                    assert(offsets[offsets.len() - 1] == x);
                }
            }
            if offsets.contains(x) || x == o {
                if offsets.contains(x) {
                    let k = choose|k: int| 0 <= k < offsets.len() && offsets[k] == x;
                    if k < rest.len() {
                        assert(rest[k] == x);
                    } else {
                        assert(res[part.len() as int] == x);
                    }
                }
                if part.contains(x) {
                    let k = choose|k: int| 0 <= k < part.len() && part[k] == x;
                    assert(res[k] == x);
                }
            }
        }
        res
    }
}

/// The offsets at which the first instructions add something, by rising offset.
proof fn lemma_touched(body: Seq<SpecOp>, n: int) -> (res: Seq<i64>)
    requires
        0 <= n <= body.len(),
    ensures
        rising(res),
        forall|o: i64| #[trigger] factor_at(body, n, o) != 0 ==> res.contains(o),
    decreases n,
{
    if n == 0 {
        Seq::empty()
    } else {
        let before = lemma_touched(body, n - 1);
        let res = lemma_rising_insert(before, offset_at(body, n - 1));
        assert forall|o: i64| #[trigger] factor_at(body, n, o) != 0 implies res.contains(o) by {
            if factor_at(body, n - 1, o) != 0 {
                assert(before.contains(o));
            }
        }
        res
    }
}

/// Those of the offsets at which a round changes a cell.
proof fn lemma_keep_targets(body: Seq<SpecOp>, offsets: Seq<i64>) -> (res: Seq<CellUpdate>)
    requires
        rising(offsets),
    ensures
        forall|i: int, j: int|
            0 <= i < j < res.len() ==> (#[trigger] res[i]).offset < (#[trigger] res[j]).offset,
        forall|i: int|
            0 <= i < res.len() ==> is_target(body, (#[trigger] res[i]).offset) && res[i].factor
                == factor(body, res[i].offset) && offsets.contains(res[i].offset),
        forall|k: int|
            0 <= k < offsets.len() && is_target(body, #[trigger] offsets[k]) ==> exists|i: int|
                0 <= i < res.len() && (#[trigger] res[i]).offset == offsets[k],
    decreases offsets.len(),
{
    if offsets.len() == 0 {
        Seq::empty()
    } else {
        let rest = offsets.drop_last();
        let last = offsets.last();
        let part = lemma_keep_targets(body, rest);
        let res = if is_target(body, last) {
            part.push(CellUpdate { offset: last, factor: factor(body, last) })
        } else {
            part
        };
        assert(offsets[offsets.len() - 1] == last);
        assert forall|i: int| 0 <= i < part.len() implies (#[trigger] part[i]).offset < last
            && offsets.contains(part[i].offset) by {
            let k = choose|k: int| 0 <= k < rest.len() && rest[k] == part[i].offset;
            assert(offsets[k] == part[i].offset);
        }
        assert forall|k: int|
            0 <= k < offsets.len() && is_target(body, #[trigger] offsets[k]) implies exists|i: int|
            0 <= i < res.len() && (#[trigger] res[i]).offset == offsets[k] by {
            if k < rest.len() {
                assert(rest[k] == offsets[k]);
                let i = choose|i: int|
                    0 <= i < part.len() && (#[trigger] part[i]).offset == rest[k];
                assert(res[i].offset == offsets[k]);
            } else {
                assert(res[part.len() as int].offset == offsets[k]);
            }
        }
        res
    }
}

/// There is a list of the cells that a loop changes.
pub proof fn lemma_transfers_exist(body: Seq<SpecOp>)
    ensures
        are_transfers(body, transfers(body)),
{
    let offsets = lemma_touched(body, body.len() as int);
    let updates = lemma_keep_targets(body, offsets);
    assert forall|o: i64| #[trigger] is_target(body, o) implies exists|i: int|
        0 <= i < updates.len() && (#[trigger] updates[i]).offset == o by {
        assert(factor_at(body, body.len() as int, o) != 0);
        let k = choose|k: int| 0 <= k < offsets.len() && offsets[k] == o;
        assert(is_target(body, offsets[k]));
    }
    assert(are_transfers(body, updates));
}

/// A balanced part of a program can be rewritten.
pub proof fn lemma_optimized_span_some(ops: Seq<SpecOp>, acc: Seq<SpecOp>, i: int, end: int)
    requires
        balanced_span(ops, i, end),
    ensures
        optimized_span(ops, acc, i, end) is Some,
    decreases end - i,
{
    if i < end {
        lemma_span_plain(ops, i, end);
        if ops[i] is LoopStart {
            lemma_span_loop(ops, i, end);
            let e = loop_end(ops, i);
            lemma_optimized_span_some(ops, Seq::empty(), i + 1, e);
            let body = optimized_span(ops, Seq::empty(), i + 1, e)->0;
            lemma_optimized_span_some(ops, placed(acc, body), e + 1, end);
        } else {
            lemma_optimized_span_some(ops, pushed(acc, ops[i]), i + 1, end);
        }
    }
}

/// A program whose loops match can be rewritten.
pub proof fn lemma_optimized_some(ops: Seq<SpecOp>)
    requires
        balanced(ops),
    ensures
        optimized(ops) is Some,
{
    assert(ops =~= ops.subrange(0, ops.len() as int));
    lemma_balanced_subrange(ops, 0, ops.len() as int);
    lemma_optimized_span_some(ops, Seq::empty(), 0, ops.len() as int);
}

} // verus!
