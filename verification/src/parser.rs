//! From source text to a program.
use std::collections::BTreeMap;
use vstd::prelude::*;
use vstd::std_specs::btree::spec_btree_map_iter;
use vstd::std_specs::cmp::OrdSpec;
use vstd::std_specs::iter::IteratorSpec;
use vstd::wrapping::i32_specs;

use crate::brackets::{balanced, is_pair, lemma_loop_end, loop_end, nesting, no_stray_end};
use crate::machine::loop_of;
use crate::merge::{lemma_commands_push, lemma_merged_nesting, lemma_merged_tight,
    lemma_nesting_bound, lemma_nesting_push, lemma_pushed_cell_twice, lemma_pushed_ptr_twice,
    lemma_stray_end_stays, tight};
use crate::op::{CellUpdate, Op, SpecOp};
use crate::rewrite::{are_transfers, command, commands, factor, factor_at, is_clear_loop, is_target,
    is_transfer_loop, lemma_optimized_some, lemma_transfers, loop_op, merged, offset_at, optimized,
    optimized_span, placed, pushed, CLOSE, COMMA, DOT, LEFT, MINUS, OPEN, PLUS, RIGHT};

verus! {

/// Why a source text is no program.
#[derive(Clone, Copy, Debug, PartialEq, Eq)]
pub enum ParseError {
    UnmatchedClosing,
    UnmatchedOpening,
    InternalUnmatchedClosing,
    InternalUnmatchedOpening,
    InternalUnexpectedLoopTerminator,
}

impl ParseError {
    /// What is said of it.
    pub open spec fn spec_message(self) -> &'static str {
        match self {
            ParseError::UnmatchedClosing => "unmatched closing bracket ']' found",
            ParseError::UnmatchedOpening => "unmatched opening bracket '[' found",
            ParseError::InternalUnmatchedClosing => "internal unmatched closing bracket",
            ParseError::InternalUnmatchedOpening => "internal unmatched opening bracket",
            ParseError::InternalUnexpectedLoopTerminator => "internal unexpected loop terminator",
        }
    }

    /// What is said of it.
    pub fn message(self) -> (res: &'static str)
        ensures
            res == self.spec_message(),
    {
        match self {
            ParseError::UnmatchedClosing => "unmatched closing bracket ']' found",
            ParseError::UnmatchedOpening => "unmatched opening bracket '[' found",
            ParseError::InternalUnmatchedClosing => "internal unmatched closing bracket",
            ParseError::InternalUnmatchedOpening => "internal unmatched opening bracket",
            ParseError::InternalUnexpectedLoopTerminator => "internal unexpected loop terminator",
        }
    }
}

/// Sets `op` behind the program, merging it with a step of its kind.
pub fn push_op(ops: &mut Vec<Op>, op: Op)
    ensures
        final(ops).deep_view() == pushed(old(ops).deep_view(), op.deep_view()),
{
    match op {
        Op::PtrAdd(0) | Op::CellAdd(0) => {}
        Op::PtrAdd(delta) => {
            if let Some(Op::PtrAdd(prev)) = ops.last_mut() {
                *prev = prev.wrapping_add(delta);
                if *prev == 0 {
                    ops.pop();
                }
            } else {
                ops.push(Op::PtrAdd(delta));
            }
        }
        Op::CellAdd(delta) => {
            if let Some(Op::CellAdd(prev)) = ops.last_mut() {
                *prev = prev.wrapping_add(delta);
                if *prev == 0 {
                    ops.pop();
                }
            } else {
                ops.push(Op::CellAdd(delta));
            }
        }
        other => ops.push(other),
    }
}

/// `pairs` gives for each loop start its end, for each loop end its start, and
/// for any other instruction the largest index.
pub open spec fn are_loop_pairs(ops: Seq<SpecOp>, pairs: Seq<usize>) -> bool {
    &&& pairs.len() == ops.len()
    &&& forall|i: int|
        0 <= i < ops.len() ==> match #[trigger] ops[i] {
            SpecOp::LoopStart => is_pair(ops, i, pairs[i] as int),
            SpecOp::LoopEnd => is_pair(ops, pairs[i] as int, i),
            _ => pairs[i] == usize::MAX,
        }
}

/// `pairs` gives for each loop start its end.
pub open spec fn are_loop_ends(ops: Seq<SpecOp>, pairs: Seq<usize>) -> bool {
    &&& pairs.len() == ops.len()
    &&& forall|i: int|
        0 <= i < ops.len() && #[trigger] ops[i] is LoopStart ==> is_pair(ops, i, pairs[i] as int)
}

/// Among the first `n` instructions each loop has its two places in `pairs`, or
/// its start on the stack of open loops.
spec fn paired_upto(ops: Seq<SpecOp>, pairs: Seq<usize>, stack: Seq<usize>, n: int) -> bool {
    forall|i: int|
        0 <= i < n ==> match #[trigger] ops[i] {
            SpecOp::LoopStart => is_pair(ops, i, pairs[i] as int) || stack.contains(i as usize),
            SpecOp::LoopEnd => is_pair(ops, pairs[i] as int, i),
            _ => pairs[i] == usize::MAX,
        }
}

proof fn lemma_paired_step(
    ops: Seq<SpecOp>,
    pairs: Seq<usize>,
    stack: Seq<usize>,
    pairs_after: Seq<usize>,
    stack_after: Seq<usize>,
    n: int,
)
    requires
        0 <= n < ops.len() <= usize::MAX,
        pairs.len() == ops.len(),
        paired_upto(ops, pairs, stack, n),
        pairs[n] == usize::MAX,
        match ops[n] {
            SpecOp::LoopStart => stack_after == stack.push(n as usize) && pairs_after == pairs,
            SpecOp::LoopEnd => stack.len() > 0 && stack.last() < n && stack_after
                == stack.drop_last() && is_pair(ops, stack.last() as int, n) && pairs_after
                == pairs.update(stack.last() as int, n as usize).update(n, stack.last()),
            _ => stack_after == stack && pairs_after == pairs,
        },
    ensures
        paired_upto(ops, pairs_after, stack_after, n + 1),
{
    assert forall|i: int| 0 <= i < n + 1 implies match #[trigger] ops[i] {
        SpecOp::LoopStart => is_pair(ops, i, pairs_after[i] as int) || stack_after.contains(
            i as usize,
        ),
        SpecOp::LoopEnd => is_pair(ops, pairs_after[i] as int, i),
        _ => pairs_after[i] == usize::MAX,
    } by {
        if ops[n] is LoopStart {
            assert(stack_after[stack.len() as int] == n as usize);
        }
        if i < n && ops[i] is LoopStart && stack.contains(i as usize) {
            let k = choose|k: int| 0 <= k < stack.len() && stack[k] == i as usize;
            if k < stack_after.len() {
                assert(stack_after[k] == i as usize);
            }
        }
    }
}

/// Why the loops of a program do not match, if they do not.
pub open spec fn loop_error(ops: Seq<SpecOp>) -> Option<ParseError> {
    if !no_stray_end(ops, ops.len() as int) {
        Some(ParseError::InternalUnmatchedClosing)
    } else if nesting(ops, ops.len() as int) > 0 {
        Some(ParseError::InternalUnmatchedOpening)
    } else {
        None
    }
}

/// Finds for each loop start its end and for each loop end its start.
pub fn compute_loop_pairs(ops: &[Op]) -> (res: Result<Vec<usize>, ParseError>)
    ensures
        match res {
            Ok(pairs) => balanced(ops.deep_view()) && are_loop_pairs(ops.deep_view(), pairs@),
            Err(ParseError::InternalUnmatchedClosing) => !no_stray_end(
                ops.deep_view(),
                ops.len() as int,
            ),
            Err(ParseError::InternalUnmatchedOpening) => no_stray_end(
                ops.deep_view(),
                ops.len() as int,
            ) && nesting(ops.deep_view(), ops.len() as int) > 0,
            Err(_) => false,
        },
        match res {
            Ok(_) => loop_error(ops.deep_view()) is None,
            Err(error) => loop_error(ops.deep_view()) == Some(error),
        },
{
    let ghost view = ops.deep_view();
    let mut loop_pairs: Vec<usize> = vec![usize::MAX; ops.len()];
    let mut stack: Vec<usize> = Vec::new();
    let mut index: usize = 0;
    while index < ops.len()
        invariant
            view == ops.deep_view(),
            index <= ops.len() == view.len(),
            loop_pairs.len() == ops.len(),
            stack.len() == nesting(view, index as int),
            no_stray_end(view, index as int),
            forall|k: int|
                0 <= k < stack.len() ==> (#[trigger] stack[k]) < index
                    && view[stack[k] as int] is LoopStart && nesting(view, stack[k] as int) == k,
            forall|k: int, j: int|
                0 <= k < stack.len() && #[trigger] stack[k] < j <= index ==> #[trigger] nesting(
                    view,
                    j,
                ) > k,
            paired_upto(view, loop_pairs@, stack@, index as int),
            forall|i: int| index <= i < ops.len() ==> #[trigger] loop_pairs[i] == usize::MAX,
        decreases ops.len() - index,
    {
        let ghost before = stack@;
        let ghost pairs_before = loop_pairs@;
        assert(view[index as int] == ops[index as int].deep_view());
        match &ops[index] {
            Op::LoopStart => {
                stack.push(index);
            },
            Op::LoopEnd => {
                match stack.pop() {
                    Some(start) => {
                        loop_pairs[start] = index;
                        loop_pairs[index] = start;
                    },
                    None => {
                        assert(nesting(view, index + 1) < 0);
                        return Err(ParseError::InternalUnmatchedClosing);
                    },
                }
            },
            _ => {},
        }
        proof {
            lemma_paired_step(view, pairs_before, before, loop_pairs@, stack@, index as int);
        }
        index += 1;
    }
    if !stack.is_empty() {
        return Err(ParseError::InternalUnmatchedOpening);
    }
    Ok(loop_pairs)
}

/// The remainder of a division by `modulus` that is not negative.
fn rem_euclid(value: i32, modulus: i32) -> (res: i32)
    requires
        modulus > 0,
    ensures
        res == value as int % modulus as int,
{
    match value.checked_rem_euclid(modulus) {
        Some(rest) => rest,
        None => 0,
    }
}

/// Recognises a loop that does nothing but clear its cell.
pub fn try_optimize_clear_loop(body: &[Op]) -> (res: Option<Op>)
    ensures
        res is Some <==> is_clear_loop(body.deep_view()),
        res matches Some(op) ==> op is ClearCell,
{
    if body.len() == 1 {
        assert(body.deep_view()[0] == body[0].deep_view());
        match &body[0] {
            Op::CellAdd(delta) => if rem_euclid(*delta, 2) != 0 {
                Some(Op::ClearCell)
            } else {
                None
            },
            _ => None,
        }
    } else {
        None
    }
}

/// Adds `delta` to what is counted for `offset`.
fn add_to_entry(updates: &mut BTreeMap<i64, i32>, offset: i64, delta: i32)
    ensures
        final(updates)@ == old(updates)@.insert(
            offset,
            i32_specs::wrapping_add(
                if old(updates)@.contains_key(offset) {
                    old(updates)@[offset]
                } else {
                    0
                },
                delta,
            ),
        ),
{
    broadcast use vstd::laws_cmp::group_laws_cmp;
    broadcast use vstd::std_specs::btree::group_btree_axioms;

    let sum: i32 = match updates.get(&offset) {
        Some(sum) => *sum,
        None => 0,
    };
    updates.insert(offset, sum.wrapping_add(delta));
}

/// The entries of the table, by rising offset.
fn sorted_entries(updates: &BTreeMap<i64, i32>) -> (entries: Vec<(i64, i32)>)
    ensures
        forall|i: int, j: int|
            0 <= i < j < entries.len() ==> (#[trigger] entries[i]).0 < (#[trigger] entries[j]).0,
        forall|i: int|
            0 <= i < entries.len() ==> updates@.contains_key((#[trigger] entries[i]).0)
                && updates@[entries[i].0] == entries[i].1,
        forall|o: i64| #[trigger]
            updates@.contains_key(o) ==> exists|i: int|
                0 <= i < entries.len() && (#[trigger] entries[i]).0 == o,
{
    broadcast use vstd::laws_cmp::group_laws_cmp;
    broadcast use vstd::std_specs::btree::group_btree_axioms;

    let mut entries: Vec<(i64, i32)> = Vec::new();
    for (offset, factor) in it: updates.iter()
        invariant
            entries.len() == it.index(),
            forall|i: int|
                0 <= i < entries.len() ==> (#[trigger] entries[i]).0 == *it.seq()[i].0
                    && entries[i].1 == *it.seq()[i].1,
    {
        entries.push((*offset, *factor));
    }
    proof {
        let keys = spec_btree_map_iter(updates).remaining().map_values(
            |kv: (&i64, &i32)| *kv.0,
        );
        assert(vstd::std_specs::btree::increasing_seq(keys));
        assert forall|i: int, j: int| 0 <= i < j < entries.len() implies (#[trigger] entries[i]).0
            < (#[trigger] entries[j]).0 by {
            assert(entries[i].0 == keys[i] && entries[j].0 == keys[j]);
            assert(keys[i].cmp_spec(&keys[j]) is Less);
        }
        assert forall|o: i64| #[trigger] updates@.contains_key(o) implies exists|i: int|
            0 <= i < entries.len() && (#[trigger] entries[i]).0 == o by {
            let items = spec_btree_map_iter(updates).remaining();
            assert(items.contains((&o, &updates@[o])));
            let i = choose|i: int| 0 <= i < items.len() && items[i] == (&o, &updates@[o]);
            assert(entries[i].0 == o);
        }
    }
    entries
}

/// Recognises a loop that adds multiples of its cell to other cells.
pub fn try_optimize_add_scaled_loop(body: &[Op]) -> (res: Option<Op>)
    ensures
        match res {
            Some(Op::ClearCell) => is_transfer_loop(body.deep_view()) && are_transfers(
                body.deep_view(),
                Seq::empty(),
            ),
            Some(Op::AddScaled(updates)) => is_transfer_loop(body.deep_view()) && updates.len() > 0
                && are_transfers(body.deep_view(), updates@),
            Some(_) => false,
            None => !is_transfer_loop(body.deep_view()),
        },
{
    let ghost view = body.deep_view();
    let mut pointer_offset: i64 = 0;
    let mut current_delta: i32 = 0;
    let mut updates: BTreeMap<i64, i32> = BTreeMap::new();
    let mut index: usize = 0;
    while index < body.len()
        invariant
            view == body.deep_view(),
            index <= body.len() == view.len(),
            forall|i: int| 0 <= i < index ==> (#[trigger] view[i] is PtrAdd || view[i] is CellAdd),
            pointer_offset == offset_at(view, index as int),
            current_delta == factor_at(view, index as int, 0),
            !updates@.contains_key(0),
            forall|o: i64| #[trigger]
                updates@.contains_key(o) ==> updates@[o] == factor_at(view, index as int, o),
            forall|o: i64|
                o != 0 && !updates@.contains_key(o) ==> #[trigger] factor_at(view, index as int, o)
                    == 0,
        decreases body.len() - index,
    {
        let ghost before = updates@;
        assert(view[index as int] == body[index as int].deep_view());
        match &body[index] {
            Op::PtrAdd(delta) => {
                pointer_offset = pointer_offset.wrapping_add(*delta);
            },
            Op::CellAdd(delta) => {
                if pointer_offset == 0 {
                    current_delta = current_delta.wrapping_add(*delta);
                } else {
                    add_to_entry(&mut updates, pointer_offset, *delta);
                }
            },
            _ => {
                return None;
            },
        }
        proof {
            let now = index as int;
            assert forall|o: i64| #[trigger] updates@.contains_key(o) implies updates@[o]
                == factor_at(view, now + 1, o) by {
                assert(before.contains_key(o) || factor_at(view, now, o) == 0);
            }
            assert forall|o: i64| o != 0 && !updates@.contains_key(o) implies #[trigger] factor_at(
                view,
                now + 1,
                o,
            ) == 0 by {
                assert(factor_at(view, now, o) == 0);
            }
        }
        index += 1;
    }
    if pointer_offset != 0 || rem_euclid(current_delta, 256) != 255 {
        return None;
    }
    let mut kept: Vec<CellUpdate> = Vec::new();
    let entries = sorted_entries(&updates);
    let mut next: usize = 0;
    while next < entries.len()
        invariant
            next <= entries.len(),
            forall|i: int, j: int|
                0 <= i < j < entries.len() ==> (#[trigger] entries[i]).0 < (
                #[trigger] entries[j]).0,
            forall|i: int|
                0 <= i < entries.len() ==> (#[trigger] entries[i]).0 != 0 && entries[i].1 == factor(
                    view,
                    entries[i].0,
                ),
            forall|i: int, j: int|
                0 <= i < j < kept.len() ==> (#[trigger] kept[i]).offset < (
                #[trigger] kept[j]).offset,
            forall|i: int, j: int|
                0 <= i < kept.len() && next <= j < entries.len() ==> (#[trigger] kept[i]).offset < (
                #[trigger] entries[j]).0,
            forall|i: int|
                0 <= i < kept.len() ==> is_target(view, (#[trigger] kept[i]).offset)
                    && kept[i].factor == factor(view, kept[i].offset),
            forall|j: int|
                0 <= j < next && is_target(view, (#[trigger] entries[j]).0) ==> exists|i: int|
                    0 <= i < kept.len() && (#[trigger] kept[i]).offset == entries[j].0,
        decreases entries.len() - next,
    {
        let ghost before = kept@;
        let ghost now = next as int;
        let (offset, factor) = entries[next];
        if rem_euclid(factor, 256) != 0 {
            kept.push(CellUpdate { offset, factor });
        }
        proof {
            assert forall|j: int|
                0 <= j < now + 1 && is_target(view, (#[trigger] entries[j]).0) implies exists|
                i: int,
            |
                0 <= i < kept.len() && (#[trigger] kept[i]).offset == entries[j].0 by {
                if j < now {
                    let i = choose|i: int|
                        0 <= i < before.len() && (#[trigger] before[i]).offset == entries[j].0;
                    assert(kept[i] == before[i]);
                } else {
                    assert(kept[before.len() as int].offset == entries[j].0);
                }
            }
        }
        next += 1;
    }
    proof {
        assert forall|o: i64| #[trigger] is_target(view, o) implies exists|i: int|
            0 <= i < kept.len() && (#[trigger] kept[i]).offset == o by {
            assert(updates@.contains_key(o)) by {
                assert(factor_at(view, view.len() as int, o) != 0);
            }
            let j = choose|j: int| 0 <= j < entries.len() && (#[trigger] entries[j]).0 == o;
            assert(is_target(view, entries[j].0));
        }
        assert(are_transfers(view, kept@));
    }
    if kept.is_empty() {
        assert(kept@ =~= Seq::empty());
        Some(Op::ClearCell)
    } else {
        Some(Op::AddScaled(kept))
    }
}

/// The single instruction that does what the loop does, if there is one.
pub fn try_optimize_loop(body: &[Op]) -> (res: Option<Op>)
    ensures
        match res {
            Some(op) => loop_op(body.deep_view()) == Some(op.deep_view()),
            None => loop_op(body.deep_view()) is None,
        },
{
    match try_optimize_clear_loop(body) {
        Some(op) => Some(op),
        None => {
            let res = try_optimize_add_scaled_loop(body);
            proof {
                match &res {
                    Some(Op::ClearCell) => {
                        lemma_transfers(body.deep_view(), Seq::empty());
                    },
                    Some(Op::AddScaled(updates)) => {
                        lemma_transfers(body.deep_view(), updates@);
                    },
                    _ => {},
                }
            }
            res
        },
    }
}

/// Rewrites the instructions from `start` to `end`, from the innermost loops
/// outwards.
pub fn optimize_range(ops: &[Op], loop_pairs: &[usize], start: usize, end: usize) -> (res: Result<
    Vec<Op>,
    ParseError,
>)
    requires
        end <= ops.len(),
        are_loop_ends(ops.deep_view(), loop_pairs@),
    ensures
        match res {
            Ok(out) => optimized_span(ops.deep_view(), Seq::empty(), start as int, end as int)
                == Some(out.deep_view()),
            Err(e) => e is InternalUnexpectedLoopTerminator && optimized_span(
                ops.deep_view(),
                Seq::empty(),
                start as int,
                end as int,
            ) is None,
        },
    decreases ops.len() - start,
{
    let ghost view = ops.deep_view();
    let mut optimized: Vec<Op> = Vec::new();
    let mut index: usize = start;
    assert(optimized.deep_view() =~= Seq::empty());
    while index < end
        invariant
            view == ops.deep_view(),
            start <= index,
            end <= ops.len() == view.len(),
            are_loop_ends(view, loop_pairs@),
            optimized_span(view, Seq::empty(), start as int, end as int) == optimized_span(
                view,
                optimized.deep_view(),
                index as int,
                end as int,
            ),
        decreases ops.len() - index,
    {
        assert(view[index as int] == ops[index as int].deep_view());
        match &ops[index] {
            Op::LoopStart => {
                let loop_end = loop_pairs[index];
                proof {
                    lemma_loop_end(view, index as int, loop_end as int);
                }
                let mut body = optimize_range(ops, loop_pairs, index + 1, loop_end)?;
                let ghost inner = body.deep_view();
                let ghost before = optimized.deep_view();
                match try_optimize_loop(&body) {
                    Some(op) => {
                        push_op(&mut optimized, op);
                    },
                    None => {
                        optimized.push(Op::LoopStart);
                        optimized.append(&mut body);
                        optimized.push(Op::LoopEnd);
                        assert(optimized.deep_view() =~= before + loop_of(inner));
                    },
                }
                assert(optimized.deep_view() == placed(before, inner));
                index = loop_end + 1;
            },
            Op::LoopEnd => {
                return Err(ParseError::InternalUnexpectedLoopTerminator);
            },
            other => {
                push_op(&mut optimized, other.clone());
                index += 1;
            },
        }
    }
    Ok(optimized)
}

/// Rewrites a program, from the innermost loops outwards.
pub fn optimize_ops(ops: &[Op]) -> (res: Result<Vec<Op>, ParseError>)
    ensures
        match res {
            Ok(out) => balanced(ops.deep_view()) && optimized(ops.deep_view()) == Some(
                out.deep_view(),
            ),
            Err(ParseError::InternalUnmatchedClosing) => !no_stray_end(
                ops.deep_view(),
                ops.len() as int,
            ),
            Err(ParseError::InternalUnmatchedOpening) => no_stray_end(
                ops.deep_view(),
                ops.len() as int,
            ) && nesting(ops.deep_view(), ops.len() as int) > 0,
            Err(_) => false,
        },
        match res {
            Ok(_) => loop_error(ops.deep_view()) is None,
            Err(error) => loop_error(ops.deep_view()) == Some(error),
        },
{
    let loop_pairs = compute_loop_pairs(ops)?;
    proof {
        lemma_optimized_some(ops.deep_view());
    }
    optimize_range(ops, &loop_pairs, 0, ops.len())
}

/// What is seen of a text, what has been looked at and not yet taken, and what
/// is still to come.
spec fn source_from(seen: Seq<u8>, ahead: Option<Option<u8>>, rest: Seq<u8>) -> Seq<u8> {
    match ahead {
        Some(Some(byte)) => seen.push(byte) + rest,
        Some(None) => seen,
        None => seen + rest,
    }
}

/// How much of a text there can still be.
spec fn budget(ahead: Option<Option<u8>>, left: nat) -> int {
    if ahead matches Some(Some(_)) {
        2 * left as int + 1
    } else {
        2 * left as int
    }
}

/// The first byte that closes a loop which was not opened is at `k`.
pub open spec fn is_stray_close(source: Seq<u8>, k: int) -> bool {
    &&& 0 <= k < source.len()
    &&& no_stray_end(commands(source.take(k)), commands(source.take(k)).len() as int)
    &&& !no_stray_end(commands(source.take(k + 1)), commands(source.take(k + 1)).len() as int)
}

/// What there is of a source text when it has been read, with that result: all
/// behind the bracket that was refused, and nothing otherwise.
pub open spec fn is_left(source: Seq<u8>, res: Result<Vec<Op>, ParseError>, left: Seq<u8>) -> bool {
    match res {
        Err(ParseError::UnmatchedClosing) => exists|k: int| #[trigger]
            is_stray_close(source, k) && left == source.skip(k + 1),
        _ => left == Seq::<u8>::empty(),
    }
}

/// What comes of a source text.
pub open spec fn is_parsed(source: Seq<u8>, res: Result<Vec<Op>, ParseError>) -> bool {
    let program = commands(source);
    match res {
        Ok(ops) => balanced(program) && optimized(merged(program)) == Some(ops.deep_view()),
        Err(ParseError::UnmatchedClosing) => !no_stray_end(program, program.len() as int),
        Err(ParseError::UnmatchedOpening) => no_stray_end(program, program.len() as int) && nesting(
            program,
            program.len() as int,
        ) > 0,
        Err(_) => false,
    }
}

/// Reads a program: each of the eight commands is an instruction, any other
/// byte a comment. Steps are merged, and loops replaced by what they do.
///
/// [`parse_from`] does the same, and says what is left of the source.
pub fn parse_brainfuck<T>(chars: T) -> (res: Result<Vec<Op>, ParseError>) where
    T: Iterator<Item = u8>,

    requires
        chars.obeys_prophetic_iter_laws(),
        chars.decrease() is Some,
    ensures
        is_parsed(chars.remaining(), res),
{
    let mut iter = chars;
    parse_from(&mut iter)
}

/// Reads a program from a source, and takes all of the source; but where a
/// bracket closes a loop that was not opened, nothing behind the bracket.
pub fn parse_from<T>(chars: &mut T) -> (res: Result<Vec<Op>, ParseError>) where
    T: Iterator<Item = u8>,

    requires
        <T as IteratorSpec>::obeys_prophetic_iter_laws(old(chars)),
        <T as IteratorSpec>::decrease(old(chars)) is Some,
    ensures
        is_parsed(<T as IteratorSpec>::remaining(old(chars)), res),
        is_left(
            <T as IteratorSpec>::remaining(old(chars)),
            res,
            <T as IteratorSpec>::remaining(final(chars)),
        ),
{
    let ghost source = <T as IteratorSpec>::remaining(chars);
    let mut ops: Vec<Op> = Vec::new();
    let mut loop_depth: usize = 0;
    // What has been looked at and not yet taken.
    let mut ahead: Option<Option<u8>> = None;
    let ghost mut seen: Seq<u8> = Seq::empty();
    assert(ops.deep_view() =~= merged(commands(seen)));
    assert(source_from(seen, ahead, source) =~= source);
    loop
        invariant
            source == <T as IteratorSpec>::remaining(old(chars)),
            <T as IteratorSpec>::obeys_prophetic_iter_laws(chars),
            <T as IteratorSpec>::decrease(chars) is Some,
            ahead == Some(None::<u8>) ==> <T as IteratorSpec>::remaining(chars).len() == 0,
            source_from(seen, ahead, <T as IteratorSpec>::remaining(chars)) == source,
            ops.deep_view() == merged(commands(seen)),
            loop_depth == nesting(commands(seen), commands(seen).len() as int),
            no_stray_end(commands(seen), commands(seen).len() as int),
        ensures
            seen == source,
            <T as IteratorSpec>::remaining(chars).len() == 0,
        decreases
                (if ahead == Some(None::<u8>) { 0int } else { 1int }),
                budget(ahead, <T as IteratorSpec>::decrease(chars)->0),
    {
        let ghost before = budget(ahead, <T as IteratorSpec>::decrease(chars)->0);
        let ghost rest = <T as IteratorSpec>::remaining(chars);
        let taken: Option<u8> = match ahead {
            Some(looked_at) => looked_at,
            None => chars.next(),
        };
        let ch: u8 = match taken {
            Some(ch) => ch,
            None => {
                assert(seen =~= source);
                break;
            },
        };
        ahead = None;
        proof {
            lemma_commands_push(seen, ch);
            lemma_merged_tight(commands(seen));
            if let Some(op) = command(ch) {
                lemma_nesting_push(commands(seen), op);
            }
            assert(source_from(seen.push(ch), ahead, <T as IteratorSpec>::remaining(chars))
                =~= source);
            assert(seen =~= source.take(seen.len() as int));
            assert(seen.push(ch) =~= source.take(seen.len() as int + 1));
            seen = seen.push(ch);
        }
        if ch == RIGHT || ch == LEFT {
            let mut delta: i64 = if ch == RIGHT {
                1
            } else {
                -1
            };
            loop
                invariant
                    <T as IteratorSpec>::obeys_prophetic_iter_laws(chars),
                    <T as IteratorSpec>::decrease(chars) is Some,
                    ahead == Some(None::<u8>) ==> <T as IteratorSpec>::remaining(chars).len() == 0,
                    source_from(seen, ahead, <T as IteratorSpec>::remaining(chars)) == source,
                    ahead != Some(None::<u8>) ==> budget(
                        ahead,
                        <T as IteratorSpec>::decrease(chars)->0,
                    ) < before,
                    tight(ops.deep_view()),
                    merged(commands(seen)) == pushed(ops.deep_view(), SpecOp::PtrAdd(delta)),
                    loop_depth == nesting(commands(seen), commands(seen).len() as int),
                    no_stray_end(commands(seen), commands(seen).len() as int),
                decreases
                        (if ahead == Some(None::<u8>) { 0int } else { 1int }),
                        budget(ahead, <T as IteratorSpec>::decrease(chars)->0),
            {
                let peeked: Option<u8> = match ahead {
                    Some(looked_at) => looked_at,
                    None => chars.next(),
                };
                ahead = Some(peeked);
                assert(source_from(seen, ahead, <T as IteratorSpec>::remaining(chars)) =~= source);
                let one: i64 = match peeked {
                    Some(byte) if byte == RIGHT => 1,
                    Some(byte) if byte == LEFT => -1,
                    _ => {
                        break;
                    },
                };
                ahead = None;
                proof {
                    let byte = peeked->0;
                    lemma_commands_push(seen, byte);
                    lemma_nesting_push(commands(seen), SpecOp::PtrAdd(one));
                    lemma_pushed_ptr_twice(ops.deep_view(), delta, one);
                    seen = seen.push(byte);
                }
                delta = delta.wrapping_add(one);
            }
            push_op(&mut ops, Op::PtrAdd(delta));
        } else if ch == PLUS || ch == MINUS {
            let mut delta: i32 = if ch == PLUS {
                1
            } else {
                -1
            };
            loop
                invariant
                    <T as IteratorSpec>::obeys_prophetic_iter_laws(chars),
                    <T as IteratorSpec>::decrease(chars) is Some,
                    ahead == Some(None::<u8>) ==> <T as IteratorSpec>::remaining(chars).len() == 0,
                    source_from(seen, ahead, <T as IteratorSpec>::remaining(chars)) == source,
                    ahead != Some(None::<u8>) ==> budget(
                        ahead,
                        <T as IteratorSpec>::decrease(chars)->0,
                    ) < before,
                    tight(ops.deep_view()),
                    merged(commands(seen)) == pushed(ops.deep_view(), SpecOp::CellAdd(delta)),
                    loop_depth == nesting(commands(seen), commands(seen).len() as int),
                    no_stray_end(commands(seen), commands(seen).len() as int),
                decreases
                        (if ahead == Some(None::<u8>) { 0int } else { 1int }),
                        budget(ahead, <T as IteratorSpec>::decrease(chars)->0),
            {
                let peeked: Option<u8> = match ahead {
                    Some(looked_at) => looked_at,
                    None => chars.next(),
                };
                ahead = Some(peeked);
                assert(source_from(seen, ahead, <T as IteratorSpec>::remaining(chars)) =~= source);
                let one: i32 = match peeked {
                    Some(byte) if byte == PLUS => 1,
                    Some(byte) if byte == MINUS => -1,
                    _ => {
                        break;
                    },
                };
                ahead = None;
                proof {
                    let byte = peeked->0;
                    lemma_commands_push(seen, byte);
                    lemma_nesting_push(commands(seen), SpecOp::CellAdd(one));
                    lemma_pushed_cell_twice(ops.deep_view(), delta, one);
                    seen = seen.push(byte);
                }
                delta = delta.wrapping_add(one);
            }
            push_op(&mut ops, Op::CellAdd(delta));
        } else if ch == DOT {
            ops.push(Op::Output);
        } else if ch == COMMA {
            ops.push(Op::Input);
        } else if ch == OPEN {
            ops.push(Op::LoopStart);
            proof {
                assert(ops.deep_view() =~= merged(commands(seen)));
                lemma_merged_nesting(commands(seen));
                lemma_nesting_bound(merged(commands(seen)), merged(commands(seen)).len() as int);
                assert(ops.deep_view().len() == ops.len());
            }
            loop_depth += 1;
        } else if ch == CLOSE {
            if loop_depth == 0 {
                proof {
                    let rest = <T as IteratorSpec>::remaining(chars);
                    let k = seen.len() - 1;
                    assert(seen + rest =~= source);
                    lemma_stray_end_stays(seen, rest);
                    assert(is_stray_close(source, k));
                    assert(rest =~= source.skip(k + 1));
                }
                return Err(ParseError::UnmatchedClosing);
            }
            loop_depth -= 1;
            ops.push(Op::LoopEnd);
        }
    }
    assert(<T as IteratorSpec>::remaining(chars) =~= Seq::empty());
    if loop_depth != 0 {
        return Err(ParseError::UnmatchedOpening);
    }
    proof {
        lemma_merged_nesting(commands(seen));
    }
    optimize_ops(&ops)
}

} // verus!
