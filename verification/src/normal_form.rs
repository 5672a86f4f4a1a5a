//! What rewritten programs look like.
use vstd::prelude::*;

use crate::brackets::{balanced, balanced_span, is_pair, lemma_balanced_concat,
    lemma_balanced_subrange, lemma_nesting_concat, lemma_pair_subrange, lemma_span_loop,
    lemma_span_plain, loop_end, nesting};
use crate::machine::{lemma_loop_of, loop_of};
use crate::meaning::{lemma_balanced_drop_last, lemma_pushed_balanced};
use crate::merge::{lemma_merged_nesting, lemma_pushed_tight, same_kind, tight};
use crate::op::{CellUpdate, SpecOp};
use crate::rewrite::{commands, is_clear_loop, is_target, lemma_transfers_exist, loop_op, merged,
    optimized, optimized_span, parsed, placed, pushed, transfers};

verus! {

/// No loop of the program could be replaced by an instruction.
pub open spec fn irreducible(ops: Seq<SpecOp>) -> bool {
    forall|i: int, e: int| #[trigger]
        is_pair(ops, i, e) ==> loop_op(ops.subrange(i + 1, e)) is None
}

/// The updates are by rising offset, none of them to the current cell or by
/// nothing, and there is at least one.
pub open spec fn proper_updates(updates: Seq<CellUpdate>) -> bool {
    &&& updates.len() > 0
    &&& forall|i: int, j: int|
        0 <= i < j < updates.len() ==> (#[trigger] updates[i]).offset < (
        #[trigger] updates[j]).offset
    &&& forall|i: int|
        0 <= i < updates.len() ==> (#[trigger] updates[i]).offset != 0 && updates[i].factor as int
            % 256 != 0
}

/// Every list of updates in the program is proper.
pub open spec fn all_proper(ops: Seq<SpecOp>) -> bool {
    forall|i: int|
        0 <= i < ops.len() ==> (#[trigger] ops[i] matches SpecOp::AddScaled(updates)
            ==> proper_updates(updates))
}

/// The loops of two programs one behind the other are those of the one and
/// those of the other.
proof fn lemma_pair_concat(a: Seq<SpecOp>, b: Seq<SpecOp>, i: int, e: int)
    requires
        balanced(a),
        is_pair(a + b, i, e),
    ensures
        e < a.len() ==> is_pair(a, i, e) && (a + b).subrange(i + 1, e) == a.subrange(i + 1, e),
        e >= a.len() ==> i >= a.len() && is_pair(b, i - a.len(), e - a.len()) && (a + b).subrange(
            i + 1,
            e,
        ) == b.subrange(i + 1 - a.len(), e - a.len()),
{
    let all = a + b;
    let n = a.len() as int;
    let t = all.len() as int;
    assert(all.subrange(0, n) =~= a);
    assert(all.subrange(n, t) =~= b);
    if i < n {
        lemma_nesting_concat(a, b, n);
        lemma_nesting_concat(a, b, i);
        assert(nesting(a, i) >= 0);
        assert(e < n);
        lemma_pair_subrange(all, 0, n, i, e);
        assert(all.subrange(i + 1, e) =~= a.subrange(i + 1, e));
    } else {
        lemma_pair_subrange(all, n, t, i - n, e - n);
        assert(all.subrange(i + 1, e) =~= b.subrange(i + 1 - n, e - n));
    }
}

proof fn lemma_irreducible_concat(a: Seq<SpecOp>, b: Seq<SpecOp>)
    requires
        balanced(a),
        irreducible(a),
        irreducible(b),
    ensures
        irreducible(a + b),
{
    assert forall|i: int, e: int| #[trigger] is_pair(a + b, i, e) implies loop_op(
        (a + b).subrange(i + 1, e),
    ) is None by {
        lemma_pair_concat(a, b, i, e);
        if e >= a.len() {
            assert(is_pair(b, i - a.len(), e - a.len()));
        }
    }
}

proof fn lemma_irreducible_prefix(ops: Seq<SpecOp>, n: int)
    requires
        irreducible(ops),
        0 <= n <= ops.len(),
    ensures
        irreducible(ops.subrange(0, n)),
{
    let part = ops.subrange(0, n);
    assert forall|i: int, e: int| #[trigger] is_pair(part, i, e) implies loop_op(
        part.subrange(i + 1, e),
    ) is None by {
        lemma_pair_subrange(ops, 0, n, i, e);
        assert(is_pair(ops, i, e));
        assert(part.subrange(i + 1, e) =~= ops.subrange(i + 1, e));
    }
}

proof fn lemma_irreducible_loop(body: Seq<SpecOp>)
    requires
        balanced(body),
        irreducible(body),
        loop_op(body) is None,
    ensures
        irreducible(loop_of(body)),
{
    let ops = loop_of(body);
    lemma_loop_of(body);
    let n = body.len() as int;
    assert forall|i: int, e: int| #[trigger] is_pair(ops, i, e) implies loop_op(
        ops.subrange(i + 1, e),
    ) is None by {
        if i == 0 {
            crate::brackets::lemma_pair_unique(ops, 0, n + 1, e);
        } else {
            if e == n + 1 {
                crate::brackets::lemma_pair_start_unique(ops, 0, i, e);
            }
            lemma_pair_subrange(ops, 1, n + 1, i - 1, e - 1);
            assert(ops.subrange(1, n + 1) =~= body);
            assert(is_pair(body, i - 1, e - 1));
            assert(ops.subrange(i + 1, e) =~= body.subrange(i, e - 1));
        }
    }
}

/// A rewritten program: its loops match, steps are merged, and no loop is left
/// that could be replaced.
pub open spec fn normal(ops: Seq<SpecOp>) -> bool {
    &&& balanced(ops)
    &&& tight(ops)
    &&& irreducible(ops)
}

proof fn lemma_pushed_normal(ops: Seq<SpecOp>, op: SpecOp)
    requires
        normal(ops),
        !(op is LoopStart),
        !(op is LoopEnd),
    ensures
        normal(pushed(ops, op)),
{
    let out = pushed(ops, op);
    lemma_pushed_balanced(ops, op);
    lemma_pushed_tight(ops, op);
    let n = ops.len() as int;
    let m = out.len() as int;
    // A balanced prefix of `ops`, and behind it at most one instruction.
    let keep = if m > n {
        n
    } else if m == n && (n == 0 || out.last() == ops.last()) {
        n
    } else {
        n - 1
    };
    let part = ops.subrange(0, keep);
    if keep < n {
        assert(part =~= ops.drop_last());
        lemma_balanced_drop_last(ops);
    } else {
        assert(part =~= ops);
    }
    lemma_irreducible_prefix(ops, keep);
    if m == keep {
        assert(out =~= part);
    } else {
        let last = out.last();
        assert(out =~= part + seq![last]);
        assert(irreducible(seq![last])) by {
            assert forall|i: int, e: int| #[trigger] is_pair(seq![last], i, e) implies false by {}
        }
        lemma_irreducible_concat(part, seq![last]);
    }
}

proof fn lemma_placed_normal(acc: Seq<SpecOp>, body: Seq<SpecOp>)
    requires
        normal(acc),
        normal(body),
    ensures
        normal(placed(acc, body)),
{
    match loop_op(body) {
        Some(op) => {
            lemma_pushed_normal(acc, op);
        },
        None => {
            let whole = loop_of(body);
            lemma_loop_of(body);
            lemma_balanced_concat(acc, whole);
            lemma_irreducible_loop(body);
            lemma_irreducible_concat(acc, whole);
            let out = acc + whole;
            let a = acc.len() as int;
            let b = body.len() as int;
            assert forall|i: int| 0 <= i < out.len() implies out[i] == (if i < a {
                acc[i]
            } else if i == a {
                SpecOp::LoopStart
            } else if i <= a + b {
                body[i - a - 1]
            } else {
                SpecOp::LoopEnd
            }) by {}
            assert forall|i: int, j: int| 0 <= i < out.len() - 1 && j == i + 1 implies !same_kind(
                #[trigger] out[i],
                #[trigger] out[j],
            ) by {
                if j < a {
                    assert(!same_kind(acc[i], acc[j]));
                } else if a < i && j <= a + b {
                    assert(!same_kind(body[i - a - 1], body[j - a - 1]));
                }
            }
            assert(tight(out));
        },
    }
}

/// Rewriting makes a program normal.
proof fn lemma_optimized_span_normal(ops: Seq<SpecOp>, acc: Seq<SpecOp>, i: int, end: int)
    requires
        normal(acc),
        balanced_span(ops, i, end),
    ensures
        optimized_span(ops, acc, i, end) is Some,
        normal(optimized_span(ops, acc, i, end)->0),
    decreases end - i,
{
    if i < end {
        lemma_span_plain(ops, i, end);
        if ops[i] is LoopStart {
            lemma_span_loop(ops, i, end);
            let e = loop_end(ops, i);
            lemma_empty_normal();
            lemma_optimized_span_normal(ops, Seq::empty(), i + 1, e);
            let body = optimized_span(ops, Seq::empty(), i + 1, e)->0;
            lemma_placed_normal(acc, body);
            lemma_optimized_span_normal(ops, placed(acc, body), e + 1, end);
        } else {
            lemma_pushed_normal(acc, ops[i]);
            lemma_optimized_span_normal(ops, pushed(acc, ops[i]), i + 1, end);
        }
    }
}

proof fn lemma_empty_normal()
    ensures
        normal(Seq::<SpecOp>::empty()),
{
    let none = Seq::<SpecOp>::empty();
    assert forall|i: int| 0 <= i <= none.len() implies #[trigger] nesting(none, i) >= 0 by {
        assert(i == 0);
    }
    assert(irreducible(none)) by {
        assert forall|i: int, e: int| #[trigger] is_pair(none, i, e) implies false by {}
    }
}

/// A rewritten program is normal.
pub proof fn law_optimized_is_normal(ops: Seq<SpecOp>)
    requires
        balanced(ops),
    ensures
        optimized(ops) is Some,
        normal(optimized(ops)->0),
{
    let n = ops.len() as int;
    assert(ops =~= ops.subrange(0, n));
    lemma_balanced_subrange(ops, 0, n);
    lemma_empty_normal();
    lemma_optimized_span_normal(ops, Seq::empty(), 0, n);
}

proof fn lemma_pushed_proper(ops: Seq<SpecOp>, op: SpecOp)
    requires
        all_proper(ops),
        op matches SpecOp::AddScaled(updates) ==> proper_updates(updates),
    ensures
        all_proper(pushed(ops, op)),
{
    let out = pushed(ops, op);
    assert forall|i: int| 0 <= i < out.len() implies (#[trigger] out[i] matches SpecOp::AddScaled(
        updates,
    ) ==> proper_updates(updates)) by {
        if i < ops.len() && out[i] == ops[i] {
            assert(ops[i] == out[i]);
        }
    }
}

proof fn lemma_placed_proper(acc: Seq<SpecOp>, body: Seq<SpecOp>)
    requires
        all_proper(acc),
        all_proper(body),
    ensures
        all_proper(placed(acc, body)),
{
    match loop_op(body) {
        Some(op) => {
            if !is_clear_loop(body) {
                lemma_transfers_exist(body);
                assert forall|i: int| 0 <= i < transfers(body).len() implies (
                #[trigger] transfers(body)[i]).offset != 0 && transfers(body)[i].factor as int % 256
                    != 0 by {
                    assert(is_target(body, transfers(body)[i].offset));
                }
            }
            lemma_pushed_proper(acc, op);
        },
        None => {
            let out = acc + loop_of(body);
            let a = acc.len() as int;
            assert forall|i: int| 0 <= i < out.len() implies (
            #[trigger] out[i] matches SpecOp::AddScaled(updates) ==> proper_updates(updates)) by {
                if i < a {
                    assert(out[i] == acc[i]);
                } else if a < i <= a + body.len() {
                    assert(out[i] == body[i - a - 1]);
                }
            }
        },
    }
}

proof fn lemma_optimized_span_proper(ops: Seq<SpecOp>, acc: Seq<SpecOp>, i: int, end: int)
    requires
        all_proper(acc),
        all_proper(ops),
        optimized_span(ops, acc, i, end) is Some,
    ensures
        all_proper(optimized_span(ops, acc, i, end)->0),
    decreases ops.len() - i,
{
    if 0 <= i < end && i < ops.len() {
        if ops[i] is LoopStart {
            let e = loop_end(ops, i);
            lemma_optimized_span_proper(ops, Seq::empty(), i + 1, e);
            let body = optimized_span(ops, Seq::empty(), i + 1, e)->0;
            lemma_placed_proper(acc, body);
            lemma_optimized_span_proper(ops, placed(acc, body), e + 1, end);
        } else {
            lemma_pushed_proper(acc, ops[i]);
            lemma_optimized_span_proper(ops, pushed(acc, ops[i]), i + 1, end);
        }
    }
}

/// Rewriting keeps every list of updates proper, and makes none that is not.
pub proof fn law_optimized_is_proper(ops: Seq<SpecOp>)
    requires
        balanced(ops),
        all_proper(ops),
    ensures
        optimized(ops) is Some,
        all_proper(optimized(ops)->0),
{
    law_optimized_is_normal(ops);
    lemma_optimized_span_proper(ops, Seq::empty(), 0, ops.len() as int);
}

proof fn lemma_commands_proper(source: Seq<u8>)
    ensures
        all_proper(commands(source)),
    decreases source.len(),
{
    if source.len() > 0 {
        lemma_commands_proper(source.drop_last());
    }
}

proof fn lemma_merged_proper(ops: Seq<SpecOp>)
    requires
        all_proper(ops),
    ensures
        all_proper(merged(ops)),
    decreases ops.len(),
{
    if ops.len() > 0 {
        assert(all_proper(ops.drop_last())) by {
            assert forall|i: int| 0 <= i < ops.len() - 1 implies (
            #[trigger] ops.drop_last()[i] matches SpecOp::AddScaled(updates) ==> proper_updates(
                updates,
            )) by {
                assert(ops[i] == ops.drop_last()[i]);
            }
        }
        lemma_merged_proper(ops.drop_last());
        assert(ops[ops.len() - 1] == ops.last());
        lemma_pushed_proper(merged(ops.drop_last()), ops.last());
    }
}

/// What [`parse_brainfuck`](crate::parser::parse_brainfuck) makes of a source
/// text is normal, and every list of updates in it is proper.
pub proof fn law_parsed_is_normal(source: Seq<u8>)
    requires
        balanced(commands(source)),
    ensures
        optimized(merged(commands(source))) is Some,
        normal(parsed(source)),
        all_proper(parsed(source)),
{
    lemma_commands_proper(source);
    lemma_merged_proper(commands(source));
    lemma_merged_nesting(commands(source));
    law_optimized_is_normal(merged(commands(source)));
    law_optimized_is_proper(merged(commands(source)));
}

proof fn lemma_normal_stays(ops: Seq<SpecOp>, acc: Seq<SpecOp>, i: int, end: int)
    requires
        irreducible(ops),
        balanced_span(ops, i, end),
        tight(acc + ops.subrange(i, end)),
    ensures
        optimized_span(ops, acc, i, end) == Some(acc + ops.subrange(i, end)),
    decreases end - i,
{
    let part = ops.subrange(i, end);
    let all = acc + part;
    let a = acc.len() as int;
    if i == end {
        assert(all =~= acc);
    } else {
        lemma_span_plain(ops, i, end);
        assert(all[a] == ops[i]);
        if ops[i] is LoopStart {
            lemma_span_loop(ops, i, end);
            let e = loop_end(ops, i);
            let inner = ops.subrange(i + 1, e);
            let none = Seq::<SpecOp>::empty();
            assert(none + inner =~= inner);
            assert(tight(inner)) by {
                assert forall|k: int| 0 <= k < inner.len() implies #[trigger] inner[k] == all[a + 1
                    + k] by {}
                assert forall|k: int, h: int| 0 <= k < inner.len() - 1 && h == k + 1 implies
                    !same_kind(#[trigger] inner[k], #[trigger] inner[h]) by {
                    assert(!same_kind(all[a + 1 + k], all[a + 1 + h]));
                }
            }
            lemma_normal_stays(ops, none, i + 1, e);
            assert(loop_op(inner) is None);
            let next = acc + loop_of(inner);
            assert(next + ops.subrange(e + 1, end) =~= all);
            lemma_normal_stays(ops, next, e + 1, end);
        } else {
            if a > 0 {
                assert(all[a - 1] == acc.last());
                assert(!same_kind(all[a - 1], all[a]));
            }
            assert(pushed(acc, ops[i]) =~= acc.push(ops[i]));
            assert(acc.push(ops[i]) + ops.subrange(i + 1, end) =~= all);
            lemma_normal_stays(ops, acc.push(ops[i]), i + 1, end);
        }
    }
}

/// Rewriting a normal program changes nothing.
pub proof fn law_normal_program_stays(ops: Seq<SpecOp>)
    requires
        normal(ops),
    ensures
        optimized(ops) == Some(ops),
{
    let n = ops.len() as int;
    let none = Seq::<SpecOp>::empty();
    assert(ops =~= ops.subrange(0, n));
    lemma_balanced_subrange(ops, 0, n);
    assert(none + ops =~= ops);
    lemma_normal_stays(ops, none, 0, n);
}

/// Rewriting a program twice is rewriting it once.
pub proof fn law_optimizing_is_idempotent(ops: Seq<SpecOp>)
    requires
        balanced(ops),
    ensures
        optimized(ops) is Some,
        optimized(optimized(ops)->0) == optimized(ops),
{
    law_optimized_is_normal(ops);
    law_normal_program_stays(optimized(ops)->0);
}

/// Comments do not matter: a source text is read as its commands alone, which
/// are the eight bytes `>`, `<`, `+`, `-`, `.`, `,`, `[` and `]`.
pub proof fn law_comments_do_not_matter(source: Seq<u8>)
    ensures
        commands(source) == commands(
            source.filter(
                |b: u8|
                    b == 62 || b == 60 || b == 43 || b == 45 || b == 46 || b == 44 || b == 91 || b
                        == 93,
            ),
        ),
        commands(source).len() == source.filter(
            |b: u8|
                b == 62 || b == 60 || b == 43 || b == 45 || b == 46 || b == 44 || b == 91 || b
                    == 93,
        ).len(),
    decreases source.len(),
{
    let is_command = |b: u8|
        b == 62 || b == 60 || b == 43 || b == 45 || b == 46 || b == 44 || b == 91 || b == 93;
    reveal(Seq::filter);
    if source.len() > 0 {
        let rest = source.drop_last();
        law_comments_do_not_matter(rest);
        if is_command(source.last()) {
            let kept = rest.filter(is_command);
            assert(kept.push(source.last()).drop_last() =~= kept);
        }
    }
}

} // verus!
