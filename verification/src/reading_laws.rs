//! What reading a source text gives, in terms of its bytes.
use vstd::prelude::*;

use crate::brackets::{balanced, is_pair, lemma_nesting_concat, lemma_nesting_prefix, nesting,
    no_stray_end};
use crate::merge::lemma_commands_concat;
use crate::op::{Op, SpecOp};
use crate::parser::{are_loop_ends, are_loop_pairs, is_left, is_parsed, is_stray_close, loop_error,
    ParseError};
use crate::rewrite::{command, commands, merged, optimized};

verus! {

/// A byte stands for an instruction if and only if it is one of eight, and this
/// is the instruction of each.
pub proof fn law_eight_commands(b: u8)
    ensures
        command(b) is Some <==> (b == 62 || b == 60 || b == 43 || b == 45 || b == 46 || b == 44 || b
            == 91 || b == 93),
        // `>` and `<`
        b == 62 ==> command(b) == Some(SpecOp::PtrAdd(1)),
        b == 60 ==> command(b) == Some(SpecOp::PtrAdd((-1) as i64)),
        // `+` and `-`
        b == 43 ==> command(b) == Some(SpecOp::CellAdd(1)),
        b == 45 ==> command(b) == Some(SpecOp::CellAdd((-1) as i32)),
        // `.` and `,`
        b == 46 ==> command(b) == Some(SpecOp::Output),
        b == 44 ==> command(b) == Some(SpecOp::Input),
        // `[` and `]`
        b == 91 ==> command(b) == Some(SpecOp::LoopStart),
        b == 93 ==> command(b) == Some(SpecOp::LoopEnd),
{
}

/// A text is read byte by byte: what two texts one behind the other stand for is
/// what the one and then the other stands for; and a single byte stands for one
/// instruction, or for none if it is a comment.
pub proof fn law_text_is_read_byte_by_byte(a: Seq<u8>, b: Seq<u8>, byte: u8)
    ensures
        commands(a + b) == commands(a) + commands(b),
        commands(Seq::empty()) == Seq::<SpecOp>::empty(),
        byte == 62 ==> commands(seq![byte]) == seq![SpecOp::PtrAdd(1)],
        byte == 60 ==> commands(seq![byte]) == seq![SpecOp::PtrAdd((-1) as i64)],
        byte == 43 ==> commands(seq![byte]) == seq![SpecOp::CellAdd(1)],
        byte == 45 ==> commands(seq![byte]) == seq![SpecOp::CellAdd((-1) as i32)],
        byte == 46 ==> commands(seq![byte]) == seq![SpecOp::Output],
        byte == 44 ==> commands(seq![byte]) == seq![SpecOp::Input],
        byte == 91 ==> commands(seq![byte]) == seq![SpecOp::LoopStart],
        byte == 93 ==> commands(seq![byte]) == seq![SpecOp::LoopEnd],
        byte != 62 && byte != 60 && byte != 43 && byte != 45 && byte != 46 && byte != 44 && byte
            != 91 && byte != 93 ==> commands(seq![byte]) == Seq::<SpecOp>::empty(),
{
    lemma_commands_concat(a, b);
    assert(seq![byte].drop_last() =~= Seq::empty());
    reveal_with_fuel(commands, 2);
    if let Some(op) = command(byte) {
        assert(commands(seq![byte]) =~= seq![op]);
    }
}

/// How often `byte` occurs among the first `n` bytes.
pub open spec fn occurrences(source: Seq<u8>, byte: u8, n: int) -> int
    decreases n,
{
    if n <= 0 {
        0
    } else {
        occurrences(source, byte, n - 1) + if source[n - 1] == byte {
            1
        } else {
            0int
        }
    }
}

/// How many more brackets the first `n` bytes open than they close.
pub open spec fn open_brackets(source: Seq<u8>, n: int) -> int {
    occurrences(source, 91, n) - occurrences(source, 93, n)
}

/// How often a loop starts among the first `n` instructions.
pub open spec fn loop_starts(ops: Seq<SpecOp>, n: int) -> int
    decreases n,
{
    if n <= 0 {
        0
    } else {
        loop_starts(ops, n - 1) + if ops[n - 1] == SpecOp::LoopStart {
            1
        } else {
            0int
        }
    }
}

/// How often a loop ends among the first `n` instructions.
pub open spec fn loop_ends(ops: Seq<SpecOp>, n: int) -> int
    decreases n,
{
    if n <= 0 {
        0
    } else {
        loop_ends(ops, n - 1) + if ops[n - 1] == SpecOp::LoopEnd {
            1
        } else {
            0int
        }
    }
}

/// Loops are counted: a loop is open where more loops have started than ended. A
/// program's loops match if at no place more have ended than started, and in the
/// end as many.
pub proof fn law_loops_are_counted(ops: Seq<SpecOp>, n: int)
    ensures
        nesting(ops, n) == loop_starts(ops, n) - loop_ends(ops, n),
        no_stray_end(ops, n) <==> forall|i: int|
            0 <= i <= n ==> #[trigger] loop_ends(ops, i) <= loop_starts(ops, i),
        balanced(ops) <==> loop_ends(ops, ops.len() as int) == loop_starts(ops, ops.len() as int)
            && forall|i: int|
            0 <= i <= ops.len() ==> #[trigger] loop_ends(ops, i) <= loop_starts(ops, i),
{
    assert forall|i: int| #[trigger] nesting(ops, i) == loop_starts(ops, i) - loop_ends(
        ops,
        i,
    ) by {
        lemma_nesting_counts(ops, i);
    }
    assert forall|m: int| no_stray_end(ops, m) <==> forall|i: int|
        0 <= i <= m ==> #[trigger] loop_ends(ops, i) <= loop_starts(ops, i) by {
        if no_stray_end(ops, m) {
            assert forall|i: int| 0 <= i <= m implies #[trigger] loop_ends(ops, i) <= loop_starts(
                ops,
                i,
            ) by {
                assert(nesting(ops, i) >= 0);
            }
        }
        if forall|i: int| 0 <= i <= m ==> #[trigger] loop_ends(ops, i) <= loop_starts(ops, i) {
            assert forall|i: int| 0 <= i <= m implies #[trigger] nesting(ops, i) >= 0 by {
                assert(loop_ends(ops, i) <= loop_starts(ops, i));
            }
        }
    }
}

proof fn lemma_nesting_counts(ops: Seq<SpecOp>, n: int)
    ensures
        nesting(ops, n) == loop_starts(ops, n) - loop_ends(ops, n),
    decreases n,
{
    if n > 0 {
        lemma_nesting_counts(ops, n - 1);
    }
}

/// A loop goes from its start to the first place where as many loops have ended
/// as had started before it.
pub proof fn law_loop_goes_to_its_end(ops: Seq<SpecOp>, i: int, j: int)
    ensures
        is_pair(ops, i, j) <==> {
            &&& 0 <= i < j < ops.len()
            &&& ops[i] == SpecOp::LoopStart
            &&& ops[j] == SpecOp::LoopEnd
            &&& loop_starts(ops, j + 1) - loop_ends(ops, j + 1) == loop_starts(ops, i) - loop_ends(
                ops,
                i,
            )
            &&& forall|k: int|
                i < k <= j ==> #[trigger] loop_starts(ops, k) - loop_ends(ops, k) > loop_starts(
                    ops,
                    i,
                ) - loop_ends(ops, i)
        },
{
    assert forall|k: int| #[trigger] nesting(ops, k) == loop_starts(ops, k) - loop_ends(
        ops,
        k,
    ) by {
        lemma_nesting_counts(ops, k);
    }
    if 0 <= i < j < ops.len() && (forall|k: int|
        i < k <= j ==> #[trigger] loop_starts(ops, k) - loop_ends(ops, k) > loop_starts(ops, i)
            - loop_ends(ops, i)) {
        assert forall|k: int| i < k <= j implies #[trigger] nesting(ops, k) > nesting(ops, i) by {
            assert(loop_starts(ops, k) - loop_ends(ops, k) > loop_starts(ops, i) - loop_ends(
                ops,
                i,
            ));
        }
    }
    if is_pair(ops, i, j) {
        assert forall|k: int| i < k <= j implies #[trigger] loop_starts(ops, k) - loop_ends(ops, k)
            > loop_starts(ops, i) - loop_ends(ops, i) by {
            assert(nesting(ops, k) > nesting(ops, i));
        }
    }
}

/// The table of loops holds at each loop start where the loop ends, at each loop
/// end where it starts, and everywhere else the largest index.
pub proof fn law_loop_table(ops: Seq<SpecOp>, pairs: Seq<usize>)
    ensures
        are_loop_pairs(ops, pairs) <==> pairs.len() == ops.len() && forall|i: int|
            0 <= i < ops.len() ==> {
                &&& (#[trigger] ops[i]) == SpecOp::LoopStart ==> is_pair(ops, i, pairs[i] as int)
                &&& ops[i] == SpecOp::LoopEnd ==> is_pair(ops, pairs[i] as int, i)
                &&& ops[i] != SpecOp::LoopStart && ops[i] != SpecOp::LoopEnd ==> pairs[i]
                    == usize::MAX
            },
        are_loop_ends(ops, pairs) <==> pairs.len() == ops.len() && forall|i: int|
            0 <= i < ops.len() && (#[trigger] ops[i]) == SpecOp::LoopStart ==> is_pair(
                ops,
                i,
                pairs[i] as int,
            ),
{
}

/// The loops of a program match, or there is an error: that one ends too early,
/// if at some place more have ended than started; else that one does not end.
pub proof fn law_loop_errors(ops: Seq<SpecOp>)
    ensures
        ({
            let n = ops.len() as int;
            let too_early = exists|i: int|
                0 <= i <= n && #[trigger] loop_ends(ops, i) > loop_starts(ops, i);
            &&& too_early <==> loop_error(ops) == Some(ParseError::InternalUnmatchedClosing)
            &&& !too_early && loop_starts(ops, n) != loop_ends(ops, n) <==> loop_error(ops) == Some(
                ParseError::InternalUnmatchedOpening,
            )
            &&& !too_early && loop_starts(ops, n) == loop_ends(ops, n) <==> loop_error(ops) is None
        }),
{
    law_loops_are_counted(ops, ops.len() as int);
}

/// The brackets of a text are the loops of its instructions.
proof fn lemma_bracket_nesting(source: Seq<u8>, n: int)
    requires
        0 <= n <= source.len(),
    ensures
        nesting(commands(source.take(n)), commands(source.take(n)).len() as int) == open_brackets(
            source,
            n,
        ),
    decreases n,
{
    if n > 0 {
        let part = source.take(n);
        let before = source.take(n - 1);
        lemma_bracket_nesting(source, n - 1);
        assert(part.drop_last() =~= before);
        if let Some(op) = command(source[n - 1]) {
            assert(commands(part) =~= commands(before) + seq![op]);
            lemma_nesting_concat(commands(before), seq![op], commands(before).len() as int + 1);
            reveal_with_fuel(nesting, 2);
        }
    } else {
        assert(source.take(0) =~= Seq::empty());
    }
}

/// No loop ends too early among the instructions if and only if no bracket closes
/// too early in the text.
proof fn lemma_bracket_strays(source: Seq<u8>, n: int)
    requires
        0 <= n <= source.len(),
    ensures
        no_stray_end(commands(source.take(n)), commands(source.take(n)).len() as int) <==> forall|
            i: int,
        |
            0 <= i <= n ==> #[trigger] open_brackets(source, i) >= 0,
    decreases n,
{
    let part = source.take(n);
    lemma_bracket_nesting(source, n);
    if n == 0 {
        assert(part =~= Seq::empty());
        assert(nesting(commands(part), 0) == 0);
    } else {
        let before = source.take(n - 1);
        lemma_bracket_strays(source, n - 1);
        assert(part.drop_last() =~= before);
        let a = commands(before);
        let b = commands(part);
        let m = a.len() as int;
        match command(source[n - 1]) {
            Some(op) => {
                assert(b =~= a.push(op));
                assert forall|i: int| 0 <= i <= m implies #[trigger] nesting(b, i) == nesting(
                    a,
                    i,
                ) by {
                    lemma_nesting_prefix(b, a, i);
                }
                if no_stray_end(b, m + 1) {
                    assert forall|i: int| 0 <= i <= m implies #[trigger] nesting(a, i) >= 0 by {
                        assert(nesting(b, i) >= 0);
                    }
                    assert(nesting(b, m + 1) >= 0);
                }
                if no_stray_end(a, m) && open_brackets(source, n) >= 0 {
                    assert forall|i: int| 0 <= i <= m + 1 implies #[trigger] nesting(b, i)
                        >= 0 by {
                        if i <= m {
                            assert(nesting(a, i) >= 0);
                        }
                    }
                }
            },
            None => {
                assert(open_brackets(source, n) == open_brackets(source, n - 1));
            },
        }
        if forall|i: int| 0 <= i <= n ==> #[trigger] open_brackets(source, i) >= 0 {
            assert(open_brackets(source, n) >= 0);
        }
    }
}

/// A text is a program if and only if its brackets match: at no place more of
/// them are closed than opened, and in the end as many. If at some place more are
/// closed, that is the error; if in the end more were opened, that is. There is
/// no other error, and no other condition.
pub proof fn law_text_is_a_program_if_brackets_match(
    source: Seq<u8>,
    res: Result<Vec<Op>, ParseError>,
)
    requires
        is_parsed(source, res),
    ensures
        res is Ok <==> open_brackets(source, source.len() as int) == 0 && forall|n: int|
            0 <= n <= source.len() ==> #[trigger] open_brackets(source, n) >= 0,
        res matches Err(ParseError::UnmatchedClosing) <==> exists|n: int|
            0 <= n <= source.len() && #[trigger] open_brackets(source, n) < 0,
        res matches Err(ParseError::UnmatchedOpening) <==> open_brackets(
            source,
            source.len() as int,
        ) > 0 && forall|n: int| 0 <= n <= source.len() ==> #[trigger] open_brackets(source, n) >= 0,
        res matches Ok(ops) ==> optimized(merged(commands(source))) == Some(ops.deep_view()),
{
    let n = source.len() as int;
    assert(source.take(n) =~= source);
    lemma_bracket_nesting(source, n);
    lemma_bracket_strays(source, n);
}

/// Reading takes all of a text, unless a bracket closes what was not opened: then
/// it takes nothing behind the first such bracket.
pub proof fn law_what_is_left(source: Seq<u8>, res: Result<Vec<Op>, ParseError>, left: Seq<u8>)
    requires
        is_parsed(source, res),
        is_left(source, res, left),
    ensures
        !(res matches Err(ParseError::UnmatchedClosing)) ==> left.len() == 0,
        res matches Err(ParseError::UnmatchedClosing) ==> {
            let k = source.len() - left.len() - 1;
            &&& 0 <= k < source.len()
            &&& left == source.subrange(k + 1, source.len() as int)
            &&& source[k] == 93
            &&& open_brackets(source, k + 1) < 0
            &&& forall|n: int| 0 <= n <= k ==> #[trigger] open_brackets(source, n) >= 0
        },
{
    if res matches Err(ParseError::UnmatchedClosing) {
        let k = choose|k: int| #[trigger]
            is_stray_close(source, k) && left == source.skip(k + 1);
        assert(k == source.len() - left.len() - 1);
        lemma_bracket_strays(source, k);
        lemma_bracket_strays(source, k + 1);
        assert(open_brackets(source, k) >= 0);
        assert(left =~= source.subrange(k + 1, source.len() as int));
        if open_brackets(source, k + 1) >= 0 {
            assert forall|n: int| 0 <= n <= k + 1 implies #[trigger] open_brackets(source, n)
                >= 0 by {}
        }
    }
}

/// What an instruction is taken to say is what it holds.
pub proof fn law_op_view_holds_all(op: Op)
    ensures
        op matches Op::PtrAdd(delta) ==> op.deep_view() == SpecOp::PtrAdd(delta),
        op matches Op::CellAdd(delta) ==> op.deep_view() == SpecOp::CellAdd(delta),
        op is ClearCell ==> op.deep_view() == SpecOp::ClearCell,
        op matches Op::AddScaled(updates) ==> op.deep_view() == SpecOp::AddScaled(updates@),
        op is Output ==> op.deep_view() == SpecOp::Output,
        op is Input ==> op.deep_view() == SpecOp::Input,
        op is LoopStart ==> op.deep_view() == SpecOp::LoopStart,
        op is LoopEnd ==> op.deep_view() == SpecOp::LoopEnd,
{
}

/// Each error is told in its own words.
pub proof fn law_parse_errors_are_told(error: ParseError)
    ensures
        error is UnmatchedClosing ==> error.spec_message() == "unmatched closing bracket ']' found",
        error is UnmatchedOpening ==> error.spec_message() == "unmatched opening bracket '[' found",
        error is InternalUnmatchedClosing ==> error.spec_message()
            == "internal unmatched closing bracket",
        error is InternalUnmatchedOpening ==> error.spec_message()
            == "internal unmatched opening bracket",
        error is InternalUnexpectedLoopTerminator ==> error.spec_message()
            == "internal unexpected loop terminator",
{
}

} // verus!
