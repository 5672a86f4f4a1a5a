use fastbf::parser::{
    compute_loop_pairs, optimize_ops, optimize_range, parse_from, push_op, try_optimize_add_scaled_loop,
    try_optimize_clear_loop, try_optimize_loop, ParseError,
};
use fastbf::{parse_brainfuck, CellUpdate, Op};

fn parse(source: &str) -> Result<Vec<Op>, ParseError> {
    parse_brainfuck(source.bytes())
}

fn update(offset: i64, factor: i32) -> CellUpdate {
    CellUpdate { offset, factor }
}

#[test]
fn empty_source_is_an_empty_program() {
    assert_eq!(parse(""), Ok(vec![]));
}

#[test]
fn comments_are_ignored() {
    assert_eq!(parse("hello, world"), Ok(vec![Op::Input]));
    assert_eq!(parse("a+b+c"), Ok(vec![Op::CellAdd(2)]));
    assert_eq!(parse("one > two > \n three"), Ok(vec![Op::PtrAdd(2)]));
    assert_eq!(parse("+ a > b [ . ]"), parse("+>[.]"));
}

#[test]
fn bytes_that_are_no_text_are_comments() {
    let source: Vec<u8> = vec![0, 255, b'+', 128, b'.'];
    assert_eq!(parse_brainfuck(source.into_iter()), Ok(vec![Op::CellAdd(1), Op::Output]));
}

#[test]
fn runs_of_steps_are_merged() {
    assert_eq!(parse("+++"), Ok(vec![Op::CellAdd(3)]));
    assert_eq!(parse("---"), Ok(vec![Op::CellAdd(-3)]));
    assert_eq!(parse(">>>><"), Ok(vec![Op::PtrAdd(3)]));
    assert_eq!(parse("<<"), Ok(vec![Op::PtrAdd(-2)]));
    assert_eq!(
        parse("++>>--<"),
        Ok(vec![Op::CellAdd(2), Op::PtrAdd(2), Op::CellAdd(-2), Op::PtrAdd(-1)])
    );
}

#[test]
fn steps_that_cancel_are_left_out() {
    assert_eq!(parse("+-"), Ok(vec![]));
    assert_eq!(parse("><"), Ok(vec![]));
    assert_eq!(parse("+><-"), Ok(vec![]));
    assert_eq!(parse(">+-<"), Ok(vec![]));
    assert_eq!(parse(">+-<."), Ok(vec![Op::Output]));
}

#[test]
fn input_and_output_are_not_merged() {
    assert_eq!(parse("..,,"), Ok(vec![Op::Output, Op::Output, Op::Input, Op::Input]));
}

#[test]
fn unmatched_closing_bracket_is_an_error() {
    assert_eq!(parse("]"), Err(ParseError::UnmatchedClosing));
    assert_eq!(parse("+[-]]"), Err(ParseError::UnmatchedClosing));
    assert_eq!(parse("]["), Err(ParseError::UnmatchedClosing));
    assert_eq!(ParseError::UnmatchedClosing.message(), "unmatched closing bracket ']' found");
}

#[test]
fn unmatched_opening_bracket_is_an_error() {
    assert_eq!(parse("["), Err(ParseError::UnmatchedOpening));
    assert_eq!(parse("[[]"), Err(ParseError::UnmatchedOpening));
    assert_eq!(ParseError::UnmatchedOpening.message(), "unmatched opening bracket '[' found");
}

#[test]
fn clear_loops_become_one_instruction() {
    assert_eq!(parse("[-]"), Ok(vec![Op::ClearCell]));
    assert_eq!(parse("[+]"), Ok(vec![Op::ClearCell]));
    assert_eq!(parse("[---]"), Ok(vec![Op::ClearCell]));
    assert_eq!(parse("+[+++++]"), Ok(vec![Op::CellAdd(1), Op::ClearCell]));
}

#[test]
fn loops_by_an_even_step_stay() {
    assert_eq!(parse("[--]"), Ok(vec![Op::LoopStart, Op::CellAdd(-2), Op::LoopEnd]));
    assert_eq!(parse("[++]"), Ok(vec![Op::LoopStart, Op::CellAdd(2), Op::LoopEnd]));
}

#[test]
fn empty_loops_stay() {
    assert_eq!(parse("[]"), Ok(vec![Op::LoopStart, Op::LoopEnd]));
    assert_eq!(parse("[+-]"), Ok(vec![Op::LoopStart, Op::LoopEnd]));
}

#[test]
fn transfer_loops_become_one_instruction() {
    assert_eq!(parse("[->+<]"), Ok(vec![Op::AddScaled(vec![update(1, 1)])]));
    assert_eq!(parse("[->+++<]"), Ok(vec![Op::AddScaled(vec![update(1, 3)])]));
    assert_eq!(parse("[>-<-]"), Ok(vec![Op::AddScaled(vec![update(1, -1)])]));
    assert_eq!(
        parse("[->++>+++<<]"),
        Ok(vec![Op::AddScaled(vec![update(1, 2), update(2, 3)])])
    );
}

#[test]
fn transfers_are_sorted_by_offset() {
    assert_eq!(
        parse("[>>+<<<++>-]"),
        Ok(vec![Op::AddScaled(vec![update(-1, 2), update(2, 1)])])
    );
}

#[test]
fn transfers_of_nothing_are_left_out() {
    let mut source = String::from("[->");
    for _ in 0..256 {
        source.push('+');
    }
    source.push_str(">+<<]");
    assert_eq!(parse(&source), Ok(vec![Op::AddScaled(vec![update(2, 1)])]));
}

#[test]
fn a_transfer_to_no_cell_is_a_clear() {
    assert_eq!(try_optimize_loop(&[Op::CellAdd(-1), Op::PtrAdd(1), Op::PtrAdd(-1)]),
        Some(Op::ClearCell));
    let mut source = String::from("[->");
    for _ in 0..256 {
        source.push('+');
    }
    source.push_str("<]");
    assert_eq!(parse(&source), Ok(vec![Op::ClearCell]));
}

#[test]
fn factors_are_kept_unreduced() {
    let mut source = String::from("[->");
    for _ in 0..300 {
        source.push('+');
    }
    source.push_str("<]");
    assert_eq!(parse(&source), Ok(vec![Op::AddScaled(vec![update(1, 300)])]));
}

#[test]
fn loops_that_do_not_come_back_stay() {
    assert_eq!(
        parse("[->+]"),
        Ok(vec![
            Op::LoopStart,
            Op::CellAdd(-1),
            Op::PtrAdd(1),
            Op::CellAdd(1),
            Op::LoopEnd
        ])
    );
    assert_eq!(parse("[>]"), Ok(vec![Op::LoopStart, Op::PtrAdd(1), Op::LoopEnd]));
}

#[test]
fn loops_that_count_by_more_than_one_stay() {
    assert_eq!(
        parse("[-->+<]"),
        Ok(vec![
            Op::LoopStart,
            Op::CellAdd(-2),
            Op::PtrAdd(1),
            Op::CellAdd(1),
            Op::PtrAdd(-1),
            Op::LoopEnd
        ])
    );
}

#[test]
fn loops_with_input_or_output_stay() {
    assert_eq!(
        parse("[.-]"),
        Ok(vec![Op::LoopStart, Op::Output, Op::CellAdd(-1), Op::LoopEnd])
    );
}

#[test]
fn inner_loops_are_replaced_first() {
    assert_eq!(parse("[[-]]"), Ok(vec![Op::LoopStart, Op::ClearCell, Op::LoopEnd]));
    assert_eq!(
        parse("[>[->+<]<-]"),
        Ok(vec![
            Op::LoopStart,
            Op::PtrAdd(1),
            Op::AddScaled(vec![update(1, 1)]),
            Op::PtrAdd(-1),
            Op::CellAdd(-1),
            Op::LoopEnd
        ])
    );
}

#[test]
fn a_count_that_wraps_is_a_transfer() {
    let mut source = String::from("[");
    for _ in 0..255 {
        source.push('+');
    }
    source.push_str(">+<]");
    assert_eq!(parse(&source), Ok(vec![Op::AddScaled(vec![update(1, 1)])]));
}

#[test]
fn push_op_merges_and_cancels() {
    let mut ops = vec![Op::CellAdd(2)];
    push_op(&mut ops, Op::CellAdd(3));
    assert_eq!(ops, vec![Op::CellAdd(5)]);
    push_op(&mut ops, Op::CellAdd(-5));
    assert_eq!(ops, vec![]);
    push_op(&mut ops, Op::PtrAdd(0));
    assert_eq!(ops, vec![]);
    push_op(&mut ops, Op::PtrAdd(4));
    push_op(&mut ops, Op::CellAdd(0));
    push_op(&mut ops, Op::PtrAdd(-1));
    push_op(&mut ops, Op::ClearCell);
    push_op(&mut ops, Op::ClearCell);
    assert_eq!(ops, vec![Op::PtrAdd(3), Op::ClearCell, Op::ClearCell]);
}

#[test]
fn push_op_wraps_around() {
    let mut ops = vec![Op::CellAdd(i32::MAX)];
    push_op(&mut ops, Op::CellAdd(1));
    assert_eq!(ops, vec![Op::CellAdd(i32::MIN)]);
    let mut ops = vec![Op::PtrAdd(i64::MIN)];
    push_op(&mut ops, Op::PtrAdd(-1));
    assert_eq!(ops, vec![Op::PtrAdd(i64::MAX)]);
}

#[test]
fn loop_pairs_are_found() {
    let ops = vec![
        Op::LoopStart,
        Op::Output,
        Op::LoopStart,
        Op::LoopEnd,
        Op::LoopEnd,
        Op::Input,
    ];
    assert_eq!(compute_loop_pairs(&ops), Ok(vec![4, usize::MAX, 3, 2, 0, usize::MAX]));
}

#[test]
fn loop_pairs_of_an_unbalanced_program() {
    assert_eq!(
        compute_loop_pairs(&[Op::LoopEnd, Op::LoopStart]),
        Err(ParseError::InternalUnmatchedClosing)
    );
    assert_eq!(
        compute_loop_pairs(&[Op::LoopStart, Op::Output]),
        Err(ParseError::InternalUnmatchedOpening)
    );
    assert_eq!(
        ParseError::InternalUnmatchedClosing.message(),
        "internal unmatched closing bracket"
    );
    assert_eq!(
        ParseError::InternalUnmatchedOpening.message(),
        "internal unmatched opening bracket"
    );
}

#[test]
fn clear_loop_is_recognised() {
    assert_eq!(try_optimize_clear_loop(&[Op::CellAdd(-1)]), Some(Op::ClearCell));
    assert_eq!(try_optimize_clear_loop(&[Op::CellAdd(-3)]), Some(Op::ClearCell));
    assert_eq!(try_optimize_clear_loop(&[Op::CellAdd(4)]), None);
    assert_eq!(try_optimize_clear_loop(&[Op::PtrAdd(1)]), None);
    assert_eq!(try_optimize_clear_loop(&[]), None);
    assert_eq!(try_optimize_clear_loop(&[Op::CellAdd(1), Op::Output]), None);
}

#[test]
fn transfer_loop_is_recognised() {
    assert_eq!(
        try_optimize_add_scaled_loop(&[
            Op::PtrAdd(2),
            Op::CellAdd(7),
            Op::PtrAdd(-2),
            Op::CellAdd(255)
        ]),
        Some(Op::AddScaled(vec![update(2, 7)]))
    );
    assert_eq!(try_optimize_add_scaled_loop(&[Op::CellAdd(-1)]), Some(Op::ClearCell));
    assert_eq!(try_optimize_add_scaled_loop(&[Op::CellAdd(1)]), None);
    assert_eq!(try_optimize_add_scaled_loop(&[Op::CellAdd(-1), Op::ClearCell]), None);
}

#[test]
fn a_part_is_optimized_by_itself() {
    let ops = vec![Op::CellAdd(1), Op::LoopStart, Op::CellAdd(-1), Op::LoopEnd, Op::Output];
    let pairs = compute_loop_pairs(&ops).unwrap();
    assert_eq!(optimize_range(&ops, &pairs, 1, 4), Ok(vec![Op::ClearCell]));
    assert_eq!(optimize_range(&ops, &pairs, 4, 5), Ok(vec![Op::Output]));
    assert_eq!(
        optimize_range(&ops, &pairs, 2, 4),
        Err(ParseError::InternalUnexpectedLoopTerminator)
    );
    assert_eq!(
        ParseError::InternalUnexpectedLoopTerminator.message(),
        "internal unexpected loop terminator"
    );
}

#[test]
fn optimizing_reports_unbalanced_programs() {
    assert_eq!(optimize_ops(&[Op::LoopEnd]), Err(ParseError::InternalUnmatchedClosing));
    assert_eq!(optimize_ops(&[Op::LoopStart]), Err(ParseError::InternalUnmatchedOpening));
}

#[test]
fn optimizing_twice_is_optimizing_once() {
    for source in [
        "++++++++[>++++[>++>+++>+++>+<<<<-]>+>+>->>+[<]<-]>>.>---.+++++++..+++.>>.<-.<.+++.",
        "[->++>+++<<][[-]]>[[->+<]>[--]<]",
        "+[>>[-]<<]+-><,.",
    ] {
        let once = parse(source).unwrap();
        assert_eq!(optimize_ops(&once), Ok(once));
    }
}

#[test]
fn steps_on_both_sides_of_a_replaced_loop_stay_apart() {
    assert_eq!(
        parse(">[-]>"),
        Ok(vec![Op::PtrAdd(1), Op::ClearCell, Op::PtrAdd(1)])
    );
}

#[test]
fn clones_are_equal() {
    for op in parse("+>[->+<]<,.[.]").unwrap() {
        assert_eq!(op.clone(), op);
    }
}

#[test]
fn parsed_programs_are_normal() {
    for source in ["+>+<-+[->+>---<<<++>]", "++><--[-]>>[[-]+-]", "[>>[->+<-]<<+->]"] {
        let ops = parse(source).unwrap();
        for pair in ops.windows(2) {
            assert!(!matches!(pair, [Op::PtrAdd(_), Op::PtrAdd(_)]));
            assert!(!matches!(pair, [Op::CellAdd(_), Op::CellAdd(_)]));
        }
        let pairs = compute_loop_pairs(&ops).unwrap();
        for (index, op) in ops.iter().enumerate() {
            match op {
                Op::PtrAdd(delta) => assert_ne!(*delta, 0),
                Op::CellAdd(delta) => assert_ne!(*delta, 0),
                Op::AddScaled(updates) => {
                    assert!(!updates.is_empty());
                    assert!(updates.iter().all(|u| u.offset != 0 && u.factor % 256 != 0));
                    assert!(updates.windows(2).all(|two| two[0].offset < two[1].offset));
                }
                Op::LoopStart => {
                    assert_eq!(try_optimize_loop(&ops[index + 1..pairs[index]]), None);
                }
                _ => {}
            }
        }
    }
}

#[test]
fn nothing_behind_a_stray_bracket_is_taken() {
    for (source, left) in [("+]>>", 2), ("]", 0), ("].", 1), ("[-]] [", 2), (">+]+++", 3)] {
        let mut bytes = source.bytes();
        assert_eq!(parse_brainfuck(bytes.by_ref()), Err(ParseError::UnmatchedClosing));
        assert_eq!(bytes.count(), left);
        let mut bytes = source.bytes();
        assert_eq!(parse_from(&mut bytes), Err(ParseError::UnmatchedClosing));
        assert_eq!(bytes.count(), left);
    }
}

#[test]
fn all_of_a_good_source_is_taken() {
    for source in ["", "+", "+ comment", "[-]>>"] {
        let mut bytes = source.bytes();
        assert!(parse_from(&mut bytes).is_ok());
        assert_eq!(bytes.next(), None);
    }
    let mut bytes = "[+".bytes();
    assert_eq!(parse_from(&mut bytes), Err(ParseError::UnmatchedOpening));
    assert_eq!(bytes.next(), None);
}

#[test]
fn a_loop_end_without_its_start_ends_optimizing() {
    let ops = [Op::CellAdd(1), Op::LoopEnd, Op::Output];
    assert_eq!(
        optimize_range(&ops, &[usize::MAX; 3], 0, 3),
        Err(ParseError::InternalUnexpectedLoopTerminator)
    );
}

#[test]
fn improper_updates_are_optimized_once() {
    let ops = [
        Op::AddScaled(vec![]),
        Op::LoopStart,
        Op::AddScaled(vec![update(0, 256)]),
        Op::LoopEnd,
        Op::PtrAdd(1),
        Op::PtrAdd(1),
    ];
    let once = optimize_ops(&ops).unwrap();
    assert_eq!(optimize_ops(&once), Ok(once));
}
