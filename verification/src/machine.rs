//! What a program means: the machine that runs it.
//!
//! The machine has a pointer, a tape of 8-bit cells that wrap around, an input
//! and an output. What the pointer can be is a parameter. As a register of 64
//! bits it wraps around; the number of cells is then a parameter too: with
//! [`all_cells`] every value of the pointer is a cell, with fewer a program can
//! fall off the tape. As an integer it never wraps around, and every cell
//! is on the tape.
use vstd::prelude::*;

use crate::brackets::{balanced, is_pair, lemma_balanced_subrange, lemma_loop_end,
    lemma_nesting_concat, lemma_pair_subrange, lemma_span_loop, lemma_span_plain, loop_end,
    nesting};
use crate::op::{CellUpdate, SpecOp};

verus! {

/// As many cells as the pointer register has values.
pub open spec fn all_cells() -> nat {
    0x1_0000_0000_0000_0000
}

/// Where a pointer can stand.
pub trait Position: Sized {
    /// The position `by` cells further on.
    spec fn moved(self, by: int) -> Self;

    /// The position is one of the first `cells` cells, or the tape has no end.
    spec fn on_tape(self, cells: nat) -> bool;

    /// A move by as many cells as a register of 64 bits has values is none.
    spec fn wraps() -> bool;

    /// Two moves are one move.
    proof fn lemma_moved(self, a: int, b: int)
        ensures
            self.moved(a).moved(b) == self.moved(a + b),
            self.moved(0) == self,
            Self::wraps() ==> self.moved(a + 0x1_0000_0000_0000_0000) == self.moved(a),
            Self::wraps() ==> self.moved(a - 0x1_0000_0000_0000_0000) == self.moved(a),
            self.on_tape(all_cells()),
    ;

    /// Two offsets lead to two cells.
    proof fn lemma_apart(self, a: i64, b: i64)
        ensures
            self.moved(a as int) == self.moved(b as int) ==> a == b,
    ;
}

/// A pointer register of 64 bits.
impl Position for u64 {
    open spec fn moved(self, by: int) -> u64 {
        moved(self, by)
    }

    open spec fn on_tape(self, cells: nat) -> bool {
        self < cells
    }

    open spec fn wraps() -> bool {
        true
    }

    proof fn lemma_moved(self, a: int, b: int) {
    }

    proof fn lemma_apart(self, a: i64, b: i64) {
    }
}

/// A pointer over a tape without end in both directions.
impl Position for int {
    open spec fn moved(self, by: int) -> int {
        self + by
    }

    open spec fn on_tape(self, cells: nat) -> bool {
        true
    }

    open spec fn wraps() -> bool {
        false
    }

    proof fn lemma_moved(self, a: int, b: int) {
    }

    proof fn lemma_apart(self, a: i64, b: i64) {
    }
}

/// What a program does that can be seen from outside.
#[verifier::ext_equal]
pub enum Event {
    /// It calls `getchar`, which returns that.
    Read(i32),
    /// It writes a byte.
    Write(u8),
}

/// The state of a run.
#[verifier::ext_equal]
#[verifier::reject_recursive_types(P)]
pub struct Machine<P> {
    /// The pointer.
    pub ptr: P,
    /// The tape.
    pub tape: spec_fn(P) -> u8,
    /// What the successive calls of `getchar` return.
    pub stdin: spec_fn(nat) -> i32,
    /// How often `getchar` has been called.
    pub read: nat,
    /// The bytes written.
    pub output: Seq<u8>,
    /// What has been read and written, in order.
    pub events: Seq<Event>,
}

/// The machine on which a program starts: pointer at the first cell, every
/// cell zero, nothing read or written.
pub open spec fn fresh(stdin: spec_fn(nat) -> i32) -> Machine<u64> {
    Machine {
        ptr: 0,
        tape: |i: u64| 0u8,
        stdin,
        read: 0,
        output: Seq::empty(),
        events: Seq::empty(),
    }
}

/// The pointer `ptr` moved by `by` cells.
pub open spec fn moved(ptr: u64, by: int) -> u64 {
    ((ptr + by) % 0x1_0000_0000_0000_0000) as u64
}

/// The cell value `cell` with `by` added.
pub open spec fn bumped(cell: u8, by: int) -> u8 {
    ((cell + by) % 256) as u8
}

/// The low eight bits of a number.
pub open spec fn low_byte(value: i32) -> u8 {
    (value as int % 256) as u8
}

/// The current cell.
pub open spec fn cell<P: Position>(m: Machine<P>) -> u8 {
    (m.tape)(m.ptr)
}

/// The machine with cell `at` set to `value`.
pub open spec fn with_cell<P: Position>(m: Machine<P>, at: P, value: u8) -> Machine<P> {
    Machine {
        tape: |i: P|
            if i == at {
                value
            } else {
                (m.tape)(i)
            },
        ..m
    }
}

/// The machine after each of `updates`, in turn, added its multiple of `base`;
/// nothing if one of the cells is not on the tape.
pub open spec fn scaled<P: Position>(
    m: Machine<P>,
    base: u8,
    updates: Seq<CellUpdate>,
    cells: nat,
) -> Option<
    Machine<P>,
>
    decreases updates.len(),
{
    if updates.len() == 0 {
        Some(m)
    } else {
        let at = m.ptr.moved(updates[0].offset as int);
        if at.on_tape(cells) {
            scaled(
                with_cell(m, at, bumped((m.tape)(at), base * updates[0].factor)),
                base,
                updates.drop_first(),
                cells,
            )
        } else {
            None
        }
    }
}

/// The machine after one instruction that is no part of a loop; nothing if the
/// instruction needs a cell that is not on the tape.
pub open spec fn step<P: Position>(m: Machine<P>, op: SpecOp, cells: nat) -> Option<Machine<P>> {
    match op {
        SpecOp::PtrAdd(delta) => Some(Machine { ptr: m.ptr.moved(delta as int), ..m }),
        SpecOp::LoopStart => None,
        SpecOp::LoopEnd => None,
        _ => if m.ptr.on_tape(cells) {
            match op {
                SpecOp::CellAdd(delta) => Some(
                    with_cell(m, m.ptr, bumped(cell(m), delta as int)),
                ),
                SpecOp::ClearCell => Some(with_cell(m, m.ptr, 0)),
                SpecOp::AddScaled(updates) => match scaled(m, cell(m), updates, cells) {
                    Some(next) => Some(with_cell(next, m.ptr, 0)),
                    None => None,
                },
                SpecOp::Output => Some(
                    Machine {
                        output: m.output.push(cell(m)),
                        events: m.events.push(Event::Write(cell(m))),
                        ..m
                    },
                ),
                SpecOp::Input => Some(
                    with_cell(
                        Machine {
                            read: m.read + 1,
                            events: m.events.push(Event::Read((m.stdin)(m.read))),
                            ..m
                        },
                        m.ptr,
                        low_byte((m.stdin)(m.read)),
                    ),
                ),
                _ => None,
            }
        } else {
            None
        },
    }
}

/// How a run ends.
#[verifier::ext_equal]
#[verifier::reject_recursive_types(P)]
pub enum Outcome<P> {
    /// It came to the end of the program.
    Done(Machine<P>),
    /// A loop wanted more rounds than it may take; this is how far it came.
    Spent(Machine<P>),
    /// It left the tape, or the program's loops do not match.
    Fault,
}

/// Runs a program, in which each loop may take at most `rounds` rounds each
/// time that it is entered.
///
/// A run that ends takes a finite number of rounds in each loop, so it is
/// `Done` for all large enough `rounds`. One that does not end is `Spent` for
/// every number of rounds, and shows with growing `rounds` all that it writes.
pub open spec fn run<P: Position>(
    ops: Seq<SpecOp>,
    m: Machine<P>,
    rounds: nat,
    cells: nat,
) -> Outcome<P>
    decreases ops.len(), 0nat,
{
    if ops.len() == 0 {
        Outcome::Done(m)
    } else if ops[0] is LoopStart {
        let e = loop_end(ops, 0);
        if is_pair(ops, 0, e) {
            match run_loop(ops.subrange(1, e), m, rounds, rounds, cells) {
                Outcome::Done(next) => run(
                    ops.subrange(e + 1, ops.len() as int),
                    next,
                    rounds,
                    cells,
                ),
                other => other,
            }
        } else {
            Outcome::Fault
        }
    } else {
        match step(m, ops[0], cells) {
            Some(next) => run(ops.subrange(1, ops.len() as int), next, rounds, cells),
            None => Outcome::Fault,
        }
    }
}

/// Runs a loop, of which `left` rounds are left.
pub open spec fn run_loop<P: Position>(
    body: Seq<SpecOp>,
    m: Machine<P>,
    left: nat,
    rounds: nat,
    cells: nat,
) -> Outcome<P>
    decreases body.len(), left + 1,
{
    if !m.ptr.on_tape(cells) {
        Outcome::Fault
    } else if cell(m) == 0 {
        Outcome::Done(m)
    } else if left == 0 {
        Outcome::Spent(m)
    } else {
        match run(body, m, rounds, cells) {
            Outcome::Done(next) => run_loop(body, next, (left - 1) as nat, rounds, cells),
            other => other,
        }
    }
}

/// Goes on with `ops` where a run has come to its end.
pub open spec fn and_then<P: Position>(
    r: Outcome<P>,
    ops: Seq<SpecOp>,
    rounds: nat,
    cells: nat,
) -> Outcome<P> {
    match r {
        Outcome::Done(next) => run(ops, next, rounds, cells),
        other => other,
    }
}

/// Running two programs one behind the other is running the second where the
/// first has ended.
pub proof fn lemma_run_concat<P: Position>(
    a: Seq<SpecOp>,
    b: Seq<SpecOp>,
    m: Machine<P>,
    rounds: nat,
    cells: nat,
)
    requires
        balanced(a),
    ensures
        run(a + b, m, rounds, cells) == and_then(run(a, m, rounds, cells), b, rounds, cells),
    decreases a.len(),
{
    let all = a + b;
    let n = a.len() as int;
    if a.len() == 0 {
        assert(all =~= b);
    } else {
        assert(a =~= a.subrange(0, n));
        lemma_balanced_subrange(a, 0, n);
        assert(all[0] == a[0]);
        if a[0] is LoopStart {
            lemma_span_loop(a, 0, n);
            let e = loop_end(a, 0);
            assert(a =~= all.subrange(0, n));
            lemma_pair_subrange(all, 0, n, 0, e);
            lemma_loop_end(all, 0, e);
            assert(all.subrange(1, e) =~= a.subrange(1, e));
            let rest = a.subrange(e + 1, n);
            lemma_balanced_subrange(a, e + 1, n);
            assert(all.subrange(e + 1, all.len() as int) =~= rest + b);
            match run_loop(a.subrange(1, e), m, rounds, rounds, cells) {
                Outcome::Done(next) => {
                    lemma_run_concat(rest, b, next, rounds, cells);
                },
                _ => {},
            }
        } else {
            lemma_span_plain(a, 0, n);
            let rest = a.subrange(1, n);
            lemma_balanced_subrange(a, 1, n);
            assert(all.subrange(1, all.len() as int) =~= rest + b);
            match step(m, a[0], cells) {
                Some(next) => {
                    lemma_run_concat(rest, b, next, rounds, cells);
                },
                None => {},
            }
        }
    }
}

/// Running a single instruction that is no part of a loop.
pub proof fn lemma_run_single<P: Position>(op: SpecOp, m: Machine<P>, rounds: nat, cells: nat)
    requires
        !(op is LoopStart),
    ensures
        run(seq![op], m, rounds, cells) == (match step(m, op, cells) {
            Some(next) => Outcome::Done(next),
            None => Outcome::Fault,
        }),
{
    let ops = seq![op];
    assert(ops.subrange(1, 1) =~= Seq::<SpecOp>::empty());
    if step(m, op, cells) is Some {
        assert(run(Seq::<SpecOp>::empty(), step(m, op, cells)->0, rounds, cells) == Outcome::Done(
            step(m, op, cells)->0,
        ));
    }
}

/// A loop, as a program: a loop start, the body and a loop end.
pub open spec fn loop_of(body: Seq<SpecOp>) -> Seq<SpecOp> {
    seq![SpecOp::LoopStart] + body + seq![SpecOp::LoopEnd]
}

/// A loop around a balanced body is balanced, and ends with its last
/// instruction.
pub proof fn lemma_loop_of(body: Seq<SpecOp>)
    requires
        balanced(body),
    ensures
        balanced(loop_of(body)),
        is_pair(loop_of(body), 0, body.len() as int + 1),
        loop_end(loop_of(body), 0) == body.len() as int + 1,
        loop_of(body).subrange(1, body.len() as int + 1) == body,
{
    let ops = loop_of(body);
    let start = seq![SpecOp::LoopStart];
    let end = seq![SpecOp::LoopEnd];
    assert(ops =~= start + (body + end));
    assert(nesting(start, 1) == 1) by {
        reveal_with_fuel(nesting, 2);
    }
    assert forall|k: int| 0 < k <= body.len() + 1 implies #[trigger] nesting(ops, k) == 1 + nesting(
        body,
        k - 1,
    ) by {
        lemma_nesting_concat(start, body + end, k);
        lemma_nesting_concat(body, end, k - 1);
    }
    let n = ops.len() as int;
    assert(nesting(ops, n) == nesting(ops, n - 1) - 1);
    assert(nesting(ops, 0) == 0);
    assert forall|k: int| 0 < k <= body.len() + 1 implies #[trigger] nesting(ops, k) > 0 by {
        assert(nesting(body, k - 1) >= 0);
    }
    assert(nesting(body, body.len() as int) == 0);
    assert(nesting(ops, n - 1) == 1);
    assert(is_pair(ops, 0, body.len() as int + 1));
    lemma_loop_end(ops, 0, body.len() as int + 1);
    assert(ops.subrange(1, body.len() as int + 1) =~= body);
}

/// Running a loop.
pub proof fn lemma_run_loop_of<P: Position>(
    body: Seq<SpecOp>,
    m: Machine<P>,
    rounds: nat,
    cells: nat,
)
    requires
        balanced(body),
    ensures
        run(loop_of(body), m, rounds, cells) == run_loop(body, m, rounds, rounds, cells),
{
    lemma_loop_of(body);
    let ops = loop_of(body);
    let n = ops.len() as int;
    assert(ops.subrange(n, n) =~= Seq::<SpecOp>::empty());
    match run_loop(body, m, rounds, rounds, cells) {
        Outcome::Done(next) => {
            assert(run(Seq::<SpecOp>::empty(), next, rounds, cells) == Outcome::Done(next));
        },
        _ => {},
    }
}

/// Bodies that run alike make loops that run alike.
pub proof fn lemma_run_loop_congruent<P: Position>(
    a: Seq<SpecOp>,
    b: Seq<SpecOp>,
    m: Machine<P>,
    left: nat,
    rounds: nat,
    cells: nat,
)
    requires
        forall|s: Machine<P>| #[trigger] run(a, s, rounds, cells) == run(b, s, rounds, cells),
    ensures
        run_loop(a, m, left, rounds, cells) == run_loop(b, m, left, rounds, cells),
    decreases left,
{
    if m.ptr.on_tape(cells) && cell(m) != 0 && left > 0 {
        match run(a, m, rounds, cells) {
            Outcome::Done(next) => {
                lemma_run_loop_congruent(a, b, next, (left - 1) as nat, rounds, cells);
            },
            _ => {},
        }
    }
}

proof fn lemma_scaled_more_cells(
    m: Machine<u64>,
    base: u8,
    updates: Seq<CellUpdate>,
    few: nat,
    many: nat,
)
    requires
        few <= many,
        scaled(m, base, updates, few) is Some,
    ensures
        scaled(m, base, updates, many) == scaled(m, base, updates, few),
    decreases updates.len(),
{
    if updates.len() > 0 {
        let at = moved(m.ptr, updates[0].offset as int);
        lemma_scaled_more_cells(
            with_cell(m, at, bumped((m.tape)(at), base * updates[0].factor)),
            base,
            updates.drop_first(),
            few,
            many,
        );
    }
}

proof fn lemma_step_more_cells(m: Machine<u64>, op: SpecOp, few: nat, many: nat)
    requires
        few <= many,
        step(m, op, few) is Some,
    ensures
        step(m, op, many) == step(m, op, few),
{
    match op {
        SpecOp::AddScaled(updates) => {
            lemma_scaled_more_cells(m, cell(m), updates, few, many);
        },
        _ => {},
    }
}

/// A run that does not leave its tape is the same on a longer one.
pub proof fn law_longer_tape(ops: Seq<SpecOp>, m: Machine<u64>, rounds: nat, few: nat, many: nat)
    requires
        few <= many,
        !(run(ops, m, rounds, few) is Fault),
    ensures
        run(ops, m, rounds, many) == run(ops, m, rounds, few),
    decreases ops.len(), 0nat,
{
    if ops.len() > 0 {
        if ops[0] is LoopStart {
            let e = loop_end(ops, 0);
            let body = ops.subrange(1, e);
            lemma_longer_tape_loop(body, m, rounds, rounds, few, many);
            match run_loop(body, m, rounds, rounds, few) {
                Outcome::Done(next) => {
                    law_longer_tape(
                        ops.subrange(e + 1, ops.len() as int),
                        next,
                        rounds,
                        few,
                        many,
                    );
                },
                _ => {},
            }
        } else {
            lemma_step_more_cells(m, ops[0], few, many);
            law_longer_tape(
                ops.subrange(1, ops.len() as int),
                step(m, ops[0], few)->0,
                rounds,
                few,
                many,
            );
        }
    }
}

proof fn lemma_longer_tape_loop(
    body: Seq<SpecOp>,
    m: Machine<u64>,
    left: nat,
    rounds: nat,
    few: nat,
    many: nat,
)
    requires
        few <= many,
        !(run_loop(body, m, left, rounds, few) is Fault),
    ensures
        run_loop(body, m, left, rounds, many) == run_loop(body, m, left, rounds, few),
    decreases body.len(), left + 1,
{
    if cell(m) != 0 && left > 0 {
        law_longer_tape(body, m, rounds, few, many);
        match run(body, m, rounds, few) {
            Outcome::Done(next) => {
                lemma_longer_tape_loop(body, next, (left - 1) as nat, rounds, few, many);
            },
            _ => {},
        }
    }
}

/// A run that comes to its end, or off its tape, does so in the same way when
/// its loops may take more rounds; one that was cut short goes on from there,
/// and takes back nothing that it has read or written.
pub proof fn law_more_rounds<P: Position>(
    ops: Seq<SpecOp>,
    m: Machine<P>,
    few: nat,
    many: nat,
    cells: nat,
)
    requires
        few <= many,
    ensures
        !(run(ops, m, few, cells) is Spent) ==> run(ops, m, many, cells) == run(
            ops,
            m,
            few,
            cells,
        ),
        run(ops, m, few, cells) matches Outcome::Spent(cut) ==> goes_on(
            cut,
            run(ops, m, many, cells),
        ),
    decreases ops.len(), 0nat,
{
    if ops.len() > 0 {
        if ops[0] is LoopStart {
            let e = loop_end(ops, 0);
            let rest = ops.subrange(e + 1, ops.len() as int);
            if is_pair(ops, 0, e) {
                let body = ops.subrange(1, e);
                lemma_more_rounds_loop(body, m, few, many, few, many, cells);
                match run_loop(body, m, few, few, cells) {
                    Outcome::Done(next) => {
                        law_more_rounds(rest, next, few, many, cells);
                    },
                    Outcome::Spent(cut) => {
                        match run_loop(body, m, many, many, cells) {
                            Outcome::Done(next) => {
                                lemma_run_goes_on(rest, next, many, cells);
                            },
                            _ => {},
                        }
                    },
                    Outcome::Fault => {},
                }
            }
        } else {
            match step(m, ops[0], cells) {
                Some(next) => {
                    law_more_rounds(
                        ops.subrange(1, ops.len() as int),
                        next,
                        few,
                        many,
                        cells,
                    );
                },
                None => {},
            }
        }
    }
}

/// The outcome has at least read and written what `m` has.
pub open spec fn goes_on<P: Position>(m: Machine<P>, r: Outcome<P>) -> bool {
    match r {
        Outcome::Done(end) => m.events.is_prefix_of(end.events) && m.read <= end.read
            && m.output.is_prefix_of(end.output),
        Outcome::Spent(end) => m.events.is_prefix_of(end.events) && m.read <= end.read
            && m.output.is_prefix_of(end.output),
        Outcome::Fault => true,
    }
}

proof fn lemma_scaled_io<P: Position>(m: Machine<P>, base: u8, updates: Seq<CellUpdate>, cells: nat)
    requires
        scaled(m, base, updates, cells) is Some,
    ensures
        scaled(m, base, updates, cells)->0.read == m.read,
        scaled(m, base, updates, cells)->0.output == m.output,
        scaled(m, base, updates, cells)->0.events == m.events,
    decreases updates.len(),
{
    if updates.len() > 0 {
        let at = m.ptr.moved(updates[0].offset as int);
        lemma_scaled_io(
            with_cell(m, at, bumped((m.tape)(at), base * updates[0].factor)),
            base,
            updates.drop_first(),
            cells,
        );
    }
}

proof fn lemma_step_goes_on<P: Position>(m: Machine<P>, op: SpecOp, cells: nat)
    requires
        step(m, op, cells) is Some,
    ensures
        goes_on(m, Outcome::Done(step(m, op, cells)->0)),
{
    match op {
        SpecOp::AddScaled(updates) => {
            lemma_scaled_io(m, cell(m), updates, cells);
        },
        _ => {},
    }
}

proof fn lemma_run_goes_on<P: Position>(ops: Seq<SpecOp>, m: Machine<P>, rounds: nat, cells: nat)
    ensures
        goes_on(m, run(ops, m, rounds, cells)),
    decreases ops.len(), 0nat,
{
    if ops.len() > 0 {
        if ops[0] is LoopStart {
            let e = loop_end(ops, 0);
            if is_pair(ops, 0, e) {
                lemma_loop_goes_on(ops.subrange(1, e), m, rounds, rounds, cells);
                match run_loop(ops.subrange(1, e), m, rounds, rounds, cells) {
                    Outcome::Done(next) => {
                        lemma_run_goes_on(
                            ops.subrange(e + 1, ops.len() as int),
                            next,
                            rounds,
                            cells,
                        );
                    },
                    _ => {},
                }
            }
        } else {
            match step(m, ops[0], cells) {
                Some(next) => {
                    lemma_step_goes_on(m, ops[0], cells);
                    lemma_run_goes_on(ops.subrange(1, ops.len() as int), next, rounds, cells);
                },
                None => {},
            }
        }
    }
}

proof fn lemma_loop_goes_on<P: Position>(
    body: Seq<SpecOp>,
    m: Machine<P>,
    left: nat,
    rounds: nat,
    cells: nat,
)
    ensures
        goes_on(m, run_loop(body, m, left, rounds, cells)),
    decreases body.len(), left + 1,
{
    if m.ptr.on_tape(cells) && cell(m) != 0 && left > 0 {
        lemma_run_goes_on(body, m, rounds, cells);
        match run(body, m, rounds, cells) {
            Outcome::Done(next) => {
                lemma_loop_goes_on(body, next, (left - 1) as nat, rounds, cells);
            },
            _ => {},
        }
    }
}

proof fn lemma_more_rounds_loop<P: Position>(
    body: Seq<SpecOp>,
    m: Machine<P>,
    left_few: nat,
    left_many: nat,
    few: nat,
    many: nat,
    cells: nat,
)
    requires
        few <= many,
        left_few <= left_many,
    ensures
        !(run_loop(body, m, left_few, few, cells) is Spent) ==> run_loop(
            body,
            m,
            left_many,
            many,
            cells,
        ) == run_loop(body, m, left_few, few, cells),
        run_loop(body, m, left_few, few, cells) matches Outcome::Spent(cut) ==> goes_on(
            cut,
            run_loop(body, m, left_many, many, cells),
        ),
    decreases body.len(), left_few + 1,
{
    if m.ptr.on_tape(cells) && cell(m) != 0 {
        if left_few == 0 {
            if left_many > 0 {
                lemma_loop_goes_on(body, m, left_many, many, cells);
            }
        } else {
            law_more_rounds(body, m, few, many, cells);
            match run(body, m, few, cells) {
                Outcome::Done(next) => {
                    lemma_more_rounds_loop(
                        body,
                        next,
                        (left_few - 1) as nat,
                        (left_many - 1) as nat,
                        few,
                        many,
                        cells,
                    );
                },
                Outcome::Spent(cut) => {
                    match run(body, m, many, cells) {
                        Outcome::Done(next) => {
                            lemma_loop_goes_on(
                                body,
                                next,
                                (left_many - 1) as nat,
                                many,
                                cells,
                            );
                        },
                        _ => {},
                    }
                },
                Outcome::Fault => {},
            }
        }
    }
}

} // verus!
