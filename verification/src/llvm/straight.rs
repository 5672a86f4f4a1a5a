//! The code of an instruction that is no part of a loop does what the
//! instruction does.
use vstd::prelude::*;

use crate::llvm::emit::{cell_ptr, current_cell, index_load, index_moved, magnitude, plain_code,
    prologue, start_code, update_code, updates_code, value, zero, INDEX, TAPE};
use crate::llvm::interp::{advance, after, block_at, block_start, entered, filled, fits, following,
    is_instruction, lemma_after_twice, operand, size, stored, upcoming, Place, Progress, State,
    Val};
use crate::llvm::layout::{has_frame, has_part};
use crate::llvm::ir::{Inst, Operand, Ty, TAPE_LEN};
use crate::machine::{bumped, cell, fresh, low_byte, moved, scaled, step, with_cell, Event, Machine};
use crate::op::{CellUpdate, SpecOp};

verus! {

/// The place of the tape's cell `i` in memory.
pub open spec fn cell_place(i: int) -> Place {
    Place { object: TAPE as int, offset: i }
}

/// The place of the pointer register in memory.
pub open spec fn index_place() -> Place {
    Place { object: INDEX as int, offset: 0 }
}

/// The state of the code shows the same tape, pointer, input and output as the
/// machine.
pub open spec fn mirrors(s: State, m: Machine<u64>) -> bool {
    &&& s.values.contains_key(TAPE as int)
    &&& s.values[TAPE as int] == Val::Ptr(cell_place(0))
    &&& s.values.contains_key(INDEX as int)
    &&& s.values[INDEX as int] == Val::Ptr(index_place())
    &&& (s.memory)(index_place()) == Some(Val::Int(Ty::I64, m.ptr as int))
    &&& forall|i: u64|
        i < TAPE_LEN ==> (s.memory)(#[trigger] cell_place(i as int)) == Some(
            Val::Int(Ty::I8, (m.tape)(i) as int),
        )
    &&& s.stdin == m.stdin
    &&& s.read == m.read
    &&& s.output == m.output
    &&& s.events == m.events
}

/// Two instructions one behind the other are in one block.
proof fn lemma_following(code: Seq<Inst>, n: int)
    requires
        0 <= n < code.len() - 1,
        is_instruction(code[n]),
        is_instruction(code[n + 1]),
    ensures
        following(code, n) == n + 1,
{
    assert(block_at(code, n + 1) == block_at(code, n));
}

/// Reading the pointer register.
proof fn lemma_load_index(
    code: Seq<Inst>,
    s: State,
    m: Machine<u64>,
    name: &'static str,
) -> (res: State)
    requires
        has_frame(code),
        0 <= s.pc < code.len(),
        code[s.pc] == index_load(name),
        mirrors(s, m),
    ensures
        advance(code, s) == Progress::Next(res),
        res == (State {
            pc: following(code, s.pc),
            values: s.values.insert(s.pc, Val::Int(Ty::I64, m.ptr as int)),
            ..s
        }),
{
    assert(code[7] == prologue()[7]);
    assert(fits(code, index_place(), Ty::I64));
    State {
        pc: following(code, s.pc),
        values: s.values.insert(s.pc, Val::Int(Ty::I64, m.ptr as int)),
        ..s
    }
}

/// Moving the pointer register.
proof fn lemma_ptr_add(
    code: Seq<Inst>,
    s: State,
    m: Machine<u64>,
    delta: i64,
    n: int,
) -> (res: State)
    requires
        has_frame(code),
        9 <= n,
        has_part(code, n, plain_code(SpecOp::PtrAdd(delta), n as nat)),
        s.pc == n,
        mirrors(s, m),
    ensures
        after(code, s, 3) == Some(res),
        res.pc == following(code, n + 2),
        mirrors(res, step(m, SpecOp::PtrAdd(delta), TAPE_LEN as nat)->0),
{
    let part = plain_code(SpecOp::PtrAdd(delta), n as nat);
    assert(code[n + 0] == part[0]);
    assert(code[n + 1] == part[1]);
    assert(code[n + 2] == part[2]);
    lemma_following(code, n);
    lemma_following(code, n + 1);
    assert(code[7] == prologue()[7]);
    let s1 = lemma_load_index(code, s, m, "idx.cur");
    let s2 = lemma_index_moved(code, s1, value(n as nat), m.ptr, delta, "idx.add", "idx.sub");
    let to = moved(m.ptr, delta as int) as int;
    let s3 = State {
        pc: following(code, n + 2),
        memory: stored(s2.memory, index_place(), Val::Int(Ty::I64, to)),
        ..s2
    };
    assert(advance(code, s2) == Progress::Next(s3)) by {
        assert(operand(s2, value((n + 1) as nat)) == Some(Val::Int(Ty::I64, to)));
        assert(operand(s2, Operand::Value(INDEX)) == Some(Val::Ptr(index_place())));
        assert(fits(code, index_place(), Ty::I64));
    }
    assert(after(code, s3, 0) == Some(s3));
    assert(after(code, s2, 1) == Some(s3));
    assert(after(code, s1, 2) == Some(s3));
    assert(after(code, s, 3) == Some(s3));
    s3
}

/// Finding the current cell: its index and its address are made, and nothing
/// else changes.
proof fn lemma_current_cell(
    code: Seq<Inst>,
    s: State,
    m: Machine<u64>,
    n: int,
    index_name: &'static str,
) -> (res: State)
    requires
        has_frame(code),
        9 <= n,
        has_part(code, n, current_cell(n as nat, index_name, "cell.ptr")),
        n + 2 < code.len(),
        is_instruction(code[n + 2]),
        s.pc == n,
        mirrors(s, m),
        m.ptr < TAPE_LEN,
    ensures
        after(code, s, 2) == Some(res),
        res == (State {
            pc: n + 2,
            values: s.values.insert(n, Val::Int(Ty::I64, m.ptr as int)).insert(
                n + 1,
                Val::Ptr(cell_place(m.ptr as int)),
            ),
            ..s
        }),
        mirrors(res, m),
{
    let part = current_cell(n as nat, index_name, "cell.ptr");
    assert(code[n + 0] == part[0]);
    assert(code[n + 1] == part[1]);
    lemma_following(code, n);
    lemma_following(code, n + 1);
    let s1 = lemma_load_index(code, s, m, index_name);
    let s2 = lemma_cell_ptr(code, s1, m, m.ptr, value(n as nat), "cell.ptr");
    assert(after(code, s2, 0) == Some(s2));
    assert(after(code, s1, 1) == Some(s2));
    assert(after(code, s, 2) == Some(s2));
    s2
}

/// A cell takes what is added to it modulo the size of a cell.
proof fn lemma_bumped_cell(c: int, delta: int)
    ensures
        (c + delta % 256) % 256 == (c + delta) % 256,
{
}

/// Reading a cell.
proof fn lemma_load_cell(code: Seq<Inst>, s: State, at: u64, v: int, ptr: int) -> (res: State)
    requires
        has_frame(code),
        0 <= s.pc < code.len(),
        code[s.pc] matches Inst::Load { ty, ptr: o, .. } && ty == Ty::I8 && o == value(ptr as nat),
        0 <= ptr <= usize::MAX,
        s.values.contains_key(ptr),
        s.values[ptr] == Val::Ptr(cell_place(at as int)),
        at < TAPE_LEN,
        (s.memory)(cell_place(at as int)) == Some(Val::Int(Ty::I8, v)),
    ensures
        advance(code, s) == Progress::Next(res),
        res == (State {
            pc: following(code, s.pc),
            values: s.values.insert(s.pc, Val::Int(Ty::I8, v)),
            ..s
        }),
{
    assert(code[5] == prologue()[5]);
    State {
        pc: following(code, s.pc),
        values: s.values.insert(s.pc, Val::Int(Ty::I8, v)),
        ..s
    }
}

/// The address of a cell.
proof fn lemma_cell_ptr(
    code: Seq<Inst>,
    s: State,
    m: Machine<u64>,
    at: u64,
    index: Operand,
    name: &'static str,
) -> (res: State)
    requires
        has_frame(code),
        0 <= s.pc < code.len(),
        code[s.pc] == cell_ptr(index, name),
        mirrors(s, m),
        operand(s, index) == Some(Val::Int(Ty::I64, at as int)),
        at < TAPE_LEN,
    ensures
        advance(code, s) == Progress::Next(res),
        res == (State {
            pc: following(code, s.pc),
            values: s.values.insert(s.pc, Val::Ptr(cell_place(at as int))),
            ..s
        }),
{
    assert(code[5] == prologue()[5]);
    State {
        pc: following(code, s.pc),
        values: s.values.insert(s.pc, Val::Ptr(cell_place(at as int))),
        ..s
    }
}

/// Moving an index.
proof fn lemma_index_moved(
    code: Seq<Inst>,
    s: State,
    from: Operand,
    ptr: u64,
    delta: i64,
    add_name: &'static str,
    sub_name: &'static str,
) -> (res: State)
    requires
        0 <= s.pc < code.len(),
        code[s.pc] == index_moved(from, delta, add_name, sub_name),
        operand(s, from) == Some(Val::Int(Ty::I64, ptr as int)),
    ensures
        advance(code, s) == Progress::Next(res),
        res == (State {
            pc: following(code, s.pc),
            values: s.values.insert(s.pc, Val::Int(Ty::I64, moved(ptr, delta as int) as int)),
            ..s
        }),
{
    let by = magnitude(delta) as int;
    assert(operand(s, Operand::Const(Ty::I64, magnitude(delta))) == Some(Val::Int(Ty::I64, by)));
    let to = (ptr + delta) % size(Ty::I64);
    if delta >= 0 {
        assert(ptr + by == ptr + delta);
    } else {
        assert(ptr - by == ptr + delta);
    }
    assert(moved(ptr, delta as int) as int == to);
    State {
        pc: following(code, s.pc),
        values: s.values.insert(s.pc, Val::Int(Ty::I64, moved(ptr, delta as int) as int)),
        ..s
    }
}

/// Writing a cell.
proof fn lemma_store_cell(code: Seq<Inst>, s: State, at: u64, v: int) -> (res: State)
    requires
        has_frame(code),
        0 <= s.pc < code.len(),
        code[s.pc] matches Inst::Store { value: o, ptr } && operand(s, o) == Some(
            Val::Int(Ty::I8, v),
        ) && operand(s, ptr) == Some(Val::Ptr(cell_place(at as int))),
        at < TAPE_LEN,
    ensures
        advance(code, s) == Progress::Next(res),
        res == (State {
            pc: following(code, s.pc),
            memory: stored(s.memory, cell_place(at as int), Val::Int(Ty::I8, v)),
            ..s
        }),
{
    assert(code[5] == prologue()[5]);
    State {
        pc: following(code, s.pc),
        memory: stored(s.memory, cell_place(at as int), Val::Int(Ty::I8, v)),
        ..s
    }
}

/// What a written cell shows.
proof fn lemma_mirrors_with_cell(s: State, m: Machine<u64>, at: u64, v: u8, res: State)
    requires
        mirrors(s, m),
        at < TAPE_LEN,
        res.values == s.values,
        res.memory == stored(s.memory, cell_place(at as int), Val::Int(Ty::I8, v as int)),
        res.stdin == s.stdin,
        res.read == s.read,
        res.output == s.output,
        res.events == s.events,
    ensures
        mirrors(res, with_cell(m, at, v)),
{
}

/// Adding to the current cell.
proof fn lemma_cell_add(
    code: Seq<Inst>,
    s: State,
    m: Machine<u64>,
    delta: i32,
    n: int,
) -> (res: State)
    requires
        has_frame(code),
        9 <= n,
        has_part(code, n, plain_code(SpecOp::CellAdd(delta), n as nat)),
        s.pc == n,
        mirrors(s, m),
        m.ptr < TAPE_LEN,
    ensures
        after(code, s, 5) == Some(res),
        res.pc == following(code, n + 4),
        mirrors(res, step(m, SpecOp::CellAdd(delta), TAPE_LEN as nat)->0),
{
    let part = plain_code(SpecOp::CellAdd(delta), n as nat);
    assert(code[n + 0] == part[0]);
    assert(code[n + 1] == part[1]);
    assert(code[n + 2] == part[2]);
    assert(code[n + 3] == part[3]);
    assert(code[n + 4] == part[4]);
    let s2 = lemma_current_cell(code, s, m, n, "idx.load");
    lemma_following(code, n + 2);
    lemma_following(code, n + 3);
    assert(code[5] == prologue()[5]);
    let c = cell(m) as int;
    lemma_bumped_cell(c, delta as int);
    let s3 = lemma_load_cell(code, s2, m.ptr, c, n + 1);
    let s4 = advance(code, s3)->Next_0;
    assert(s4 == State {
        pc: n + 4,
        values: s3.values.insert(n + 3, Val::Int(Ty::I8, (c + delta) % 256)),
        ..s3
    });
    let s5 = lemma_store_cell(code, s4, m.ptr, (c + delta) % 256);
    assert(after(code, s2, 3) == Some(s5)) by {
        reveal_with_fuel(after, 4);
    }
    lemma_after_twice(code, s, 2, 3);
    lemma_mirrors_with_cell(s4, m, m.ptr, bumped(cell(m), delta as int), s5);
    s5
}

/// Clearing the current cell.
proof fn lemma_clear_cell(code: Seq<Inst>, s: State, m: Machine<u64>, n: int) -> (res: State)
    requires
        has_frame(code),
        9 <= n,
        has_part(code, n, plain_code(SpecOp::ClearCell, n as nat)),
        s.pc == n,
        mirrors(s, m),
        m.ptr < TAPE_LEN,
    ensures
        after(code, s, 3) == Some(res),
        res.pc == following(code, n + 2),
        mirrors(res, step(m, SpecOp::ClearCell, TAPE_LEN as nat)->0),
{
    let part = plain_code(SpecOp::ClearCell, n as nat);
    assert(code[n + 0] == part[0]);
    assert(code[n + 1] == part[1]);
    assert(code[n + 2] == part[2]);
    let s2 = lemma_current_cell(code, s, m, n, "idx.load");
    assert(code[5] == prologue()[5]);
    let s3 = advance(code, s2)->Next_0;
    assert(after(code, s2, 1) == Some(s3)) by {
        reveal_with_fuel(after, 2);
    }
    lemma_after_twice(code, s, 2, 1);
    s3
}

/// Writing the current cell.
proof fn lemma_output(code: Seq<Inst>, s: State, m: Machine<u64>, n: int) -> (res: State)
    requires
        has_frame(code),
        9 <= n,
        has_part(code, n, plain_code(SpecOp::Output, n as nat)),
        s.pc == n,
        mirrors(s, m),
        m.ptr < TAPE_LEN,
    ensures
        after(code, s, 5) == Some(res),
        res.pc == following(code, n + 4),
        mirrors(res, step(m, SpecOp::Output, TAPE_LEN as nat)->0),
{
    let part = plain_code(SpecOp::Output, n as nat);
    assert(code[n + 0] == part[0]);
    assert(code[n + 1] == part[1]);
    assert(code[n + 2] == part[2]);
    assert(code[n + 3] == part[3]);
    assert(code[n + 4] == part[4]);
    let s2 = lemma_current_cell(code, s, m, n, "idx.load");
    lemma_following(code, n + 2);
    lemma_following(code, n + 3);
    let c = cell(m);
    let s3 = lemma_load_cell(code, s2, m.ptr, c as int, n + 1);
    let s4 = advance(code, s3)->Next_0;
    assert(s4 == State {
        pc: n + 4,
        values: s3.values.insert(n + 3, Val::Int(Ty::I32, c as int)),
        ..s3
    });
    let s5 = advance(code, s4)->Next_0;
    assert(s5 == State {
        pc: following(code, n + 4),
        output: s4.output.push(c),
        events: s4.events.push(Event::Write(c)),
        ..s4
    });
    assert(after(code, s2, 3) == Some(s5)) by {
        reveal_with_fuel(after, 4);
    }
    lemma_after_twice(code, s, 2, 3);
    s5
}

/// The low byte of a number is that of its low word.
proof fn lemma_low_byte(v: int)
    ensures
        v % 0x1_0000_0000 % 256 == v % 256,
{
}

/// Reading into the current cell.
proof fn lemma_input(code: Seq<Inst>, s: State, m: Machine<u64>, n: int) -> (res: State)
    requires
        has_frame(code),
        9 <= n,
        has_part(code, n, plain_code(SpecOp::Input, n as nat)),
        s.pc == n,
        mirrors(s, m),
        m.ptr < TAPE_LEN,
    ensures
        after(code, s, 5) == Some(res),
        res.pc == following(code, n + 4),
        mirrors(res, step(m, SpecOp::Input, TAPE_LEN as nat)->0),
{
    let part = plain_code(SpecOp::Input, n as nat);
    assert(code[n + 0] == part[0]);
    assert(code[n + 1] == part[1]);
    assert(code[n + 2] == part[2]);
    assert(code[n + 3] == part[3]);
    assert(code[n + 4] == part[4]);
    lemma_following(code, n);
    lemma_following(code, n + 1);
    let s1 = advance(code, s)->Next_0;
    let s2 = advance(code, s1)->Next_0;
    let between = Machine {
        read: m.read + 1,
        events: m.events.push(Event::Read((m.stdin)(m.read))),
        ..m
    };
    assert(after(code, s, 2) == Some(s2)) by {
        reveal_with_fuel(after, 3);
    }
    let here = current_cell((n + 2) as nat, "idx.load", "cell.ptr");
    assert(code[n + 2 + 0] == here[0]);
    assert(code[n + 2 + 1] == here[1]);
    let v = (m.stdin)(m.read);
    lemma_low_byte(v as int);
    assert(s2.values[n + 1] == Val::Int(Ty::I8, low_byte(v) as int));
    let s4 = lemma_current_cell(code, s2, between, n + 2, "idx.load");
    let s5 = lemma_store_cell(code, s4, m.ptr, low_byte(v) as int);
    lemma_mirrors_with_cell(s4, between, m.ptr, low_byte(v), s5);
    assert(after(code, s4, 1) == Some(s5)) by {
        reveal_with_fuel(after, 2);
    }
    lemma_after_twice(code, s2, 2, 1);
    lemma_after_twice(code, s, 2, 3);
    s5
}

/// A cell takes a product modulo the size of a cell.
proof fn lemma_scaled_cell(target: int, base: int, factor: int)
    ensures
        (target + base * (factor % 256) % 256) % 256 == (target + base * factor) % 256,
{
    vstd::arithmetic::div_mod::lemma_mul_mod_noop_right(base, factor, 256);
    vstd::arithmetic::div_mod::lemma_add_mod_noop_right(target, base * factor, 256);
}

/// One update of an `AddScaled`.
proof fn lemma_update(
    code: Seq<Inst>,
    s: State,
    m: Machine<u64>,
    base_cell: u8,
    update: CellUpdate,
    base: int,
    n: int,
) -> (res: State)
    requires
        has_frame(code),
        9 <= base,
        base + 2 < n,
        has_part(code, n, update_code(update, base as nat, n as nat)),
        n + 6 < code.len(),
        is_instruction(code[n + 6]),
        s.pc == n,
        mirrors(s, m),
        s.values.contains_key(base),
        s.values[base] == Val::Int(Ty::I64, m.ptr as int),
        s.values.contains_key(base + 1),
        s.values[base + 1] == Val::Ptr(cell_place(m.ptr as int)),
        s.values.contains_key(base + 2),
        s.values[base + 2] == Val::Int(Ty::I8, base_cell as int),
        moved(m.ptr, update.offset as int) < TAPE_LEN,
    ensures
        after(code, s, 6) == Some(res),
        res.pc == n + 6,
        mirrors(
            res,
            with_cell(
                m,
                moved(m.ptr, update.offset as int),
                bumped(
                    (m.tape)(moved(m.ptr, update.offset as int)),
                    base_cell * update.factor,
                ),
            ),
        ),
        forall|k: int| k < n ==> res.values.contains_key(k) == s.values.contains_key(k),
        forall|k: int| k < n ==> res.values[k] == s.values[k],
{
    let part = update_code(update, base as nat, n as nat);
    let at = moved(m.ptr, update.offset as int);
    assert(code[n + 0] == part[0]);
    assert(code[n + 1] == part[1]);
    assert(code[n + 2] == part[2]);
    assert(code[n + 3] == part[3]);
    assert(code[n + 4] == part[4]);
    assert(code[n + 5] == part[5]);
    lemma_following(code, n);
    lemma_following(code, n + 1);
    lemma_following(code, n + 2);
    lemma_following(code, n + 3);
    lemma_following(code, n + 4);
    lemma_following(code, n + 5);
    assert(code[5] == prologue()[5]);
    let s1 = lemma_index_moved(
        code,
        s,
        value(base as nat),
        m.ptr,
        update.offset,
        "idx.scaled.add",
        "idx.scaled.sub",
    );
    let s2 = lemma_cell_ptr(code, s1, m, at, value(n as nat), "cell.scaled.ptr");
    let target = (m.tape)(at) as int;
    let s3 = lemma_load_cell(code, s2, at, target, n + 1);
    assert(s3.pc == n + 3 && s3.values[n + 2] == Val::Int(Ty::I8, target));
    let s4 = advance(code, s3)->Next_0;
    let product = base_cell as int * (update.factor as int % 256) % 256;
    assert(s4.pc == n + 4 && s4.values[n + 3] == Val::Int(Ty::I8, product));
    let s5 = advance(code, s4)->Next_0;
    assert(s5.pc == n + 5 && s5.values[n + 4] == Val::Int(Ty::I8, (target + product) % 256));
    lemma_scaled_cell(target, base_cell as int, update.factor as int);
    let s6 = lemma_store_cell(code, s5, at, (target + product) % 256);
    lemma_mirrors_with_cell(s5, m, at, bumped((m.tape)(at), base_cell * update.factor), s6);
    assert(after(code, s, 6) == Some(s6)) by {
        reveal_with_fuel(after, 7);
    }
    s6
}

/// An update takes six calls.
pub proof fn lemma_updates_code_len(updates: Seq<CellUpdate>, base: nat, k: nat)
    ensures
        updates_code(updates, base, k).len() == 6 * k,
    decreases k,
{
    if k > 0 {
        lemma_updates_code_len(updates, base, (k - 1) as nat);
    }
}

/// Where the code of update `j` stands.
pub proof fn lemma_updates_code_at(updates: Seq<CellUpdate>, base: nat, k: nat, j: nat, i: int)
    requires
        j < k,
        0 <= i < 6,
    ensures
        updates_code(updates, base, k).len() == 6 * k,
        updates_code(updates, base, k)[6 * j + i] == update_code(
            updates[j as int],
            base,
            base + 3 + 6 * j,
        )[i],
    decreases k,
{
    lemma_updates_code_len(updates, base, k);
    lemma_updates_code_len(updates, base, (k - 1) as nat);
    if j < k - 1 {
        lemma_updates_code_at(updates, base, (k - 1) as nat, j, i);
    }
}

/// The updates of an `AddScaled` from number `j` on.
proof fn lemma_updates(
    code: Seq<Inst>,
    s: State,
    m: Machine<u64>,
    base_cell: u8,
    updates: Seq<CellUpdate>,
    base: int,
    j: int,
) -> (res: State)
    requires
        has_frame(code),
        9 <= base,
        0 <= j <= updates.len(),
        has_part(code, base + 3, updates_code(updates, base as nat, updates.len())),
        base + 3 + 6 * updates.len() < code.len(),
        is_instruction(code[base + 3 + 6 * updates.len()]),
        s.pc == base + 3 + 6 * j,
        mirrors(s, m),
        s.values.contains_key(base),
        s.values[base] == Val::Int(Ty::I64, m.ptr as int),
        s.values.contains_key(base + 1),
        s.values[base + 1] == Val::Ptr(cell_place(m.ptr as int)),
        s.values.contains_key(base + 2),
        s.values[base + 2] == Val::Int(Ty::I8, base_cell as int),
        scaled(m, base_cell, updates.skip(j), TAPE_LEN as nat) is Some,
    ensures
        after(code, s, (6 * (updates.len() - j)) as nat) == Some(res),
        res.pc == base + 3 + 6 * updates.len(),
        mirrors(res, scaled(m, base_cell, updates.skip(j), TAPE_LEN as nat)->0),
        res.values.contains_key(base + 1),
        res.values[base + 1] == Val::Ptr(cell_place(m.ptr as int)),
    decreases updates.len() - j,
{
    let rest = updates.skip(j);
    if j == updates.len() {
        assert(rest.len() == 0);
        s
    } else {
        let n = base + 3 + 6 * j;
        let update = updates[j];
        assert(rest[0] == update);
        assert(rest.drop_first() =~= updates.skip(j + 1));
        assert forall|i: int| 0 <= i < 6 implies #[trigger] code[n + i] == update_code(
            update,
            base as nat,
            n as nat,
        )[i] by {
            lemma_updates_code_at(updates, base as nat, updates.len(), j as nat, i);
            assert(code[base + 3 + (6 * j + i)] == updates_code(
                updates,
                base as nat,
                updates.len(),
            )[6 * j + i]);
        }
        assert(is_instruction(code[n + 6])) by {
            if j + 1 < updates.len() {
                lemma_updates_code_at(updates, base as nat, updates.len(), (j + 1) as nat, 0);
                assert(code[base + 3 + (6 * (j + 1) + 0)] == updates_code(
                    updates,
                    base as nat,
                    updates.len(),
                )[6 * (j + 1) + 0]);
            }
        }
        let at = moved(m.ptr, update.offset as int);
        let next = with_cell(m, at, bumped((m.tape)(at), base_cell * update.factor));
        let t = lemma_update(code, s, m, base_cell, update, base, n as int);
        let res = lemma_updates(code, t, next, base_cell, updates, base, j + 1);
        let left = (6 * (updates.len() - j - 1)) as nat;
        lemma_after_twice(code, s, 6, left);
        res
    }
}

/// Updates leave the pointer where it is.
proof fn lemma_scaled_ptr(m: Machine<u64>, base: u8, updates: Seq<CellUpdate>, cells: nat)
    requires
        scaled(m, base, updates, cells) is Some,
    ensures
        scaled(m, base, updates, cells)->0.ptr == m.ptr,
    decreases updates.len(),
{
    if updates.len() > 0 {
        let at = moved(m.ptr, updates[0].offset as int);
        lemma_scaled_ptr(
            with_cell(m, at, bumped((m.tape)(at), base * updates[0].factor)),
            base,
            updates.drop_first(),
            cells,
        );
    }
}

/// Adding multiples of the current cell to other cells.
proof fn lemma_add_scaled(
    code: Seq<Inst>,
    s: State,
    m: Machine<u64>,
    updates: Seq<CellUpdate>,
    n: int,
) -> (res: State)
    requires
        has_frame(code),
        9 <= n,
        has_part(code, n, plain_code(SpecOp::AddScaled(updates), n as nat)),
        s.pc == n,
        mirrors(s, m),
        step(m, SpecOp::AddScaled(updates), TAPE_LEN as nat) is Some,
    ensures
        after(code, s, 4 + 6 * updates.len()) == Some(res),
        res.pc == following(code, n + 3 + 6 * updates.len()),
        mirrors(res, step(m, SpecOp::AddScaled(updates), TAPE_LEN as nat)->0),
{
    let part = plain_code(SpecOp::AddScaled(updates), n as nat);
    let count = updates.len();
    lemma_updates_code_len(updates, n as nat, count);
    assert(code[n + 0] == part[0]);
    assert(code[n + 1] == part[1]);
    assert(code[n + 2] == part[2]);
    let last = 3 + 6 * count;
    assert(part.len() == last + 1);
    assert(code[n + last] == part[last as int]);
    let inner = updates_code(updates, n as nat, count);
    assert forall|k: int| 0 <= k < inner.len() implies #[trigger] code[n + 3 + k] == inner[k] by {
        assert(code[n + (3 + k)] == part[3 + k]);
    }
    assert(is_instruction(code[n + 3])) by {
        if count > 0 {
            lemma_updates_code_at(updates, n as nat, count, 0, 0);
            assert(code[n + 3 + 0] == inner[0]);
        }
    }
    let s2 = lemma_current_cell(code, s, m, n, "idx.load");
    lemma_following(code, n + 2);
    let s3 = lemma_load_cell(code, s2, m.ptr, cell(m) as int, n + 1);
    assert(after(code, s2, 1) == Some(s3)) by {
        reveal_with_fuel(after, 2);
    }
    lemma_after_twice(code, s, 2, 1);
    assert(updates.skip(0) =~= updates);
    let between = scaled(m, cell(m), updates, TAPE_LEN as nat)->0;
    let s4 = lemma_updates(code, s3, m, cell(m), updates, n, 0);
    lemma_after_twice(code, s, 3, 6 * count);
    let s5 = lemma_store_cell(code, s4, m.ptr, 0);
    lemma_scaled_ptr(m, cell(m), updates, TAPE_LEN as nat);
    lemma_mirrors_with_cell(s4, between, m.ptr, 0, s5);
    assert(after(code, s4, 1) == Some(s5)) by {
        reveal_with_fuel(after, 2);
    }
    lemma_after_twice(code, s, 3 + 6 * count, 1);
    s5
}

/// The code of an instruction that is no part of a loop does what the
/// instruction does.
pub proof fn lemma_plain(code: Seq<Inst>, s: State, m: Machine<u64>, op: SpecOp, n: int) -> (res: (
    nat,
    State,
))
    requires
        has_frame(code),
        9 <= n,
        !(op is LoopStart),
        !(op is LoopEnd),
        has_part(code, n, plain_code(op, n as nat)),
        s.pc == n,
        mirrors(s, m),
        step(m, op, TAPE_LEN as nat) is Some,
    ensures
        after(code, s, res.0) == Some(res.1),
        res.1.pc == following(code, n + plain_code(op, n as nat).len() - 1),
        mirrors(res.1, step(m, op, TAPE_LEN as nat)->0),
{
    match op {
        SpecOp::PtrAdd(delta) => (3, lemma_ptr_add(code, s, m, delta, n)),
        SpecOp::CellAdd(delta) => (5, lemma_cell_add(code, s, m, delta, n)),
        SpecOp::ClearCell => (3, lemma_clear_cell(code, s, m, n)),
        SpecOp::AddScaled(updates) => {
            lemma_updates_code_len(updates, n as nat, updates.len());
            (4 + 6 * updates.len(), lemma_add_scaled(code, s, m, updates, n))
        },
        SpecOp::Output => (5, lemma_output(code, s, m, n)),
        SpecOp::Input => (5, lemma_input(code, s, m, n)),
        _ => (0, s),
    }
}

/// The test before a round of a loop whose blocks are `block` and the two
/// after it: to the body while the cell is not zero, else to the end.
pub proof fn lemma_loop_test(
    code: Seq<Inst>,
    s: State,
    m: Machine<u64>,
    block: nat,
    n: int,
) -> (res:
    State)
    requires
        has_frame(code),
        9 <= n,
        has_part(code, n, start_code(block, n as nat)),
        block + 2 <= usize::MAX,
        s.pc == n + 5,
        mirrors(s, m),
        m.ptr < TAPE_LEN,
    ensures
        after(code, s, 5) == Some(res),
        res.pc == block_start(
            code,
            if cell(m) != 0 {
                block as int + 1
            } else {
                block as int + 2
            },
        ),
        mirrors(res, m),
{
    let part = start_code(block, n as nat);
    assert(code[n + 5] == part[5]);
    assert(code[n + 6] == part[6]);
    assert(code[n + 7] == part[7]);
    assert(code[n + 8] == part[8]);
    assert(code[n + 9] == part[9]);
    let here = current_cell((n + 5) as nat, "idx.loop", "cell.ptr");
    assert(code[n + 5 + 0] == here[0]);
    assert(code[n + 5 + 1] == here[1]);
    let s2 = lemma_current_cell(code, s, m, n + 5, "idx.loop");
    lemma_following(code, n + 7);
    lemma_following(code, n + 8);
    let c = cell(m) as int;
    let s3 = lemma_load_cell(code, s2, m.ptr, c, n + 6);
    let s4 = advance(code, s3)->Next_0;
    let nz = if c != 0 {
        1int
    } else {
        0int
    };
    assert(s4 == State {
        pc: n + 9,
        values: s3.values.insert(n + 8, Val::Int(Ty::I1, nz)),
        ..s3
    });
    let s5 = advance(code, s4)->Next_0;
    assert(after(code, s2, 3) == Some(s5)) by {
        reveal_with_fuel(after, 4);
    }
    lemma_after_twice(code, s, 2, 3);
    s5
}

/// Where the prologue's instructions stand.
pub proof fn lemma_prologue_places(code: Seq<Inst>)
    requires
        has_frame(code),
    ensures
        block_start(code, 0) == 5,
        following(code, 5) == 6,
        following(code, 6) == 7,
        following(code, 7) == 8,
        block_at(code, 8) == 0,
        block_at(code, 9) == 0,
        forall|k: int| 0 <= k < 9 ==> #[trigger] code[k] == prologue()[k],
{
    assert(code[0] == prologue()[0]);
    assert(code[1] == prologue()[1]);
    assert(code[2] == prologue()[2]);
    assert(code[3] == prologue()[3]);
    assert(code[4] == prologue()[4]);
    assert(code[5] == prologue()[5]);
    assert(code[6] == prologue()[6]);
    assert(code[7] == prologue()[7]);
    assert(code[8] == prologue()[8]);
    assert(block_at(code, 5) == 0);
    assert(block_start(code, 0) == 5) by {
        reveal_with_fuel(upcoming, 6);
    }
    lemma_following(code, 5);
    lemma_following(code, 6);
    lemma_following(code, 7);
    assert(block_at(code, 6) == 0);
    assert(block_at(code, 7) == 0);
}

/// The prologue makes an empty tape, with the pointer at its first cell.
pub proof fn lemma_prologue(code: Seq<Inst>, stdin: spec_fn(nat) -> i32) -> (res: State)
    requires
        has_frame(code),
    ensures
        after(code, entered(code, stdin), 4) == Some(res),
        res.pc == following(code, 8),
        block_at(code, 8) == 0,
        block_at(code, 9) == 0,
        mirrors(res, fresh(stdin)),
{
    lemma_prologue_places(code);
    let s = entered(code, stdin);
    assert(code[5] == prologue()[5]);
    assert(code[6] == prologue()[6]);
    assert(code[7] == prologue()[7]);
    assert(code[8] == prologue()[8]);
    let s1 = State { pc: 6, values: s.values.insert(5, Val::Ptr(cell_place(0))), ..s };
    assert(advance(code, s) == Progress::Next(s1));
    let s2 = State {
        pc: 7,
        memory: filled(s.memory, cell_place(0), TAPE_LEN as int, Val::Int(Ty::I8, 0)),
        ..s1
    };
    assert(advance(code, s1) == Progress::Next(s2)) by {
        assert(operand(s1, Operand::Value(TAPE)) == Some(Val::Ptr(cell_place(0))));
        assert(operand(s1, zero(Ty::I8)) == Some(Val::Int(Ty::I8, 0)));
        assert(operand(s1, Operand::Const(Ty::I64, TAPE_LEN)) == Some(
            Val::Int(Ty::I64, TAPE_LEN as int),
        ));
        assert(fits(code, cell_place(0), Ty::I8));
        assert(fits(code, cell_place(TAPE_LEN - 1), Ty::I8));
    }
    let s3 = State { pc: 8, values: s2.values.insert(7, Val::Ptr(index_place())), ..s2 };
    assert(advance(code, s2) == Progress::Next(s3));
    let s4 = State {
        pc: following(code, 8),
        memory: stored(s3.memory, index_place(), Val::Int(Ty::I64, 0)),
        ..s3
    };
    assert(advance(code, s3) == Progress::Next(s4)) by {
        assert(operand(s3, Operand::Value(INDEX)) == Some(Val::Ptr(index_place())));
        assert(operand(s3, zero(Ty::I64)) == Some(Val::Int(Ty::I64, 0)));
        assert(fits(code, index_place(), Ty::I64));
    }
    assert(after(code, s4, 0) == Some(s4));
    assert(after(code, s3, 1) == Some(s4));
    assert(after(code, s2, 2) == Some(s4));
    assert(after(code, s1, 3) == Some(s4));
    assert(after(code, s, 4) == Some(s4));
    s4
}

} // verus!
