//! What the code of a module does.
//!
//! A state machine for the part of LLVM's language that [`Inst`] can express.
//! It is `Stuck` where LLVM promises nothing: at an access outside of an
//! object, at one of another type, or at a value that was never made.
use vstd::prelude::*;

use crate::llvm::ir::{Function, Inst, Operand, Ty, TAPE_LEN};
use crate::machine::Event;

verus! {

/// A place in memory: an object, named by the call that reserved it, and an
/// element of it.
#[verifier::ext_equal]
pub struct Place {
    pub object: int,
    pub offset: int,
}

/// A value.
#[verifier::ext_equal]
pub enum Val {
    /// An integer of that type, from zero to less than the type's size.
    Int(Ty, int),
    /// An address.
    Ptr(Place),
}

/// The state of a run.
pub struct State {
    /// The call whose instruction is next.
    pub pc: int,
    /// What the instructions have made, each under its place.
    pub values: Map<int, Val>,
    /// What has been stored.
    pub memory: spec_fn(Place) -> Option<Val>,
    /// What the successive calls of `getchar` return.
    pub stdin: spec_fn(nat) -> i32,
    /// How often `getchar` has been called.
    pub read: nat,
    /// The bytes written.
    pub output: Seq<u8>,
    /// What has been read and written, in order.
    pub events: Seq<Event>,
}

/// The number of values of an integer type.
pub open spec fn size(ty: Ty) -> int {
    match ty {
        Ty::I1 => 2,
        Ty::I8 => 0x100,
        Ty::I32 => 0x1_0000_0000,
        Ty::I64 => 0x1_0000_0000_0000_0000,
        Ty::Tape => 1,
    }
}

/// The value of an integer type that agrees with `v` modulo the type's size.
pub open spec fn wrapped(ty: Ty, v: int) -> int {
    match ty {
        Ty::I1 => v % 2,
        Ty::I8 => v % 0x100,
        Ty::I32 => v % 0x1_0000_0000,
        Ty::I64 => v % 0x1_0000_0000_0000_0000,
        Ty::Tape => 0,
    }
}

/// The call puts an instruction into a block.
pub open spec fn is_instruction(inst: Inst) -> bool {
    match inst {
        Inst::AddFunction(_) => false,
        Inst::AppendBlock(_) => false,
        Inst::PositionAtEnd(_) => false,
        _ => true,
    }
}

/// The block at whose end the builder stands before call `n`.
pub open spec fn block_at(code: Seq<Inst>, n: int) -> int
    decreases n,
{
    if n <= 0 {
        -1
    } else {
        match code[n - 1] {
            Inst::PositionAtEnd(block) => block as int,
            _ => block_at(code, n - 1),
        }
    }
}

/// The first instruction of `block` among the calls from `n` on.
pub open spec fn upcoming(code: Seq<Inst>, n: int, block: int) -> int
    decreases code.len() - n,
{
    if n >= code.len() || (is_instruction(code[n]) && block_at(code, n) == block) {
        n
    } else {
        upcoming(code, n + 1, block)
    }
}

/// The first instruction of `block`.
pub open spec fn block_start(code: Seq<Inst>, block: int) -> int {
    upcoming(code, 0, block)
}

/// The instruction after the one that call `n` made.
pub open spec fn following(code: Seq<Inst>, n: int) -> int {
    upcoming(code, n + 1, block_at(code, n))
}

/// What an operand stands for.
pub open spec fn operand(s: State, o: Operand) -> Option<Val> {
    match o {
        Operand::Const(ty, v) => Some(Val::Int(ty, wrapped(ty, v as int))),
        Operand::Value(n) => if s.values.contains_key(n as int) {
            Some(s.values[n as int])
        } else {
            None
        },
    }
}

/// A value of type `ty` can stand at the place.
pub open spec fn fits(code: Seq<Inst>, place: Place, ty: Ty) -> bool {
    &&& 0 <= place.object < code.len()
    &&& match code[place.object] {
        Inst::Alloca { ty: Ty::Tape, .. } => ty == Ty::I8 && 0 <= place.offset < TAPE_LEN,
        Inst::Alloca { ty: object, .. } => ty == object && place.offset == 0,
        _ => false,
    }
}

/// The memory with `value` at `place`.
pub open spec fn stored(
    memory: spec_fn(Place) -> Option<Val>,
    place: Place,
    value: Val,
) -> spec_fn(Place) -> Option<Val> {
    |p: Place|
        if p == place {
            Some(value)
        } else {
            memory(p)
        }
}

/// The memory with `len` elements from `place` on set to `value`.
pub open spec fn filled(
    memory: spec_fn(Place) -> Option<Val>,
    place: Place,
    len: int,
    value: Val,
) -> spec_fn(Place) -> Option<Val> {
    |p: Place|
        if p.object == place.object && place.offset <= p.offset < place.offset + len {
            Some(value)
        } else {
            memory(p)
        }
}

/// What comes of an instruction.
pub enum Progress {
    /// The run goes on.
    Next(State),
    /// `main` returns.
    Returned(State, int),
    /// Nothing is promised.
    Stuck,
}

/// Goes on behind the current instruction.
pub open spec fn onward(code: Seq<Inst>, s: State) -> Progress {
    Progress::Next(State { pc: following(code, s.pc), ..s })
}

/// Goes on behind the current instruction, which has made `value`.
pub open spec fn made(code: Seq<Inst>, s: State, value: Val) -> Progress {
    onward(code, State { values: s.values.insert(s.pc, value), ..s })
}

/// The sum, difference or product of two integers of one type.
pub open spec fn arithmetic(
    code: Seq<Inst>,
    s: State,
    lhs: Operand,
    rhs: Operand,
    op: spec_fn(int, int) -> int,
) -> Progress {
    match (operand(s, lhs), operand(s, rhs)) {
        (Some(Val::Int(a_ty, a)), Some(Val::Int(b_ty, b))) => if a_ty == b_ty {
            made(code, s, Val::Int(a_ty, wrapped(a_ty, op(a, b))))
        } else {
            Progress::Stuck
        },
        _ => Progress::Stuck,
    }
}

/// One instruction.
pub open spec fn advance(code: Seq<Inst>, s: State) -> Progress {
    if !(0 <= s.pc < code.len()) {
        Progress::Stuck
    } else {
        match code[s.pc] {
            Inst::AddFunction(_) => Progress::Stuck,
            Inst::AppendBlock(_) => Progress::Stuck,
            Inst::PositionAtEnd(_) => Progress::Stuck,
            Inst::Alloca { .. } => made(code, s, Val::Ptr(Place { object: s.pc, offset: 0 })),
            Inst::MemSet { ptr, value, len, .. } => match (
                operand(s, ptr),
                operand(s, value),
                operand(s, len),
            ) {
                (Some(Val::Ptr(place)), Some(Val::Int(Ty::I8, v)), Some(Val::Int(Ty::I64, l))) => {
                    if l == 0 || (fits(code, place, Ty::I8) && fits(
                        code,
                        Place { object: place.object, offset: place.offset + l - 1 },
                        Ty::I8,
                    )) {
                        onward(
                            code,
                            State { memory: filled(s.memory, place, l, Val::Int(Ty::I8, v)), ..s },
                        )
                    } else {
                        Progress::Stuck
                    }
                },
                _ => Progress::Stuck,
            },
            Inst::Store { value, ptr } => match (operand(s, value), operand(s, ptr)) {
                (Some(Val::Int(ty, v)), Some(Val::Ptr(place))) => if fits(code, place, ty) {
                    onward(code, State { memory: stored(s.memory, place, Val::Int(ty, v)), ..s })
                } else {
                    Progress::Stuck
                },
                _ => Progress::Stuck,
            },
            Inst::Load { ty, ptr, .. } => match operand(s, ptr) {
                Some(Val::Ptr(place)) => match (s.memory)(place) {
                    Some(Val::Int(held, v)) => if fits(code, place, ty) && held == ty {
                        made(code, s, Val::Int(ty, v))
                    } else {
                        Progress::Stuck
                    },
                    _ => Progress::Stuck,
                },
                _ => Progress::Stuck,
            },
            Inst::ElementPtr { ty, base, zero, index, .. } => match (
                operand(s, base),
                operand(s, zero),
                operand(s, index),
            ) {
                (Some(Val::Ptr(place)), Some(Val::Int(Ty::I64, z)), Some(Val::Int(Ty::I64, i))) => {
                    if z == 0 && ty == Ty::Tape && fits(code, place, Ty::I8) && place.offset == 0
                        && i <= TAPE_LEN {
                        made(code, s, Val::Ptr(Place { object: place.object, offset: i }))
                    } else {
                        Progress::Stuck
                    }
                },
                _ => Progress::Stuck,
            },
            Inst::Add { lhs, rhs, .. } => arithmetic(code, s, lhs, rhs, |a: int, b: int| a + b),
            Inst::Sub { lhs, rhs, .. } => arithmetic(code, s, lhs, rhs, |a: int, b: int| a - b),
            Inst::Mul { lhs, rhs, .. } => arithmetic(code, s, lhs, rhs, |a: int, b: int| a * b),
            Inst::ZExt { value, to, .. } => match operand(s, value) {
                Some(Val::Int(ty, v)) => if size(ty) < size(to) {
                    made(code, s, Val::Int(to, v))
                } else {
                    Progress::Stuck
                },
                _ => Progress::Stuck,
            },
            Inst::Trunc { value, to, .. } => match operand(s, value) {
                Some(Val::Int(ty, v)) => if size(to) < size(ty) {
                    made(code, s, Val::Int(to, wrapped(to, v)))
                } else {
                    Progress::Stuck
                },
                _ => Progress::Stuck,
            },
            Inst::Call { callee: Function::Putchar, arg: Some(arg), .. } => match operand(s, arg) {
                Some(Val::Int(Ty::I32, v)) => onward(
                    code,
                    State {
                        output: s.output.push((v % 256) as u8),
                        events: s.events.push(Event::Write((v % 256) as u8)),
                        ..s
                    },
                ),
                _ => Progress::Stuck,
            },
            Inst::Call { callee: Function::Getchar, arg: None, .. } => made(
                code,
                State {
                    read: s.read + 1,
                    events: s.events.push(Event::Read((s.stdin)(s.read))),
                    ..s
                },
                Val::Int(Ty::I32, wrapped(Ty::I32, (s.stdin)(s.read) as int)),
            ),
            Inst::Call { .. } => Progress::Stuck,
            Inst::IsNotEqual { lhs, rhs, .. } => match (operand(s, lhs), operand(s, rhs)) {
                (Some(Val::Int(a_ty, a)), Some(Val::Int(b_ty, b))) => if a_ty == b_ty {
                    made(
                        code,
                        s,
                        Val::Int(
                            Ty::I1,
                            if a != b {
                                1
                            } else {
                                0
                            },
                        ),
                    )
                } else {
                    Progress::Stuck
                },
                _ => Progress::Stuck,
            },
            Inst::Br(block) => Progress::Next(
                State { pc: block_start(code, block as int), ..s },
            ),
            Inst::CondBr { condition, if_true, if_false } => match operand(s, condition) {
                Some(Val::Int(Ty::I1, v)) => Progress::Next(
                    State {
                        pc: block_start(
                            code,
                            if v != 0 {
                                if_true as int
                            } else {
                                if_false as int
                            },
                        ),
                        ..s
                    },
                ),
                _ => Progress::Stuck,
            },
            Inst::Ret(value) => match operand(s, value) {
                Some(Val::Int(Ty::I32, v)) => Progress::Returned(s, v),
                _ => Progress::Stuck,
            },
        }
    }
}

/// The state after `k` instructions, none of which returned.
pub open spec fn after(code: Seq<Inst>, s: State, k: nat) -> Option<State>
    decreases k,
{
    if k == 0 {
        Some(s)
    } else {
        match advance(code, s) {
            Progress::Next(next) => after(code, next, (k - 1) as nat),
            _ => None,
        }
    }
}

/// The state in which `main` is entered: at the start of the first block, with
/// nothing made, stored, read or written.
pub open spec fn entered(code: Seq<Inst>, stdin: spec_fn(nat) -> i32) -> State {
    State {
        pc: block_start(code, 0),
        values: Map::empty(),
        memory: |p: Place| None,
        stdin,
        read: 0,
        output: Seq::empty(),
        events: Seq::empty(),
    }
}

/// Instructions one behind the other.
pub proof fn lemma_after_twice(code: Seq<Inst>, s: State, a: nat, b: nat)
    requires
        after(code, s, a) is Some,
    ensures
        after(code, s, a + b) == after(code, after(code, s, a)->0, b),
    decreases a,
{
    if a > 0 {
        lemma_after_twice(code, advance(code, s)->Next_0, (a - 1) as nat, b);
    }
}

} // verus!
