//! The calls of LLVM's IR builder, as values.
//!
//! A module is described by the list of the builder calls that make it. A call
//! that makes a value is referred to by its place in the list, a basic block by
//! how many blocks were appended before it.
use vstd::prelude::*;

verus! {

/// The name of the module.
pub const MODULE_NAME: &'static str = "bf_module";

/// The name of the block in which `main` starts.
pub const ENTRY_BLOCK_NAME: &'static str = "entry";

/// The name of the tape.
pub const TAPE_NAME: &'static str = "tape";

/// The name of the pointer register.
pub const INDEX_NAME: &'static str = "idx";

/// The number of cells on the tape.
pub const TAPE_LEN: u64 = 30_000;

/// A type.
#[derive(Clone, Copy, Debug, PartialEq, Eq, Structural)]
pub enum Ty {
    I1,
    I8,
    I32,
    I64,
    /// An array of [`TAPE_LEN`] cells of type `i8`.
    Tape,
}

/// A function of the module. None takes a variable number of arguments, and
/// each returns an `i32`.
#[derive(Clone, Copy, Debug, PartialEq, Eq, Structural)]
pub enum Function {
    Putchar,
    Getchar,
    Main,
}

impl Function {
    /// The name under which the function is linked.
    pub open spec fn spec_name(self) -> &'static str {
        match self {
            Function::Putchar => "putchar",
            Function::Getchar => "getchar",
            Function::Main => "main",
        }
    }

    /// The name under which the function is linked.
    pub fn name(self) -> (res: &'static str)
        ensures
            res == self.spec_name(),
    {
        match self {
            Function::Putchar => "putchar",
            Function::Getchar => "getchar",
            Function::Main => "main",
        }
    }

    /// The types of the arguments.
    pub open spec fn spec_params(self) -> Seq<Ty> {
        match self {
            Function::Putchar => seq![Ty::I32],
            Function::Getchar => seq![],
            Function::Main => seq![],
        }
    }

    /// The types of the arguments.
    pub fn params(self) -> (res: Vec<Ty>)
        ensures
            res@ == self.spec_params(),
    {
        let mut res: Vec<Ty> = Vec::new();
        match self {
            Function::Putchar => {
                res.push(Ty::I32);
            },
            Function::Getchar => {},
            Function::Main => {},
        }
        assert(res@ =~= self.spec_params());
        res
    }
}

/// What an instruction works on.
#[derive(Clone, Copy, Debug, PartialEq, Eq, Structural)]
pub enum Operand {
    /// The constant of that type, zero-extended.
    Const(Ty, u64),
    /// The value that the call at that place made.
    Value(usize),
}

/// A call of the IR builder.
#[derive(Clone, Copy, Debug, PartialEq, Eq)]
pub enum Inst {
    /// Adds a function to the module.
    AddFunction(Function),
    /// Appends a basic block to `main`.
    AppendBlock(&'static str),
    /// From here on, instructions go to the end of the block.
    PositionAtEnd(usize),
    /// Reserves memory in the frame.
    Alloca { ty: Ty, name: &'static str },
    /// Sets `len` bytes from `ptr` on to `value`.
    MemSet { ptr: Operand, value: Operand, len: Operand, align: u32 },
    /// Writes `value` to `ptr`.
    Store { value: Operand, ptr: Operand },
    /// Reads from `ptr`.
    Load { ty: Ty, ptr: Operand, name: &'static str },
    /// The address of the element `index` of the array at `base`, by way of the
    /// indices `zero` and `index`; in bounds.
    ElementPtr { ty: Ty, base: Operand, zero: Operand, index: Operand, name: &'static str },
    /// The sum, wrapping around.
    Add { lhs: Operand, rhs: Operand, name: &'static str },
    /// The difference, wrapping around.
    Sub { lhs: Operand, rhs: Operand, name: &'static str },
    /// The product, wrapping around.
    Mul { lhs: Operand, rhs: Operand, name: &'static str },
    /// The value in a wider type.
    ZExt { value: Operand, to: Ty, name: &'static str },
    /// The low bits of the value.
    Trunc { value: Operand, to: Ty, name: &'static str },
    /// A call, with the argument if the function takes one.
    Call { callee: Function, arg: Option<Operand>, name: &'static str },
    /// Whether the two differ.
    IsNotEqual { lhs: Operand, rhs: Operand, name: &'static str },
    /// Goes to the block.
    Br(usize),
    /// Goes to one of two blocks.
    CondBr { condition: Operand, if_true: usize, if_false: usize },
    /// Leaves `main`.
    Ret(Operand),
}

} // verus!
