//! How much work goes into making the code fast.
use vstd::prelude::*;

verus! {

/// LLVM's code generation level `None`.
pub const CODEGEN_LEVEL_NONE: u32 = 0;

/// LLVM's code generation level `Less`.
pub const CODEGEN_LEVEL_LESS: u32 = 1;

/// LLVM's code generation level `Default`.
pub const CODEGEN_LEVEL_DEFAULT: u32 = 2;

/// LLVM's code generation level `Aggressive`.
pub const CODEGEN_LEVEL_AGGRESSIVE: u32 = 3;

/// An optimisation level.
#[derive(Clone, Copy, Debug, PartialEq, Eq, Structural)]
pub enum OptLevel {
    O0,
    O1,
    O2,
    O3,
}

impl OptLevel {
    /// The number of LLVM's code generation level.
    pub open spec fn codegen_level(self) -> u32 {
        match self {
            OptLevel::O0 => CODEGEN_LEVEL_NONE,
            OptLevel::O1 => CODEGEN_LEVEL_LESS,
            OptLevel::O2 => CODEGEN_LEVEL_DEFAULT,
            OptLevel::O3 => CODEGEN_LEVEL_AGGRESSIVE,
        }
    }

    /// The name of LLVM's pass pipeline.
    pub open spec fn pass_pipeline(self) -> &'static str {
        match self {
            OptLevel::O0 => "default<O0>",
            OptLevel::O1 => "default<O1>",
            OptLevel::O2 => "default<O2>",
            OptLevel::O3 => "default<O3>",
        }
    }

    /// The C compiler's flag.
    pub open spec fn opt_flag(self) -> &'static str {
        match self {
            OptLevel::O0 => "-O0",
            OptLevel::O1 => "-O1",
            OptLevel::O2 => "-O2",
            OptLevel::O3 => "-O3",
        }
    }

    /// The number of LLVM's code generation level.
    pub fn llvm_codegen_level(&self) -> (res: u32)
        ensures
            res == self.codegen_level(),
    {
        match self {
            OptLevel::O0 => CODEGEN_LEVEL_NONE,
            OptLevel::O1 => CODEGEN_LEVEL_LESS,
            OptLevel::O2 => CODEGEN_LEVEL_DEFAULT,
            OptLevel::O3 => CODEGEN_LEVEL_AGGRESSIVE,
        }
    }

    /// The name of LLVM's pass pipeline.
    pub fn llvm_pass_pipeline(&self) -> (res: &'static str)
        ensures
            res == self.pass_pipeline(),
    {
        match self {
            OptLevel::O0 => "default<O0>",
            OptLevel::O1 => "default<O1>",
            OptLevel::O2 => "default<O2>",
            OptLevel::O3 => "default<O3>",
        }
    }

    /// The C compiler's flag.
    pub fn cc_opt_flag(&self) -> (res: &'static str)
        ensures
            res == self.opt_flag(),
    {
        match self {
            OptLevel::O0 => "-O0",
            OptLevel::O1 => "-O1",
            OptLevel::O2 => "-O2",
            OptLevel::O3 => "-O3",
        }
    }
}

} // verus!
