//! What code is made for.
use vstd::prelude::*;

use crate::llvm::error::{c_string, cstring, with_llvm_error, Cause, CompileError, InteriorNul,
    UNKNOWN_ERROR};
use crate::llvm::raw::{Address, AsRaw};

verus! {

/// The machine, vendor and system that code is made for, as LLVM's text.
#[derive(Debug, PartialEq, Eq)]
pub struct LLVMTargetTriple {
    triple: Address,
}

impl LLVMTargetTriple {
    /// The triple at an address.
    pub fn new(triple: Address) -> (res: Self)
        ensures
            res.raw() == triple,
    {
        LLVMTargetTriple { triple }
    }
}

impl AsRaw<Address> for LLVMTargetTriple {
    closed spec fn raw(&self) -> Address {
        self.triple
    }

    fn as_raw(&self) -> (res: Address) {
        self.triple
    }
}

/// A target. It is LLVM's and is never disposed of.
#[derive(Debug, PartialEq, Eq)]
pub struct LLVMTarget {
    target: Address,
}

impl LLVMTarget {
    /// The target that LLVM found for a triple: what the search answered, with
    /// its message if it failed, and where the target is.
    pub fn from_triple(status: i32, message: Option<String>, target: Address) -> (res: Result<
        Self,
        CompileError,
    >)
        ensures
            match res {
                Ok(found) => status == 0 && found.raw() == target,
                Err(error) => {
                    &&& status != 0
                    &&& error.cause == Cause::Target
                    &&& error.detail matches Some(detail) && detail@ == (match message {
                        Some(told) => told@,
                        None => UNKNOWN_ERROR@,
                    })
                },
            },
    {
        match with_llvm_error(status, message) {
            Ok(_) => Ok(LLVMTarget { target }),
            Err(detail) => Err(CompileError { cause: Cause::Target, detail: Some(detail) }),
        }
    }
}

impl AsRaw<Address> for LLVMTarget {
    closed spec fn raw(&self) -> Address {
        self.target
    }

    fn as_raw(&self) -> (res: Address) {
        self.target
    }
}

/// The code generator for a target.
#[derive(Debug, PartialEq, Eq)]
pub struct LLVMTargetMachine {
    tm: Address,
}

/// The processor and its features as C reads them, or the first of the two that
/// has no such form, in quotes.
pub open spec fn machine_strings(cpu: Seq<char>, features: Seq<char>) -> Result<
    (Seq<u8>, Seq<u8>),
    Seq<char>,
> {
    match (c_string(cpu), c_string(features)) {
        (Err(refused), _) => Err(refused),
        (_, Err(refused)) => Err(refused),
        (Ok(cpu), Ok(features)) => Ok((cpu, features)),
    }
}

/// What the arguments for a target machine, or the lack of them, hold.
pub open spec fn arguments_view(made: Result<(Vec<u8>, Vec<u8>), InteriorNul>) -> Result<
    (Seq<u8>, Seq<u8>),
    Seq<char>,
> {
    match made {
        Ok((cpu, features)) => Ok((cpu@, features@)),
        Err(error) => Err(error.quoted@),
    }
}

impl LLVMTargetMachine {
    /// The processor and its features as LLVM is asked for a target machine
    /// with. If one of them has no form that C can read, LLVM is not asked.
    pub fn arguments(cpu: &str, features: &str) -> (res: Result<(Vec<u8>, Vec<u8>), InteriorNul>)
        ensures
            arguments_view(res) == machine_strings(cpu@, features@),
    {
        match cstring(cpu) {
            Ok(cpu) => match cstring(features) {
                Ok(features) => Ok((cpu, features)),
                Err(error) => Err(error),
            },
            Err(error) => Err(error),
        }
    }

    /// The target machine that LLVM made of `arguments`, if there are any and
    /// it made one.
    pub fn new(arguments: &Result<(Vec<u8>, Vec<u8>), InteriorNul>, tm: Address) -> (res: Result<
        Self,
        CompileError,
    >)
        ensures
            match arguments_view(*arguments) {
                Err(refused) => res matches Err(error) && error.cause == Cause::InteriorNul && (
                error.detail matches Some(detail) && detail@ == refused),
                Ok(_) => match res {
                    Ok(made) => tm != 0 && made.raw() == tm,
                    Err(error) => {
                        &&& tm == 0
                        &&& error.cause == Cause::TargetMachine
                        &&& error.detail is None
                    },
                },
            },
    {
        match arguments {
            Err(error) => Err(
                CompileError { cause: Cause::InteriorNul, detail: Some(error.quoted.clone()) },
            ),
            Ok(_) => {
                if tm == 0 {
                    return Err(CompileError { cause: Cause::TargetMachine, detail: None });
                }
                Ok(LLVMTargetMachine { tm })
            },
        }
    }
}

impl AsRaw<Address> for LLVMTargetMachine {
    closed spec fn raw(&self) -> Address {
        self.tm
    }

    fn as_raw(&self) -> (res: Address) {
        self.tm
    }
}

/// The options of a pass pipeline.
#[derive(Debug, PartialEq, Eq)]
pub struct PassBuilderOptions {
    options: Address,
}

impl PassBuilderOptions {
    /// The options that LLVM made, if it made any.
    pub fn new(options: Address) -> (res: Result<Self, CompileError>)
        ensures
            match res {
                Ok(made) => options != 0 && made.raw() == options,
                Err(error) => {
                    &&& options == 0
                    &&& error.cause == Cause::PassOptions
                    &&& error.detail is None
                },
            },
    {
        if options == 0 {
            return Err(CompileError { cause: Cause::PassOptions, detail: None });
        }
        Ok(PassBuilderOptions { options })
    }
}

impl AsRaw<Address> for PassBuilderOptions {
    closed spec fn raw(&self) -> Address {
        self.options
    }

    fn as_raw(&self) -> (res: Address) {
        self.options
    }
}

} // verus!
