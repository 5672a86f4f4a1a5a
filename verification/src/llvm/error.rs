//! What goes wrong, and how it is told.
use vstd::prelude::*;
use vstd::string::{StringExecFns, StringSliceAdditionalSpecFns};
use vstd::utf8::{encode_scalar, encode_utf8};

use crate::llvm::compiler::BuildError;

verus! {

/// What LLVM failed at without a word.
pub const UNKNOWN_ERROR: &'static str = "unknown LLVM error";

/// Reads what a call answered that gives a status, and with a failure perhaps a
/// message.
pub fn with_llvm_error(status: i32, message: Option<String>) -> (res: Result<(), String>)
    ensures
        res is Ok <==> status == 0,
        res matches Err(text) ==> text@ == (match message {
            Some(told) => told@,
            None => UNKNOWN_ERROR@,
        }),
{
    if status != 0 {
        match message {
            Some(told) => Err(told),
            None => Err(UNKNOWN_ERROR.to_owned()),
        }
    } else {
        Ok(())
    }
}

/// Reads what a call answered that gives an error object or none.
pub fn with_llvm_error_ref(error: Option<String>) -> (res: Result<(), String>)
    ensures
        res is Ok <==> error is None,
        res matches Err(text) ==> error == Some(text),
{
    match error {
        Some(text) => Err(text),
        None => Ok(()),
    }
}

/// A string as Rust's `{:?}` writes it: in quotes, with escapes.
pub uninterp spec fn quoted(s: Seq<char>) -> Seq<char>;

/// `<str as Debug>::fmt`, called through `format!`. Claimed of it: what it
/// writes depends on the string alone. How it escapes is left unsaid.
#[verifier::external_body]
fn quote(s: &str) -> (res: String)
    ensures
        res@ == quoted(s@),
{
    format!("{:?}", s)
}

/// A string that holds a zero byte, and so has no form that C can read.
#[derive(Debug, PartialEq, Eq)]
pub struct InteriorNul {
    /// The string, in quotes.
    pub quoted: String,
}

impl InteriorNul {
    /// The error as a line of text.
    pub open spec fn spec_message(&self) -> Seq<char> {
        "string contains interior NUL: "@ + self.quoted@
    }

    /// The error as a line of text.
    pub fn message(&self) -> (res: String)
        ensures
            res@ == "string contains interior NUL: "@ + self.quoted@,
            res@ == self.spec_message(),
    {
        let mut line: String = "string contains interior NUL: ".to_owned();
        line.append(self.quoted.as_str());
        line
    }
}

/// The string's bytes and a zero byte, as C reads strings; or, if the string
/// holds a zero itself, the string in quotes.
pub open spec fn c_string(s: Seq<char>) -> Result<Seq<u8>, Seq<char>> {
    if s.contains('\0') {
        Err(quoted(s))
    } else {
        Ok(encode_utf8(s).push(0))
    }
}

/// What a string for C, or the lack of one, holds.
pub open spec fn c_string_view(made: Result<Vec<u8>, InteriorNul>) -> Result<Seq<u8>, Seq<char>> {
    match made {
        Ok(bytes) => Ok(bytes@),
        Err(error) => Err(error.quoted@),
    }
}

/// A character has a zero byte if and only if it is the zero character.
proof fn lemma_zero_scalar(c: char)
    ensures
        encode_scalar(c as u32).contains(0) <==> c == '\0',
{
    let u = c as u32;
    let bytes = encode_scalar(u);
    assert(u <= 0x7f ==> (((u & 0x7F) as u8) == 0u8 <==> u == 0)) by (bit_vector);
    assert forall|x: u8| #![auto]
        (0xC0u8 | x) != 0 && (0xE0u8 | x) != 0 && (0xF0u8 | x) != 0 && (0x80u8 | x) != 0 by {
        assert((0xC0u8 | x) != 0 && (0xE0u8 | x) != 0 && (0xF0u8 | x) != 0 && (0x80u8 | x) != 0)
            by (bit_vector);
    }
    if c == '\0' {
        assert(bytes[0] == 0);
    }
}

/// A string has a zero byte if and only if it has a zero character.
proof fn lemma_zero_byte(s: Seq<char>)
    ensures
        encode_utf8(s).contains(0) <==> s.contains('\0'),
    decreases s.len(),
{
    if s.len() > 0 {
        let first = encode_scalar(s[0] as u32);
        let rest = encode_utf8(s.drop_first());
        lemma_zero_scalar(s[0]);
        lemma_zero_byte(s.drop_first());
        if first.contains(0) {
            let i = choose|i: int| 0 <= i < first.len() && first[i] == 0;
            assert((first + rest)[i] == 0);
        }
        if rest.contains(0) {
            let i = choose|i: int| 0 <= i < rest.len() && rest[i] == 0;
            assert((first + rest)[first.len() + i] == 0);
            let k = choose|k: int| 0 <= k < s.drop_first().len() && s.drop_first()[k] == '\0';
            assert(s[k + 1] == '\0');
        }
        if encode_utf8(s).contains(0) {
            let i = choose|i: int| 0 <= i < encode_utf8(s).len() && encode_utf8(s)[i] == 0;
            if i < first.len() {
                assert(first[i] == 0);
            } else {
                assert(rest[i - first.len()] == 0);
            }
        }
        if s.contains('\0') {
            let k = choose|k: int| 0 <= k < s.len() && s[k] == '\0';
            if k > 0 {
                assert(s.drop_first()[k - 1] == '\0');
            }
        }
    }
}

/// The string's bytes and a zero byte, as C reads strings.
pub fn cstring(s: &str) -> (res: Result<Vec<u8>, InteriorNul>)
    ensures
        c_string_view(res) == c_string(s@),
{
    let source = s.as_bytes();
    assert(source@ == s.spec_bytes());
    proof {
        lemma_zero_byte(s@);
    }
    let mut bytes: Vec<u8> = Vec::new();
    let mut i: usize = 0;
    while i < source.len()
        invariant
            source@ == encode_utf8(s@),
            encode_utf8(s@).contains(0) <==> s@.contains('\0'),
            i <= source.len(),
            bytes@ == source@.subrange(0, i as int),
            !bytes@.contains(0),
        decreases source.len() - i,
    {
        if source[i] == 0 {
            assert(source@[i as int] == 0);
            return Err(InteriorNul { quoted: quote(s) });
        }
        let ghost before = bytes@;
        bytes.push(source[i]);
        assert(bytes@ =~= source@.subrange(0, i + 1));
        assert forall|k: int| 0 <= k < bytes@.len() implies bytes@[k] != 0 by {
            if k < before.len() {
                assert(before.contains(before[k]));
            }
        }
        i += 1;
    }
    assert(bytes@ =~= encode_utf8(s@));
    bytes.push(0);
    Ok(bytes)
}

/// What failed.
#[derive(Clone, Copy, Debug, PartialEq, Eq, Structural)]
pub enum Cause {
    Context,
    LoopMismatch,
    LoopStackNotEmpty,
    Verification,
    Target,
    FileTarget,
    TargetMachine,
    PassOptions,
    Passes,
    InteriorNul,
    Emit,
    JitBuilder,
    Jit,
    AddObject,
    Lookup,
    DisposeJit,
}

impl Cause {
    /// What is said of it.
    pub open spec fn spec_text(self) -> &'static str {
        match self {
            Cause::Context => "failed to create LLVM context",
            Cause::LoopMismatch => "internal loop mismatch",
            Cause::LoopStackNotEmpty => "internal loop stack not empty",
            Cause::Verification => "LLVM module verification failed",
            Cause::Target => "failed to get LLVM target from triple",
            Cause::FileTarget => "failed to get target from triple",
            Cause::TargetMachine => "failed to create target machine",
            Cause::PassOptions => "failed to create LLVM pass builder options",
            Cause::Passes => "failed to run LLVM optimization passes",
            Cause::InteriorNul => "string contains interior NUL",
            Cause::Emit => "failed to emit object file",
            Cause::JitBuilder => "failed to create LLVM JIT builder",
            Cause::Jit => "failed to create LLVM JIT",
            Cause::AddObject => "failed to add object file to LLVM JIT",
            Cause::Lookup => "failed to lookup main function in LLVM JIT",
            Cause::DisposeJit => "failed to dispose LLVM JIT",
        }
    }

    /// What is said of it.
    pub fn text(self) -> (res: &'static str)
        ensures
            res == self.spec_text(),
    {
        match self {
            Cause::Context => "failed to create LLVM context",
            Cause::LoopMismatch => "internal loop mismatch",
            Cause::LoopStackNotEmpty => "internal loop stack not empty",
            Cause::Verification => "LLVM module verification failed",
            Cause::Target => "failed to get LLVM target from triple",
            Cause::FileTarget => "failed to get target from triple",
            Cause::TargetMachine => "failed to create target machine",
            Cause::PassOptions => "failed to create LLVM pass builder options",
            Cause::Passes => "failed to run LLVM optimization passes",
            Cause::InteriorNul => "string contains interior NUL",
            Cause::Emit => "failed to emit object file",
            Cause::JitBuilder => "failed to create LLVM JIT builder",
            Cause::Jit => "failed to create LLVM JIT",
            Cause::AddObject => "failed to add object file to LLVM JIT",
            Cause::Lookup => "failed to lookup main function in LLVM JIT",
            Cause::DisposeJit => "failed to dispose LLVM JIT",
        }
    }
}

/// Why there is no object code.
#[derive(Debug)]
pub struct CompileError {
    pub cause: Cause,
    /// What LLVM says of it.
    pub detail: Option<String>,
}

impl CompileError {
    /// The error as a line of text.
    pub open spec fn spec_message(&self) -> Seq<char> {
        match self.detail {
            Some(detail) => self.cause.spec_text()@ + ": "@ + detail@,
            None => self.cause.spec_text()@,
        }
    }

    /// The error as a line of text.
    pub fn message(&self) -> (res: String)
        ensures
            res@ == (match self.detail {
                Some(detail) => self.cause.spec_text()@ + ": "@ + detail@,
                None => self.cause.spec_text()@,
            }),
            res@ == self.spec_message(),
    {
        let mut line: String = self.cause.text().to_owned();
        match &self.detail {
            Some(detail) => {
                line.append(": ");
                line.append(detail.as_str());
            },
            None => {},
        }
        line
    }
}

impl BuildError {
    /// What failed.
    pub open spec fn spec_cause(self) -> Cause {
        match self {
            BuildError::LoopMismatch => Cause::LoopMismatch,
            BuildError::LoopStackNotEmpty => Cause::LoopStackNotEmpty,
        }
    }

    /// What failed.
    pub fn cause(self) -> (res: Cause)
        ensures
            res == self.spec_cause(),
    {
        match self {
            BuildError::LoopMismatch => Cause::LoopMismatch,
            BuildError::LoopStackNotEmpty => Cause::LoopStackNotEmpty,
        }
    }
}

/// An error is told by what failed, and, where there is more to say, a colon and
/// all of it.
pub proof fn law_errors_are_told_in_full(error: CompileError, refused: InteriorNul)
    ensures
        error.detail is None ==> error.spec_message() == error.cause.spec_text()@,
        error.detail matches Some(detail) ==> error.spec_message() == error.cause.spec_text()@
            + ": "@ + detail@,
        refused.spec_message() == "string contains interior NUL: "@ + refused.quoted@,
{
}

} // verus!
