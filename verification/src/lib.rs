//! A Brainfuck compiler.
//!
//! [`parse_brainfuck`] reads a source text, merges its steps and replaces loops
//! that only clear or move cells. [`LLVMCompiler`] makes of the program the
//! calls of LLVM's IR builder, and [`Session`] says in which order LLVM is
//! asked for an object file, for the bytes of it and for a run.
//!
//! What programs mean is in [`machine`], what the generated code does in
//! [`llvm::interp`]. The proof functions whose names begin with `law_` say what
//! holds of the whole: reading a source text and generating code for it both
//! keep its meaning.
pub mod brackets;
pub mod cli;
pub mod link;
pub mod llvm;
pub mod loops;
pub mod machine;
pub mod meaning;
pub mod merge;
pub mod normal_form;
pub mod op;
pub mod parser;
pub mod reach;
pub mod reading_laws;
pub mod rewrite;
pub mod rewriting_laws;

pub use cli::Cli;
pub use link::{link_arguments, link_result};
pub use llvm::compiler::LLVMCompiler;
pub use llvm::opt_level::OptLevel;
pub use llvm::session::Session;
pub use op::{CellUpdate, Op};
pub use parser::{parse_brainfuck, parse_from};
