//! Code generation for LLVM.
pub mod code_laws;
pub mod compiler;
pub mod correct;
pub mod emit;
pub mod error;
pub mod interp;
pub mod ir;
pub mod layout;
pub mod memory_buffer;
pub mod opt_level;
pub mod putchar;
pub mod raw;
pub mod session;
pub mod session_laws;
pub mod straight;
pub mod target;
pub mod well_formed;
