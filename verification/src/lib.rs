//! An execution engine for CIL, the instruction set of ECMA-335.
//!
//! `metadata` holds the parts of a loaded assembly that execution reads.
//! `exec` holds an interpreter, and a compiler that turns method bodies
//! into an LLVM module described by plain values.
pub mod exec;
pub mod fault;
pub mod metadata;
