//! Execution of method bodies: interpretation and compilation.
pub mod instruction;
pub mod interpret;
pub mod interpret_laws;
pub mod step_laws;
pub mod jit;
pub mod text;
