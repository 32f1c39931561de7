//! Compilation of method bodies.
pub mod cfg;
pub mod cfg_laws;
pub mod fx;
pub mod module;
pub mod error;
pub mod types;
pub mod types_laws;
pub mod state;
pub mod model;
pub mod sound;
pub mod growth;
pub mod compiler;
pub mod compiler_laws;
pub mod phi_laws;
pub mod terminator_laws;
pub mod function_laws;
pub mod agreement;
pub mod operation_laws;
pub mod call_laws;
pub mod placement_laws;
pub mod context_laws;
pub mod flow_laws;
pub mod body_laws;
pub mod variable_laws;
