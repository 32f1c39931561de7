//! The errors of the compiler.
use vstd::prelude::*;

verus! {

/// What the compiler gives back.
pub type CResult<T> = Result<T, Error>;

/// Why a method could not be compiled.
#[derive(Debug, Clone, Copy, PartialEq, Eq, Structural)]
pub enum Error {
    /// The method body, or what it refers to, is not one that can be compiled.
    CouldntCompile,
    General,
}

} // verus!
