//! The ways in which a program can be one that the engine cannot execute.
use vstd::prelude::*;

verus! {

/// Why execution cannot go on.
#[derive(Clone, Copy, Debug, PartialEq, Eq, Structural)]
pub enum Fault {
    /// The program counter is outside the method body.
    ProgramCounter,
    /// The evaluation stack is full.
    StackOverflow,
    /// The evaluation stack holds too few values.
    StackUnderflow,
    /// A value is not of the type that the instruction works on.
    TypeMismatch,
    /// The result of an addition is out of range.
    ArithmeticOverflow,
    /// The method was called with too few arguments.
    MissingArgument,
    /// A token names no row of the metadata tables.
    MissingRow,
    /// A row names a string that the assembly does not hold.
    MissingString,
    /// A row names a signature that the assembly does not hold.
    MissingSignature,
    /// A row names a method body that the assembly does not hold.
    MissingMethod,
    /// The engine does not know the instruction or the kind of row.
    Unimplemented,
    /// The program has run for as many steps as it was given.
    OutOfSteps,
}

} // verus!
