//! Method bodies.
use vstd::prelude::*;

use crate::exec::instruction::Instruction;
use crate::metadata::signature::{MethodSignature, Type};

verus! {

/// A method with its body.
#[derive(Clone, Debug)]
pub struct MethodBody {
    pub name: String,
    /// The class that the method belongs to, by its index in
    /// [`Image::classes`](crate::metadata::image::Image).
    pub class: usize,
    pub signature: MethodSignature,
    /// The types of the local variables.
    pub locals_ty: Vec<Type>,
    /// The instructions.
    pub body: Vec<Instruction>,
}

} // verus!
