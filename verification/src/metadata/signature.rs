//! Types and method signatures.
use vstd::prelude::*;

verus! {

/// The kinds of types.
#[derive(Clone, Copy, Debug, PartialEq, Eq, Structural)]
pub enum ElementType {
    Void,
    Boolean,
    I4,
    String,
    /// A class, by its index in [`Image::classes`](crate::metadata::image::Image).
    Class(usize),
    /// Any other kind, by its code in a signature.
    Other(u8),
}

/// The type of a value.
#[derive(Clone, Copy, Debug, PartialEq, Eq, Structural)]
pub struct Type {
    pub base: ElementType,
}

impl Type {
    pub fn new(base: ElementType) -> (r: Self)
        ensures
            r == (Type { base }),
    {
        Type { base }
    }

    /// The type of 32-bit integers.
    pub fn i4_ty() -> (r: Self)
        ensures
            r == (Type { base: ElementType::I4 }),
    {
        Type { base: ElementType::I4 }
    }

    /// The type of strings.
    pub fn string_ty() -> (r: Self)
        ensures
            r == (Type { base: ElementType::String }),
    {
        Type { base: ElementType::String }
    }

    /// Whether this is the type of no value at all.
    pub fn is_void(&self) -> (r: bool)
        ensures
            r == (self.base == ElementType::Void),
    {
        matches!(self.base, ElementType::Void)
    }

    /// The class that this type is, if it is one.
    pub open spec fn class_spec(self) -> Option<usize> {
        match self.base {
            ElementType::Class(class) => Some(class),
            _ => None,
        }
    }

    /// The class that this type is, if it is one.
    pub fn as_class(&self) -> (r: Option<usize>)
        ensures
            r == self.class_spec(),
    {
        match self.base {
            ElementType::Class(class) => Some(class),
            _ => None,
        }
    }
}

/// The signature of a method.
#[derive(Clone, Debug)]
pub struct MethodSignature {
    /// Whether the method is called on an object.
    pub has_this: bool,
    /// The types of the parameters, without the object.
    pub params: Vec<Type>,
    /// The type of the result.
    pub ret: Type,
}

impl MethodSignature {
    /// Whether the method is called on an object.
    pub fn has_this(&self) -> (r: bool)
        ensures
            r == self.has_this,
    {
        self.has_this
    }

    /// Whether the parameters and the result are of these kinds.
    pub open spec fn equal_method_spec(self, ret: ElementType, params: Seq<ElementType>) -> bool {
        &&& self.ret.base == ret
        &&& self.params.len() == params.len()
        &&& forall|i: int| 0 <= i < params.len() ==> (#[trigger] self.params[i]).base == params[i]
    }

    /// Whether the parameters and the result are of these kinds.
    pub fn equal_method(&self, ret: ElementType, params: &[ElementType]) -> (r: bool)
        ensures
            r == self.equal_method_spec(ret, params@),
    {
        if self.ret.base != ret || self.params.len() != params.len() {
            return false;
        }
        let mut i: usize = 0;
        while i < params.len()
            invariant
                i <= params.len(),
                self.params.len() == params.len(),
                forall|j: int| 0 <= j < i ==> (#[trigger] self.params[j]).base == params@[j],
            decreases params.len() - i,
        {
            if self.params[i].base != params[i] {
                return false;
            }
            i = i + 1;
        }
        true
    }
}

} // verus!
