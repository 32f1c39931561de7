//! The LLVM types of CIL types.
//!
//! A class becomes a pointer to a structure with one element for each field.
//! Each class, told from others by namespace and name, gets one structure, which
//! is made when the class is first met. Its elements are set afterwards, so that
//! a class can have fields of its own type.
use rustc_hash::FxHashMap;
use vstd::prelude::*;
use vstd::set_lib::{lemma_len_subset, set_int_range};

use crate::exec::jit::error::Error;
use crate::exec::jit::fx::{contents, fx_get, fx_insert, fx_new, fx_remove};
use crate::exec::jit::module::LLVMType;
use crate::metadata::class::ClassInfo;
use crate::metadata::image::Image;
use crate::metadata::signature::{ElementType, Type};

verus! {

/// A structure.
#[derive(Clone, Debug)]
pub struct Struct {
    pub name: String,
    /// The types of its elements, once they are set.
    pub body: Option<Vec<LLVMType>>,
}

/// The types of classes, by namespace and name.
#[derive(Debug, Clone)]
pub struct ClassTypesHolder {
    pub map: FxHashMap<String, FxHashMap<String, LLVMType>>,
}

/// The structures made so far, and the classes that they stand for.
#[derive(Clone, Debug)]
pub struct TypeTable {
    pub structs: Vec<Struct>,
    pub classes: ClassTypesHolder,
}

/// What tells a class from others: its namespace and its name.
pub type ClassKey = (Seq<char>, Seq<char>);

/// What a [`Struct`] stands for.
#[verifier::ext_equal]
pub struct StructSpec {
    pub name: Seq<char>,
    pub body: Option<Seq<LLVMType>>,
}

/// What a [`TypeTable`] stands for.
#[verifier::ext_equal]
pub struct TypesSpec {
    pub structs: Seq<StructSpec>,
    pub classes: Map<ClassKey, LLVMType>,
}

impl View for ClassTypesHolder {
    type V = Map<ClassKey, LLVMType>;

    open spec fn view(&self) -> Map<ClassKey, LLVMType> {
        Map::new(
            |k: ClassKey|
                contents(self.map).contains_key(k.0) && contents(
                    contents(self.map)[k.0],
                ).contains_key(k.1),
            |k: ClassKey| contents(contents(self.map)[k.0])[k.1],
        )
    }
}

impl View for Struct {
    type V = StructSpec;

    open spec fn view(&self) -> StructSpec {
        StructSpec {
            name: self.name@,
            body: match self.body {
                Some(body) => Some(body@),
                None => None,
            },
        }
    }
}

impl View for TypeTable {
    type V = TypesSpec;

    open spec fn view(&self) -> TypesSpec {
        TypesSpec {
            structs: Seq::new(self.structs@.len(), |i: int| self.structs@[i]@),
            classes: self.classes@,
        }
    }
}

impl ClassTypesHolder {
    /// No classes.
    pub fn new() -> (r: Self)
        ensures
            r@ == Map::<ClassKey, LLVMType>::empty(),
    {
        let r = ClassTypesHolder { map: fx_new() };
        assert(r@ =~= Map::<ClassKey, LLVMType>::empty());
        r
    }

    /// The type of a class, if it has one.
    pub fn get(&self, class: &ClassInfo) -> (r: Option<LLVMType>)
        ensures
            r == (if self@.contains_key(class.key()) {
                Some(self@[class.key()])
            } else {
                None
            }),
    {
        if let Some(names) = fx_get(&self.map, &class.namespace) {
            if let Some(ty) = fx_get(names, &class.name) {
                return Some(*ty);
            }
        }
        None
    }

    /// Gives a class a type.
    pub fn add(&mut self, class: &ClassInfo, ty: LLVMType)
        ensures
            final(self)@ == old(self)@.insert(class.key(), ty),
    {
        let mut names: FxHashMap<String, LLVMType> = match fx_remove(
            &mut self.map,
            &class.namespace,
        ) {
            Some(names) => names,
            None => fx_new(),
        };
        fx_insert(&mut names, class.name.clone(), ty);
        fx_insert(&mut self.map, class.namespace.clone(), names);
        assert(self@ =~= old(self)@.insert(class.key(), ty));
    }
}

impl TypesSpec {
    /// The types with one more structure, for a class.
    pub open spec fn add_class(self, class: ClassInfo) -> TypesSpec {
        TypesSpec {
            structs: self.structs.push(StructSpec { name: class.name@, body: None }),
            classes: self.classes.insert(
                class.key(),
                LLVMType::StructPtr(self.structs.len() as usize),
            ),
        }
    }

    /// The types with the elements of a structure set.
    pub open spec fn set_body(self, s: int, body: Seq<LLVMType>) -> TypesSpec {
        TypesSpec {
            structs: self.structs.update(s, StructSpec { body: Some(body), ..self.structs[s] }),
            ..self
        }
    }

    /// The classes of `image` that have no type yet.
    pub open spec fn unknown(self, image: Image) -> Set<int> {
        Set::new(
            |i: int|
                0 <= i < image.classes.len() && !self.classes.contains_key(image.classes[i].key()),
        )
    }
}

/// The types of the fields of a class.
pub open spec fn field_types(class: ClassInfo) -> Seq<Type> {
    Seq::new(class.fields@.len(), |i: int| class.fields@[i].ty)
}

/// There are finitely many classes without a type.
proof fn lemma_unknown_finite(image: Image, t: TypesSpec)
    ensures
        t.unknown(image).finite(),
{
    vstd::set_lib::lemma_int_range(0, image.classes.len() as int);
    vstd::set_lib::lemma_set_subset_finite(
        set_int_range(0, image.classes.len() as int),
        t.unknown(image),
    );
}

/// Where every class that had a type still has one, no more classes lack one.
pub proof fn lemma_unknown_shrinks(image: Image, a: TypesSpec, b: TypesSpec)
    requires
        a.classes.dom().subset_of(b.classes.dom()),
    ensures
        b.unknown(image).len() <= a.unknown(image).len(),
{
    lemma_unknown_finite(image, a);
    assert(b.unknown(image).subset_of(a.unknown(image)));
    lemma_len_subset(b.unknown(image), a.unknown(image));
}

/// When a class gets a type, fewer classes lack one.
pub proof fn lemma_unknown_decreases(image: Image, t: TypesSpec, class: int)
    requires
        0 <= class < image.classes.len(),
        !t.classes.contains_key(image.classes[class].key()),
    ensures
        t.add_class(image.classes[class]).unknown(image).len() < t.unknown(image).len(),
{
    let t2 = t.add_class(image.classes[class]);
    lemma_unknown_finite(image, t);
    assert(t.unknown(image).contains(class));
    assert(t2.unknown(image).subset_of(t.unknown(image).remove(class)));
    lemma_len_subset(t2.unknown(image), t.unknown(image).remove(class));
}

/// The LLVM type of a CIL type, and what becomes of the types when it is asked
/// for. There is none for the kinds of types that the compiler does not know.
pub open spec fn lower(image: Image, t: TypesSpec, ty: Type) -> Option<(TypesSpec, LLVMType)>
    decreases t.unknown(image).len(), 0int, 1int,
{
    match ty.base {
        ElementType::Void => Some((t, LLVMType::Void)),
        ElementType::Boolean => Some((t, LLVMType::Int8)),
        ElementType::I4 => Some((t, LLVMType::Int32)),
        ElementType::String => Some((t, LLVMType::Int8Ptr)),
        ElementType::Class(class) => lower_class(image, t, class),
        ElementType::Other(_) => None,
    }
}

/// The LLVM type of a class, and what becomes of the types when it is asked for.
pub open spec fn lower_class(image: Image, t: TypesSpec, class: usize) -> Option<
    (TypesSpec, LLVMType),
>
    decreases t.unknown(image).len(), 0int, 0int,
{
    if class >= image.classes.len() {
        None
    } else {
        let info = image.classes[class as int];
        if t.classes.contains_key(info.key()) {
            Some((t, t.classes[info.key()]))
        } else {
            proof {
                lemma_unknown_decreases(image, t, class as int);
            }
            let fields = field_types(info);
            match lower_all(image, t.add_class(info), fields, fields.len()) {
                None => None,
                Some((t2, body)) => Some(
                    (
                        t2.set_body(t.structs.len() as int, body),
                        LLVMType::StructPtr(t.structs.len() as usize),
                    ),
                ),
            }
        }
    }
}

/// The LLVM types of the first `n` of `tys`, asked for one after the other.
///
/// No class loses its type meanwhile (`law_lowering_keeps_types`), so the test
/// for that always holds; it makes the recursion well-founded.
pub open spec fn lower_all(image: Image, t: TypesSpec, tys: Seq<Type>, n: nat) -> Option<
    (TypesSpec, Seq<LLVMType>),
>
    decreases t.unknown(image).len(), n, 0int,
{
    if n == 0 {
        Some((t, seq![]))
    } else {
        match lower_all(image, t, tys, (n - 1) as nat) {
            None => None,
            Some((t1, done)) => if t1.unknown(image).len() <= t.unknown(image).len() {
                match lower(image, t1, tys[n - 1]) {
                    None => None,
                    Some((t2, ty)) => Some((t2, done.push(ty))),
                }
            } else {
                None
            },
        }
    }
}

/// Whether `b` has the structures of `a`, unchanged, and maybe more, and a type
/// for each class that has one in `a`, the same.
pub open spec fn types_grow(a: TypesSpec, b: TypesSpec) -> bool {
    &&& a.structs.len() <= b.structs.len()
    &&& forall|i: int|
        0 <= i < a.structs.len() ==> #[trigger] b.structs[i] == a.structs[i]
    &&& forall|k: ClassKey| #[trigger]
        a.classes.contains_key(k) ==> b.classes.contains_key(k) && b.classes[k] == a.classes[k]
}

/// Growth in two steps is growth.
pub proof fn lemma_types_grow_transitive(a: TypesSpec, b: TypesSpec, c: TypesSpec)
    requires
        types_grow(a, b),
        types_grow(b, c),
    ensures
        types_grow(a, c),
{
    assert forall|i: int| 0 <= i < a.structs.len() implies #[trigger] c.structs[i]
        == a.structs[i] by {
        assert(b.structs[i] == a.structs[i]);
    }
}

impl TypeTable {
    /// No structures.
    pub fn new() -> (r: Self)
        ensures
            r@ == (TypesSpec { structs: seq![], classes: Map::empty() }),
    {
        let r = TypeTable { structs: Vec::new(), classes: ClassTypesHolder::new() };
        assert(r@.structs =~= seq![]);
        r
    }

    /// The LLVM type of a CIL type.
    pub fn lower(&mut self, image: &Image, ty: &Type) -> (r: Result<LLVMType, Error>)
        ensures
            match r {
                Ok(lty) => lower(*image, old(self)@, *ty) == Some((final(self)@, lty))
                    && types_grow(old(self)@, final(self)@),
                Err(e) => e == Error::CouldntCompile && lower(*image, old(self)@, *ty) is None,
            },
        decreases old(self)@.unknown(*image).len(), 0int, 1int,
    {
        match ty.base {
            ElementType::Void => Ok(LLVMType::Void),
            ElementType::Boolean => Ok(LLVMType::Int8),
            ElementType::I4 => Ok(LLVMType::Int32),
            ElementType::String => Ok(LLVMType::Int8Ptr),
            ElementType::Class(class) => self.lower_class(image, class),
            ElementType::Other(_) => Err(Error::CouldntCompile),
        }
    }

    /// The LLVM type of a class.
    pub fn lower_class(&mut self, image: &Image, class: usize) -> (r: Result<LLVMType, Error>)
        ensures
            match r {
                Ok(lty) => lower_class(*image, old(self)@, class) == Some((final(self)@, lty))
                    && types_grow(old(self)@, final(self)@),
                Err(e) => e == Error::CouldntCompile && lower_class(
                    *image,
                    old(self)@,
                    class,
                ) is None,
            },
        decreases old(self)@.unknown(*image).len(), 0int, 0int,
    {
        if class >= image.classes.len() {
            return Err(Error::CouldntCompile);
        }
        let info = &image.classes[class];
        if let Some(ty) = self.classes.get(info) {
            return Ok(ty);
        }
        let s: usize = self.structs.len();
        self.structs.push(Struct { name: info.name.clone(), body: None });
        self.classes.add(info, LLVMType::StructPtr(s));
        assert(self@ =~= old(self)@.add_class(*info));
        let ghost t1 = self@;
        proof {
            lemma_unknown_decreases(*image, old(self)@, class as int);
        }
        let mut tys: Vec<Type> = Vec::new();
        let mut i: usize = 0;
        while i < info.fields.len()
            invariant
                i <= info.fields.len(),
                tys@ == field_types(*info).take(i as int),
            decreases info.fields.len() - i,
        {
            tys.push(info.fields[i].ty);
            assert(field_types(*info).take(i + 1) =~= field_types(*info).take(i as int).push(
                info.fields@[i as int].ty,
            ));
            i = i + 1;
        }
        assert(tys@ =~= field_types(*info));
        let body = match self.lower_all(image, &tys) {
            Ok(body) => body,
            Err(e) => return Err(e),
        };
        let ghost t2 = self@;
        self.structs[s].body = Some(body);
        assert(self@ =~= t2.set_body(s as int, body@));
        proof {
            assert(types_grow(old(self)@, t1));
            lemma_types_grow_transitive(old(self)@, t1, t2);
        }
        Ok(LLVMType::StructPtr(s))
    }

    /// The LLVM types of `tys`, asked for one after the other.
    pub fn lower_all(&mut self, image: &Image, tys: &Vec<Type>) -> (r: Result<Vec<LLVMType>, Error>)
        ensures
            match r {
                Ok(ltys) => lower_all(*image, old(self)@, tys@, tys@.len()) == Some(
                    (final(self)@, ltys@),
                ) && types_grow(old(self)@, final(self)@),
                Err(e) => e == Error::CouldntCompile && lower_all(
                    *image,
                    old(self)@,
                    tys@,
                    tys@.len(),
                ) is None,
            },
        decreases old(self)@.unknown(*image).len(), tys@.len() + 1, 0int,
    {
        let mut ltys: Vec<LLVMType> = Vec::new();
        let mut i: usize = 0;
        while i < tys.len()
            invariant
                i <= tys.len(),
                lower_all(*image, old(self)@, tys@, i as nat) == Some((self@, ltys@)),
                types_grow(old(self)@, self@),
            decreases tys.len() - i,
        {
            proof {
                lemma_unknown_shrinks(*image, old(self)@, self@);
            }
            let ghost before = self@;
            match self.lower(image, &tys[i]) {
                Ok(ty) => {
                    ltys.push(ty);
                    proof {
                        lemma_types_grow_transitive(old(self)@, before, self@);
                    }
                },
                Err(e) => {
                    proof {
                        lemma_lower_all_fails(*image, old(self)@, tys@, i as nat + 1, tys@.len());
                    }
                    return Err(e);
                },
            }
            i = i + 1;
        }
        Ok(ltys)
    }
}

/// Where one of the types has no LLVM type, they have none together.
proof fn lemma_lower_all_fails(image: Image, t: TypesSpec, tys: Seq<Type>, i: nat, n: nat)
    requires
        i <= n,
        lower_all(image, t, tys, i) is None,
    ensures
        lower_all(image, t, tys, n) is None,
    decreases n,
{
    if i < n {
        lemma_lower_all_fails(image, t, tys, i, (n - 1) as nat);
    }
}

} // verus!
