//! What holds of the LLVM types of CIL types.
use vstd::prelude::*;

use crate::exec::jit::module::LLVMType;
use crate::exec::jit::types::{
    ClassKey, TypesSpec, field_types, lemma_types_grow_transitive, lemma_unknown_decreases,
    lemma_unknown_shrinks, lower, lower_all, lower_class, types_grow,
};
use crate::metadata::image::Image;
use crate::metadata::signature::{ElementType, Type};

verus! {

/// Asking for a type changes no structure that is there, and no class loses its
/// type or gets another.
pub proof fn law_lowering_keeps_types(image: Image, t: TypesSpec, ty: Type)
    ensures
        lower(image, t, ty) matches Some((t2, _)) ==> types_grow(t, t2),
    decreases t.unknown(image).len(), 0int, 1int,
{
    if let ElementType::Class(class) = ty.base {
        lemma_lower_class_grows(image, t, class);
    }
}

/// [`law_lowering_keeps_types`] for a class.
pub proof fn lemma_lower_class_grows(image: Image, t: TypesSpec, class: usize)
    ensures
        lower_class(image, t, class) matches Some((t2, _)) ==> types_grow(t, t2),
    decreases t.unknown(image).len(), 0int, 0int,
{
    if class < image.classes.len() {
        let info = image.classes[class as int];
        if !t.classes.contains_key(info.key()) {
            lemma_unknown_decreases(image, t, class as int);
            let fields = field_types(info);
            let t1 = t.add_class(info);
            lemma_lower_all_grows(image, t1, fields, fields.len());
            if let Some((t2, body)) = lower_all(image, t1, fields, fields.len()) {
                assert(types_grow(t, t1));
                lemma_types_grow_transitive(t, t1, t2);
            }
        }
    }
}

/// [`law_lowering_keeps_types`] for several types.
pub proof fn lemma_lower_all_grows(image: Image, t: TypesSpec, tys: Seq<Type>, n: nat)
    ensures
        lower_all(image, t, tys, n) matches Some((t2, done)) ==> types_grow(t, t2) && done.len()
            == n,
    decreases t.unknown(image).len(), n, 0int,
{
    if n > 0 {
        lemma_lower_all_grows(image, t, tys, (n - 1) as nat);
        if let Some((t1, done)) = lower_all(image, t, tys, (n - 1) as nat) {
            if t1.unknown(image).len() <= t.unknown(image).len() {
                law_lowering_keeps_types(image, t1, tys[n - 1]);
                if let Some((t2, ty)) = lower(image, t1, tys[n - 1]) {
                    lemma_types_grow_transitive(t, t1, t2);
                }
            }
        }
    }
}

/// The test in [`lower_all`] always holds: asking for several types is asking
/// for one after the other.
pub proof fn law_lower_all_is_one_by_one(image: Image, t: TypesSpec, tys: Seq<Type>, n: nat)
    requires
        n > 0,
    ensures
        lower_all(image, t, tys, n) == match lower_all(image, t, tys, (n - 1) as nat) {
            None => None,
            Some((t1, done)) => match lower(image, t1, tys[n - 1]) {
                None => None,
                Some((t2, ty)) => Some((t2, done.push(ty))),
            },
        },
{
    lemma_lower_all_grows(image, t, tys, (n - 1) as nat);
    if let Some((t1, done)) = lower_all(image, t, tys, (n - 1) as nat) {
        lemma_unknown_shrinks(image, t, t1);
    }
}

/// Whether every class that has a type in `a` has the same in `b`.
pub open spec fn classes_kept(a: TypesSpec, b: TypesSpec) -> bool {
    forall|k: ClassKey| #[trigger]
        a.classes.contains_key(k) ==> b.classes.contains_key(k) && b.classes[k] == a.classes[k]
}

/// A type that has been asked for once is the same ever after, and asking for
/// it again makes nothing new.
pub proof fn law_lowering_is_stable(image: Image, t: TypesSpec, ty: Type, later: TypesSpec)
    requires
        lower(image, t, ty) matches Some((t2, _)) && classes_kept(t2, later),
    ensures
        lower(image, later, ty) == Some((later, lower(image, t, ty).unwrap().1)),
{
    if let ElementType::Class(class) = ty.base {
        let info = image.classes[class as int];
        let (t2, lty) = lower(image, t, ty).unwrap();
        if !t.classes.contains_key(info.key()) {
            let fields = field_types(info);
            lemma_unknown_decreases(image, t, class as int);
            lemma_lower_all_grows(image, t.add_class(info), fields, fields.len());
            assert(t.add_class(info).classes.contains_key(info.key()));
        }
        assert(t2.classes.contains_key(info.key()));
    }
}

/// When a class is met for the first time, it becomes a pointer to a new
/// structure of its name, with an element for each field, in order, that has the
/// type of the field.
pub proof fn law_structure_matches_class(image: Image, t: TypesSpec, class: usize, i: int)
    requires
        class < image.classes.len(),
        !t.classes.contains_key(image.classes[class as int].key()),
        lower_class(image, t, class) is Some,
        0 <= i < image.classes[class as int].fields.len(),
    ensures
        ({
            let info = image.classes[class as int];
            let (t2, lty) = lower_class(image, t, class).unwrap();
            let s = t.structs.len() as int;
            &&& lty == LLVMType::StructPtr(s as usize)
            &&& t2.classes.contains_key(info.key()) && t2.classes[info.key()] == lty
            &&& s < t2.structs.len()
            &&& t2.structs[s].name == info.name@
            &&& t2.structs[s].body matches Some(body) && body.len() == info.fields.len() && lower(
                image,
                t2,
                info.fields[i].ty,
            ) == Some((t2, body[i]))
        }),
{
    let info = image.classes[class as int];
    let fields = field_types(info);
    let t1 = t.add_class(info);
    lemma_unknown_decreases(image, t, class as int);
    lemma_lower_all_grows(image, t1, fields, fields.len());
    let (tn, body) = lower_all(image, t1, fields, fields.len()).unwrap();
    assert(t1.classes.contains_key(info.key()));
    assert(tn.structs[t.structs.len() as int] == t1.structs[t.structs.len() as int]);
    lemma_lower_all_at(image, t1, fields, fields.len(), i);
    let t2 = lower_class(image, t, class).unwrap().0;
    let ti = lower_all(image, t1, fields, i as nat).unwrap().0;
    law_lowering_is_stable(image, ti, fields[i], t2);
}

/// The `i`-th of several types is what it is after those before it.
pub proof fn lemma_lower_all_at(image: Image, t: TypesSpec, tys: Seq<Type>, n: nat, i: int)
    requires
        0 <= i < n,
        lower_all(image, t, tys, n) is Some,
    ensures
        lower_all(image, t, tys, i as nat) is Some,
        ({
            let (tn, done) = lower_all(image, t, tys, n).unwrap();
            let (ti, _) = lower_all(image, t, tys, i as nat).unwrap();
            lower(image, ti, tys[i]) matches Some((tj, lty)) && classes_kept(tj, tn) && lty
                == done[i]
        }),
    decreases n,
{
    if i < n - 1 {
        lemma_lower_all_at(image, t, tys, (n - 1) as nat, i);
        let (t1, done) = lower_all(image, t, tys, (n - 1) as nat).unwrap();
        law_lowering_keeps_types(image, t1, tys[n - 1]);
        lemma_lower_all_grows(image, t, tys, (n - 1) as nat);
    } else {
        lemma_lower_all_grows(image, t, tys, i as nat);
    }
}

/// Whether every class that has a type has a structure of its own.
pub open spec fn structures_apart(t: TypesSpec) -> bool {
    &&& forall|k: ClassKey| #[trigger]
        t.classes.contains_key(k) ==> (t.classes[k] matches LLVMType::StructPtr(s) && s
            < t.structs.len())
    &&& forall|k1: ClassKey, k2: ClassKey|
        #![trigger t.classes[k1], t.classes[k2]]
        t.classes.contains_key(k1) && t.classes.contains_key(k2) && t.classes[k1] == t.classes[k2]
            ==> k1 == k2
}

/// Whether there are numbers enough for a structure for every class.
pub open spec fn numbers_suffice(image: Image, t: TypesSpec) -> bool {
    t.structs.len() + t.unknown(image).len() <= usize::MAX
}

/// Different classes have different structures, whatever is asked for.
pub proof fn law_structures_stay_apart(image: Image, t: TypesSpec, ty: Type)
    requires
        structures_apart(t),
        numbers_suffice(image, t),
    ensures
        lower(image, t, ty) matches Some((t2, _)) ==> structures_apart(t2) && numbers_suffice(
            image,
            t2,
        ),
    decreases t.unknown(image).len(), 0int, 1int,
{
    if let ElementType::Class(class) = ty.base {
        lemma_class_stays_apart(image, t, class);
    }
}

proof fn lemma_class_stays_apart(image: Image, t: TypesSpec, class: usize)
    requires
        structures_apart(t),
        numbers_suffice(image, t),
    ensures
        lower_class(image, t, class) matches Some((t2, _)) ==> structures_apart(t2)
            && numbers_suffice(image, t2),
    decreases t.unknown(image).len(), 0int, 0int,
{
    if class < image.classes.len() {
        let info = image.classes[class as int];
        if !t.classes.contains_key(info.key()) {
            lemma_unknown_decreases(image, t, class as int);
            let fields = field_types(info);
            let t1 = t.add_class(info);
            lemma_all_stay_apart(image, t1, fields, fields.len());
            lemma_lower_all_grows(image, t1, fields, fields.len());
            if let Some((t2, body)) = lower_all(image, t1, fields, fields.len()) {
                let t3 = t2.set_body(t.structs.len() as int, body);
                assert(t3.classes == t2.classes);
                assert(t3.unknown(image) =~= t2.unknown(image));
            }
        }
    }
}

proof fn lemma_all_stay_apart(image: Image, t: TypesSpec, tys: Seq<Type>, n: nat)
    requires
        structures_apart(t),
        numbers_suffice(image, t),
    ensures
        lower_all(image, t, tys, n) matches Some((t2, _)) ==> structures_apart(t2)
            && numbers_suffice(image, t2),
    decreases t.unknown(image).len(), n, 0int,
{
    if n > 0 {
        lemma_all_stay_apart(image, t, tys, (n - 1) as nat);
        if let Some((t1, done)) = lower_all(image, t, tys, (n - 1) as nat) {
            if t1.unknown(image).len() <= t.unknown(image).len() {
                law_structures_stay_apart(image, t1, tys[n - 1]);
            }
        }
    }
}

/// Whether the type, if it is a pointer to a structure, points to one that is there.
pub open spec fn has_type(t: TypesSpec, lty: LLVMType) -> bool {
    lty matches LLVMType::StructPtr(s) ==> s < t.structs.len()
}

/// Whether classes and elements of structures have only types that are there.
pub open spec fn types_closed(t: TypesSpec) -> bool {
    &&& forall|k: ClassKey| #[trigger] t.classes.contains_key(k) ==> has_type(t, t.classes[k])
    &&& forall|s: int, i: int|
        0 <= s < t.structs.len() && t.structs[s].body is Some && 0 <= i
            < t.structs[s].body.unwrap().len() ==> has_type(
            t,
            #[trigger] t.structs[s].body.unwrap()[i],
        )
}

/// A type that is asked for points to no structure that is not there, and so do
/// the elements of structures. Each structure that is made on the way has its
/// elements set.
pub proof fn law_types_have_structures(image: Image, t: TypesSpec, ty: Type)
    requires
        types_closed(t),
    ensures
        lower(image, t, ty) matches Some((t2, lty)) ==> {
            &&& types_closed(t2)
            &&& has_type(t2, lty)
            &&& forall|s: int|
                t.structs.len() <= s < t2.structs.len() ==> (
                #[trigger] t2.structs[s]).body is Some
        },
    decreases t.unknown(image).len(), 0int, 1int,
{
    if let ElementType::Class(class) = ty.base {
        lemma_class_has_structure(image, t, class);
    }
}

proof fn lemma_class_has_structure(image: Image, t: TypesSpec, class: usize)
    requires
        types_closed(t),
    ensures
        lower_class(image, t, class) matches Some((t2, lty)) ==> {
            &&& types_closed(t2)
            &&& has_type(t2, lty)
            &&& forall|s: int|
                t.structs.len() <= s < t2.structs.len() ==> (
                #[trigger] t2.structs[s]).body is Some
        },
    decreases t.unknown(image).len(), 0int, 0int,
{
    if class < image.classes.len() {
        let info = image.classes[class as int];
        if !t.classes.contains_key(info.key()) {
            lemma_unknown_decreases(image, t, class as int);
            let fields = field_types(info);
            let t1 = t.add_class(info);
            assert(types_closed(t1)) by {
                assert forall|s: int, i: int|
                    0 <= s < t1.structs.len() && t1.structs[s].body is Some && 0 <= i
                        < t1.structs[s].body.unwrap().len() implies has_type(
                    t1,
                    #[trigger] t1.structs[s].body.unwrap()[i],
                ) by {
                    assert(t1.structs[s] == t.structs[s]);
                    assert(has_type(t, t.structs[s].body.unwrap()[i]));
                }
            }
            lemma_all_have_structures(image, t1, fields, fields.len());
            lemma_lower_all_grows(image, t1, fields, fields.len());
            if let Some((t2, body)) = lower_all(image, t1, fields, fields.len()) {
                let at = t.structs.len() as int;
                let t3 = t2.set_body(at, body);
                assert forall|s: int, i: int|
                    0 <= s < t3.structs.len() && t3.structs[s].body is Some && 0 <= i
                        < t3.structs[s].body.unwrap().len() implies has_type(
                    t3,
                    #[trigger] t3.structs[s].body.unwrap()[i],
                ) by {
                    if s == at {
                        assert(has_type(t2, body[i]));
                    } else {
                        assert(has_type(t2, t2.structs[s].body.unwrap()[i]));
                    }
                }
            }
        }
    }
}

proof fn lemma_all_have_structures(image: Image, t: TypesSpec, tys: Seq<Type>, n: nat)
    requires
        types_closed(t),
    ensures
        lower_all(image, t, tys, n) matches Some((t2, ltys)) ==> {
            &&& types_closed(t2)
            &&& forall|i: int| 0 <= i < ltys.len() ==> has_type(t2, #[trigger] ltys[i])
            &&& forall|s: int|
                t.structs.len() <= s < t2.structs.len() ==> (
                #[trigger] t2.structs[s]).body is Some
        },
    decreases t.unknown(image).len(), n, 0int,
{
    if n > 0 {
        lemma_all_have_structures(image, t, tys, (n - 1) as nat);
        lemma_lower_all_grows(image, t, tys, (n - 1) as nat);
        if let Some((t1, done)) = lower_all(image, t, tys, (n - 1) as nat) {
            if t1.unknown(image).len() <= t.unknown(image).len() {
                law_types_have_structures(image, t1, tys[n - 1]);
                law_lowering_keeps_types(image, t1, tys[n - 1]);
                if let Some((t2, lty)) = lower(image, t1, tys[n - 1]) {
                    assert forall|i: int| 0 <= i < done.push(lty).len() implies has_type(
                        t2,
                        #[trigger] done.push(lty)[i],
                    ) by {
                        if i < done.len() {
                            assert(has_type(t1, done[i]));
                        }
                    }
                    assert forall|s: int| t.structs.len() <= s < t2.structs.len() implies (
                    #[trigger] t2.structs[s]).body is Some by {
                        if s < t1.structs.len() {
                            assert(t2.structs[s] == t1.structs[s]);
                        }
                    }
                }
            }
        }
    }
}

/// Integers, truth values, strings and nothing have types of their own, and asking
/// for them makes nothing new. The kinds that the compiler does not know have none.
pub proof fn law_plain_types(image: Image, t: TypesSpec, ty: Type)
    ensures
        ty.base == ElementType::Void ==> lower(image, t, ty) == Some((t, LLVMType::Void)),
        ty.base == ElementType::Boolean ==> lower(image, t, ty) == Some((t, LLVMType::Int8)),
        ty.base == ElementType::I4 ==> lower(image, t, ty) == Some((t, LLVMType::Int32)),
        ty.base == ElementType::String ==> lower(image, t, ty) == Some((t, LLVMType::Int8Ptr)),
        ty.base is Other ==> lower(image, t, ty) is None,
        ty.base matches ElementType::Class(class) ==> class >= image.classes.len() ==> lower(
            image,
            t,
            ty,
        ) is None,
        ty.base matches ElementType::Class(class) ==> class < image.classes.len()
            && t.classes.contains_key(image.classes[class as int].key()) ==> lower(image, t, ty)
            == Some((t, t.classes[image.classes[class as int].key()])),
{
}

} // verus!
