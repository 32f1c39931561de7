//! What holds of the variables of every method.
use vstd::prelude::*;

use crate::exec::jit::agreement::{Frame, RtValue, exec_inst, exec_insts};
use crate::exec::jit::module::{FunctionRef, LLVMType, Op, ValueRef};
use crate::exec::jit::sound::begins_with;
use crate::exec::jit::state::{Jit, TypedValue};
use crate::exec::jit::types::{lemma_types_grow_transitive, lower, types_grow};
use crate::exec::jit::types_laws::{law_lowering_is_stable, law_lowering_keeps_types};
use crate::metadata::method::MethodBody;
use crate::metadata::signature::{ElementType, Type};

verus! {

/// Whether the instruction `id` allocates a variable of this type.
pub open spec fn allocates(k: Jit, id: int, ty: Type) -> bool {
    &&& k.module.insts[id].op matches Op::Alloca { ty: lty }
    &&& lower(k.image, k.types, ty) == Some((k.types, lty))
}

/// A variable keeps its type when the types grow.
pub proof fn lemma_allocation_stays(a: Jit, k: Jit, id: int, ty: Type)
    requires
        allocates(a, id, ty),
        k.image == a.image,
        types_grow(a.types, k.types),
        k.module.insts[id].op == a.module.insts[id].op,
    ensures
        allocates(k, id, ty),
{
    law_lowering_is_stable(a.image, a.types, ty, k.types);
}

/// Each local variable that is declared has a place of its own, of its type, and
/// nothing else is built.
pub proof fn law_locals_are_declared(j: Jit, tys: Seq<Type>, n: nat)
    requires
        n <= tys.len() <= usize::MAX,
        forall|id: usize| id < n ==> !j.locals.contains_key(id),
        j.declare_locals(tys, n) matches Some(k) && k.module.fits(),
    ensures
        ({
            let k = j.declare_locals(tys, n).unwrap();
            let first = j.module.insts.len() as int;
            &&& k.module.insts.len() == first + n
            &&& begins_with(k.module.insts, j.module.insts)
            &&& forall|i: usize| #![trigger k.locals[i]]
                i < n ==> {
                    &&& k.locals.contains_key(i)
                    &&& k.locals[i] == (TypedValue {
                        ty: tys[i as int],
                        val: ValueRef::Inst((first + i) as usize),
                    })
                    &&& allocates(k, first + i, tys[i as int])
                }
            &&& forall|i: usize| i >= n ==> #[trigger] k.locals.contains_key(i)
                == j.locals.contains_key(i)
            &&& k.arguments == j.arguments
            &&& k.image == j.image
            &&& k.pos == j.pos
            &&& types_grow(j.types, k.types)
        }),
    decreases n,
{
    if n > 0 {
        let m = (n - 1) as nat;
        let a = j.declare_locals(tys, m).unwrap();
        let k = j.declare_locals(tys, n).unwrap();
        let (b, lty) = a.lower(tys[n - 1]).unwrap_or((a, LLVMType::Void));
        assert(a.module.fits());
        law_locals_are_declared(j, tys, m);
        assert(!a.locals.contains_key(m as usize));
        law_lowering_keeps_types(a.image, a.types, tys[n - 1]);
        law_lowering_is_stable(a.image, a.types, tys[n - 1], k.types);
        lemma_types_grow_transitive(j.types, a.types, k.types);
        let first = j.module.insts.len() as int;
        assert(k.module.insts == a.module.insts.push(k.module.insts[first + n - 1]));
        assert forall|i: usize| #![trigger k.locals[i]] i < n implies {
            &&& k.locals.contains_key(i)
            &&& k.locals[i] == (TypedValue {
                ty: tys[i as int],
                val: ValueRef::Inst((first + i) as usize),
            })
            &&& allocates(k, first + i, tys[i as int])
        } by {
            if i < m {
                assert(a.locals[i] == k.locals[i]);
                lemma_allocation_stays(a, k, first + i, tys[i as int]);
            }
        }
    }
}

/// The argument at `id` of type `ty` is allocated by the instruction `at`, and the
/// next one stores the parameter of the same number in it.
pub open spec fn holds_parameter(
    k: Jit,
    function: FunctionRef,
    id: usize,
    ty: Type,
    at: int,
) -> bool {
    &&& k.arguments.contains_key(id)
    &&& k.arguments[id] == (TypedValue { ty, val: ValueRef::Inst(at as usize) })
    &&& allocates(k, at, ty)
    &&& k.module.insts[at + 1].op == (Op::<Seq<ValueRef>>::Store {
        val: ValueRef::Param { function, index: id },
        ptr: ValueRef::Inst(at as usize),
    })
}

proof fn lemma_param_is_declared(j: Jit, function: FunctionRef, id: usize, ty: Type)
    requires
        !j.arguments.contains_key(id),
        j.declare_param(function, id, ty) matches Some(k) && k.module.fits(),
    ensures
        ({
            let k = j.declare_param(function, id, ty).unwrap();
            let first = j.module.insts.len() as int;
            &&& k.module.insts.len() == first + 2
            &&& begins_with(k.module.insts, j.module.insts)
            &&& holds_parameter(k, function, id, ty, first)
            &&& forall|i: usize| i != id ==> #[trigger] k.arguments.contains_key(i)
                == j.arguments.contains_key(i)
            &&& forall|i: usize| i != id ==> #[trigger] k.arguments[i] == j.arguments[i]
            &&& k.locals == j.locals
            &&& k.image == j.image
            &&& k.pos == j.pos
            &&& types_grow(j.types, k.types)
            &&& j.module.fits()
        }),
{
    let k = j.declare_param(function, id, ty).unwrap();
    law_lowering_keeps_types(j.image, j.types, ty);
    law_lowering_is_stable(j.image, j.types, ty, k.types);
    let (a, lty) = j.lower(ty).unwrap();
    let (b, val) = a.alloca(lty);
    assert(b.module.insts == j.module.insts.push(b.module.insts[j.module.insts.len() as int]));
    assert(k.module.insts == b.module.insts.push(k.module.insts[j.module.insts.len() as int + 1]));
}

proof fn lemma_params_are_declared(
    j: Jit,
    function: FunctionRef,
    shift: nat,
    tys: Seq<Type>,
    n: nat,
)
    requires
        n <= tys.len(),
        shift + tys.len() <= usize::MAX,
        forall|id: usize| shift <= id < shift + n ==> !j.arguments.contains_key(id),
        j.declare_params(function, shift, tys, n) matches Some(k) && k.module.fits(),
    ensures
        ({
            let k = j.declare_params(function, shift, tys, n).unwrap();
            let first = j.module.insts.len() as int;
            &&& k.module.insts.len() == first + 2 * n
            &&& begins_with(k.module.insts, j.module.insts)
            &&& forall|i: int|
                0 <= i < n ==> holds_parameter(
                    k,
                    function,
                    (i + shift) as usize,
                    #[trigger] tys[i],
                    first + 2 * i,
                )
            &&& forall|i: usize| i < shift ==> #[trigger] k.arguments.contains_key(i)
                == j.arguments.contains_key(i)
            &&& forall|i: usize| i < shift ==> #[trigger] k.arguments[i] == j.arguments[i]
            &&& forall|i: usize| i >= shift + n ==> #[trigger] k.arguments.contains_key(i)
                == j.arguments.contains_key(i)
            &&& k.locals == j.locals
            &&& k.image == j.image
            &&& k.pos == j.pos
            &&& types_grow(j.types, k.types)
            &&& j.module.fits()
        }),
    decreases n,
{
    if n > 0 {
        let m = (n - 1) as nat;
        let a = j.declare_params(function, shift, tys, m).unwrap();
        let k = j.declare_params(function, shift, tys, n).unwrap();
        assert(a.module.fits()) by {
            let (b, ptr) = a.get_argument((m + shift) as usize, Some(tys[n - 1])).unwrap();
            assert(b.module.insts.len() >= a.module.insts.len());
        }
        lemma_params_are_declared(j, function, shift, tys, m);
        lemma_param_is_declared(a, function, (m + shift) as usize, tys[n - 1]);
        lemma_types_grow_transitive(j.types, a.types, k.types);
        let first = j.module.insts.len() as int;
        assert forall|i: int| 0 <= i < j.module.insts.len() implies #[trigger] k.module.insts[i]
            == j.module.insts[i] by {
            assert(a.module.insts[i] == j.module.insts[i]);
        }
        assert forall|i: int| 0 <= i < n implies holds_parameter(
            k,
            function,
            (i + shift) as usize,
            #[trigger] tys[i],
            first + 2 * i,
        ) by {
            if i < m {
                assert(holds_parameter(a, function, (i + shift) as usize, tys[i], first + 2 * i));
                assert(k.arguments[(i + shift) as usize] == a.arguments[(i + shift) as usize]);
                assert(k.module.insts[first + 2 * i] == a.module.insts[first + 2 * i]);
                assert(k.module.insts[first + 2 * i + 1] == a.module.insts[first + 2 * i + 1]);
                lemma_allocation_stays(a, k, first + 2 * i, tys[i]);
            }
        }
    }
}

/// The types of what a method is called with: the object first, if it is called on
/// one, then the parameters.
pub open spec fn argument_types(method: MethodBody) -> Seq<Type> {
    if method.signature.has_this {
        seq![Type { base: ElementType::Class(method.class) }] + method.signature.params@
    } else {
        method.signature.params@
    }
}

/// Each argument of a method has a place of its own, of its type, and holds the
/// parameter of the same number: the object first, if the method is called on one.
pub proof fn law_arguments_are_declared(j: Jit, function: FunctionRef, method: MethodBody)
    requires
        method.signature.params.len() < usize::MAX,
        forall|id: usize| !j.arguments.contains_key(id),
        j.declare_arguments(function, method) matches Some(k) && k.module.fits(),
    ensures
        ({
            let k = j.declare_arguments(function, method).unwrap();
            let tys = argument_types(method);
            let first = j.module.insts.len() as int;
            &&& k.module.insts.len() == first + 2 * tys.len()
            &&& begins_with(k.module.insts, j.module.insts)
            &&& forall|i: int|
                0 <= i < tys.len() ==> holds_parameter(
                    k,
                    function,
                    i as usize,
                    #[trigger] tys[i],
                    first + 2 * i,
                )
            &&& forall|i: usize| i >= tys.len() ==> !#[trigger] k.arguments.contains_key(i)
            &&& k.locals == j.locals
        }),
{
    let k = j.declare_arguments(function, method).unwrap();
    let params = method.signature.params@;
    let tys = argument_types(method);
    let first = j.module.insts.len() as int;
    if method.signature.has_this {
        let this = Type { base: ElementType::Class(method.class) };
        let a = j.declare_param(function, 0, this).unwrap();
        lemma_params_keep_fits(a, function, 1, params, params.len());
        lemma_param_is_declared(j, function, 0, this);
        lemma_params_are_declared(a, function, 1, params, params.len());
        assert forall|i: int| 0 <= i < tys.len() implies holds_parameter(
            k,
            function,
            i as usize,
            #[trigger] tys[i],
            first + 2 * i,
        ) by {
            if i == 0 {
                assert(k.arguments[0usize] == a.arguments[0usize]);
                assert(k.module.insts[first] == a.module.insts[first]);
                assert(k.module.insts[first + 1] == a.module.insts[first + 1]);
                lemma_allocation_stays(a, k, first, this);
            } else {
                assert(tys[i] == params[i - 1]);
            }
        }
        assert forall|i: int| 0 <= i < j.module.insts.len() implies #[trigger] k.module.insts[i]
            == j.module.insts[i] by {
            assert(a.module.insts[i] == j.module.insts[i]);
        }
    } else {
        lemma_params_are_declared(j, function, 0, params, params.len());
    }
}

/// What fits in the end has fitted all the time.
proof fn lemma_params_keep_fits(
    j: Jit,
    function: FunctionRef,
    shift: nat,
    tys: Seq<Type>,
    n: nat,
)
    requires
        j.declare_params(function, shift, tys, n) matches Some(k) && k.module.fits(),
    ensures
        j.module.fits(),
    decreases n,
{
    if n > 0 {
        let a = j.declare_params(function, shift, tys, (n - 1) as nat).unwrap();
        let id = (n - 1 + shift) as usize;
        let (b, ptr) = a.get_argument(id, Some(tys[n - 1])).unwrap();
        assert(b.module.insts.len() >= a.module.insts.len());
        lemma_params_keep_fits(j, function, shift, tys, (n - 1) as nat);
    }
}

/// When the arguments have been declared, each argument is a variable that holds
/// what the function has been called with.
pub proof fn law_arguments_hold_parameters(
    j: Jit,
    function: FunctionRef,
    method: MethodBody,
    f: Frame,
    n: nat,
)
    requires
        method.signature.params.len() < usize::MAX,
        forall|id: usize| !j.arguments.contains_key(id),
        j.declare_arguments(function, method) matches Some(k) && k.module.fits(),
        n <= argument_types(method).len() <= f.params.len(),
    ensures
        ({
            let k = j.declare_arguments(function, method).unwrap();
            let first = j.module.insts.len() as int;
            &&& exec_insts(k.module, k.builtins, f, first, first + 2 * n) matches Some(g)
            &&& g.params == f.params
            &&& g.out == f.out
            &&& g.heap == f.heap
            &&& forall|i: usize| #![trigger k.arguments[i]]
                i < n ==> {
                    let a = first + 2 * i;
                    &&& g.value_of(k.arguments[i].val) == Some(RtValue::Variable(a))
                    &&& g.vars.contains_key(a)
                    &&& g.vars[a] == f.params[i as int]
                }
        }),
    decreases n,
{
    law_arguments_are_declared(j, function, method);
    let k = j.declare_arguments(function, method).unwrap();
    let tys = argument_types(method);
    let first = j.module.insts.len() as int;
    if n > 0 {
        let m = (n - 1) as nat;
        law_arguments_hold_parameters(j, function, method, f, m);
        let at = first + 2 * m;
        let a = exec_insts(k.module, k.builtins, f, first, at).unwrap();
        assert(holds_parameter(k, function, m as usize, tys[m as int], at));
        reveal_with_fuel(exec_insts, 3);
        let b = a.set(at, RtValue::Variable(at));
        assert(exec_inst(k.module, k.builtins, a, at) == Some(b));
        let g = Frame { vars: b.vars.insert(at, f.params[m as int]), ..b };
        assert(exec_inst(k.module, k.builtins, b, at + 1) == Some(g));
        assert(exec_insts(k.module, k.builtins, f, first, at + 2) == Some(g));
        assert forall|i: usize| #![trigger k.arguments[i]] i < n implies {
            let v = first + 2 * i;
            &&& g.value_of(k.arguments[i].val) == Some(RtValue::Variable(v))
            &&& g.vars.contains_key(v)
            &&& g.vars[v] == f.params[i as int]
        } by {
            assert(holds_parameter(k, function, i, tys[i as int], first + 2 * i));
        }
    }
}

} // verus!
