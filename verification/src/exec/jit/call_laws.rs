//! What calls do when they are compiled.
use vstd::prelude::*;

use crate::exec::instruction::Instruction;
use crate::exec::interpret::Line;
use crate::exec::jit::agreement::{Frame, RtValue, exec_insts};
use crate::exec::jit::cfg::Exit;
use crate::exec::jit::compiler_laws::law_function_has_signature;
use crate::exec::jit::model::Receiver;
use crate::exec::jit::module::{FunctionRef, FunctionSpec, Op, ValueRef};
use crate::exec::jit::operation_laws::{
    keeps_below, lemma_below_kept, lemma_value_kept, only_results,
};
use crate::exec::jit::sound::begins_with;
use crate::exec::jit::state::{Jit, TypedValue};
use crate::exec::jit::types::{
    TypesSpec, field_types, lemma_types_grow_transitive, lower, lower_all, types_grow,
};
use crate::exec::jit::types_laws::{
    law_lower_all_is_one_by_one, law_lowering_is_stable, law_lowering_keeps_types,
    law_plain_types, lemma_lower_all_grows,
};
use crate::metadata::image::{
    AssemblyRefTable, Image, MemberRefTable, MethodDefTable, Table, TypeRefTable,
};
use crate::metadata::image_laws::{
    law_console_is_found, law_other_methods_need_rows, names, refers_to, takes_one, writes_line,
};
use crate::metadata::method::MethodBody;
use crate::metadata::signature::{ElementType, Type};

verus! {

/// Whether `args` are the `n` topmost values, in the order in which they were
/// pushed.
pub open spec fn are_topmost(args: Seq<ValueRef>, stack: Seq<TypedValue>, n: int) -> bool {
    &&& args.len() == n
    &&& n <= stack.len()
    &&& forall|i: int| 0 <= i < n ==> #[trigger] args[i] == stack[stack.len() - n + i].val
}

/// Whether the function has the types of the result and the parameters of the
/// method at `rva`, in order, behind the type of its class if it takes one more.
pub open spec fn has_types(image: Image, types: TypesSpec, rva: u32, func: FunctionSpec) -> bool {
    let method = image.methods@[rva];
    let shift = func.params.len() - method.signature.params.len();
    &&& lower(image, types, method.signature.ret) == Some((types, func.ret))
    &&& forall|i: int|
        0 <= i < method.signature.params.len() ==> lower(
            image,
            types,
            #[trigger] method.signature.params[i],
        ) == Some((types, func.params[shift + i]))
    &&& shift == 1 ==> lower(image, types, Type { base: ElementType::Class(method.class) })
        == Some((types, func.params[0]))
}

/// Whether the function of a method is what it was, if it was called before, and
/// is a new one otherwise, which waits to be compiled and takes `n` values.
pub open spec fn has_function(j: Jit, k: Jit, rva: u32, f: FunctionRef, n: int) -> bool {
    &&& k.generated.contains_key(rva) && k.generated[rva] == f
    &&& if j.generated.contains_key(rva) {
        &&& f == j.generated[rva]
        &&& k.module.functions == j.module.functions
        &&& k.queue == j.queue
        &&& k.generated == j.generated
    } else {
        &&& f == j.module.functions.len()
        &&& k.module.functions.len() == f + 1
        &&& k.module.functions[f as int].name == j.image.methods@[rva].name@
        &&& k.module.functions[f as int].params.len() == n
        &&& k.module.functions[f as int].blocks.len() == 0
        &&& has_types(j.image, k.types, rva, k.module.functions[f as int])
        &&& k.queue.len() == j.queue.len() + 1
        &&& k.queue[j.queue.len() as int] == (f, rva)
        &&& forall|i: int| 0 <= i < j.queue.len() ==> #[trigger] k.queue[i] == j.queue[i]
        &&& k.generated == j.generated.insert(rva, f)
        &&& forall|i: int|
            0 <= i < f ==> #[trigger] k.module.functions[i] == j.module.functions[i]
    }
}

/// Whether the last instruction built is a call of the function of the method at
/// `rva` with the `n` topmost values, in the order in which they were pushed, and
/// its result, if it has one, takes their place on the stack.
pub open spec fn is_call(
    j: Jit,
    stack: Seq<TypedValue>,
    k: Jit,
    stack2: Seq<TypedValue>,
    rva: u32,
    n: int,
) -> bool {
    let at = j.module.insts.len() as int;
    let ret = j.image.methods@[rva].signature.ret;
    &&& k.module.insts.len() == at + 1
    &&& begins_with(k.module.insts, j.module.insts)
    &&& k.module.insts[at].op matches Op::Call { callee, args }
    &&& has_function(j, k, rva, callee, n)
    &&& are_topmost(args, stack, n)
    &&& forall|i: int| 0 <= i < stack.len() - n ==> #[trigger] stack2[i] == stack[i]
    &&& if ret.base == ElementType::Void {
        stack2.len() == stack.len() - n
    } else {
        &&& stack2.len() == stack.len() - n + 1
        &&& stack2[stack.len() - n] == (TypedValue { ty: ret, val: ValueRef::Inst(at as usize) })
    }
}

/// A call of a method of the assembly passes the topmost values, as many as the
/// method has parameters, in the order in which they were pushed. Its result, if
/// it has one, goes on the stack.
pub proof fn law_call_passes_arguments(
    j: Jit,
    stack: Seq<TypedValue>,
    table: usize,
    entry: usize,
    exit: Exit,
    mdt: MethodDefTable,
)
    requires
        names(j.image, table, entry, Table::MethodDef(mdt)),
        j.image.methods@.contains_key(mdt.rva),
        j.compile_instr(stack, Instruction::Call { table, entry }, exit) matches Some((k, _))
            && k.module.fits(),
    ensures
        ({
            let (k, stack2) = j.compile_instr(
                stack,
                Instruction::Call { table, entry },
                exit,
            ).unwrap();
            is_call(
                j,
                stack,
                k,
                stack2,
                mdt.rva,
                j.image.methods@[mdt.rva].signature.params.len() as int,
            )
        }),
{
    reveal(Jit::compile_instr);
    lemma_callee_is_function(j, mdt.rva, Receiver::Nothing);
}

/// A call on an object passes the object and the topmost values above it, as many
/// as the method has parameters, in the order in which they were pushed. Its
/// result, if it has one, goes on the stack.
pub proof fn law_call_on_object_passes_arguments(
    j: Jit,
    stack: Seq<TypedValue>,
    table: usize,
    entry: usize,
    exit: Exit,
    mdt: MethodDefTable,
)
    requires
        names(j.image, table, entry, Table::MethodDef(mdt)),
        j.image.methods@.contains_key(mdt.rva),
        j.compile_instr(stack, Instruction::CallVirt { table, entry }, exit) matches Some((k, _))
            && k.module.fits(),
    ensures
        j.image.methods@[mdt.rva].signature.has_this,
        ({
            let (k, stack2) = j.compile_instr(
                stack,
                Instruction::CallVirt { table, entry },
                exit,
            ).unwrap();
            is_call(
                j,
                stack,
                k,
                stack2,
                mdt.rva,
                j.image.methods@[mdt.rva].signature.params.len() + 1,
            )
        }),
{
    reveal(Jit::compile_instr);
    let receiver = Receiver::Class(j.image.methods@[mdt.rva].class);
    lemma_callee_is_function(j, mdt.rva, receiver);
}

/// What [`Jit::callee`] gives is the function of the method.
proof fn lemma_callee_is_function(j: Jit, rva: u32, receiver: Receiver)
    requires
        j.callee(rva, receiver) matches Some((k, _)) && k.module.fits(),
        receiver matches Receiver::Class(class) ==> class == j.image.methods@[rva].class,
        receiver matches Receiver::Lowered(lty) ==> lower(
            j.image,
            j.types,
            Type { base: ElementType::Class(j.image.methods@[rva].class) },
        ) == Some((j.types, lty)),
    ensures
        ({
            let (k, f) = j.callee(rva, receiver).unwrap();
            let n = j.image.methods@[rva].signature.params.len() as int;
            &&& has_function(
                j,
                k,
                rva,
                f,
                if receiver is Nothing {
                    n
                } else {
                    n + 1
                },
            )
            &&& k.module.insts == j.module.insts
            &&& k.module.blocks == j.module.blocks
            &&& k.pos == j.pos
            &&& k.image == j.image
            &&& k.builtins == j.builtins
            &&& types_grow(j.types, k.types)
        }),
{
    let method = j.image.methods@[rva];
    let params = method.signature.params@;
    if !j.generated.contains_key(rva) {
        let (a, ret) = j.lower(method.signature.ret).unwrap();
        law_lowering_keeps_types(j.image, j.types, method.signature.ret);
        let (b, first) = a.lower_receiver(receiver).unwrap();
        let this = Type { base: ElementType::Class(method.class) };
        law_lowering_keeps_types(a.image, a.types, this);
        assert(types_grow(a.types, b.types));
        lemma_types_grow_transitive(j.types, a.types, b.types);
        let (c, rest) = b.lower_all(params).unwrap();
        lemma_lower_all_grows(b.image, b.types, params, params.len());
        lemma_types_grow_transitive(j.types, b.types, c.types);
        lemma_types_grow_transitive(a.types, b.types, c.types);
        law_lowering_is_stable(j.image, j.types, method.signature.ret, c.types);
        match receiver {
            Receiver::Class(class) => law_lowering_is_stable(j.image, a.types, this, c.types),
            Receiver::Lowered(lty) => law_lowering_is_stable(j.image, j.types, this, c.types),
            Receiver::Nothing => {},
        }
        let (k, f) = j.callee(rva, receiver).unwrap();
        let func = k.module.functions[f as int];
        assert forall|i: int| 0 <= i < params.len() implies lower(
            j.image,
            k.types,
            #[trigger] method.signature.params[i],
        ) == Some((k.types, func.params[func.params.len() - params.len() + i])) by {
            law_function_has_signature(j, rva, receiver, i);
        }
    }
}

/// The creation of an object: memory for it is asked for, and the constructor is
/// called with the new object and the topmost values, as many as the constructor
/// has parameters, in the order in which they were pushed. The object, which is
/// none that was there, takes their place on the stack.
pub proof fn law_new_object_is_constructed(
    j: Jit,
    stack: Seq<TypedValue>,
    table: usize,
    entry: usize,
    exit: Exit,
    mdt: MethodDefTable,
    f: Frame,
)
    requires
        j.steady(stack),
        names(j.image, table, entry, Table::MethodDef(mdt)),
        j.image.methods@.contains_key(mdt.rva),
        j.compile_instr(stack, Instruction::Newobj { table, entry }, exit) matches Some((k, _))
            && k.module.fits(),
    ensures
        j.image.methods@[mdt.rva].signature.has_this,
        ({
            let (k, stack2) = j.compile_instr(
                stack,
                Instruction::Newobj { table, entry },
                exit,
            ).unwrap();
            let from = j.module.insts.len() as int;
            let last = k.module.insts.len() - 1;
            let method = j.image.methods@[mdt.rva];
            let n = method.signature.params.len() as int;
            &&& n <= stack.len()
            &&& from < last
            &&& begins_with(k.module.insts, j.module.insts)
            // the constructor is called
            &&& k.module.insts[last].op matches Op::Call { callee, args }
            &&& has_function(j, k, mdt.rva, callee, n + 1)
            &&& args.len() == n + 1
            &&& forall|i: int|
                0 <= i < n ==> #[trigger] args[i + 1] == stack[stack.len() - n + i].val
            // the object is on the stack
            &&& stack2.len() == stack.len() - n + 1
            &&& stack2[stack.len() - n] == (TypedValue {
                ty: Type { base: ElementType::Class(method.class) },
                val: args[0],
            })
            // and is a new one, of the size of its class
            &&& exec_insts(k.module, k.builtins, f, from, last) matches Some(g)
            &&& g.value_of(args[0]) == Some(RtValue::Object(f.objects))
            &&& g.objects == f.objects + 1
            &&& keeps_below(f, g, stack, stack2, stack.len() - n)
            &&& forall|i: int|
                0 <= i < n ==> g.value_of(#[trigger] args[i + 1]) == f.value_of(
                    stack[stack.len() - n + i].val,
                )
            &&& only_results(f, Frame { objects: f.objects, ..g })
            &&& k.module.insts[from].op matches Op::Call { callee: alloc, args: size }
            &&& alloc == k.builtins["memory_alloc"@]
            &&& size.len() == 1
            &&& size[0] matches ValueRef::SizeOf(lty)
            &&& lower(j.image, k.types, Type { base: ElementType::Class(method.class) }) == Some(
                (k.types, lty),
            )
        }),
{
    reveal(Jit::compile_instr);
    let newobj = Instruction::Newobj { table, entry };
    let (k, stack2) = j.compile_instr(stack, newobj, exit).unwrap();
    let from = j.module.insts.len() as int;
    let method = j.image.methods@[mdt.rva];
    let n = method.signature.params.len() as int;
    let this = Type { base: ElementType::Class(method.class) };
    let (a, lty) = j.lower_class(method.class).unwrap();
    law_lowering_keeps_types(j.image, j.types, this);
    law_lowering_is_stable(j.image, j.types, this, a.types);
    let alloc = Op::Call {
        callee: a.builtins["memory_alloc"@],
        args: seq![ValueRef::SizeOf(lty)],
    };
    let (b, memory) = a.emit(alloc);
    let (c, obj) = b.emit(Op::Cast { val: memory, ty: lty });
    let (d, callee) = c.callee(mdt.rva, Receiver::Lowered(lty)).unwrap();
    assert(d.module.functions.len() == k.module.functions.len());
    assert(d.module.fits());
    lemma_callee_is_function(c, mdt.rva, Receiver::Lowered(lty));
    law_lowering_is_stable(j.image, j.types, this, d.types);
    assert(d.module.insts == c.module.insts);
    assert(k.module.insts.len() == from + 3);
    let op = k.module.insts[from + 2].op;
    assert(op is Call);
    let args = op->args;
    assert forall|i: int| 0 <= i < n implies #[trigger] args[i + 1] == stack[stack.len() - n
        + i].val by {}
    assert(k.module.insts[from].op == alloc);
    assert(k.module.insts[from + 1].op == (Op::<Seq<ValueRef>>::Cast { val: memory, ty: lty }));
    let g = Frame {
        regs: f.regs.insert(from, RtValue::Object(f.objects)).insert(
            from + 1,
            RtValue::Object(f.objects),
        ),
        objects: f.objects + 1,
        ..f
    };
    reveal_with_fuel(exec_insts, 3);
    assert(exec_insts(k.module, k.builtins, f, from, from + 2) == Some(g));
    lemma_below_kept(j, f, g, stack, stack2, stack.len() - n);
    assert forall|i: int| 0 <= i < n implies g.value_of(#[trigger] args[i + 1]) == f.value_of(
        stack[stack.len() - n + i].val,
    ) by {
        assert(j.module.has_value(stack[stack.len() - n + i].val));
        lemma_value_kept(j.module, f, g, stack[stack.len() - n + i].val);
    }
}

/// A call of `System.Console.WriteLine` takes the topmost value off the stack and
/// writes it, if the method takes an integer and it is one, or the method takes a
/// string and it is one. Nothing else changes.
pub proof fn law_console_writes(
    j: Jit,
    stack: Seq<TypedValue>,
    table: usize,
    entry: usize,
    exit: Exit,
    mrt: MemberRefTable,
    trt: TypeRefTable,
    art: AssemblyRefTable,
    f: Frame,
)
    requires
        j.steady(stack),
        j.module.insts.len() < usize::MAX,
        stack.len() >= 1,
        names(j.image, table, entry, Table::MemberRef(mrt)),
        refers_to(j.image, mrt, trt, art),
        writes_line(j.image, mrt, trt, art),
    ensures
        j.compile_instr(stack, Instruction::Call { table, entry }, exit) matches Some((k, stack2))
            && {
            let from = j.module.insts.len() as int;
            let to = k.module.insts.len() as int;
            let signature = j.image.signatures@[mrt.signature];
            let top = f.value_of(stack[stack.len() - 1].val);
            let done = exec_insts(k.module, k.builtins, f, from, to);
            &&& stack2.len() == stack.len() - 1
            &&& keeps_below(f, f, stack, stack2, stack.len() - 1)
            &&& takes_one(signature, ElementType::I4) ==> match top {
                Some(RtValue::Int(n)) => done == Some(f.write(Line::Int(n))),
                _ => true,
            }
            &&& takes_one(signature, ElementType::String) ==> match top {
                Some(RtValue::Text(i)) => 0 <= i < j.module.strings.len() ==> done == Some(
                    f.write(Line::Text(j.module.strings[i])),
                ),
                _ => true,
            }
            &&& !takes_one(signature, ElementType::I4) && !takes_one(
                signature,
                ElementType::String,
            ) ==> k == j
        },
{
    reveal(Jit::compile_instr);
    reveal_with_fuel(exec_insts, 2);
    law_console_is_found(j.image, mrt, trt, art);
    assert(j.image.row_spec(table, entry) == Some(Table::MemberRef(mrt)));
    let (k, stack2) = j.compile_instr(stack, Instruction::Call { table, entry }, exit).unwrap();
    let from = j.module.insts.len() as int;
    if k != j {
        assert(k.module.insts.len() == from + 1);
        assert(k.module.insts[from].op->args == seq![stack[stack.len() - 1].val]);
    }
}

/// A call of another method of another assembly does nothing, and neither does one
/// on an object, or the creation of an object of another assembly.
pub proof fn law_other_assemblies_are_ignored(
    j: Jit,
    stack: Seq<TypedValue>,
    table: usize,
    entry: usize,
    exit: Exit,
    mrt: MemberRefTable,
    trt: TypeRefTable,
    art: AssemblyRefTable,
)
    requires
        names(j.image, table, entry, Table::MemberRef(mrt)),
    ensures
        refers_to(j.image, mrt, trt, art) && !writes_line(j.image, mrt, trt, art)
            ==> j.compile_instr(stack, Instruction::Call { table, entry }, exit) == Some(
            (j, stack),
        ),
        j.compile_instr(stack, Instruction::CallVirt { table, entry }, exit) == Some((j, stack)),
        j.compile_instr(stack, Instruction::Newobj { table, entry }, exit) == Some((j, stack)),
{
    reveal(Jit::compile_instr);
    assert(j.image.row_spec(table, entry) == Some(Table::MemberRef(mrt)));
    if refers_to(j.image, mrt, trt, art) {
        law_console_is_found(j.image, mrt, trt, art);
    }
}

/// Whether a type is one of those that every module has.
pub open spec fn is_plain_type(ty: Type) -> bool {
    ty.base == ElementType::Void || ty.base == ElementType::Boolean || ty.base == ElementType::I4
        || ty.base == ElementType::String
}

/// Whether the LLVM type of a CIL type can be had: it is plain, or a class that has
/// its type already, or one that has only fields of plain types.
pub open spec fn has_type(image: Image, types: TypesSpec, ty: Type) -> bool {
    is_plain_type(ty) || (ty.base matches ElementType::Class(class) && class < image.classes.len()
        && (types.classes.contains_key(image.classes[class as int].key()) || forall|i: int|
        0 <= i < image.classes[class as int].fields.len() ==> is_plain_type(
            (#[trigger] image.classes[class as int].fields[i]).ty,
        )))
}

proof fn lemma_plain_types(image: Image, t: TypesSpec, tys: Seq<Type>, n: nat)
    requires
        n <= tys.len(),
        forall|i: int| 0 <= i < n ==> is_plain_type(#[trigger] tys[i]),
    ensures
        lower_all(image, t, tys, n) matches Some((t2, _)) && t2 == t,
    decreases n,
{
    if n > 0 {
        lemma_plain_types(image, t, tys, (n - 1) as nat);
        law_plain_types(image, t, tys[n - 1]);
    }
}

/// A type that can be had is had.
pub proof fn law_known_types_are_lowered(image: Image, t: TypesSpec, ty: Type)
    requires
        has_type(image, t, ty),
    ensures
        lower(image, t, ty) is Some,
{
    law_plain_types(image, t, ty);
    if let ElementType::Class(class) = ty.base {
        let info = image.classes[class as int];
        if !t.classes.contains_key(info.key()) {
            let fields = field_types(info);
            assert forall|i: int| 0 <= i < fields.len() implies is_plain_type(
                #[trigger] fields[i],
            ) by {
                assert(is_plain_type(info.fields[i].ty));
            }
            lemma_plain_types(image, t.add_class(info), fields, fields.len());
        }
    }
}

proof fn lemma_known_types(image: Image, t: TypesSpec, tys: Seq<Type>, n: nat)
    requires
        n <= tys.len(),
        forall|i: int| 0 <= i < n ==> has_type(image, t, #[trigger] tys[i]),
    ensures
        lower_all(image, t, tys, n) is Some,
    decreases n,
{
    if n > 0 {
        lemma_known_types(image, t, tys, (n - 1) as nat);
        law_lower_all_is_one_by_one(image, t, tys, n);
        lemma_lower_all_grows(image, t, tys, (n - 1) as nat);
        let (a, _) = lower_all(image, t, tys, (n - 1) as nat).unwrap();
        assert(has_type(image, t, tys[n - 1]));
        assert(has_type(image, a, tys[n - 1]));
        law_known_types_are_lowered(image, a, tys[n - 1]);
    }
}

/// Whether the function of a method can be had: it was called before, or the types
/// of its result and its parameters can be had.
pub open spec fn can_be_called(j: Jit, rva: u32) -> bool {
    let signature = j.image.methods@[rva].signature;
    &&& j.image.methods@.contains_key(rva)
    &&& j.generated.contains_key(rva) || {
        &&& has_type(j.image, j.types, signature.ret)
        &&& forall|i: int|
            0 <= i < signature.params.len() ==> has_type(
                j.image,
                j.types,
                #[trigger] signature.params[i],
            )
    }
}

proof fn lemma_callee_is_had(j: Jit, rva: u32, receiver: Receiver)
    requires
        can_be_called(j, rva),
        receiver matches Receiver::Class(class) ==> has_type(
            j.image,
            j.types,
            Type { base: ElementType::Class(class) },
        ),
    ensures
        j.callee(rva, receiver) is Some,
{
    let method = j.image.methods@[rva];
    let params = method.signature.params@;
    if !j.generated.contains_key(rva) {
        law_known_types_are_lowered(j.image, j.types, method.signature.ret);
        law_lowering_keeps_types(j.image, j.types, method.signature.ret);
        let (a, _) = j.lower(method.signature.ret).unwrap();
        if let Receiver::Class(class) = receiver {
            let this = Type { base: ElementType::Class(class) };
            assert(has_type(a.image, a.types, this));
            law_known_types_are_lowered(a.image, a.types, this);
            law_lowering_keeps_types(a.image, a.types, this);
        }
        let (b, _) = a.lower_receiver(receiver).unwrap();
        assert(types_grow(a.types, b.types));
        lemma_types_grow_transitive(j.types, a.types, b.types);
        assert forall|i: int| 0 <= i < params.len() implies has_type(
            b.image,
            b.types,
            #[trigger] params[i],
        ) by {
            assert(has_type(j.image, j.types, method.signature.params[i]));
        }
        lemma_known_types(b.image, b.types, params, params.len());
    }
}

/// A call is compiled if the token names a method that can be called, or any method
/// of another assembly that can be found, and there are enough values on the stack;
/// for a call on an object, or the creation of one, the method has to be one that
/// is called on objects, and its class must have a type.
pub proof fn law_call_compiles(
    j: Jit,
    stack: Seq<TypedValue>,
    table: usize,
    entry: usize,
    exit: Exit,
    mdt: MethodDefTable,
)
    requires
        names(j.image, table, entry, Table::MethodDef(mdt)),
    ensures
        ({
            let method = j.image.methods@[mdt.rva];
            let n = method.signature.params.len();
            let call = j.compile_instr(stack, Instruction::Call { table, entry }, exit);
            let virt = j.compile_instr(stack, Instruction::CallVirt { table, entry }, exit);
            let new = j.compile_instr(stack, Instruction::Newobj { table, entry }, exit);
            let this = has_type(
                j.image,
                j.types,
                Type { base: ElementType::Class(method.class) },
            );
            &&& can_be_called(j, mdt.rva) && stack.len() >= n ==> call is Some
            &&& can_be_called(j, mdt.rva) && method.signature.has_this && this && stack.len() >= n
                + 1 ==> virt is Some
            &&& can_be_called(j, mdt.rva) && method.signature.has_this && this && stack.len() >= n
                ==> new is Some
            &&& !j.image.methods@.contains_key(mdt.rva) ==> call is None && virt is None
                && new is None
            &&& stack.len() < n ==> call is None && new is None
            &&& stack.len() < n + 1 ==> virt is None
            &&& !method.signature.has_this ==> virt is None && new is None
        }),
{
    reveal(Jit::compile_instr);
    assert(j.image.row_spec(table, entry) == Some(Table::MethodDef(mdt)));
    let method = j.image.methods@[mdt.rva];
    let this = Type { base: ElementType::Class(method.class) };
    if can_be_called(j, mdt.rva) {
        lemma_callee_is_had(j, mdt.rva, Receiver::Nothing);
        if has_type(j.image, j.types, this) {
            lemma_callee_is_had(j, mdt.rva, Receiver::Class(method.class));
            law_known_types_are_lowered(j.image, j.types, this);
            law_lowering_keeps_types(j.image, j.types, this);
            let (a, lty) = j.lower_class(method.class).unwrap();
            let alloc = Op::Call {
                callee: a.builtins["memory_alloc"@],
                args: seq![ValueRef::SizeOf(lty)],
            };
            let (b, memory) = a.emit(alloc);
            let (c, obj) = b.emit(Op::Cast { val: memory, ty: lty });
            assert(can_be_called(c, mdt.rva)) by {
                let signature = method.signature;
                if !j.generated.contains_key(mdt.rva) {
                    assert forall|i: int| 0 <= i < signature.params.len() implies has_type(
                        c.image,
                        c.types,
                        #[trigger] signature.params[i],
                    ) by {
                        assert(has_type(j.image, j.types, signature.params[i]));
                    }
                }
            }
            lemma_callee_is_had(c, mdt.rva, Receiver::Lowered(lty));
        }
    }
}

/// A call of what is no method, or is not there, is not compiled.
pub proof fn law_other_rows_are_refused(
    j: Jit,
    stack: Seq<TypedValue>,
    table: usize,
    entry: usize,
    exit: Exit,
)
    requires
        forall|row: Table| #[trigger]
            names(j.image, table, entry, row) ==> !(row is MemberRef) && !(row is MethodDef),
    ensures
        j.compile_instr(stack, Instruction::Call { table, entry }, exit) is None,
        j.compile_instr(stack, Instruction::CallVirt { table, entry }, exit) is None,
        j.compile_instr(stack, Instruction::Newobj { table, entry }, exit) is None,
{
    reveal(Jit::compile_instr);
    if let Some(row) = j.image.row_spec(table, entry) {
        assert(names(j.image, table, entry, row));
    }
}

/// A call of a method of another assembly that cannot be found is not compiled, nor
/// is one of `System.Console.WriteLine` without an argument.
pub proof fn law_unknown_methods_are_refused(
    j: Jit,
    stack: Seq<TypedValue>,
    table: usize,
    entry: usize,
    exit: Exit,
    mrt: MemberRefTable,
)
    requires
        names(j.image, table, entry, Table::MemberRef(mrt)),
    ensures
        ({
            let call = j.compile_instr(stack, Instruction::Call { table, entry }, exit);
            &&& (forall|trt: TypeRefTable, art: AssemblyRefTable|
                !refers_to(j.image, mrt, trt, art)) ==> call is None
            &&& forall|trt: TypeRefTable, art: AssemblyRefTable| #[trigger]
                refers_to(j.image, mrt, trt, art) && writes_line(j.image, mrt, trt, art)
                    && stack.len() == 0 ==> call is None
        }),
{
    reveal(Jit::compile_instr);
    assert(j.image.row_spec(table, entry) == Some(Table::MemberRef(mrt)));
    law_other_methods_need_rows(j.image, mrt);
    assert forall|trt: TypeRefTable, art: AssemblyRefTable| #[trigger]
        refers_to(j.image, mrt, trt, art) && writes_line(j.image, mrt, trt, art) && stack.len()
            == 0 implies j.compile_instr(stack, Instruction::Call { table, entry }, exit) is None by {
        law_console_is_found(j.image, mrt, trt, art);
    }
}

/// Variables of types that can be had can be declared.
pub proof fn law_variables_can_be_declared(
    j: Jit,
    tys: Seq<Type>,
    function: FunctionRef,
    method: MethodBody,
    n: nat,
)
    requires
        n <= tys.len(),
        forall|i: int| 0 <= i < tys.len() ==> has_type(j.image, j.types, #[trigger] tys[i]),
        method.signature.params@ == tys,
        method.signature.has_this ==> has_type(
            j.image,
            j.types,
            Type { base: ElementType::Class(method.class) },
        ),
    ensures
        j.declare_locals(tys, n) matches Some(k) && k.image == j.image && types_grow(
            j.types,
            k.types,
        ),
        j.declare_arguments(function, method) is Some,
{
    lemma_locals_can_be_declared(j, tys, n);
    if method.signature.has_this {
        let this = Type { base: ElementType::Class(method.class) };
        law_known_types_are_lowered(j.image, j.types, this);
        law_lowering_keeps_types(j.image, j.types, this);
        let a = j.declare_param(function, 0, this).unwrap();
        assert forall|i: int| 0 <= i < tys.len() implies has_type(
            a.image,
            a.types,
            #[trigger] tys[i],
        ) by {
            assert(has_type(j.image, j.types, tys[i]));
        }
        lemma_params_can_be_declared(a, function, 1, tys, tys.len());
    } else {
        lemma_params_can_be_declared(j, function, 0, tys, tys.len());
    }
}

proof fn lemma_locals_can_be_declared(j: Jit, tys: Seq<Type>, n: nat)
    requires
        n <= tys.len(),
        forall|i: int| 0 <= i < tys.len() ==> has_type(j.image, j.types, #[trigger] tys[i]),
    ensures
        j.declare_locals(tys, n) matches Some(k) && k.image == j.image && types_grow(
            j.types,
            k.types,
        ),
    decreases n,
{
    if n > 0 {
        lemma_locals_can_be_declared(j, tys, (n - 1) as nat);
        let a = j.declare_locals(tys, (n - 1) as nat).unwrap();
        assert(has_type(j.image, j.types, tys[n - 1]));
        assert(has_type(a.image, a.types, tys[n - 1]));
        law_known_types_are_lowered(a.image, a.types, tys[n - 1]);
        law_lowering_keeps_types(a.image, a.types, tys[n - 1]);
        let k = j.declare_locals(tys, n).unwrap();
        lemma_types_grow_transitive(j.types, a.types, k.types);
    }
}

proof fn lemma_params_can_be_declared(
    j: Jit,
    function: FunctionRef,
    shift: nat,
    tys: Seq<Type>,
    n: nat,
)
    requires
        n <= tys.len(),
        forall|i: int| 0 <= i < tys.len() ==> has_type(j.image, j.types, #[trigger] tys[i]),
    ensures
        j.declare_params(function, shift, tys, n) matches Some(k) && k.image == j.image
            && types_grow(j.types, k.types),
    decreases n,
{
    if n > 0 {
        lemma_params_can_be_declared(j, function, shift, tys, (n - 1) as nat);
        let a = j.declare_params(function, shift, tys, (n - 1) as nat).unwrap();
        assert(has_type(j.image, j.types, tys[n - 1]));
        assert(has_type(a.image, a.types, tys[n - 1]));
        law_known_types_are_lowered(a.image, a.types, tys[n - 1]);
        law_lowering_keeps_types(a.image, a.types, tys[n - 1]);
        let k = j.declare_params(function, shift, tys, n).unwrap();
        lemma_types_grow_transitive(j.types, a.types, k.types);
    }
}

} // verus!
