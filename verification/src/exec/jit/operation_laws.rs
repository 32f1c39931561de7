//! What the instructions that are compiled compute.
//!
//! Each law speaks of the code that is built for one instruction and of a frame
//! in which it is executed. The values on the compiler's stack may be of any kind:
//! constants, parameters or results of other instructions.
use vstd::prelude::*;

use crate::exec::instruction::Instruction;
use crate::exec::jit::agreement::{
    Frame, RtValue, exec_inst, exec_insts, next_block, remainder, truth,
};
use crate::exec::jit::cfg::Exit;
use crate::exec::jit::growth::{lemma_compile_instr, lemma_get_basic_block};
use crate::exec::jit::module::{
    FunctionRef, LLVMType, ModuleSpec, Op, Predicate, ValueRef, lemma_terminated_stays,
};
use crate::exec::jit::sound::{begins_with, lemma_grows_keeps, lemma_values_stay};
use crate::exec::jit::state::{Jit, TypedValue};
use crate::exec::text::utf16_lossy;
use crate::metadata::image::{FieldTable, Image, Table};
use crate::metadata::image_laws::{law_first_field_is_found, names};
use crate::metadata::signature::{ElementType, Type};

verus! {

/// Whether the first `n` values of `stack2` are those of `stack`, and have in `g`
/// the values that they have in `f`.
pub open spec fn keeps_below(
    f: Frame,
    g: Frame,
    stack: Seq<TypedValue>,
    stack2: Seq<TypedValue>,
    n: int,
) -> bool {
    &&& 0 <= n <= stack.len()
    &&& n <= stack2.len()
    &&& forall|i: int| 0 <= i < n ==> #[trigger] stack2[i] == stack[i]
    &&& forall|i: int|
        0 <= i < n ==> g.value_of((#[trigger] stack2[i]).val) == f.value_of(stack[i].val)
}

/// Whether nothing but results of instructions has changed from `f` to `g`.
pub open spec fn only_results(f: Frame, g: Frame) -> bool {
    &&& g.vars == f.vars
    &&& g.heap == f.heap
    &&& g.objects == f.objects
    &&& g.params == f.params
    &&& g.out == f.out
}

/// The results of instructions from `n` on do not touch values that were there.
pub proof fn lemma_value_kept(m: ModuleSpec, f: Frame, g: Frame, v: ValueRef)
    requires
        m.has_value(v),
        g.params == f.params,
        forall|id: int|
            0 <= id < m.insts.len() ==> #[trigger] g.regs.contains_key(id)
                == f.regs.contains_key(id),
        forall|id: int| 0 <= id < m.insts.len() ==> #[trigger] g.regs[id] == f.regs[id],
    ensures
        g.value_of(v) == f.value_of(v),
{
    if let ValueRef::Inst(id) = v {
        assert(g.regs.contains_key(id as int) == f.regs.contains_key(id as int));
        assert(g.regs[id as int] == f.regs[id as int]);
    }
}

/// Values that were there keep their meaning.
pub proof fn lemma_below_kept(
    j: Jit,
    f: Frame,
    g: Frame,
    stack: Seq<TypedValue>,
    stack2: Seq<TypedValue>,
    n: int,
)
    requires
        j.has_values(stack),
        0 <= n <= stack.len(),
        n <= stack2.len(),
        forall|i: int| 0 <= i < n ==> #[trigger] stack2[i] == stack[i],
        g.params == f.params,
        forall|id: int|
            0 <= id < j.module.insts.len() ==> #[trigger] g.regs.contains_key(id)
                == f.regs.contains_key(id),
        forall|id: int| 0 <= id < j.module.insts.len() ==> #[trigger] g.regs[id] == f.regs[id],
    ensures
        keeps_below(f, g, stack, stack2, n),
{
    assert forall|i: int| 0 <= i < n implies g.value_of((#[trigger] stack2[i]).val) == f.value_of(
        stack[i].val,
    ) by {
        assert(j.module.has_value(stack[i].val));
        lemma_value_kept(j.module, f, g, stack[i].val);
    }
}

/// The number that an instruction puts on the stack.
pub open spec fn constant_of(instr: Instruction) -> Option<i32> {
    match instr {
        Instruction::Ldc_I4_0 => Some(0),
        Instruction::Ldc_I4_1 => Some(1),
        Instruction::Ldc_I4_2 => Some(2),
        Instruction::Ldc_I4_3 => Some(3),
        Instruction::Ldc_I4_S { n } => Some(n),
        Instruction::Ldc_I4 { n } => Some(n),
        _ => None,
    }
}

/// A constant goes on top of the stack, as a 32-bit integer. Nothing is built.
pub proof fn law_constant_is_pushed(
    j: Jit,
    stack: Seq<TypedValue>,
    instr: Instruction,
    exit: Exit,
    f: Frame,
)
    requires
        constant_of(instr) is Some,
    ensures
        j.compile_instr(stack, instr, exit) matches Some((k, stack2)) && {
            &&& k == j
            &&& stack2.len() == stack.len() + 1
            &&& keeps_below(f, f, stack, stack2, stack.len() as int)
            &&& f.value_of(stack2[stack.len() as int].val) == Some(
                RtValue::Int(constant_of(instr).unwrap()),
            )
            &&& stack2[stack.len() as int].ty == (Type { base: ElementType::I4 })
        },
{
    reveal(Jit::compile_instr);
}

/// A string literal goes on top of the stack: its text is the last string of the
/// module. The other strings stay, and no instruction is built.
pub proof fn law_literal_is_pushed(
    j: Jit,
    stack: Seq<TypedValue>,
    us_offset: u32,
    exit: Exit,
    f: Frame,
)
    requires
        j.module.strings.len() < usize::MAX,
    ensures
        j.compile_instr(stack, Instruction::Ldstr { us_offset }, exit) is Some
            <==> j.image.user_strings@.contains_key(us_offset),
        j.compile_instr(stack, Instruction::Ldstr { us_offset }, exit) matches Some((k, stack2))
            ==> {
            &&& k.module.insts == j.module.insts
            &&& k.module.blocks == j.module.blocks
            &&& k.module.functions == j.module.functions
            &&& k.module.strings.len() == j.module.strings.len() + 1
            &&& forall|i: int|
                0 <= i < j.module.strings.len() ==> #[trigger] k.module.strings[i]
                    == j.module.strings[i]
            &&& stack2.len() == stack.len() + 1
            &&& keeps_below(f, f, stack, stack2, stack.len() as int)
            &&& f.value_of(stack2[stack.len() as int].val) matches Some(RtValue::Text(i))
            &&& 0 <= i < k.module.strings.len()
            &&& k.module.strings[i] == utf16_lossy(j.image.user_strings@[us_offset]@)
            &&& stack2[stack.len() as int].ty == (Type { base: ElementType::String })
        },
{
    reveal(Jit::compile_instr);
}

/// The topmost value is dropped, if there is one. Nothing is built.
pub proof fn law_pop_drops_topmost(j: Jit, stack: Seq<TypedValue>, exit: Exit, f: Frame)
    ensures
        j.compile_instr(stack, Instruction::Pop, exit) matches Some((k, stack2)) && {
            &&& k == j
            &&& stack2.len() == if stack.len() > 0 {
                stack.len() - 1
            } else {
                0
            }
            &&& keeps_below(f, f, stack, stack2, stack2.len() as int)
        },
{
    reveal(Jit::compile_instr);
}

/// What `instr` makes of the integers `x` and `y`, the topmost one. A remainder
/// needs a division that has a result.
pub open spec fn computes(instr: Instruction, x: i32, y: i32) -> Option<int> {
    match instr {
        Instruction::Add => Some((x + y) as i32 as int),
        Instruction::Sub => Some((x - y) as i32 as int),
        Instruction::Mul => Some((x * y) as i32 as int),
        Instruction::Rem => if y == 0 || (x == i32::MIN && y == -1) {
            None
        } else {
            Some(remainder(x as int, y as int))
        },
        _ => None,
    }
}

/// A remainder is what is left of `x` after taking away a multiple of `y`. It is
/// smaller than `y`, and has the sign of `x`.
pub proof fn law_remainder(x: int, y: int)
    requires
        y != 0,
    ensures
        exists|q: int| #[trigger] (q * y) + remainder(x, y) == x,
        -(if y < 0 {
            -y
        } else {
            y
        }) < remainder(x, y) < (if y < 0 {
            -y
        } else {
            y
        }),
        x >= 0 ==> remainder(x, y) >= 0,
        x <= 0 ==> remainder(x, y) <= 0,
{
    let a = if x < 0 {
        -x
    } else {
        x
    };
    let b = if y < 0 {
        -y
    } else {
        y
    };
    vstd::arithmetic::div_mod::lemma_fundamental_div_mod(a, b);
    vstd::arithmetic::div_mod::lemma_mod_bound(a, b);
    let d = a / b;
    let q = if (x < 0) == (y < 0) {
        d
    } else {
        -d
    };
    assert(b * d + a % b == a);
    assert(q * y + remainder(x, y) == x) by (nonlinear_arith)
        requires
            b * d + a % b == a,
            b == (if y < 0 {
                -y
            } else {
                y
            }),
            a == (if x < 0 {
                -x
            } else {
                x
            }),
            q == (if (x < 0) == (y < 0) {
                d
            } else {
                -d
            }),
            remainder(x, y) == (if x < 0 {
                -(a % b)
            } else {
                a % b
            }),
    ;
}

/// An operation takes the two topmost values, the topmost as its second operand,
/// and puts its result on the stack, with the type of the first operand. The
/// values below stay, and nothing else changes.
pub proof fn law_operation_computes(
    j: Jit,
    stack: Seq<TypedValue>,
    instr: Instruction,
    exit: Exit,
    f: Frame,
    x: i32,
    y: i32,
)
    requires
        j.steady(stack),
        stack.len() >= 2,
        j.module.insts.len() < usize::MAX,
        f.value_of(stack[stack.len() - 2].val) == Some(RtValue::Int(x)),
        f.value_of(stack[stack.len() - 1].val) == Some(RtValue::Int(y)),
        computes(instr, x, y) is Some,
    ensures
        j.compile_instr(stack, instr, exit) matches Some((k, stack2)) && {
            let from = j.module.insts.len() as int;
            let to = k.module.insts.len() as int;
            &&& exec_insts(k.module, k.builtins, f, from, to) matches Some(g)
            &&& stack2.len() == stack.len() - 1
            &&& keeps_below(f, g, stack, stack2, stack.len() - 2)
            &&& g.value_of(stack2[stack.len() - 2].val) == Some(
                RtValue::Int(computes(instr, x, y).unwrap() as i32),
            )
            &&& stack2[stack.len() - 2].ty == stack[stack.len() - 2].ty
            &&& only_results(f, g)
        },
{
    reveal(Jit::compile_instr);
    reveal_with_fuel(exec_insts, 2);
    let (k, stack2) = j.compile_instr(stack, instr, exit).unwrap();
    let from = j.module.insts.len() as int;
    assert(k.module.insts.len() == from + 1);
    let g = exec_inst(k.module, k.builtins, f, from).unwrap();
    lemma_below_kept(j, f, g, stack, stack2, stack.len() - 2);
}

/// The local variable whose value an instruction puts on the stack.
pub open spec fn loads_local(instr: Instruction) -> Option<usize> {
    match instr {
        Instruction::Ldloc_0 => Some(0),
        Instruction::Ldloc_1 => Some(1),
        _ => None,
    }
}

/// The local variable that an instruction assigns.
pub open spec fn stores_local(instr: Instruction) -> Option<usize> {
    match instr {
        Instruction::Stloc_0 => Some(0),
        Instruction::Stloc_1 => Some(1),
        _ => None,
    }
}

/// The argument whose value an instruction puts on the stack.
pub open spec fn loads_argument(instr: Instruction) -> Option<usize> {
    match instr {
        Instruction::Ldarg_0 => Some(0),
        Instruction::Ldarg_1 => Some(1),
        _ => None,
    }
}

/// What a local variable holds goes on top of the stack, with the type of the
/// variable. Nothing else changes.
pub proof fn law_local_is_loaded(
    j: Jit,
    stack: Seq<TypedValue>,
    instr: Instruction,
    exit: Exit,
    f: Frame,
    id: usize,
    a: int,
)
    requires
        j.steady(stack),
        j.module.insts.len() < usize::MAX,
        loads_local(instr) == Some(id),
        j.locals.contains_key(id),
        f.value_of(j.locals[id].val) == Some(RtValue::Variable(a)),
        f.vars.contains_key(a),
    ensures
        j.compile_instr(stack, instr, exit) matches Some((k, stack2)) && {
            let from = j.module.insts.len() as int;
            let to = k.module.insts.len() as int;
            &&& exec_insts(k.module, k.builtins, f, from, to) matches Some(g)
            &&& stack2.len() == stack.len() + 1
            &&& keeps_below(f, g, stack, stack2, stack.len() as int)
            &&& g.value_of(stack2[stack.len() as int].val) == Some(f.vars[a])
            &&& stack2[stack.len() as int].ty == j.locals[id].ty
            &&& k.locals == j.locals
            &&& k.arguments == j.arguments
            &&& only_results(f, g)
        },
{
    reveal(Jit::compile_instr);
    reveal_with_fuel(exec_insts, 2);
    let (k, stack2) = j.compile_instr(stack, instr, exit).unwrap();
    let from = j.module.insts.len() as int;
    assert(k.module.insts.len() == from + 1);
    let g = exec_inst(k.module, k.builtins, f, from).unwrap();
    lemma_below_kept(j, f, g, stack, stack2, stack.len() as int);
}

/// The topmost value leaves the stack and is what the variable holds then. No
/// other variable changes, and nothing else.
pub proof fn law_local_is_stored(
    j: Jit,
    stack: Seq<TypedValue>,
    instr: Instruction,
    exit: Exit,
    f: Frame,
    id: usize,
    a: int,
    v: RtValue,
)
    requires
        j.steady(stack),
        j.module.insts.len() < usize::MAX,
        stack.len() >= 1,
        stores_local(instr) == Some(id),
        j.locals.contains_key(id),
        f.value_of(j.locals[id].val) == Some(RtValue::Variable(a)),
        f.value_of(stack[stack.len() - 1].val) == Some(v),
    ensures
        j.compile_instr(stack, instr, exit) matches Some((k, stack2)) && {
            let from = j.module.insts.len() as int;
            let to = k.module.insts.len() as int;
            &&& exec_insts(k.module, k.builtins, f, from, to) matches Some(g)
            &&& stack2.len() == stack.len() - 1
            &&& keeps_below(f, g, stack, stack2, stack.len() - 1)
            &&& g.value_of(k.locals[id].val) == Some(RtValue::Variable(a))
            &&& g.vars.contains_key(a) && g.vars[a] == v
            &&& forall|b: int|
                b != a ==> #[trigger] g.vars.contains_key(b) == f.vars.contains_key(b)
            &&& forall|b: int| b != a ==> #[trigger] g.vars[b] == f.vars[b]
            &&& k.locals == j.locals
            &&& k.arguments == j.arguments
            &&& only_results(f, Frame { vars: f.vars, ..g })
        },
{
    reveal(Jit::compile_instr);
    reveal_with_fuel(exec_insts, 2);
    let (k, stack2) = j.compile_instr(stack, instr, exit).unwrap();
    let from = j.module.insts.len() as int;
    assert(k.module.insts.len() == from + 1);
    let g = exec_inst(k.module, k.builtins, f, from).unwrap();
    lemma_below_kept(j, f, g, stack, stack2, stack.len() - 1);
}

/// What an argument holds goes on top of the stack. Nothing else changes. It gets
/// the type of the first argument.
pub proof fn law_argument_is_loaded(
    j: Jit,
    stack: Seq<TypedValue>,
    instr: Instruction,
    exit: Exit,
    f: Frame,
    id: usize,
    a: int,
)
    requires
        j.steady(stack),
        j.module.insts.len() < usize::MAX,
        loads_argument(instr) == Some(id),
        j.arguments.contains_key(0),
        j.arguments.contains_key(id),
        f.value_of(j.arguments[id].val) == Some(RtValue::Variable(a)),
        f.vars.contains_key(a),
    ensures
        j.compile_instr(stack, instr, exit) matches Some((k, stack2)) && {
            let from = j.module.insts.len() as int;
            let to = k.module.insts.len() as int;
            &&& exec_insts(k.module, k.builtins, f, from, to) matches Some(g)
            &&& stack2.len() == stack.len() + 1
            &&& keeps_below(f, g, stack, stack2, stack.len() as int)
            &&& g.value_of(stack2[stack.len() as int].val) == Some(f.vars[a])
            &&& stack2[stack.len() as int].ty == j.arguments[0].ty
            &&& k.locals == j.locals
            &&& k.arguments == j.arguments
            &&& only_results(f, g)
        },
{
    reveal(Jit::compile_instr);
    reveal_with_fuel(exec_insts, 2);
    let (k, stack2) = j.compile_instr(stack, instr, exit).unwrap();
    let from = j.module.insts.len() as int;
    assert(k.module.insts.len() == from + 1);
    let g = exec_inst(k.module, k.builtins, f, from).unwrap();
    lemma_below_kept(j, f, g, stack, stack2, stack.len() as int);
}

/// Whether the token of `table` and `entry` names the field at `i` of `class`:
/// the first of its fields with that name.
pub open spec fn names_field(
    image: Image,
    table: usize,
    entry: usize,
    class: usize,
    i: int,
) -> bool {
    exists|row: FieldTable| #[trigger]
        names(image, table, entry, Table::Field(row)) && {
            let name = image.strings@[row.name]@;
            let fields = image.classes[class as int].fields@;
            &&& image.strings@.contains_key(row.name)
            &&& class < image.classes.len()
            &&& 0 <= i < fields.len()
            &&& fields[i].name@ == name
            &&& forall|k: int| 0 <= k < i ==> (#[trigger] fields[k]).name@ != name
        }
}

/// A token names one field of a class.
proof fn lemma_field_of(j: Jit, obj: TypedValue, table: usize, entry: usize, class: usize, i: int)
    requires
        obj.ty.base == ElementType::Class(class),
        names_field(j.image, table, entry, class, i),
    ensures
        j.field_of(obj, table, entry) == Some((i, j.image.classes[class as int].fields[i].ty)),
{
    let row = choose|row: FieldTable| #[trigger] names(j.image, table, entry, Table::Field(row));
    let name = j.image.strings@[row.name]@;
    let info = j.image.classes[class as int];
    assert(j.image.row_spec(table, entry) == Some(Table::Field(row)));
    assert(info.is_field(name, i));
    let c = choose|c: int| info.is_field(name, c);
    assert(c == i) by {
        if c < i {
            assert(info.fields@[c].name@ != name);
        } else if i < c {
            assert(info.fields@[i].name@ != name);
        }
    }
}

/// The assignment of a field: the topmost value, and the object below it, leave
/// the stack. The field that the token names, of that object, holds the value
/// then. Every other field of every object holds what it held, and nothing else
/// changes.
pub proof fn law_field_is_assigned(
    j: Jit,
    stack: Seq<TypedValue>,
    table: usize,
    entry: usize,
    exit: Exit,
    f: Frame,
    class: usize,
    i: int,
    object: int,
    v: RtValue,
)
    requires
        j.steady(stack),
        j.module.insts.len() + 1 < usize::MAX,
        stack.len() >= 2,
        stack[stack.len() - 2].ty.base == ElementType::Class(class),
        names_field(j.image, table, entry, class, i),
        f.value_of(stack[stack.len() - 2].val) == Some(RtValue::Object(object)),
        f.value_of(stack[stack.len() - 1].val) == Some(v),
    ensures
        j.compile_instr(stack, Instruction::Stfld { table, entry }, exit) matches Some((k, stack2))
            && {
            let from = j.module.insts.len() as int;
            let to = k.module.insts.len() as int;
            &&& exec_insts(k.module, k.builtins, f, from, to) matches Some(g)
            &&& stack2.len() == stack.len() - 2
            &&& keeps_below(f, g, stack, stack2, stack.len() - 2)
            &&& g.heap.contains_key((object, i)) && g.heap[(object, i)] == v
            &&& forall|o: int, n: int|
                o != object || n != i ==> #[trigger] g.heap.contains_key((o, n))
                    == f.heap.contains_key((o, n))
            &&& forall|o: int, n: int|
                o != object || n != i ==> #[trigger] g.heap[(o, n)] == f.heap[(o, n)]
            &&& only_results(f, Frame { heap: f.heap, ..g })
        },
{
    reveal(Jit::compile_instr);
    reveal_with_fuel(exec_insts, 3);
    lemma_field_of(j, stack[stack.len() - 2], table, entry, class, i);
    let (k, stack2) = j.compile_instr(stack, Instruction::Stfld { table, entry }, exit).unwrap();
    let from = j.module.insts.len() as int;
    assert(k.module.insts.len() == from + 2);
    assert(k.module.insts[from].op == (Op::<Seq<ValueRef>>::Field {
        obj: stack[stack.len() - 2].val,
        index: i as usize,
    }));
    let a = exec_inst(k.module, k.builtins, f, from).unwrap();
    assert(j.module.has_value(stack[stack.len() - 1].val));
    lemma_value_kept(j.module, f, a, stack[stack.len() - 1].val);
    let g = exec_inst(k.module, k.builtins, a, from + 1).unwrap();
    lemma_below_kept(j, f, g, stack, stack2, stack.len() - 2);
}

/// The value of a field: the object on top of the stack gives way to what the
/// field that the token names holds, with the type of the field. Nothing else
/// changes.
pub proof fn law_field_is_read(
    j: Jit,
    stack: Seq<TypedValue>,
    table: usize,
    entry: usize,
    exit: Exit,
    f: Frame,
    class: usize,
    i: int,
    object: int,
)
    requires
        j.steady(stack),
        j.module.insts.len() + 1 < usize::MAX,
        stack.len() >= 1,
        stack[stack.len() - 1].ty.base == ElementType::Class(class),
        names_field(j.image, table, entry, class, i),
        f.value_of(stack[stack.len() - 1].val) == Some(RtValue::Object(object)),
        f.heap.contains_key((object, i)),
    ensures
        j.compile_instr(stack, Instruction::Ldfld { table, entry }, exit) matches Some((k, stack2))
            && {
            let from = j.module.insts.len() as int;
            let to = k.module.insts.len() as int;
            &&& exec_insts(k.module, k.builtins, f, from, to) matches Some(g)
            &&& stack2.len() == stack.len()
            &&& keeps_below(f, g, stack, stack2, stack.len() - 1)
            &&& g.value_of(stack2[stack.len() - 1].val) == Some(f.heap[(object, i)])
            &&& stack2[stack.len() - 1].ty == j.image.classes[class as int].fields[i].ty
            &&& only_results(f, g)
        },
{
    reveal(Jit::compile_instr);
    reveal_with_fuel(exec_insts, 3);
    lemma_field_of(j, stack[stack.len() - 1], table, entry, class, i);
    let (k, stack2) = j.compile_instr(stack, Instruction::Ldfld { table, entry }, exit).unwrap();
    let from = j.module.insts.len() as int;
    assert(k.module.insts.len() == from + 2);
    assert(k.module.insts[from].op == (Op::<Seq<ValueRef>>::Field {
        obj: stack[stack.len() - 1].val,
        index: i as usize,
    }));
    let a = exec_inst(k.module, k.builtins, f, from).unwrap();
    let g = exec_inst(k.module, k.builtins, a, from + 1).unwrap();
    lemma_below_kept(j, f, g, stack, stack2, stack.len() - 1);
}

/// What has been assigned to a field is what is read from it: of the same object,
/// under whatever token names the field, as long as nothing is assigned between.
pub proof fn law_read_gives_what_was_assigned(
    j: Jit,
    stack: Seq<TypedValue>,
    table: usize,
    entry: usize,
    exit: Exit,
    f: Frame,
    class: usize,
    i: int,
    object: int,
    v: RtValue,
    again: Seq<TypedValue>,
    table2: usize,
    entry2: usize,
)
    requires
        j.steady(stack),
        j.module.insts.len() + 3 < usize::MAX,
        stack.len() >= 2,
        stack[stack.len() - 2].ty.base == ElementType::Class(class),
        names_field(j.image, table, entry, class, i),
        names_field(j.image, table2, entry2, class, i),
        f.value_of(stack[stack.len() - 2].val) == Some(RtValue::Object(object)),
        f.value_of(stack[stack.len() - 1].val) == Some(v),
        j.has_values(again),
        again.len() >= 1,
        again[again.len() - 1].ty.base == ElementType::Class(class),
        f.value_of(again[again.len() - 1].val) == Some(RtValue::Object(object)),
    ensures
        j.compile_instr(stack, Instruction::Stfld { table, entry }, exit) matches Some((k, _)) && {
            let from = j.module.insts.len() as int;
            let mid = k.module.insts.len() as int;
            &&& exec_insts(k.module, k.builtins, f, from, mid) matches Some(g)
            &&& k.compile_instr(
                again,
                Instruction::Ldfld { table: table2, entry: entry2 },
                exit,
            ) matches Some((l, stack2))
            &&& exec_insts(
                l.module,
                l.builtins,
                g,
                mid,
                l.module.insts.len() as int,
            ) matches Some(h)
            &&& stack2.len() == again.len()
            &&& h.value_of(stack2[stack2.len() - 1].val) == Some(v)
        },
{
    law_field_is_assigned(j, stack, table, entry, exit, f, class, i, object, v);
    lemma_compile_instr(j, stack, Instruction::Stfld { table, entry }, exit);
    let (k, stack2) = j.compile_instr(stack, Instruction::Stfld { table, entry }, exit).unwrap();
    lemma_grows_keeps(j, k);
    lemma_stfld_builds(j, stack, table, entry, exit, class, i);
    let from = j.module.insts.len() as int;
    let mid = k.module.insts.len() as int;
    let g = exec_insts(k.module, k.builtins, f, from, mid).unwrap();
    lemma_exec_keeps(k.module, k.builtins, f, from, mid);
    assert(j.module.has_value(again[again.len() - 1].val));
    lemma_value_kept(j.module, f, g, again[again.len() - 1].val);
    lemma_values_stay(j, k, again);
    law_field_is_read(k, again, table2, entry2, exit, g, class, i, object);
}

proof fn lemma_stfld_builds(
    j: Jit,
    stack: Seq<TypedValue>,
    table: usize,
    entry: usize,
    exit: Exit,
    class: usize,
    i: int,
)
    requires
        stack.len() >= 2,
        stack[stack.len() - 2].ty.base == ElementType::Class(class),
        names_field(j.image, table, entry, class, i),
    ensures
        j.compile_instr(stack, Instruction::Stfld { table, entry }, exit) matches Some((k, _))
            && k.module.insts.len() == j.module.insts.len() + 2,
{
    reveal(Jit::compile_instr);
    lemma_field_of(j, stack[stack.len() - 2], table, entry, class, i);
}

/// Instructions change no results but their own.
proof fn lemma_exec_keeps(
    m: ModuleSpec,
    builtins: Map<Seq<char>, FunctionRef>,
    f: Frame,
    from: int,
    to: int,
)
    requires
        exec_insts(m, builtins, f, from, to) is Some,
    ensures
        ({
            let g = exec_insts(m, builtins, f, from, to).unwrap();
            &&& g.params == f.params
            &&& forall|id: int|
                id < from ==> #[trigger] g.regs.contains_key(id) == f.regs.contains_key(id)
            &&& forall|id: int| id < from ==> #[trigger] g.regs[id] == f.regs[id]
        }),
    decreases to - from,
{
    if from < to {
        lemma_exec_keeps(m, builtins, f, from, to - 1);
    }
}

/// Where a branch on two integers leads: its target, and whether it is taken. `y`
/// is the topmost one.
pub open spec fn branch_on_two(instr: Instruction, x: i32, y: i32) -> Option<(usize, bool)> {
    match instr {
        Instruction::Bge { target } => Some((target, x >= y)),
        Instruction::Bgt { target } => Some((target, x > y)),
        Instruction::Ble { target } => Some((target, x <= y)),
        Instruction::Blt { target } => Some((target, x < y)),
        Instruction::Bne_un { target } => Some((target, x != y)),
        _ => None,
    }
}

/// Whether a value counts as true: it is neither zero nor null.
pub open spec fn is_true(v: RtValue) -> Option<bool> {
    match v {
        RtValue::Int(n) => Some(n != 0),
        RtValue::Null => Some(false),
        RtValue::Object(_) | RtValue::Text(_) => Some(true),
        _ => None,
    }
}

/// Where a branch on one value leads: its target, and whether it is taken.
pub open spec fn branch_on_one(instr: Instruction, v: RtValue) -> Option<(usize, bool)> {
    match (instr, is_true(v)) {
        (Instruction::Brtrue { target }, Some(b)) => Some((target, b)),
        (Instruction::Brfalse { target }, Some(b)) => Some((target, !b)),
        _ => None,
    }
}

/// Whether the code that takes `j` to `k` ends in a terminator that, from the frame
/// `f`, leads to the block of the position `d`; the `popped` topmost values leave
/// the stack, and nothing else changes.
pub open spec fn leads_to_position(
    j: Jit,
    stack: Seq<TypedValue>,
    k: Jit,
    stack2: Seq<TypedValue>,
    f: Frame,
    d: usize,
    popped: int,
) -> bool {
    let from = j.module.insts.len() as int;
    let last = k.module.insts.len() - 1;
    &&& from <= last
    &&& exec_insts(k.module, k.builtins, f, from, last) matches Some(g)
    &&& k.basic_blocks.contains_key(d)
    &&& next_block(k.module, g, last) == Some(k.basic_blocks[d].block())
    &&& stack2.len() == stack.len() - popped
    &&& keeps_below(f, g, stack, stack2, stack.len() - popped)
    &&& only_results(f, g)
}

/// What is built for a conditional branch.
proof fn lemma_cond_br_builds(
    j: Jit,
    stack: Seq<TypedValue>,
    cond: Op<Seq<ValueRef>>,
    target: usize,
    next: usize,
)
    requires
        j.steady(stack),
        j.module.has_operands(cond),
        !(cond is Alloca),
        j.gen_cond_br(cond, Exit::Conditional { destinations: seq![target, next] }) matches Some(k)
            && k.module.fits(),
    ensures
        ({
            let k = j.gen_cond_br(
                cond,
                Exit::Conditional { destinations: seq![target, next] },
            ).unwrap();
            let n = j.module.insts.len() as int;
            &&& n < usize::MAX
            &&& k.module.insts.len() == n + 2
            &&& begins_with(k.module.insts, j.module.insts)
            &&& k.module.insts[n].op == cond
            &&& k.basic_blocks.contains_key(target)
            &&& k.basic_blocks.contains_key(next)
            &&& k.module.insts[n + 1].op == (Op::<Seq<ValueRef>>::CondBr {
                cond: ValueRef::Inst(n as usize),
                if_true: k.basic_blocks[target].block(),
                if_false: k.basic_blocks[next].block(),
            })
            &&& k.builtins == j.builtins
        }),
{
    let n = j.module.insts.len() as int;
    let exit = Exit::Conditional { destinations: seq![target, next] };
    let (a, val) = j.emit(cond);
    let (b, first) = a.get_basic_block(target);
    let (c, other) = b.get_basic_block(next);
    assert(a.module.insts == j.module.insts.push(a.module.insts[n]));
    assert(b.module.insts == a.module.insts);
    assert(c.module.insts == a.module.insts);
    assert(c.basic_blocks[target] == first);
    assert(c.basic_blocks[next] == other);
    let k = j.gen_cond_br(cond, exit).unwrap();
    assert(k.basic_blocks == c.basic_blocks);
    assert(k.module.insts == c.module.insts.push(k.module.insts[n + 1]));
}

/// A branch on two values leads to the block of its target, if the comparison
/// holds of the two topmost values, and to the block of the next position
/// otherwise. The two values leave the stack. Nothing else changes.
pub proof fn law_branch_on_two_leads(
    j: Jit,
    stack: Seq<TypedValue>,
    instr: Instruction,
    next: usize,
    f: Frame,
    x: i32,
    y: i32,
)
    requires
        j.steady(stack),
        stack.len() >= 2,
        f.value_of(stack[stack.len() - 2].val) == Some(RtValue::Int(x)),
        f.value_of(stack[stack.len() - 1].val) == Some(RtValue::Int(y)),
        branch_on_two(instr, x, y) is Some,
    ensures
        ({
            let (target, taken) = branch_on_two(instr, x, y).unwrap();
            let exit = Exit::Conditional { destinations: seq![target, next] };
            &&& j.compile_instr(stack, instr, exit) matches Some((k, stack2))
            &&& k.module.fits() ==> leads_to_position(
                j,
                stack,
                k,
                stack2,
                f,
                if taken {
                    target
                } else {
                    next
                },
                2,
            )
        }),
{
    reveal(Jit::compile_instr);
    let (target, taken) = branch_on_two(instr, x, y).unwrap();
    let exit = Exit::Conditional { destinations: seq![target, next] };
    let (k, stack2) = j.compile_instr(stack, instr, exit).unwrap();
    let n = j.module.insts.len() as int;
    if k.module.fits() {
        let pred = match instr {
            Instruction::Bge { .. } => Predicate::SignedGreaterEqual,
            Instruction::Bgt { .. } => Predicate::SignedGreater,
            Instruction::Ble { .. } => Predicate::SignedLessEqual,
            Instruction::Blt { .. } => Predicate::SignedLess,
            _ => Predicate::NotEqual,
        };
        let lhs = stack[stack.len() - 2].val;
        let rhs = stack[stack.len() - 1].val;
        let cond = Op::<Seq<ValueRef>>::Compare { pred, lhs, rhs };
        assert(j.gen_cond_br(cond, exit) == Some(k));
        assert(j.module.has_value(lhs) && j.module.has_value(rhs));
        lemma_cond_br_builds(j, stack, cond, target, next);
        let g = f.set(n, truth(taken));
        reveal_with_fuel(exec_insts, 2);
        assert(exec_inst(k.module, k.builtins, f, n) == Some(g));
        lemma_below_kept(j, f, g, stack, stack2, stack.len() - 2);
    }
}

/// A branch on one value leads to the block of its target, if the topmost value is
/// true for `Brtrue`, or is not for `Brfalse`, and to the block of the next
/// position otherwise. The value leaves the stack. Nothing else changes.
pub proof fn law_branch_on_one_leads(
    j: Jit,
    stack: Seq<TypedValue>,
    instr: Instruction,
    next: usize,
    f: Frame,
    v: RtValue,
)
    requires
        j.steady(stack),
        stack.len() >= 1,
        f.value_of(stack[stack.len() - 1].val) == Some(v),
        branch_on_one(instr, v) is Some,
    ensures
        ({
            let (target, taken) = branch_on_one(instr, v).unwrap();
            let exit = Exit::Conditional { destinations: seq![target, next] };
            &&& j.compile_instr(stack, instr, exit) matches Some((k, stack2))
            &&& k.module.fits() ==> leads_to_position(
                j,
                stack,
                k,
                stack2,
                f,
                if taken {
                    target
                } else {
                    next
                },
                1,
            )
        }),
{
    reveal(Jit::compile_instr);
    let (target, taken) = branch_on_one(instr, v).unwrap();
    let exit = Exit::Conditional { destinations: seq![target, next] };
    let (k, stack2) = j.compile_instr(stack, instr, exit).unwrap();
    let n = j.module.insts.len() as int;
    if k.module.fits() {
        let pred = if instr is Brfalse {
            Predicate::Equal
        } else {
            Predicate::NotEqual
        };
        let val = stack[stack.len() - 1].val;
        let cond = Op::<Seq<ValueRef>>::CompareNull { pred, val };
        assert(j.gen_cond_br(cond, exit) == Some(k));
        assert(j.module.has_value(val));
        lemma_cond_br_builds(j, stack, cond, target, next);
        let g = f.set(n, truth(taken));
        reveal_with_fuel(exec_insts, 2);
        assert(exec_inst(k.module, k.builtins, f, n) == Some(g));
        lemma_below_kept(j, f, g, stack, stack2, stack.len() - 1);
    }
}

/// A return ends the function with the topmost value, which leaves the stack, or
/// with nothing if the function returns nothing.
pub proof fn law_return_gives_topmost(j: Jit, stack: Seq<TypedValue>, exit: Exit, f: FunctionRef)
    requires
        j.generating == Some(f),
    ensures
        ({
            let void = j.module.functions[f as int].ret == LLVMType::Void;
            let n = j.module.insts.len() as int;
            &&& j.compile_instr(stack, Instruction::Ret, exit) is Some <==> void || stack.len()
                >= 1
            &&& j.compile_instr(stack, Instruction::Ret, exit) matches Some((k, stack2)) ==> {
                &&& k.module.insts.len() == n + 1
                &&& begins_with(k.module.insts, j.module.insts)
                &&& if void {
                    k.module.insts[n].op == Op::<Seq<ValueRef>>::RetVoid && stack2 == stack
                } else {
                    &&& k.module.insts[n].op == (Op::<Seq<ValueRef>>::Ret {
                        val: stack[stack.len() - 1].val,
                    })
                    &&& stack2.len() == stack.len() - 1
                    &&& forall|i: int| 0 <= i < stack.len() - 1 ==> #[trigger] stack2[i] == stack[i]
                }
            }
        }),
{
    reveal(Jit::compile_instr);
}

/// An unconditional branch leads to the block of its destination, with the stack
/// as it is. In a block that has its terminator nothing is built.
pub proof fn law_jump_leads_to_destination(
    j: Jit,
    stack: Seq<TypedValue>,
    target: usize,
    exit: Exit,
    destination: usize,
    f: Frame,
)
    requires
        j.steady(stack),
        exit == (Exit::Unconditional { destination }) || exit == (Exit::Required { destination }),
    ensures
        j.compile_instr(stack, Instruction::Br { target }, exit) matches Some((k, stack2)) && {
            let n = j.module.insts.len() as int;
            &&& stack2 == stack
            &&& k.basic_blocks.contains_key(destination)
            &&& begins_with(k.module.insts, j.module.insts)
            &&& if j.terminated() {
                k.module.insts == j.module.insts
            } else {
                &&& k.module.insts.len() == n + 1
                &&& next_block(k.module, f, n) == Some(k.basic_blocks[destination].block())
            }
        },
{
    reveal(Jit::compile_instr);
    let (a, info) = j.get_basic_block(destination);
    lemma_get_basic_block(j, stack, destination);
    assert(a.module.blocks[j.pos as int].insts == j.module.blocks[j.pos as int].insts);
    lemma_terminated_stays(j.module, a.module, j.pos);
}

/// The passage to the block that starts behind leads there. In a block that has
/// its terminator nothing is built.
pub proof fn law_passage_leads_on(j: Jit, stack: Seq<TypedValue>, destination: usize, f: Frame)
    requires
        j.steady(stack),
    ensures
        ({
            let k = j.required_jump(destination);
            let n = j.module.insts.len() as int;
            if j.terminated() {
                k == j
            } else {
                &&& k.module.insts.len() == n + 1
                &&& begins_with(k.module.insts, j.module.insts)
                &&& k.basic_blocks.contains_key(destination)
                &&& next_block(k.module, f, n) == Some(k.basic_blocks[destination].block())
            }
        }),
{
}

/// Whether an instruction has what it needs: enough values on the stack, the
/// variables, rows and literals that it names, and an exit that fits a branch. What
/// [`Instruction::Call`] and the like need beyond that is left open here.
pub open spec fn has_needs(
    j: Jit,
    stack: Seq<TypedValue>,
    instr: Instruction,
    exit: Exit,
) -> bool {
    match instr {
        Instruction::Ldc_I4_0
        | Instruction::Ldc_I4_1
        | Instruction::Ldc_I4_2
        | Instruction::Ldc_I4_3
        | Instruction::Ldc_I4_S { .. }
        | Instruction::Ldc_I4 { .. }
        | Instruction::Pop => true,
        Instruction::Ldstr { us_offset } => j.image.user_strings@.contains_key(us_offset),
        Instruction::Ldloc_0 => j.locals.contains_key(0),
        Instruction::Ldloc_1 => j.locals.contains_key(1),
        Instruction::Stloc_0 => j.locals.contains_key(0) && stack.len() >= 1,
        Instruction::Stloc_1 => j.locals.contains_key(1) && stack.len() >= 1,
        Instruction::Ldarg_0 => j.arguments.contains_key(0),
        Instruction::Ldarg_1 => j.arguments.contains_key(0) && j.arguments.contains_key(1),
        Instruction::Add | Instruction::Sub | Instruction::Mul | Instruction::Rem => stack.len()
            >= 2,
        Instruction::Ldfld { table, entry } => stack.len() >= 1 && exists|class: usize, i: int|
            stack[stack.len() - 1].ty.base == ElementType::Class(class) && #[trigger] names_field(
                j.image,
                table,
                entry,
                class,
                i,
            ),
        Instruction::Stfld { table, entry } => stack.len() >= 2 && exists|class: usize, i: int|
            stack[stack.len() - 2].ty.base == ElementType::Class(class) && #[trigger] names_field(
                j.image,
                table,
                entry,
                class,
                i,
            ),
        Instruction::Ret => j.module.functions[j.generating.unwrap() as int].ret == LLVMType::Void
            || stack.len() >= 1,
        Instruction::Brfalse { .. } | Instruction::Brtrue { .. } => stack.len() >= 1 && (
        exit matches Exit::Conditional { destinations } && destinations.len() >= 2),
        Instruction::Bne_un { .. }
        | Instruction::Bge { .. }
        | Instruction::Bgt { .. }
        | Instruction::Ble { .. }
        | Instruction::Blt { .. } => stack.len() >= 2 && (
        exit matches Exit::Conditional { destinations } && destinations.len() >= 2),
        Instruction::Br { .. } => exit is Unconditional || exit is Required,
        Instruction::Beq { .. } => false,
        Instruction::Call { .. } => true,
        Instruction::CallVirt { .. } => true,
        Instruction::Newobj { .. } => true,
    }
}

/// An instruction is compiled if, and only if, it has what it needs.
pub proof fn law_instruction_compiles(
    j: Jit,
    stack: Seq<TypedValue>,
    instr: Instruction,
    exit: Exit,
)
    ensures
        instr is Call || instr is CallVirt || instr is Newobj || (j.compile_instr(
            stack,
            instr,
            exit,
        ) is Some <==> has_needs(j, stack, instr, exit)),
{
    reveal(Jit::compile_instr);
    match instr {
        Instruction::Ldfld { table, entry } => {
            if stack.len() >= 1 {
                lemma_field_is_named(j, stack[stack.len() - 1], table, entry);
            }
        },
        Instruction::Stfld { table, entry } => {
            if stack.len() >= 2 {
                lemma_field_is_named(j, stack[stack.len() - 2], table, entry);
            }
        },
        _ => {},
    }
}

/// A field is found if, and only if, the token names one.
proof fn lemma_field_is_named(j: Jit, obj: TypedValue, table: usize, entry: usize)
    ensures
        j.field_of(obj, table, entry) is Some <==> exists|class: usize, i: int|
            obj.ty.base == ElementType::Class(class) && #[trigger] names_field(
                j.image,
                table,
                entry,
                class,
                i,
            ),
{
    if exists|class: usize, i: int|
        obj.ty.base == ElementType::Class(class) && #[trigger] names_field(
            j.image,
            table,
            entry,
            class,
            i,
        ) {
        let (class, i): (usize, int) = choose|class: usize, i: int|
            obj.ty.base == ElementType::Class(class) && #[trigger] names_field(
                j.image,
                table,
                entry,
                class,
                i,
            );
        lemma_field_of(j, obj, table, entry, class, i);
    }
    if let Some((i, _)) = j.field_of(obj, table, entry) {
        let row = j.image.row_spec(table, entry).unwrap()->Field_0;
        let class = obj.ty.base->Class_0;
        let name = j.image.strings@[row.name]@;
        let info = j.image.classes[class as int];
        assert(names(j.image, table, entry, Table::Field(row)));
        law_first_field_is_found(info, name, i);
        assert(info.fields@[i] == info.fields[i]);
        assert forall|k: int| 0 <= k < i implies (#[trigger] info.fields@[k]).name@ != name by {
            assert(info.fields[k].name@ != name);
        }
        assert(names_field(j.image, table, entry, class, i));
    }
}

} // verus!
