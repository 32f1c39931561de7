//! Every part of compiling only adds to the state, and keeps it sound.
use vstd::prelude::*;

use crate::exec::instruction::Instruction;
use crate::exec::jit::cfg::{Block, Exit, basic_blocks};
use crate::exec::jit::model::{
    Emitted, Receiver, below, branch_predicate, default_return, find_block, lemma_mark_generated,
    mark_generated, top_vals, ungenerated,
};
use crate::exec::jit::module::{
    BinaryOp, BlockRef, FunctionRef, Incoming, Op, Predicate, ValueRef,
};
use crate::exec::jit::sound::{
    lemma_add_incoming, lemma_add_string, lemma_alloca, lemma_append, lemma_append_block,
    lemma_emit, lemma_grows_keeps, lemma_grows_reflexive, lemma_grows_transitive,
    lemma_new_callee, lemma_same_module, lemma_values_stay,
};
use crate::exec::jit::state::{
    BasicBlockInfo, Jit, PhiSpec, TypedValue, lemma_block_recorded,
};
use crate::exec::jit::types::{TypesSpec, types_grow};
use crate::exec::jit::types_laws::{
    law_lowering_keeps_types, lemma_lower_all_grows, lemma_lower_class_grows,
};
use crate::exec::text::utf16_lossy;
use crate::metadata::image::{ExternalCall, MethodDefTable, Table};
use crate::metadata::method::MethodBody;
use crate::metadata::signature::{ElementType, Type};

verus! {

/// Whether a part of a block, if it can be compiled, only adds to the state.
pub open spec fn only_adds(j: Jit, done: Emitted) -> bool {
    done matches Some((k, stack)) ==> k.steady(stack) && j.grows_to(k)
}

/// Where module and variables are the same, nothing comes to refer to what is
/// not there.
pub proof fn lemma_closed_up_same(j: Jit, later: Jit)
    requires
        j.closed_up(),
        later.module == j.module,
        later.arguments == j.arguments,
        later.locals == j.locals,
        later.phi_stack == j.phi_stack,
        later.builtins == j.builtins,
        later.generated == j.generated,
    ensures
        later.closed_up(),
{
    lemma_phis_same(j, later);
}

proof fn lemma_phis_same(j: Jit, later: Jit)
    requires
        j.closed_up(),
        later.module == j.module,
        later.phi_stack == j.phi_stack,
    ensures
        forall|pc: usize| #[trigger] later.phi_stack.contains_key(pc) ==> later.has_phis(pc),
{
    assert forall|pc: usize| #[trigger] later.phi_stack.contains_key(pc) implies later.has_phis(
        pc,
    ) by {
        assert(j.has_phis(pc));
        assert forall|i: int| 0 <= i < later.phi_stack[pc].len() implies {
            &&& (#[trigger] later.phi_stack[pc][i]).src_bb < later.module.blocks.len()
            &&& later.has_values(later.phi_stack[pc][i].stack)
        } by {
            assert(j.has_values(j.phi_stack[pc][i].stack));
        }
    }
}

/// More types.
proof fn lemma_types(j: Jit, stack: Seq<TypedValue>, types: TypesSpec)
    requires
        j.steady(stack),
        types_grow(j.types, types),
    ensures
        (Jit { types, ..j }).steady(stack),
        j.grows_to(Jit { types, ..j }),
{
    let later = Jit { types, ..j };
    lemma_closed_up_same(j, later);
    lemma_same_module(j, later, stack);
}

proof fn lemma_lower(j: Jit, stack: Seq<TypedValue>, ty: Type)
    requires
        j.steady(stack),
    ensures
        j.lower(ty) matches Some((k, _)) ==> k.steady(stack) && j.grows_to(k),
{
    law_lowering_keeps_types(j.image, j.types, ty);
    if let Some((k, _)) = j.lower(ty) {
        lemma_types(j, stack, k.types);
    }
}

proof fn lemma_lower_class(j: Jit, stack: Seq<TypedValue>, class: usize)
    requires
        j.steady(stack),
    ensures
        j.lower_class(class) matches Some((k, _)) ==> k.steady(stack) && j.grows_to(k),
{
    lemma_lower_class_grows(j.image, j.types, class);
    if let Some((k, _)) = j.lower_class(class) {
        lemma_types(j, stack, k.types);
    }
}

proof fn lemma_lower_all(j: Jit, stack: Seq<TypedValue>, tys: Seq<Type>)
    requires
        j.steady(stack),
    ensures
        j.lower_all(tys) matches Some((k, _)) ==> k.steady(stack) && j.grows_to(k),
{
    lemma_lower_all_grows(j.image, j.types, tys, tys.len());
    if let Some((k, _)) = j.lower_all(tys) {
        lemma_types(j, stack, k.types);
    }
}

/// Other variables, which refer to what is there.
proof fn lemma_variables(
    j: Jit,
    stack: Seq<TypedValue>,
    arguments: Map<usize, TypedValue>,
    locals: Map<usize, TypedValue>,
)
    requires
        j.steady(stack),
        forall|id: usize| #[trigger]
            arguments.contains_key(id) ==> j.module.has_value(arguments[id].val),
        forall|id: usize| #[trigger]
            locals.contains_key(id) ==> j.module.has_value(locals[id].val),
    ensures
        (Jit { arguments, locals, ..j }).steady(stack),
        j.grows_to(Jit { arguments, locals, ..j }),
{
    let later = Jit { arguments, locals, ..j };
    lemma_phis_same(j, later);
    lemma_same_module(j, later, stack);
}

/// To ask for a local variable only adds to the state.
pub proof fn lemma_get_local(j: Jit, stack: Seq<TypedValue>, id: usize, ty: Option<Type>)
    requires
        j.steady(stack),
    ensures
        j.get_local(id, ty) matches Some((k, val)) ==> k.steady(stack) && j.grows_to(k)
            && k.module.has_value(val),
{
    lemma_grows_reflexive(j);
    if !j.locals.contains_key(id) && ty is Some {
        lemma_lower(j, stack, ty.unwrap());
        if let Some((k, lty)) = j.lower(ty.unwrap()) {
            lemma_alloca(k, stack, lty);
            let (l, val) = k.alloca(lty);
            let locals = l.locals.insert(id, TypedValue { ty: ty.unwrap(), val });
            lemma_variables(l, stack, l.arguments, locals);
            let m = Jit { locals, ..l };
            lemma_grows_transitive(j, k, l);
            lemma_grows_transitive(j, l, m);
        }
    }
}

/// To ask for an argument only adds to the state.
pub proof fn lemma_get_argument(j: Jit, stack: Seq<TypedValue>, id: usize, ty: Option<Type>)
    requires
        j.steady(stack),
    ensures
        j.get_argument(id, ty) matches Some((k, val)) ==> k.steady(stack) && j.grows_to(k)
            && k.module.has_value(val),
{
    lemma_grows_reflexive(j);
    if !j.arguments.contains_key(id) && ty is Some {
        lemma_lower(j, stack, ty.unwrap());
        if let Some((k, lty)) = j.lower(ty.unwrap()) {
            lemma_alloca(k, stack, lty);
            let (l, val) = k.alloca(lty);
            let arguments = l.arguments.insert(id, TypedValue { ty: ty.unwrap(), val });
            lemma_variables(l, stack, arguments, l.locals);
            let m = Jit { arguments, ..l };
            lemma_grows_transitive(j, k, l);
            lemma_grows_transitive(j, l, m);
        }
    }
}

/// A block is recorded and the builder moves, to blocks that are there.
pub proof fn lemma_record_block(
    j: Jit,
    stack: Seq<TypedValue>,
    pc: usize,
    info: BasicBlockInfo,
    pos: BlockRef,
)
    requires
        j.steady(stack),
        info.block() < j.module.blocks.len(),
        pos < j.module.blocks.len(),
    ensures
        ({
            let later = Jit { basic_blocks: j.basic_blocks.insert(pc, info), pos, ..j };
            later.steady(stack) && j.grows_to(later)
        }),
{
    let later = Jit { basic_blocks: j.basic_blocks.insert(pc, info), pos, ..j };
    lemma_block_recorded(j, pc, info, pos);
    lemma_closed_up_same(j, later);
    lemma_same_module(j, later, stack);
}

/// To ask for a block only adds to the state.
pub proof fn lemma_get_basic_block(j: Jit, stack: Seq<TypedValue>, pc: usize)
    requires
        j.steady(stack),
    ensures
        ({
            let (k, info) = j.get_basic_block(pc);
            &&& k.steady(stack)
            &&& j.grows_to(k)
            &&& info.block() < k.module.blocks.len()
            &&& k.basic_blocks.contains_key(pc)
            &&& k.basic_blocks[pc] == info
        }),
{
    if j.basic_blocks.contains_key(pc) {
        lemma_grows_reflexive(j);
    } else {
        lemma_append_block(j, stack);
        let (k, bb) = j.append_block(j.generating.unwrap());
        let info = BasicBlockInfo::Unpositioned(bb);
        lemma_record_block(k, stack, pc, info, k.pos);
        lemma_grows_transitive(j, k, j.get_basic_block(pc).0);
    }
}

proof fn lemma_lower_receiver(j: Jit, stack: Seq<TypedValue>, receiver: Receiver)
    requires
        j.steady(stack),
    ensures
        j.lower_receiver(receiver) matches Some((k, _)) ==> k.steady(stack) && j.grows_to(k),
{
    lemma_grows_reflexive(j);
    if let Receiver::Class(class) = receiver {
        lemma_lower_class(j, stack, class);
    }
}

proof fn lemma_callee(j: Jit, stack: Seq<TypedValue>, rva: u32, receiver: Receiver)
    requires
        j.steady(stack),
        j.image.methods@.contains_key(rva),
    ensures
        j.callee(rva, receiver) matches Some((k, f)) ==> k.steady(stack) && j.grows_to(k) && f
            < k.module.functions.len(),
{
    let method = j.image.methods@[rva];
    if j.generated.contains_key(rva) {
        lemma_grows_reflexive(j);
    } else {
        lemma_lower(j, stack, method.signature.ret);
        if let Some((k, ret)) = j.lower(method.signature.ret) {
            lemma_lower_receiver(k, stack, receiver);
            if let Some((l, first)) = k.lower_receiver(receiver) {
                lemma_lower_all(l, stack, method.signature.params@);
                if let Some((m, rest)) = l.lower_all(method.signature.params@) {
                    lemma_new_callee(m, stack, rva, ret, first + rest);
                    lemma_grows_transitive(j, k, l);
                    lemma_grows_transitive(j, l, m);
                    lemma_grows_transitive(j, m, j.callee(rva, receiver).unwrap().0);
                }
            }
        }
    }
}

/// Arguments taken from the stack refer to what is there.
proof fn lemma_top_vals(j: Jit, stack: Seq<TypedValue>, n: int)
    requires
        j.has_values(stack),
        0 <= n <= stack.len(),
    ensures
        j.has_values(below(stack, n)),
        forall|i: int|
            0 <= i < top_vals(stack, n).len() ==> j.module.has_value(
                #[trigger] top_vals(stack, n)[i],
            ),
{
    assert forall|i: int| 0 <= i < top_vals(stack, n).len() implies j.module.has_value(
        #[trigger] top_vals(stack, n)[i],
    ) by {
        assert(top_vals(stack, n)[i] == stack[stack.len() - n + i].val);
    }
    assert forall|i: int| 0 <= i < below(stack, n).len() implies j.module.has_value(
        (#[trigger] below(stack, n)[i]).val,
    ) by {
        assert(below(stack, n)[i] == stack[i]);
    }
}

proof fn lemma_call_method(
    j: Jit,
    stack: Seq<TypedValue>,
    rva: u32,
    receiver: Receiver,
    args: Seq<ValueRef>,
)
    requires
        j.steady(stack),
        j.image.methods@.contains_key(rva),
        forall|i: int| 0 <= i < args.len() ==> j.module.has_value(#[trigger] args[i]),
    ensures
        only_adds(j, j.call_method(stack, rva, receiver, args)),
{
    lemma_callee(j, stack, rva, receiver);
    if let Some((k, callee)) = j.callee(rva, receiver) {
        lemma_grows_keeps(j, k);
        let op = Op::Call { callee, args };
        assert(k.module.has_operands(op));
        lemma_emit(k, stack, op);
        lemma_grows_transitive(j, k, k.emit(op).0);
    }
}

proof fn lemma_gen_external(j: Jit, stack: Seq<TypedValue>, call: ExternalCall)
    requires
        j.steady(stack),
    ensures
        only_adds(j, j.gen_external(stack, call)),
{
    lemma_grows_reflexive(j);
    if stack.len() > 0 {
        let args = seq![stack.last().val];
        let text = Op::Call { callee: j.builtins["WriteLine(string)"@], args };
        let number = Op::Call { callee: j.builtins["WriteLine(int)"@], args };
        lemma_emit(j, stack, text);
        lemma_emit(j, stack, number);
    }
}

proof fn lemma_gen_instr_call(j: Jit, stack: Seq<TypedValue>, table: usize, entry: usize)
    requires
        j.steady(stack),
    ensures
        only_adds(j, j.gen_instr_call(stack, table, entry)),
{
    match j.image.row_spec(table, entry) {
        Some(Table::MemberRef(mrt)) => {
            if let Ok(call) = j.image.external_call_spec(mrt) {
                lemma_gen_external(j, stack, call);
            }
        },
        Some(Table::MethodDef(mdt)) => {
            if j.image.methods@.contains_key(mdt.rva) {
                let n = j.image.methods@[mdt.rva].signature.params.len() as int;
                if n <= stack.len() {
                    lemma_top_vals(j, stack, n);
                    lemma_call_method(
                        j,
                        below(stack, n),
                        mdt.rva,
                        Receiver::Nothing,
                        top_vals(stack, n),
                    );
                }
            }
        },
        _ => {},
    }
}

proof fn lemma_gen_instr_callvirt(j: Jit, stack: Seq<TypedValue>, table: usize, entry: usize)
    requires
        j.steady(stack),
    ensures
        only_adds(j, j.gen_instr_callvirt(stack, table, entry)),
{
    lemma_grows_reflexive(j);
    if let Some(Table::MethodDef(mdt)) = j.image.row_spec(table, entry) {
        if j.image.methods@.contains_key(mdt.rva) {
            let method = j.image.methods@[mdt.rva];
            let n = method.signature.params.len() + 1;
            if n <= stack.len() {
                lemma_top_vals(j, stack, n);
                lemma_call_method(
                    j,
                    below(stack, n),
                    mdt.rva,
                    Receiver::Class(method.class),
                    top_vals(stack, n),
                );
            }
        }
    }
}

proof fn lemma_new_object(j: Jit, stack: Seq<TypedValue>, mdt: MethodDefTable)
    requires
        j.steady(stack),
        j.image.methods@.contains_key(mdt.rva),
    ensures
        only_adds(j, j.new_object(stack, mdt)),
{
    let method = j.image.methods@[mdt.rva];
    let n = method.signature.params.len() as int;
    lemma_lower_class(j, stack, method.class);
    if let Some((k, lty)) = j.lower_class(method.class) {
        if n <= stack.len() {
            let alloc = Op::Call {
                callee: k.builtins["memory_alloc"@],
                args: seq![ValueRef::SizeOf(lty)],
            };
            lemma_emit(k, stack, alloc);
            let (l, memory) = k.emit(alloc);
            let cast = Op::<Seq<ValueRef>>::Cast { val: memory, ty: lty };
            lemma_emit(l, stack, cast);
            let (m, obj) = l.emit(cast);
            lemma_grows_transitive(j, k, l);
            lemma_grows_transitive(j, l, m);
            lemma_callee(m, stack, mdt.rva, Receiver::Lowered(lty));
            if let Some((o, callee)) = m.callee(mdt.rva, Receiver::Lowered(lty)) {
                lemma_grows_keeps(m, o);
                lemma_top_vals(o, stack, n);
                let args = seq![obj] + top_vals(stack, n);
                let call = Op::Call { callee, args };
                assert forall|i: int| 0 <= i < args.len() implies o.module.has_value(
                    #[trigger] args[i],
                ) by {
                    if i > 0 {
                        assert(args[i] == top_vals(stack, n)[i - 1]);
                    }
                }
                lemma_emit(o, stack, call);
                let (p, _) = o.emit(call);
                lemma_grows_transitive(j, m, o);
                lemma_grows_transitive(j, o, p);
                lemma_grows_keeps(o, p);
                lemma_top_vals(p, stack, n);
            }
        }
    }
}

proof fn lemma_gen_instr_newobj(j: Jit, stack: Seq<TypedValue>, table: usize, entry: usize)
    requires
        j.steady(stack),
    ensures
        only_adds(j, j.gen_instr_newobj(stack, table, entry)),
{
    lemma_grows_reflexive(j);
    if let Some(Table::MethodDef(mdt)) = j.image.row_spec(table, entry) {
        if j.image.methods@.contains_key(mdt.rva) {
            lemma_new_object(j, stack, mdt);
        }
    }
}

proof fn lemma_gen_instr_stfld(j: Jit, stack: Seq<TypedValue>, table: usize, entry: usize)
    requires
        j.steady(stack),
    ensures
        only_adds(j, j.gen_instr_stfld(stack, table, entry)),
{
    if stack.len() >= 2 {
        let val = stack[stack.len() - 1];
        let obj = stack[stack.len() - 2];
        if let Some((i, _)) = j.field_of(obj, table, entry) {
            let field = Op::<Seq<ValueRef>>::Field { obj: obj.val, index: i as usize };
            lemma_emit(j, stack, field);
            let (k, ptr) = j.emit(field);
            let store = Op::<Seq<ValueRef>>::Store { val: val.val, ptr };
            lemma_emit(k, stack, store);
            lemma_grows_transitive(j, k, k.emit(store).0);
        }
    }
}

proof fn lemma_gen_instr_ldfld(j: Jit, stack: Seq<TypedValue>, table: usize, entry: usize)
    requires
        j.steady(stack),
    ensures
        only_adds(j, j.gen_instr_ldfld(stack, table, entry)),
{
    if stack.len() >= 1 {
        let obj = stack.last();
        if let Some((i, _)) = j.field_of(obj, table, entry) {
            let field = Op::<Seq<ValueRef>>::Field { obj: obj.val, index: i as usize };
            lemma_emit(j, stack, field);
            let (k, ptr) = j.emit(field);
            let load = Op::<Seq<ValueRef>>::Load { ptr };
            lemma_emit(k, stack, load);
            lemma_grows_transitive(j, k, k.emit(load).0);
        }
    }
}

proof fn lemma_gen_ldstr(j: Jit, stack: Seq<TypedValue>, us_offset: u32)
    requires
        j.steady(stack),
    ensures
        only_adds(j, j.gen_ldstr(stack, us_offset)),
{
    if j.image.user_strings@.contains_key(us_offset) {
        lemma_add_string(j, stack, utf16_lossy(j.image.user_strings@[us_offset]@));
    }
}

proof fn lemma_gen_simple(j: Jit, stack: Seq<TypedValue>, id: usize, op: BinaryOp)
    requires
        j.steady(stack),
    ensures
        only_adds(j, j.gen_ldloc(stack, id)),
        only_adds(j, j.gen_stloc(stack, id)),
        only_adds(j, j.gen_ldarg(stack, id)),
        only_adds(j, j.gen_binary(stack, op)),
{
    if j.locals.contains_key(id) {
        lemma_emit(j, stack, Op::Load { ptr: j.locals[id].val });
        if stack.len() > 0 {
            lemma_emit(j, stack, Op::Store { val: stack.last().val, ptr: j.locals[id].val });
        }
    }
    if j.arguments.contains_key(id) {
        lemma_emit(j, stack, Op::Load { ptr: j.arguments[id].val });
    }
    if stack.len() >= 2 {
        let lhs = stack[stack.len() - 2].val;
        let rhs = stack[stack.len() - 1].val;
        lemma_emit(j, stack, Op::Binary { op, lhs, rhs });
    }
}

proof fn lemma_gen_ret(j: Jit, stack: Seq<TypedValue>)
    requires
        j.steady(stack),
    ensures
        only_adds(j, j.gen_ret(stack)),
{
    lemma_emit(j, stack, Op::RetVoid);
    if stack.len() > 0 {
        lemma_emit(j, stack, Op::Ret { val: stack.last().val });
    }
}

proof fn lemma_gen_cond_br(
    j: Jit,
    stack: Seq<TypedValue>,
    cond: Op<Seq<ValueRef>>,
    exit: Exit,
)
    requires
        j.steady(stack),
        j.module.has_operands(cond),
        !(cond is Alloca),
    ensures
        j.gen_cond_br(cond, exit) matches Some(k) ==> k.steady(stack) && j.grows_to(k),
{
    if let Exit::Conditional { destinations } = exit {
        if destinations.len() >= 2 {
            lemma_emit(j, stack, cond);
            let (k, val) = j.emit(cond);
            lemma_get_basic_block(k, stack, destinations[0]);
            let (l, first) = k.get_basic_block(destinations[0]);
            lemma_get_basic_block(l, stack, destinations[1]);
            let (m, other) = l.get_basic_block(destinations[1]);
            lemma_grows_keeps(k, l);
            lemma_grows_keeps(l, m);
            let br = Op::<Seq<ValueRef>>::CondBr {
                cond: val,
                if_true: first.block(),
                if_false: other.block(),
            };
            lemma_emit(m, stack, br);
            lemma_grows_transitive(j, k, l);
            lemma_grows_transitive(j, l, m);
            lemma_grows_transitive(j, m, m.emit(br).0);
        }
    }
}

proof fn lemma_gen_branches(j: Jit, stack: Seq<TypedValue>, pred: Predicate, exit: Exit)
    requires
        j.steady(stack),
    ensures
        only_adds(j, j.gen_branch_on_value(stack, pred, exit)),
        only_adds(j, j.gen_branch_on_values(stack, pred, exit)),
{
    if stack.len() >= 1 {
        lemma_gen_cond_br(j, stack, Op::CompareNull { pred, val: stack.last().val }, exit);
    }
    if stack.len() >= 2 {
        let lhs = stack[stack.len() - 2].val;
        let rhs = stack[stack.len() - 1].val;
        lemma_gen_cond_br(j, stack, Op::Compare { pred, lhs, rhs }, exit);
    }
}

proof fn lemma_gen_jump(j: Jit, stack: Seq<TypedValue>, destination: usize)
    requires
        j.steady(stack),
    ensures
        j.gen_jump(destination).steady(stack),
        j.grows_to(j.gen_jump(destination)),
{
    lemma_get_basic_block(j, stack, destination);
    let (k, info) = j.get_basic_block(destination);
    let br = Op::<Seq<ValueRef>>::Br { dest: info.block() };
    lemma_emit(k, stack, br);
    lemma_grows_transitive(j, k, k.emit(br).0);
}

/// An instruction only adds to the state.
pub proof fn lemma_compile_instr(
    j: Jit,
    stack: Seq<TypedValue>,
    instr: Instruction,
    exit: Exit,
)
    requires
        j.steady(stack),
    ensures
        only_adds(j, j.compile_instr(stack, instr, exit)),
{
    reveal(Jit::compile_instr);
    lemma_grows_reflexive(j);
    match instr {
        Instruction::Ldstr { us_offset } => lemma_gen_ldstr(j, stack, us_offset),
        Instruction::Call { table, entry } => lemma_gen_instr_call(j, stack, table, entry),
        Instruction::CallVirt { table, entry } => lemma_gen_instr_callvirt(j, stack, table, entry),
        Instruction::Newobj { table, entry } => lemma_gen_instr_newobj(j, stack, table, entry),
        Instruction::Ldfld { table, entry } => lemma_gen_instr_ldfld(j, stack, table, entry),
        Instruction::Stfld { table, entry } => lemma_gen_instr_stfld(j, stack, table, entry),
        Instruction::Ldloc_0 | Instruction::Stloc_0 | Instruction::Ldarg_0 => lemma_gen_simple(
            j,
            stack,
            0,
            BinaryOp::Add,
        ),
        Instruction::Ldloc_1 | Instruction::Stloc_1 | Instruction::Ldarg_1 => lemma_gen_simple(
            j,
            stack,
            1,
            BinaryOp::Add,
        ),
        Instruction::Add => lemma_gen_simple(j, stack, 0, BinaryOp::Add),
        Instruction::Sub => lemma_gen_simple(j, stack, 0, BinaryOp::Sub),
        Instruction::Mul => lemma_gen_simple(j, stack, 0, BinaryOp::Mul),
        Instruction::Rem => lemma_gen_simple(j, stack, 0, BinaryOp::SRem),
        Instruction::Ret => lemma_gen_ret(j, stack),
        Instruction::Brfalse { .. } => lemma_gen_branches(j, stack, Predicate::Equal, exit),
        Instruction::Brtrue { .. } => lemma_gen_branches(j, stack, Predicate::NotEqual, exit),
        Instruction::Bge { .. }
        | Instruction::Blt { .. }
        | Instruction::Ble { .. }
        | Instruction::Bne_un { .. }
        | Instruction::Bgt { .. } => lemma_gen_branches(j, stack, branch_predicate(instr), exit),
        Instruction::Br { .. } => match exit {
            Exit::Unconditional { destination } => lemma_gen_jump(j, stack, destination),
            Exit::Required { destination } => lemma_gen_jump(j, stack, destination),
            _ => {},
        },
        _ => {},
    }
}

/// The first instructions of a block only add to the state.
pub proof fn lemma_compile_bytecode(j: Jit, stack: Seq<TypedValue>, block: Block, n: nat)
    requires
        j.steady(stack),
    ensures
        only_adds(j, j.compile_bytecode(stack, block, n)),
    decreases n,
{
    lemma_grows_reflexive(j);
    if n > 0 {
        lemma_compile_bytecode(j, stack, block, (n - 1) as nat);
        if let Some((k, part)) = j.compile_bytecode(stack, block, (n - 1) as nat) {
            lemma_compile_instr(k, part, block.code[n - 1], block.exit);
            if let Some((l, _)) = k.compile_instr(part, block.code[n - 1], block.exit) {
                lemma_grows_transitive(j, k, l);
            }
        }
    }
}

proof fn lemma_first_phis(j: Jit, stack: Seq<TypedValue>, phi: PhiSpec, n: nat)
    requires
        j.steady(stack),
        j.has_values(phi.stack),
        phi.src_bb < j.module.blocks.len(),
        n <= phi.stack.len(),
    ensures
        j.first_phis(stack, phi, n).0.steady(j.first_phis(stack, phi, n).1),
        j.grows_to(j.first_phis(stack, phi, n).0),
    decreases n,
{
    lemma_grows_reflexive(j);
    if n > 0 {
        lemma_first_phis(j, stack, phi, (n - 1) as nat);
        let (k, part) = j.first_phis(stack, phi, (n - 1) as nat);
        let come = phi.stack[n - 1];
        lemma_grows_keeps(j, k);
        let op = Op::<Seq<ValueRef>>::Phi { like: come.val };
        lemma_emit(k, part, op);
        let (l, val) = k.emit(op);
        lemma_grows_keeps(k, l);
        let incoming = Incoming { phi: val, val: come.val, block: phi.src_bb };
        lemma_add_incoming(l, part, incoming);
        lemma_grows_transitive(j, k, l);
        lemma_grows_transitive(j, l, j.first_phis(stack, phi, n).0);
    }
}

proof fn lemma_add_phis(j: Jit, stack: Seq<TypedValue>, base: nat, phi: PhiSpec, n: nat)
    requires
        j.steady(stack),
        j.has_values(phi.stack),
        phi.src_bb < j.module.blocks.len(),
        n <= phi.stack.len(),
    ensures
        j.add_phis(stack, base, phi, n) matches Some(k) ==> k.steady(stack) && j.grows_to(k),
    decreases n,
{
    lemma_grows_reflexive(j);
    if n > 0 {
        lemma_add_phis(j, stack, base, phi, (n - 1) as nat);
        if let Some(k) = j.add_phis(stack, base, phi, (n - 1) as nat) {
            if base + n - 1 < stack.len() {
                lemma_grows_keeps(j, k);
                let incoming = Incoming {
                    phi: stack[base + n - 1].val,
                    val: phi.stack[n - 1].val,
                    block: phi.src_bb,
                };
                lemma_add_incoming(k, stack, incoming);
                lemma_grows_transitive(j, k, Jit { module: k.module.add_incoming(incoming), ..k });
            }
        }
    }
}

proof fn lemma_more_phis(
    j: Jit,
    stack: Seq<TypedValue>,
    base: nat,
    phis: Seq<PhiSpec>,
    n: nat,
)
    requires
        j.steady(stack),
        forall|i: int|
            0 <= i < phis.len() ==> j.has_values((#[trigger] phis[i]).stack) && phis[i].src_bb
                < j.module.blocks.len(),
        n <= phis.len(),
    ensures
        j.more_phis(stack, base, phis, n) matches Some(k) ==> k.steady(stack) && j.grows_to(k),
    decreases n,
{
    lemma_grows_reflexive(j);
    if n > 1 {
        lemma_more_phis(j, stack, base, phis, (n - 1) as nat);
        if let Some(k) = j.more_phis(stack, base, phis, (n - 1) as nat) {
            let phi = phis[n - 1];
            lemma_grows_keeps(j, k);
            lemma_values_stay(j, k, phi.stack);
            lemma_add_phis(k, stack, base, phi, phi.stack.len());
            if let Some(l) = k.add_phis(stack, base, phi, phi.stack.len()) {
                lemma_grows_transitive(j, k, l);
            }
        }
    }
}

/// What comes in at a block only adds to the state.
pub proof fn lemma_build_phi_stack(j: Jit, start: usize, stack: Seq<TypedValue>)
    requires
        j.steady(stack),
    ensures
        only_adds(j, j.build_phi_stack(start, stack)),
{
    reveal(Jit::build_phi_stack);
    lemma_grows_reflexive(j);
    if j.phi_stack.contains_key(start) {
        let phis = j.phi_stack[start];
        assert(j.has_phis(start));
        if phis.len() > 0 {
            assert(j.has_values(phis[0].stack));
            lemma_first_phis(j, stack, phis[0], phis[0].stack.len());
            let (k, full) = j.first_phis(stack, phis[0], phis[0].stack.len());
            lemma_grows_keeps(j, k);
            assert forall|i: int| 0 <= i < phis.len() implies k.has_values(
                (#[trigger] phis[i]).stack,
            ) && phis[i].src_bb < k.module.blocks.len() by {
                assert(j.has_values(phis[i].stack));
                lemma_values_stay(j, k, phis[i].stack);
            }
            lemma_more_phis(k, full, stack.len(), phis, phis.len());
            if let Some(l) = k.more_phis(full, stack.len(), phis, phis.len()) {
                lemma_grows_transitive(j, k, l);
            }
        }
    }
}

proof fn lemma_add_phi_stack(
    j: Jit,
    stack: Seq<TypedValue>,
    destination: usize,
    src_bb: BlockRef,
)
    requires
        j.steady(stack),
        src_bb < j.module.blocks.len(),
    ensures
        j.add_phi_stack(destination, src_bb, stack).steady(stack),
        j.grows_to(j.add_phi_stack(destination, src_bb, stack)),
{
    let later = j.add_phi_stack(destination, src_bb, stack);
    assert forall|pc: usize| #[trigger] later.phi_stack.contains_key(pc) implies later.has_phis(
        pc,
    ) by {
        if j.phi_stack.contains_key(pc) {
            assert(j.has_phis(pc));
        }
        assert forall|i: int| 0 <= i < later.phi_stack[pc].len() implies {
            &&& (#[trigger] later.phi_stack[pc][i]).src_bb < later.module.blocks.len()
            &&& later.has_values(later.phi_stack[pc][i].stack)
        } by {
            if j.phi_stack.contains_key(pc) && i < j.phi_stack[pc].len() {
                assert(later.phi_stack[pc][i] == j.phi_stack[pc][i]);
                assert(j.has_values(j.phi_stack[pc][i].stack));
            }
        }
    }
    lemma_same_module(j, later, stack);
}

/// To pass control on only adds to the state.
pub proof fn lemma_required_jump(j: Jit, stack: Seq<TypedValue>, destination: usize)
    requires
        j.steady(stack),
    ensures
        j.required_jump(destination).steady(stack),
        j.grows_to(j.required_jump(destination)),
{
    lemma_grows_reflexive(j);
    if !j.terminated() {
        lemma_get_basic_block(j, stack, destination);
        let (k, info) = j.get_basic_block(destination);
        lemma_record_block(
            k,
            stack,
            destination,
            BasicBlockInfo::Positioned(info.block()),
            k.pos,
        );
        let l = k.set_positioned(destination);
        let br = Op::<Seq<ValueRef>>::Br { dest: info.block() };
        lemma_emit(l, stack, br);
        lemma_grows_transitive(j, k, l);
        lemma_grows_transitive(j, l, l.emit(br).0);
    }
}

/// The instructions of a block only add to the state.
pub proof fn lemma_compile_straight(j: Jit, block: Block, init: Seq<TypedValue>)
    requires
        j.steady(init),
    ensures
        only_adds(j, j.compile_straight(block, init)),
{
    reveal(Jit::compile_straight);
    if j.basic_blocks.contains_key(block.start) {
        let bb = j.basic_blocks[block.start].block();
        lemma_record_block(j, init, block.start, BasicBlockInfo::Positioned(bb), bb);
        let k = j.set_positioned(block.start).position(bb);
        lemma_build_phi_stack(k, block.start, init);
        if let Some((l, stack)) = k.build_phi_stack(block.start, init) {
            lemma_compile_bytecode(l, stack, block, block.code.len());
            lemma_grows_transitive(j, k, l);
            if let Some((m, _)) = l.compile_bytecode(stack, block, block.code.len()) {
                lemma_grows_transitive(j, l, m);
            }
        }
    }
}

/// A block, and what it leads to, only adds to the state.
pub proof fn lemma_compile_block(j: Jit, blocks: Seq<Block>, idx: int, init: Seq<TypedValue>)
    requires
        j.steady(init),
    ensures
        j.compile_block(blocks, idx, init) matches Some((k, _, _)) ==> k.steady(seq![])
            && j.grows_to(k),
    decreases ungenerated(blocks).len(), 0nat,
{
    reveal(Jit::compile_block);
    reveal(Jit::compile_destinations);
    lemma_grows_reflexive(j);
    if 0 <= idx < blocks.len() && !blocks[idx].generated {
        let block = blocks[idx];
        let marked = mark_generated(blocks, idx);
        lemma_mark_generated(blocks, idx);
        lemma_compile_straight(j, block, init);
        if let Some((k, stack)) = j.compile_straight(block, init) {
            lemma_get_basic_block(k, stack, block.start);
            let (l, src) = k.get_basic_block(block.start);
            lemma_grows_transitive(j, k, l);
            match block.exit {
                Exit::Conditional { destinations } => {
                    lemma_compile_destinations(
                        k,
                        marked,
                        destinations,
                        stack,
                        destinations.len(),
                    );
                    if let Some((m, _, _)) = k.compile_destinations(
                        marked,
                        destinations,
                        stack,
                        destinations.len(),
                    ) {
                        lemma_grows_transitive(j, k, m);
                    }
                },
                Exit::Unconditional { destination } => {
                    lemma_add_phi_stack(l, stack, destination, src.block());
                    lemma_grows_transitive(
                        j,
                        l,
                        l.add_phi_stack(destination, src.block(), stack),
                    );
                },
                Exit::Required { destination } => {
                    lemma_required_jump(l, stack, destination);
                    let m = l.required_jump(destination);
                    lemma_grows_keeps(l, m);
                    lemma_add_phi_stack(m, stack, destination, src.block());
                    lemma_grows_transitive(j, l, m);
                    lemma_grows_transitive(
                        j,
                        m,
                        m.add_phi_stack(destination, src.block(), stack),
                    );
                },
                Exit::BodyEnd => {},
            }
        }
    }
}

/// The blocks that a block leads to only add to the state.
pub proof fn lemma_compile_destinations(
    j: Jit,
    blocks: Seq<Block>,
    destinations: Seq<usize>,
    stack: Seq<TypedValue>,
    n: nat,
)
    requires
        j.steady(stack),
    ensures
        j.compile_destinations(blocks, destinations, stack, n) matches Some((k, _, _))
            ==> k.steady(seq![]) && j.grows_to(k),
    decreases ungenerated(blocks).len(), n,
{
    reveal(Jit::compile_block);
    reveal(Jit::compile_destinations);
    lemma_grows_reflexive(j);
    if n > 0 {
        lemma_compile_destinations(j, blocks, destinations, stack, (n - 1) as nat);
        if let Some((k, done, d)) = j.compile_destinations(
            blocks,
            destinations,
            stack,
            (n - 1) as nat,
        ) {
            if let Some(i) = find_block(done, destinations[n - 1]) {
                if ungenerated(done).len() <= ungenerated(blocks).len() {
                    lemma_values_stay(j, k, stack);
                    lemma_compile_block(k, done, i, stack);
                    if let Some((l, _, _)) = k.compile_block(done, i, stack) {
                        lemma_grows_transitive(j, k, l);
                    }
                }
            }
        }
    }
}

/// The blocks of a body only add to the state.
pub proof fn lemma_compile_blocks(j: Jit, blocks: Seq<Block>, n: nat)
    requires
        j.steady(seq![]),
    ensures
        j.compile_blocks(blocks, n) matches Some((k, _)) ==> k.steady(seq![]) && j.grows_to(k),
    decreases n,
{
    lemma_grows_reflexive(j);
    if n > 0 {
        lemma_compile_blocks(j, blocks, (n - 1) as nat);
        if let Some((k, done)) = j.compile_blocks(blocks, (n - 1) as nat) {
            lemma_compile_block(k, done, n - 1, seq![]);
            if let Some((l, _, _)) = k.compile_block(done, n - 1, seq![]) {
                lemma_grows_transitive(j, k, l);
            }
        }
    }
}

/// Local variables only add to the state.
pub proof fn lemma_declare_locals(j: Jit, tys: Seq<Type>, n: nat)
    requires
        j.steady(seq![]),
    ensures
        j.declare_locals(tys, n) matches Some(k) ==> k.steady(seq![]) && j.grows_to(k),
    decreases n,
{
    lemma_grows_reflexive(j);
    if n > 0 {
        lemma_declare_locals(j, tys, (n - 1) as nat);
        if let Some(k) = j.declare_locals(tys, (n - 1) as nat) {
            lemma_get_local(k, seq![], (n - 1) as usize, Some(tys[n - 1]));
            if let Some((l, _)) = k.get_local((n - 1) as usize, Some(tys[n - 1])) {
                lemma_grows_transitive(j, k, l);
            }
        }
    }
}

proof fn lemma_declare_param(j: Jit, function: FunctionRef, id: usize, ty: Type)
    requires
        j.steady(seq![]),
        function < j.module.functions.len(),
    ensures
        j.declare_param(function, id, ty) matches Some(k) ==> k.steady(seq![]) && j.grows_to(k),
{
    lemma_get_argument(j, seq![], id, Some(ty));
    if let Some((k, ptr)) = j.get_argument(id, Some(ty)) {
        lemma_grows_keeps(j, k);
        let store = Op::<Seq<ValueRef>>::Store {
            val: ValueRef::Param { function, index: id },
            ptr,
        };
        lemma_emit(k, seq![], store);
        lemma_grows_transitive(j, k, k.emit(store).0);
    }
}

proof fn lemma_declare_params(
    j: Jit,
    function: FunctionRef,
    shift: nat,
    tys: Seq<Type>,
    n: nat,
)
    requires
        j.steady(seq![]),
        function < j.module.functions.len(),
    ensures
        j.declare_params(function, shift, tys, n) matches Some(k) ==> k.steady(seq![])
            && j.grows_to(k),
    decreases n,
{
    lemma_grows_reflexive(j);
    if n > 0 {
        lemma_declare_params(j, function, shift, tys, (n - 1) as nat);
        if let Some(k) = j.declare_params(function, shift, tys, (n - 1) as nat) {
            lemma_grows_keeps(j, k);
            lemma_declare_param(k, function, (n - 1 + shift) as usize, tys[n - 1]);
            if let Some(l) = k.declare_param(function, (n - 1 + shift) as usize, tys[n - 1]) {
                lemma_grows_transitive(j, k, l);
            }
        }
    }
}

/// The arguments of a method only add to the state.
pub proof fn lemma_declare_arguments(j: Jit, function: FunctionRef, method: MethodBody)
    requires
        j.steady(seq![]),
        function < j.module.functions.len(),
    ensures
        j.declare_arguments(function, method) matches Some(k) ==> k.steady(seq![])
            && j.grows_to(k),
{
    let params = method.signature.params@;
    if method.signature.has_this {
        let this = Type { base: ElementType::Class(method.class) };
        lemma_declare_param(j, function, 0, this);
        if let Some(k) = j.declare_param(function, 0, this) {
            lemma_grows_keeps(j, k);
            lemma_declare_params(k, function, 1, params, params.len());
            if let Some(l) = k.declare_params(function, 1, params, params.len()) {
                lemma_grows_transitive(j, k, l);
            }
        }
    } else {
        lemma_declare_params(j, function, 0, params, params.len());
    }
}

/// Blocks for basic blocks only add to the state.
pub proof fn lemma_append_blocks(j: Jit, function: FunctionRef, blocks: Seq<Block>, n: nat)
    requires
        j.steady(seq![]),
        j.generating == Some(function),
    ensures
        j.append_blocks(function, blocks, n).steady(seq![]),
        j.grows_to(j.append_blocks(function, blocks, n)),
    decreases n,
{
    lemma_grows_reflexive(j);
    if n > 0 {
        lemma_append_blocks(j, function, blocks, (n - 1) as nat);
        let k = j.append_blocks(function, blocks, (n - 1) as nat);
        let start = blocks[n - 1].start;
        lemma_grows_keeps(j, k);
        if start > 0 {
            lemma_append_block(k, seq![]);
            let (l, bb) = k.append_block(function);
            lemma_record_block(l, seq![], start, BasicBlockInfo::Unpositioned(bb), l.pos);
            lemma_grows_transitive(j, k, l);
            lemma_grows_transitive(j, l, j.append_blocks(function, blocks, n));
        }
    }
}

/// The return from the last block only adds to the state.
pub proof fn lemma_close_last(j: Jit, function: FunctionRef, last: Block)
    requires
        j.steady(seq![]),
    ensures
        j.close_last(function, last) matches Some(k) ==> k.steady(seq![]) && j.grows_to(k),
{
    if j.basic_blocks.contains_key(last.start) {
        let info = j.basic_blocks[last.start];
        let k = j.position(info.block());
        lemma_closed_up_same(j, k);
        assert(k.wf());
        lemma_same_module(j, k, seq![]);
        let op = default_return(k.module.functions[function as int].ret);
        lemma_emit(k, seq![], op);
        lemma_grows_transitive(j, k, k.emit(op).0);
    }
}

/// Terminators for blocks only add to the state.
pub proof fn lemma_close_blocks(j: Jit, function: FunctionRef, n: nat)
    requires
        j.steady(seq![]),
        function < j.module.functions.len(),
        n <= j.module.functions[function as int].blocks.len(),
    ensures
        j.close_blocks(function, n).steady(seq![]),
        j.grows_to(j.close_blocks(function, n)),
        j.close_blocks(function, n).module.functions == j.module.functions,
    decreases n,
{
    lemma_grows_reflexive(j);
    if n > 0 {
        lemma_close_blocks(j, function, (n - 1) as nat);
        let k = j.close_blocks(function, (n - 1) as nat);
        let f = k.module.functions[function as int];
        let bb = f.blocks[n - 1];
        assert(k.module.functions[function as int].blocks[n - 1] < k.module.blocks.len());
        lemma_emit(k, seq![], Op::RetVoid);
        lemma_grows_transitive(j, k, k.emit(Op::RetVoid).0);
        lemma_append(k, seq![], bb, default_return(f.ret));
        lemma_grows_transitive(
            j,
            k,
            Jit { module: k.module.append(bb, default_return(f.ret)), ..k },
        );
    }
}

/// The body of a function only adds to the state.
pub proof fn lemma_compile_body(
    j: Jit,
    function: FunctionRef,
    entry: BlockRef,
    method: MethodBody,
)
    requires
        j.steady(seq![]),
        j.generating == Some(function),
        entry < j.module.blocks.len(),
    ensures
        j.compile_body(function, entry, method) matches Some(k) ==> k.steady(seq![])
            && j.grows_to(k),
{
    reveal(Jit::compile_body);
    let blocks = basic_blocks(method.body@);
    let tys = method.locals_ty@;
    lemma_declare_locals(j, tys, tys.len());
    if let Some(k) = j.declare_locals(tys, tys.len()) {
        lemma_grows_keeps(j, k);
        lemma_record_block(k, seq![], 0, BasicBlockInfo::Positioned(entry), k.pos);
        let l = Jit {
            basic_blocks: k.basic_blocks.insert(0, BasicBlockInfo::Positioned(entry)),
            ..k
        };
        lemma_append_blocks(l, function, blocks, blocks.len());
        let m = l.append_blocks(function, blocks, blocks.len());
        lemma_grows_transitive(j, k, l);
        lemma_grows_transitive(j, l, m);
        lemma_compile_blocks(m, blocks, blocks.len());
        if let Some((n, done)) = m.compile_blocks(blocks, blocks.len()) {
            lemma_grows_transitive(j, m, n);
            lemma_close_last(n, function, done.last());
            if let Some(o) = n.close_last(function, done.last()) {
                lemma_grows_transitive(j, n, o);
                lemma_grows_keeps(j, o);
                let count = o.module.functions[function as int].blocks.len();
                lemma_close_blocks(o, function, count);
                lemma_grows_transitive(j, o, o.close_blocks(function, count));
            }
        }
    }
}

} // verus!
