//! Where instructions are built.
use vstd::prelude::*;

use crate::exec::instruction::Instruction;
use crate::exec::jit::cfg::Exit;
use crate::exec::jit::model::{Receiver, below, branch_predicate, top_vals};
use crate::exec::jit::module::{BinaryOp, Op, Predicate, ValueRef};
use crate::exec::jit::sound::begins_with;
use crate::exec::jit::state::{Jit, TypedValue};
use crate::metadata::image::Table;

verus! {

/// Whether what is built goes, in order, to the end of the block where the builder
/// is, and nowhere else.
#[verifier::opaque]
pub open spec fn built_in_block(j: Jit, k: Jit) -> bool {
    let from = j.module.insts.len() as int;
    let before = j.module.blocks[j.pos as int].insts;
    let after = k.module.blocks[j.pos as int].insts;
    &&& k.pos == j.pos
    &&& begins_with(k.module.insts, j.module.insts)
    &&& j.module.blocks.len() <= k.module.blocks.len()
    &&& after.len() == before.len() + (k.module.insts.len() - from)
    &&& forall|i: int| 0 <= i < before.len() ==> #[trigger] after[i] == before[i]
    &&& forall|i: int|
        before.len() <= i < after.len() ==> #[trigger] after[i] == from + (i - before.len())
    &&& forall|id: int|
        from <= id < k.module.insts.len() ==> (#[trigger] k.module.insts[id]).block == j.pos
    &&& forall|b: int|
        0 <= b < j.module.blocks.len() && b != j.pos ==> #[trigger] k.module.blocks[b]
            == j.module.blocks[b]
    &&& forall|b: int|
        j.module.blocks.len() <= b < k.module.blocks.len() ==> (
        #[trigger] k.module.blocks[b]).insts.len() == 0
}

pub proof fn lemma_built_transitive(a: Jit, b: Jit, c: Jit)
    requires
        a.pos < a.module.blocks.len(),
        built_in_block(a, b),
        built_in_block(b, c),
    ensures
        built_in_block(a, c),
{
    reveal(built_in_block);
    assert forall|i: int| 0 <= i < a.module.insts.len() implies #[trigger] c.module.insts[i]
        == a.module.insts[i] by {
        assert(b.module.insts[i] == a.module.insts[i]);
    }
    assert forall|id: int| a.module.insts.len() <= id < c.module.insts.len() implies (
    #[trigger] c.module.insts[id]).block == a.pos by {
        if id < b.module.insts.len() {
            assert(c.module.insts[id] == b.module.insts[id]);
        }
    }
    let p = a.pos as int;
    assert forall|i: int|
        0 <= i < a.module.blocks[p].insts.len() implies #[trigger] c.module.blocks[p].insts[i]
        == a.module.blocks[p].insts[i] by {
        assert(b.module.blocks[p].insts[i] == a.module.blocks[p].insts[i]);
    }
    assert forall|i: int|
        a.module.blocks[p].insts.len() <= i
            < c.module.blocks[p].insts.len() implies #[trigger] c.module.blocks[p].insts[i]
        == a.module.insts.len() + (i - a.module.blocks[p].insts.len()) by {
        if i < b.module.blocks[p].insts.len() {
            assert(c.module.blocks[p].insts[i] == b.module.blocks[p].insts[i]);
        }
    }
    assert forall|q: int| 0 <= q < a.module.blocks.len() && q != a.pos implies #[trigger] c
        .module.blocks[q] == a.module.blocks[q] by {
        assert(b.module.blocks[q] == a.module.blocks[q]);
    }
    assert forall|q: int| a.module.blocks.len() <= q < c.module.blocks.len() implies (
    #[trigger] c.module.blocks[q]).insts.len() == 0 by {
        if q < b.module.blocks.len() {
            assert(c.module.blocks[q] == b.module.blocks[q]);
        }
    }
}

pub proof fn lemma_emit_builds(j: Jit, op: Op<Seq<ValueRef>>)
    requires
        j.pos < j.module.blocks.len(),
        j.module.insts.len() <= usize::MAX,
    ensures
        built_in_block(j, j.emit(op).0),
{
    reveal(built_in_block);
}

/// Where nothing is built, nothing goes to a block.
pub proof fn lemma_nothing_built(j: Jit, k: Jit)
    requires
        k.module.insts == j.module.insts,
        k.module.blocks == j.module.blocks,
        k.pos == j.pos,
    ensures
        built_in_block(j, k),
{
    reveal(built_in_block);
}

pub proof fn lemma_block_builds(j: Jit, pc: usize)
    requires
        j.pos < j.module.blocks.len(),
    ensures
        built_in_block(j, j.get_basic_block(pc).0),
{
    reveal(built_in_block);
}

proof fn lemma_cond_br_builds_here(j: Jit, cond: Op<Seq<ValueRef>>, exit: Exit)
    requires
        j.pos < j.module.blocks.len(),
        j.gen_cond_br(cond, exit) matches Some(k) && k.module.fits(),
    ensures
        built_in_block(j, j.gen_cond_br(cond, exit).unwrap()),
{
    if let Exit::Conditional { destinations } = exit {
        let k = j.gen_cond_br(cond, exit).unwrap();
        let (a, val) = j.emit(cond);
        lemma_emit_builds(j, cond);
        let (b, first) = a.get_basic_block(destinations[0]);
        lemma_block_builds(a, destinations[0]);
        let (c, other) = b.get_basic_block(destinations[1]);
        lemma_block_builds(b, destinations[1]);
        let br = Op::<Seq<ValueRef>>::CondBr {
            cond: val,
            if_true: first.block(),
            if_false: other.block(),
        };
        lemma_emit_builds(c, br);
        lemma_built_transitive(j, a, b);
        lemma_built_transitive(j, b, c);
        lemma_built_transitive(j, c, k);
    }
}

proof fn lemma_branches_build(j: Jit, stack: Seq<TypedValue>, pred: Predicate, exit: Exit)
    requires
        j.pos < j.module.blocks.len(),
    ensures
        j.gen_branch_on_value(stack, pred, exit) matches Some((k, _)) ==> k.module.fits()
            ==> built_in_block(j, k),
        j.gen_branch_on_values(stack, pred, exit) matches Some((k, _)) ==> k.module.fits()
            ==> built_in_block(j, k),
{
    if let Some((k, _)) = j.gen_branch_on_value(stack, pred, exit) {
        if k.module.fits() {
            lemma_cond_br_builds_here(
                j,
                Op::CompareNull { pred, val: stack.last().val },
                exit,
            );
        }
    }
    if let Some((k, _)) = j.gen_branch_on_values(stack, pred, exit) {
        if k.module.fits() {
            let lhs = stack[stack.len() - 2].val;
            let rhs = stack[stack.len() - 1].val;
            lemma_cond_br_builds_here(j, Op::Compare { pred, lhs, rhs }, exit);
        }
    }
}

proof fn lemma_jump_builds(j: Jit, d: usize)
    requires
        j.pos < j.module.blocks.len(),
        j.gen_jump(d).module.fits(),
    ensures
        built_in_block(j, j.gen_jump(d)),
{
    let (a, info) = j.get_basic_block(d);
    lemma_block_builds(j, d);
    if !a.terminated() {
        lemma_emit_builds(a, Op::Br { dest: info.block() });
        lemma_built_transitive(j, a, j.gen_jump(d));
    }
}

proof fn lemma_fields_build(j: Jit, stack: Seq<TypedValue>, table: usize, entry: usize)
    requires
        j.pos < j.module.blocks.len(),
    ensures
        j.gen_instr_stfld(stack, table, entry) matches Some((k, _)) ==> k.module.fits()
            ==> built_in_block(j, k),
        j.gen_instr_ldfld(stack, table, entry) matches Some((k, _)) ==> k.module.fits()
            ==> built_in_block(j, k),
{
    if let Some((k, _)) = j.gen_instr_stfld(stack, table, entry) {
        if k.module.fits() {
            let val = stack[stack.len() - 1];
            let obj = stack[stack.len() - 2];
            let (i, _) = j.field_of(obj, table, entry).unwrap();
            let field = Op::<Seq<ValueRef>>::Field { obj: obj.val, index: i as usize };
            let (a, ptr) = j.emit(field);
            lemma_emit_builds(j, field);
            lemma_emit_builds(a, Op::Store { val: val.val, ptr });
            lemma_built_transitive(j, a, k);
        }
    }
    if let Some((k, _)) = j.gen_instr_ldfld(stack, table, entry) {
        if k.module.fits() {
            let obj = stack.last();
            let (i, _) = j.field_of(obj, table, entry).unwrap();
            let field = Op::<Seq<ValueRef>>::Field { obj: obj.val, index: i as usize };
            let (a, ptr) = j.emit(field);
            lemma_emit_builds(j, field);
            lemma_emit_builds(a, Op::Load { ptr });
            lemma_built_transitive(j, a, k);
        }
    }
}

proof fn lemma_callee_builds(j: Jit, rva: u32, receiver: Receiver)
    ensures
        j.callee(rva, receiver) matches Some((k, _)) ==> built_in_block(j, k) && k.pos == j.pos
            && k.module.blocks == j.module.blocks && k.module.insts == j.module.insts,
{
    if let Some((k, _)) = j.callee(rva, receiver) {
        lemma_nothing_built(j, k);
    }
}

proof fn lemma_call_method_builds(
    j: Jit,
    stack: Seq<TypedValue>,
    rva: u32,
    receiver: Receiver,
    args: Seq<ValueRef>,
)
    requires
        j.pos < j.module.blocks.len(),
    ensures
        j.call_method(stack, rva, receiver, args) matches Some((k, _)) ==> k.module.fits()
            ==> built_in_block(j, k),
{
    if let Some((k, _)) = j.call_method(stack, rva, receiver, args) {
        if k.module.fits() {
            lemma_callee_builds(j, rva, receiver);
            let (a, callee) = j.callee(rva, receiver).unwrap();
            lemma_emit_builds(a, Op::Call { callee, args });
            lemma_built_transitive(j, a, k);
        }
    }
}

proof fn lemma_calls_build(j: Jit, stack: Seq<TypedValue>, table: usize, entry: usize)
    requires
        j.pos < j.module.blocks.len(),
    ensures
        j.gen_instr_call(stack, table, entry) matches Some((k, _)) ==> k.module.fits()
            ==> built_in_block(j, k),
        j.gen_instr_callvirt(stack, table, entry) matches Some((k, _)) ==> k.module.fits()
            ==> built_in_block(j, k),
{
    lemma_nothing_built(j, j);
    match j.image.row_spec(table, entry) {
        Some(Table::MemberRef(mrt)) => {
            if let Some((k, _)) = j.gen_instr_call(stack, table, entry) {
                if k.module.fits() {
                    let args = seq![stack.last().val];
                    if k.module.insts.len() > j.module.insts.len() {
                        let text = j.builtins["WriteLine(string)"@];
                        let number = j.builtins["WriteLine(int)"@];
                        lemma_emit_builds(j, Op::Call { callee: text, args });
                        lemma_emit_builds(j, Op::Call { callee: number, args });
                    }
                }
            }
        },
        Some(Table::MethodDef(mdt)) => {
            let method = j.image.methods@[mdt.rva];
            let n = method.signature.params.len() as int;
            lemma_call_method_builds(
                j,
                below(stack, n),
                mdt.rva,
                Receiver::Nothing,
                top_vals(stack, n),
            );
            lemma_call_method_builds(
                j,
                below(stack, n + 1),
                mdt.rva,
                Receiver::Class(method.class),
                top_vals(stack, n + 1),
            );
        },
        _ => {},
    }
}

proof fn lemma_simple_build(j: Jit, stack: Seq<TypedValue>, id: usize, op: BinaryOp, us_offset: u32)
    requires
        j.pos < j.module.blocks.len(),
    ensures
        j.gen_ldstr(stack, us_offset) matches Some((k, _)) ==> built_in_block(j, k),
        j.gen_ldloc(stack, id) matches Some((k, _)) ==> k.module.fits() ==> built_in_block(j, k),
        j.gen_stloc(stack, id) matches Some((k, _)) ==> k.module.fits() ==> built_in_block(j, k),
        j.gen_ldarg(stack, id) matches Some((k, _)) ==> k.module.fits() ==> built_in_block(j, k),
        j.gen_binary(stack, op) matches Some((k, _)) ==> k.module.fits() ==> built_in_block(j, k),
        j.gen_ret(stack) matches Some((k, _)) ==> k.module.fits() ==> built_in_block(j, k),
{
    if let Some((k, _)) = j.gen_ldstr(stack, us_offset) {
        lemma_nothing_built(j, k);
    }
    if j.module.insts.len() <= usize::MAX {
        lemma_emit_builds(j, Op::Load { ptr: j.locals[id].val });
        lemma_emit_builds(j, Op::Store { val: stack.last().val, ptr: j.locals[id].val });
        lemma_emit_builds(j, Op::Load { ptr: j.arguments[id].val });
        let lhs = stack[stack.len() - 2].val;
        let rhs = stack[stack.len() - 1].val;
        lemma_emit_builds(j, Op::Binary { op, lhs, rhs });
        lemma_emit_builds(j, Op::RetVoid);
        lemma_emit_builds(j, Op::Ret { val: stack.last().val });
    }
}

/// What is built for an instruction goes, in order, to the end of the block where
/// the builder is. No other block gets instructions.
pub proof fn law_instruction_is_built_in_its_block(
    j: Jit,
    stack: Seq<TypedValue>,
    instr: Instruction,
    exit: Exit,
)
    requires
        j.steady(stack),
        j.compile_instr(stack, instr, exit) matches Some((k, _)) && k.module.fits(),
    ensures
        built_in_block(j, j.compile_instr(stack, instr, exit).unwrap().0),
{
    reveal(Jit::compile_instr);
    lemma_nothing_built(j, j);
    match instr {
        Instruction::Newobj { table, entry } => lemma_new_object_builds(j, stack, table, entry),
        Instruction::Call { table, entry } => lemma_calls_build(j, stack, table, entry),
        Instruction::CallVirt { table, entry } => lemma_calls_build(j, stack, table, entry),
        Instruction::Ldfld { table, entry } => lemma_fields_build(j, stack, table, entry),
        Instruction::Stfld { table, entry } => lemma_fields_build(j, stack, table, entry),
        Instruction::Brfalse { .. } => lemma_branches_build(j, stack, Predicate::Equal, exit),
        Instruction::Brtrue { .. } => lemma_branches_build(j, stack, Predicate::NotEqual, exit),
        Instruction::Bge { .. }
        | Instruction::Blt { .. }
        | Instruction::Ble { .. }
        | Instruction::Bne_un { .. }
        | Instruction::Bgt { .. } => lemma_branches_build(
            j,
            stack,
            branch_predicate(instr),
            exit,
        ),
        Instruction::Br { .. } => match exit {
            Exit::Unconditional { destination } => lemma_jump_builds(j, destination),
            Exit::Required { destination } => lemma_jump_builds(j, destination),
            _ => {},
        },
        Instruction::Ldstr { us_offset } => lemma_simple_build(
            j,
            stack,
            0,
            BinaryOp::Add,
            us_offset,
        ),
        Instruction::Ldloc_1 | Instruction::Stloc_1 | Instruction::Ldarg_1 | Instruction::Sub => {
            lemma_simple_build(j, stack, 1, BinaryOp::Sub, 0)
        },
        Instruction::Mul => lemma_simple_build(j, stack, 0, BinaryOp::Mul, 0),
        Instruction::Rem => lemma_simple_build(j, stack, 0, BinaryOp::SRem, 0),
        _ => lemma_simple_build(j, stack, 0, BinaryOp::Add, 0),
    }
}

proof fn lemma_new_object_builds(j: Jit, stack: Seq<TypedValue>, table: usize, entry: usize)
    requires
        j.steady(stack),
        j.gen_instr_newobj(stack, table, entry) matches Some((k, _)) && k.module.fits(),
    ensures
        built_in_block(j, j.gen_instr_newobj(stack, table, entry).unwrap().0),
{
    lemma_nothing_built(j, j);
    if let Some(Table::MethodDef(mdt)) = j.image.row_spec(table, entry) {
        let (k, _) = j.gen_instr_newobj(stack, table, entry).unwrap();
        let method = j.image.methods@[mdt.rva];
        let (a, lty) = j.lower_class(method.class).unwrap();
        let alloc = Op::Call {
            callee: a.builtins["memory_alloc"@],
            args: seq![ValueRef::SizeOf(lty)],
        };
        let (b, memory) = a.emit(alloc);
        let cast = Op::<Seq<ValueRef>>::Cast { val: memory, ty: lty };
        let (c, obj) = b.emit(cast);
        let (d, callee) = c.callee(mdt.rva, Receiver::Lowered(lty)).unwrap();
        lemma_nothing_built(j, a);
        lemma_emit_builds(a, alloc);
        lemma_emit_builds(b, cast);
        lemma_callee_builds(c, mdt.rva, Receiver::Lowered(lty));
        let n = method.signature.params.len() as int;
        lemma_emit_builds(d, Op::Call { callee, args: seq![obj] + top_vals(stack, n) });
        lemma_built_transitive(j, a, b);
        lemma_built_transitive(j, b, c);
        lemma_built_transitive(j, c, d);
        lemma_built_transitive(j, d, k);
    }
}

} // verus!
