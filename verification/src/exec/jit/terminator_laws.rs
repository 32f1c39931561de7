//! What holds of the ends of blocks.
use vstd::prelude::*;

use crate::exec::instruction::Instruction;
use crate::exec::jit::cfg::{Block, Exit, is_branch};
use crate::exec::jit::compiler_laws::{
    blocks_kept, law_blocks_stay_generated, lemma_destinations_stay_generated,
};
use crate::exec::jit::growth::{
    lemma_build_phi_stack, lemma_compile_block, lemma_compile_bytecode,
    lemma_compile_destinations, lemma_compile_straight, lemma_get_basic_block,
    lemma_record_block, lemma_required_jump,
};
use crate::exec::jit::model::{
    Emitted, Receiver, below, branch_predicate, default_return, find_block, lemma_mark_generated,
    mark_generated, top_vals, ungenerated,
};
use crate::exec::jit::module::{
    BinaryOp, BlockRef, FunctionRef, LLVMType, ModuleSpec, Op, Predicate, ValueRef,
    is_terminator, lemma_append_wf, lemma_folds_stays, lemma_terminated_stays,
};
use crate::exec::jit::sound::{begins_with, lemma_emit, lemma_grows_keeps, lemma_values_stay};
use crate::exec::jit::state::{BasicBlockInfo, Jit, PhiSpec, TypedValue};
use crate::metadata::image::{MethodDefTable, Table};

verus! {

/// An instruction at the end of a block ends it, or leaves it ended if LLVM puts
/// nothing in the block for it. Whether another block has ended stays the same.
pub proof fn lemma_append_terminated(
    m: ModuleSpec,
    bb: BlockRef,
    op: Op<Seq<ValueRef>>,
    b: BlockRef,
)
    requires
        m.wf(),
        bb < m.blocks.len(),
        b < m.blocks.len(),
        m.append(bb, op).fits(),
    ensures
        m.append(bb, op).terminated(b) == (if b == bb {
            is_terminator(op) || m.append(bb, op).folds(m.insts.len() as int) && m.terminated(b)
        } else {
            m.terminated(b)
        }),
{
    let m2 = m.append(bb, op);
    let insts = m.blocks[b as int].insts;
    let insts2 = m2.blocks[b as int].insts;
    if b == bb {
        assert(insts2 == insts.push(m.insts.len() as usize));
        assert(insts2[insts.len() as int] == m.insts.len());
        assert forall|k: int| 0 <= k < insts.len() implies {
            &&& m2.folds(#[trigger] insts2[k] as int) == m.folds(insts[k] as int)
            &&& m2.insts[insts2[k] as int] == m.insts[insts[k] as int]
        } by {
            assert(m.blocks[b as int].insts[k] < m.insts.len());
            lemma_folds_stays(m, m2, insts[k] as int);
        }
        if m.terminated(b) && m2.folds(m.insts.len() as int) {
            let i = choose|i: int|
                0 <= i < insts.len() && is_terminator(m.insts[#[trigger] insts[i] as int].op) && (
                forall|k: int| i < k < insts.len() ==> m.folds(#[trigger] insts[k] as int));
            assert(is_terminator(m2.insts[insts2[i] as int].op));
            assert forall|k: int| i < k < insts2.len() implies m2.folds(
                #[trigger] insts2[k] as int,
            ) by {
                if k < insts.len() {
                    assert(m.folds(insts[k] as int));
                }
            }
        }
        if m2.terminated(b) && !is_terminator(op) {
            let i = choose|i: int|
                0 <= i < insts2.len() && is_terminator(m2.insts[#[trigger] insts2[i] as int].op)
                    && (forall|k: int|
                    i < k < insts2.len() ==> m2.folds(#[trigger] insts2[k] as int));
            assert(i < insts.len());
            assert(is_terminator(m.insts[insts[i] as int].op));
            assert forall|k: int| i < k < insts.len() implies m.folds(
                #[trigger] insts[k] as int,
            ) by {
                assert(m2.folds(insts2[k] as int));
            }
        }
    } else {
        lemma_terminated_stays(m, m2, b);
    }
}

/// A branch ends the block that is being built, and so does the passage to the
/// block that starts behind.
pub proof fn law_branch_ends_block(
    j: Jit,
    stack: Seq<TypedValue>,
    instr: Instruction,
    exit: Exit,
    destination: usize,
)
    requires
        j.steady(stack),
    ensures
        j.compile_instr(stack, instr, exit) matches Some((k, _)) ==> is_branch(instr)
            && k.module.fits() ==> k.pos == j.pos && k.terminated(),
        j.required_jump(destination).module.fits() ==> j.required_jump(destination).pos == j.pos
            && j.required_jump(destination).terminated(),
{
    reveal(Jit::compile_instr);
    if let Some((k, _)) = j.compile_instr(stack, instr, exit) {
        if is_branch(instr) && k.module.fits() {
            match exit {
                Exit::Conditional { destinations } if !(instr is Br) => {
                    let cond = if instr is Brfalse {
                        Op::CompareNull { pred: Predicate::Equal, val: stack.last().val }
                    } else if instr is Brtrue {
                        Op::CompareNull { pred: Predicate::NotEqual, val: stack.last().val }
                    } else {
                        Op::Compare {
                            pred: branch_predicate(instr),
                            lhs: stack[stack.len() - 2].val,
                            rhs: stack[stack.len() - 1].val,
                        }
                    };
                    assert(j.gen_cond_br(cond, exit) == Some(k));
                    lemma_emit(j, stack, cond);
                    let (a, val) = j.emit(cond);
                    lemma_get_basic_block(a, stack, destinations[0]);
                    let (b, first) = a.get_basic_block(destinations[0]);
                    lemma_get_basic_block(b, stack, destinations[1]);
                    let (c, other) = b.get_basic_block(destinations[1]);
                    lemma_append_terminated(
                        c.module,
                        c.pos,
                        Op::CondBr {
                            cond: val,
                            if_true: first.block(),
                            if_false: other.block(),
                        },
                        c.pos,
                    );
                },
                Exit::Unconditional { destination } => {
                    lemma_jump_ends_block(j, stack, destination);
                },
                Exit::Required { destination } => {
                    lemma_jump_ends_block(j, stack, destination);
                },
                _ => {},
            }
        }
    }
    if !j.terminated() && j.required_jump(destination).module.fits() {
        lemma_get_basic_block(j, stack, destination);
        let (k, info) = j.get_basic_block(destination);
        lemma_append_terminated(k.module, k.pos, Op::Br { dest: info.block() }, k.pos);
    }
}

proof fn lemma_jump_ends_block(j: Jit, stack: Seq<TypedValue>, destination: usize)
    requires
        j.steady(stack),
        j.gen_jump(destination).module.fits(),
    ensures
        j.gen_jump(destination).pos == j.pos,
        j.gen_jump(destination).terminated(),
{
    lemma_get_basic_block(j, stack, destination);
    let (k, info) = j.get_basic_block(destination);
    if !k.terminated() {
        lemma_append_terminated(k.module, k.pos, Op::Br { dest: info.block() }, k.pos);
    }
}

/// At the end of compiling a function that returns something, each of its blocks
/// has its terminator: a block without one returns the null value.
pub proof fn law_blocks_are_closed(j: Jit, function: FunctionRef, n: nat, i: int)
    requires
        j.wf(),
        function < j.module.functions.len(),
        j.module.functions[function as int].ret != LLVMType::Void,
        0 <= i < n <= j.module.functions[function as int].blocks.len(),
        j.close_blocks(function, n).module.fits(),
    ensures
        j.close_blocks(function, n).module.functions == j.module.functions,
        j.close_blocks(function, n).module.terminated(
            j.module.functions[function as int].blocks[i],
        ),
    decreases n,
{
    lemma_close_keeps(j, function, (n - 1) as nat);
    lemma_close_keeps(j, function, n);
    let k = j.close_blocks(function, (n - 1) as nat);
    let f = j.module.functions[function as int];
    let bb = f.blocks[n - 1];
    assert(j.module.functions[function as int].blocks[n - 1] < j.module.blocks.len());
    assert(j.module.functions[function as int].blocks[i] < j.module.blocks.len());
    if i < n - 1 {
        law_blocks_are_closed(j, function, (n - 1) as nat, i);
    }
    if !k.module.terminated(bb) {
        lemma_append_terminated(k.module, bb, default_return(f.ret), f.blocks[i]);
    }
}

/// To see to terminators adds no function and no block, and takes no instruction
/// away.
proof fn lemma_close_keeps(j: Jit, function: FunctionRef, n: nat)
    requires
        j.wf(),
        function < j.module.functions.len(),
        j.module.functions[function as int].ret != LLVMType::Void,
        n <= j.module.functions[function as int].blocks.len(),
    ensures
        j.close_blocks(function, n).wf(),
        j.close_blocks(function, n).module.functions == j.module.functions,
        j.close_blocks(function, n).module.blocks.len() == j.module.blocks.len(),
        j.close_blocks(function, n).module.strings == j.module.strings,
        forall|m: nat|
            m <= n ==> (#[trigger] j.close_blocks(function, m)).module.insts.len()
                <= j.close_blocks(function, n).module.insts.len(),
    decreases n,
{
    if n > 0 {
        lemma_close_keeps(j, function, (n - 1) as nat);
        let k = j.close_blocks(function, (n - 1) as nat);
        let f = j.module.functions[function as int];
        let bb = f.blocks[n - 1];
        assert(j.module.functions[function as int].blocks[n - 1] < j.module.blocks.len());
        lemma_append_wf(k.module, bb, default_return(f.ret));
        assert forall|m: nat| m <= n implies (#[trigger] j.close_blocks(
            function,
            m,
        )).module.insts.len() <= j.close_blocks(function, n).module.insts.len() by {
            if m < n {
                assert(m <= n - 1);
            }
        }
    }
}

/// Where all blocks of a function have their terminators, nothing is added.
pub proof fn law_closed_blocks_stay(j: Jit, function: FunctionRef, n: nat)
    requires
        n <= j.module.functions[function as int].blocks.len(),
        forall|i: int|
            0 <= i < n ==> j.module.terminated(
                #[trigger] j.module.functions[function as int].blocks[i],
            ),
    ensures
        j.close_blocks(function, n) == j,
    decreases n,
{
    if n > 0 {
        law_closed_blocks_stay(j, function, (n - 1) as nat);
    }
}

/// Whether compiling has added to no block but the one where the builder is.
pub open spec fn stays_in_block(j: Jit, k: Jit) -> bool {
    &&& k.pos == j.pos
    &&& k.basic_blocks == j.basic_blocks
    &&& k.generating == j.generating
    &&& k.module.blocks.len() == j.module.blocks.len()
    &&& forall|b: int|
        0 <= b < j.module.blocks.len() && b != j.pos ==> #[trigger] k.module.blocks[b]
            == j.module.blocks[b]
    &&& j.module.functions.len() <= k.module.functions.len()
    &&& forall|f: int|
        0 <= f < j.module.functions.len() ==> (#[trigger] k.module.functions[f]).blocks
            == j.module.functions[f].blocks
    &&& begins_with(k.module.insts, j.module.insts)
}

/// Whether there is a block for each position that a block passes control to.
pub open spec fn exit_recorded(j: Jit, exit: Exit) -> bool {
    match exit {
        Exit::Conditional { destinations } => forall|i: int|
            0 <= i < destinations.len() ==> j.basic_blocks.contains_key(
                #[trigger] destinations[i],
            ),
        Exit::Unconditional { destination } => j.basic_blocks.contains_key(destination),
        Exit::Required { destination } => j.basic_blocks.contains_key(destination),
        Exit::BodyEnd => true,
    }
}

proof fn lemma_stays_transitive(a: Jit, b: Jit, c: Jit)
    requires
        stays_in_block(a, b),
        stays_in_block(b, c),
    ensures
        stays_in_block(a, c),
{
    assert forall|i: int| 0 <= i < a.module.blocks.len() && i
        != a.pos implies #[trigger] c.module.blocks[i] == a.module.blocks[i] by {
        assert(b.module.blocks[i] == a.module.blocks[i]);
    }
    assert forall|f: int| 0 <= f < a.module.functions.len() implies (
    #[trigger] c.module.functions[f]).blocks == a.module.functions[f].blocks by {
        assert(b.module.functions[f].blocks == a.module.functions[f].blocks);
    }
    assert forall|i: int| 0 <= i < a.module.insts.len() implies #[trigger] c.module.insts[i]
        == a.module.insts[i] by {
        assert(b.module.insts[i] == a.module.insts[i]);
    }
}

/// Other blocks keep their terminators.
proof fn lemma_others_stay_terminated(j: Jit, k: Jit, b: BlockRef)
    requires
        j.wf(),
        stays_in_block(j, k),
        b < j.module.blocks.len(),
        b != j.pos,
    ensures
        k.module.terminated(b) == j.module.terminated(b),
{
    assert(k.module.blocks[b as int] == j.module.blocks[b as int]);
    lemma_terminated_stays(j.module, k.module, b);
}

proof fn lemma_callee_stays(j: Jit, rva: u32, receiver: Receiver)
    requires
        j.ready(),
    ensures
        j.callee(rva, receiver) matches Some((k, _)) ==> stays_in_block(j, k),
{
}

proof fn lemma_new_object_stays(j: Jit, stack: Seq<TypedValue>, mdt: MethodDefTable)
    requires
        j.ready(),
    ensures
        j.new_object(stack, mdt) matches Some((k, _)) ==> stays_in_block(j, k),
{
    let method = j.image.methods@[mdt.rva];
    if let Some((k, lty)) = j.lower_class(method.class) {
        let alloc = Op::Call {
            callee: k.builtins["memory_alloc"@],
            args: seq![ValueRef::SizeOf(lty)],
        };
        let (l, memory) = k.emit(alloc);
        assert(stays_in_block(j, l));
        let (m, obj) = l.emit(Op::Cast { val: memory, ty: lty });
        assert(stays_in_block(l, m));
        lemma_stays_transitive(j, l, m);
        if let Some((o, callee)) = m.callee(mdt.rva, Receiver::Lowered(lty)) {
            assert(stays_in_block(m, o));
            lemma_stays_transitive(j, m, o);
            if let Some((p, _)) = j.new_object(stack, mdt) {
                assert(stays_in_block(o, p));
                lemma_stays_transitive(j, o, p);
            }
        }
    }
}

proof fn lemma_cond_br_stays(j: Jit, cond: Op<Seq<ValueRef>>, exit: Exit)
    requires
        j.ready(),
        exit_recorded(j, exit),
    ensures
        j.gen_cond_br(cond, exit) matches Some(k) ==> stays_in_block(j, k),
{
    if let Some(k) = j.gen_cond_br(cond, exit) {
        if let Exit::Conditional { destinations } = exit {
            let (a, val) = j.emit(cond);
            assert(stays_in_block(j, a));
            assert(a.basic_blocks.contains_key(destinations[0]));
            assert(a.basic_blocks.contains_key(destinations[1]));
            assert(stays_in_block(a, k));
            lemma_stays_transitive(j, a, k);
        }
    }
}

/// Whether a part of a block, if it can be compiled, adds to no other block.
spec fn stays(j: Jit, done: Emitted) -> bool {
    done matches Some((k, _)) ==> stays_in_block(j, k)
}

proof fn lemma_emit_stays(j: Jit, op: Op<Seq<ValueRef>>)
    requires
        j.pos < j.module.blocks.len(),
    ensures
        stays_in_block(j, j.emit(op).0),
{
}

proof fn lemma_call_method_stays(
    j: Jit,
    stack: Seq<TypedValue>,
    rva: u32,
    receiver: Receiver,
    args: Seq<ValueRef>,
)
    requires
        j.ready(),
    ensures
        stays(j, j.call_method(stack, rva, receiver, args)),
{
    lemma_callee_stays(j, rva, receiver);
    if let Some((a, callee)) = j.callee(rva, receiver) {
        let op = Op::Call { callee, args };
        lemma_emit_stays(a, op);
        lemma_stays_transitive(j, a, a.emit(op).0);
    }
}

proof fn lemma_calls_stay(j: Jit, stack: Seq<TypedValue>, table: usize, entry: usize)
    requires
        j.ready(),
    ensures
        stays(j, j.gen_instr_call(stack, table, entry)),
        stays(j, j.gen_instr_callvirt(stack, table, entry)),
        stays(j, j.gen_instr_newobj(stack, table, entry)),
{
    if let Some(Table::MethodDef(mdt)) = j.image.row_spec(table, entry) {
        let method = j.image.methods@[mdt.rva];
        let n = method.signature.params.len() as int;
        lemma_call_method_stays(
            j,
            below(stack, n),
            mdt.rva,
            Receiver::Nothing,
            top_vals(stack, n),
        );
        lemma_call_method_stays(
            j,
            below(stack, n + 1),
            mdt.rva,
            Receiver::Class(method.class),
            top_vals(stack, n + 1),
        );
        lemma_new_object_stays(j, stack, mdt);
    }
}

proof fn lemma_fields_stay(j: Jit, stack: Seq<TypedValue>, table: usize, entry: usize)
    requires
        j.ready(),
    ensures
        stays(j, j.gen_instr_ldfld(stack, table, entry)),
        stays(j, j.gen_instr_stfld(stack, table, entry)),
{
    if stack.len() >= 1 {
        if let Some((i, _)) = j.field_of(stack.last(), table, entry) {
            let field = Op::Field { obj: stack.last().val, index: i as usize };
            let (a, ptr) = j.emit(field);
            lemma_emit_stays(j, field);
            lemma_emit_stays(a, Op::Load { ptr });
            lemma_stays_transitive(j, a, a.emit(Op::Load { ptr }).0);
        }
    }
    if stack.len() >= 2 {
        let obj = stack[stack.len() - 2];
        if let Some((i, _)) = j.field_of(obj, table, entry) {
            let field = Op::Field { obj: obj.val, index: i as usize };
            let (a, ptr) = j.emit(field);
            let store = Op::Store { val: stack[stack.len() - 1].val, ptr };
            lemma_emit_stays(j, field);
            lemma_emit_stays(a, store);
            lemma_stays_transitive(j, a, a.emit(store).0);
        }
    }
}

proof fn lemma_simple_stay(j: Jit, stack: Seq<TypedValue>, id: usize, op: BinaryOp)
    requires
        j.ready(),
    ensures
        stays(j, j.gen_ldloc(stack, id)),
        stays(j, j.gen_stloc(stack, id)),
        stays(j, j.gen_ldarg(stack, id)),
        stays(j, j.gen_binary(stack, op)),
        stays(j, j.gen_ret(stack)),
{
    lemma_emit_stays(j, Op::Load { ptr: j.locals[id].val });
    lemma_emit_stays(j, Op::Load { ptr: j.arguments[id].val });
    lemma_emit_stays(j, Op::RetVoid);
    if stack.len() >= 1 {
        lemma_emit_stays(j, Op::Store { val: stack.last().val, ptr: j.locals[id].val });
        lemma_emit_stays(j, Op::Ret { val: stack.last().val });
    }
    if stack.len() >= 2 {
        let lhs = stack[stack.len() - 2].val;
        let rhs = stack[stack.len() - 1].val;
        lemma_emit_stays(j, Op::Binary { op, lhs, rhs });
    }
}

proof fn lemma_branches_stay(j: Jit, stack: Seq<TypedValue>, pred: Predicate, exit: Exit)
    requires
        j.ready(),
        exit_recorded(j, exit),
    ensures
        stays(j, j.gen_branch_on_value(stack, pred, exit)),
        stays(j, j.gen_branch_on_values(stack, pred, exit)),
        stays(j, j.gen_br(stack, exit)),
{
    if stack.len() >= 1 {
        lemma_cond_br_stays(j, Op::CompareNull { pred, val: stack.last().val }, exit);
    }
    if stack.len() >= 2 {
        let lhs = stack[stack.len() - 2].val;
        let rhs = stack[stack.len() - 1].val;
        lemma_cond_br_stays(j, Op::Compare { pred, lhs, rhs }, exit);
    }
}

/// An instruction adds to no other block.
proof fn lemma_instr_stays(j: Jit, stack: Seq<TypedValue>, instr: Instruction, exit: Exit)
    requires
        j.ready(),
        exit_recorded(j, exit),
    ensures
        stays(j, j.compile_instr(stack, instr, exit)),
{
    reveal(Jit::compile_instr);
    match instr {
        Instruction::Call { table, entry } => lemma_calls_stay(j, stack, table, entry),
        Instruction::CallVirt { table, entry } => lemma_calls_stay(j, stack, table, entry),
        Instruction::Newobj { table, entry } => lemma_calls_stay(j, stack, table, entry),
        Instruction::Ldfld { table, entry } => lemma_fields_stay(j, stack, table, entry),
        Instruction::Stfld { table, entry } => lemma_fields_stay(j, stack, table, entry),
        Instruction::Ldloc_0
        | Instruction::Stloc_0
        | Instruction::Ldarg_0
        | Instruction::Ret => lemma_simple_stay(j, stack, 0, BinaryOp::Add),
        Instruction::Ldloc_1 | Instruction::Stloc_1 | Instruction::Ldarg_1 => lemma_simple_stay(
            j,
            stack,
            1,
            BinaryOp::Add,
        ),
        Instruction::Add => lemma_simple_stay(j, stack, 0, BinaryOp::Add),
        Instruction::Sub => lemma_simple_stay(j, stack, 0, BinaryOp::Sub),
        Instruction::Mul => lemma_simple_stay(j, stack, 0, BinaryOp::Mul),
        Instruction::Rem => lemma_simple_stay(j, stack, 0, BinaryOp::SRem),
        Instruction::Brfalse { .. } => lemma_branches_stay(j, stack, Predicate::Equal, exit),
        Instruction::Brtrue { .. } => lemma_branches_stay(j, stack, Predicate::NotEqual, exit),
        Instruction::Br { .. }
        | Instruction::Bge { .. }
        | Instruction::Blt { .. }
        | Instruction::Ble { .. }
        | Instruction::Bne_un { .. }
        | Instruction::Bgt { .. } => lemma_branches_stay(j, stack, branch_predicate(instr), exit),
        _ => {},
    }
}

/// The instructions of a block add to no other block.
proof fn lemma_bytecode_stays(j: Jit, stack: Seq<TypedValue>, block: Block, n: nat)
    requires
        j.steady(stack),
        exit_recorded(j, block.exit),
    ensures
        j.compile_bytecode(stack, block, n) matches Some((k, _)) ==> stays_in_block(j, k),
    decreases n,
{
    if n > 0 {
        lemma_bytecode_stays(j, stack, block, (n - 1) as nat);
        if let Some((a, part)) = j.compile_bytecode(stack, block, (n - 1) as nat) {
            lemma_compile_bytecode(j, stack, block, (n - 1) as nat);
            lemma_instr_stays(a, part, block.code[n - 1], block.exit);
            if let Some((k, _)) = a.compile_instr(part, block.code[n - 1], block.exit) {
                lemma_stays_transitive(j, a, k);
            }
        }
    }
}

proof fn lemma_first_phis_stay(j: Jit, stack: Seq<TypedValue>, phi: PhiSpec, n: nat)
    requires
        j.pos < j.module.blocks.len(),
    ensures
        stays_in_block(j, j.first_phis(stack, phi, n).0),
    decreases n,
{
    if n > 0 {
        lemma_first_phis_stay(j, stack, phi, (n - 1) as nat);
        let a = j.first_phis(stack, phi, (n - 1) as nat).0;
        let k = j.first_phis(stack, phi, n).0;
        assert(stays_in_block(a, k));
        lemma_stays_transitive(j, a, k);
    }
}

proof fn lemma_add_phis_stay(j: Jit, stack: Seq<TypedValue>, base: nat, phi: PhiSpec, n: nat)
    ensures
        j.add_phis(stack, base, phi, n) matches Some(k) ==> stays_in_block(j, k),
    decreases n,
{
    if n > 0 {
        lemma_add_phis_stay(j, stack, base, phi, (n - 1) as nat);
        if let Some(a) = j.add_phis(stack, base, phi, (n - 1) as nat) {
            if let Some(k) = j.add_phis(stack, base, phi, n) {
                assert(stays_in_block(a, k));
                lemma_stays_transitive(j, a, k);
            }
        }
    }
}

proof fn lemma_more_phis_stay(
    j: Jit,
    stack: Seq<TypedValue>,
    base: nat,
    phis: Seq<PhiSpec>,
    n: nat,
)
    ensures
        j.more_phis(stack, base, phis, n) matches Some(k) ==> stays_in_block(j, k),
    decreases n,
{
    if n > 1 {
        lemma_more_phis_stay(j, stack, base, phis, (n - 1) as nat);
        if let Some(a) = j.more_phis(stack, base, phis, (n - 1) as nat) {
            lemma_add_phis_stay(a, stack, base, phis[n - 1], phis[n - 1].stack.len());
            if let Some(k) = j.more_phis(stack, base, phis, n) {
                lemma_stays_transitive(j, a, k);
            }
        }
    }
}

proof fn lemma_phi_stack_stays(j: Jit, start: usize, stack: Seq<TypedValue>)
    requires
        j.pos < j.module.blocks.len(),
    ensures
        j.build_phi_stack(start, stack) matches Some((k, _)) ==> stays_in_block(j, k),
{
    reveal(Jit::build_phi_stack);
    if j.phi_stack.contains_key(start) {
        let phis = j.phi_stack[start];
        if phis.len() > 0 {
            lemma_first_phis_stay(j, stack, phis[0], phis[0].stack.len());
            let (a, full) = j.first_phis(stack, phis[0], phis[0].stack.len());
            lemma_more_phis_stay(a, full, stack.len(), phis, phis.len());
            if let Some(k) = a.more_phis(full, stack.len(), phis, phis.len()) {
                lemma_stays_transitive(j, a, k);
            }
        }
    }
}

/// The block of a basic block.
pub open spec fn block_at(j: Jit, b: Block) -> BlockRef {
    j.basic_blocks[b.start].block()
}

/// Whether `bb` is the block of one of the basic blocks.
pub open spec fn is_block_of(j: Jit, blocks: Seq<Block>, bb: BlockRef) -> bool {
    exists|i: int| 0 <= i < blocks.len() && block_at(j, #[trigger] blocks[i]) == bb
}

/// Whether a block that passes control on by a branch ends in one.
pub open spec fn ends_in_branch(b: Block) -> bool {
    match b.exit {
        Exit::Conditional { .. } | Exit::Unconditional { .. } => b.code.len() > 0 && is_branch(
            b.code.last(),
        ),
        _ => true,
    }
}

/// Whether each basic block has a block, and so does each position to which one
/// passes control.
pub open spec fn laid_out(j: Jit, blocks: Seq<Block>) -> bool {
    &&& forall|i: int|
        0 <= i < blocks.len() ==> j.basic_blocks.contains_key((#[trigger] blocks[i]).start)
    &&& forall|i: int| 0 <= i < blocks.len() ==> exit_recorded(j, (#[trigger] blocks[i]).exit)
    &&& forall|i: int| 0 <= i < blocks.len() ==> ends_in_branch(#[trigger] blocks[i])
}

/// Whether basic blocks share a block only if neither ends where the body ends.
pub open spec fn apart(j: Jit, blocks: Seq<Block>) -> bool {
    forall|i: int, k: int|
        0 <= i < blocks.len() && 0 <= k < blocks.len() && i != k && block_at(
            j,
            #[trigger] blocks[i],
        ) == block_at(j, #[trigger] blocks[k]) ==> !(blocks[i].exit is BodyEnd)
}

/// Whether each basic block that has been compiled, and does not end where the
/// body ends, has its terminator.
pub open spec fn ended(j: Jit, blocks: Seq<Block>) -> bool {
    forall|i: int|
        0 <= i < blocks.len() && (#[trigger] blocks[i]).generated && !(blocks[i].exit is BodyEnd)
            ==> j.module.terminated(block_at(j, blocks[i]))
}

/// Whether compiling has added only to the blocks of these basic blocks, and
/// their blocks are the same.
pub open spec fn works_within(j: Jit, k: Jit, blocks: Seq<Block>) -> bool {
    &&& forall|pc: usize| #[trigger]
        j.basic_blocks.contains_key(pc) ==> k.basic_blocks.contains_key(pc)
            && k.basic_blocks[pc].block() == j.basic_blocks[pc].block()
    &&& k.module.blocks.len() == j.module.blocks.len()
    &&& forall|b: int|
        0 <= b < j.module.blocks.len() && !is_block_of(j, blocks, b as usize)
            ==> #[trigger] k.module.blocks[b] == j.module.blocks[b]
    &&& j.module.functions.len() <= k.module.functions.len()
    &&& forall|f: int|
        0 <= f < j.module.functions.len() ==> (#[trigger] k.module.functions[f]).blocks
            == j.module.functions[f].blocks
    &&& begins_with(k.module.insts, j.module.insts)
}

/// Where blocks are the same, the basic blocks stay laid out.
proof fn lemma_layout_stays(
    j: Jit,
    k: Jit,
    blocks: Seq<Block>,
    done: Seq<Block>,
)
    requires
        laid_out(j, blocks),
        works_within(j, k, blocks),
        blocks_kept(blocks, done),
    ensures
        laid_out(k, done),
        apart(j, blocks) ==> apart(k, done),
        forall|i: int|
            0 <= i < blocks.len() ==> block_at(k, #[trigger] done[i]) == block_at(j, blocks[i]),
        forall|bb: BlockRef| #[trigger]
            is_block_of(k, done, bb) == is_block_of(j, blocks, bb),
{
    assert forall|i: int| 0 <= i < blocks.len() implies {
        &&& k.basic_blocks.contains_key((#[trigger] done[i]).start)
        &&& block_at(k, done[i]) == block_at(j, blocks[i])
        &&& exit_recorded(k, done[i].exit)
        &&& ends_in_branch(done[i])
    } by {
        assert(j.basic_blocks.contains_key(blocks[i].start));
        assert(exit_recorded(j, blocks[i].exit));
        assert(ends_in_branch(blocks[i]));
    }
    if apart(j, blocks) {
        assert forall|i: int, n: int|
            0 <= i < done.len() && 0 <= n < done.len() && i != n && block_at(
                k,
                #[trigger] done[i],
            ) == block_at(k, #[trigger] done[n]) implies !(done[i].exit is BodyEnd) by {
            assert(block_at(j, blocks[i]) == block_at(j, blocks[n]));
        }
    }
    assert forall|bb: BlockRef| #[trigger] is_block_of(k, done, bb) == is_block_of(
        j,
        blocks,
        bb,
    ) by {
        if is_block_of(j, blocks, bb) {
            let i = choose|i: int| 0 <= i < blocks.len() && block_at(j, #[trigger] blocks[i]) == bb;
            assert(block_at(k, done[i]) == bb);
        }
        if is_block_of(k, done, bb) {
            let i = choose|i: int| 0 <= i < done.len() && block_at(k, #[trigger] done[i]) == bb;
            assert(block_at(j, blocks[i]) == bb);
        }
    }
}

/// What is within the blocks in two steps is within them.
pub proof fn lemma_within_transitive(
    a: Jit,
    b: Jit,
    c: Jit,
    blocks: Seq<Block>,
    done: Seq<Block>,
)
    requires
        laid_out(a, blocks),
        works_within(a, b, blocks),
        blocks_kept(blocks, done),
        works_within(b, c, done),
    ensures
        works_within(a, c, blocks),
{
    lemma_layout_stays(a, b, blocks, done);
    assert forall|i: int|
        0 <= i < a.module.blocks.len() && !is_block_of(
            a,
            blocks,
            i as usize,
        ) implies #[trigger] c.module.blocks[i] == a.module.blocks[i] by {
        assert(!is_block_of(b, done, i as usize));
        assert(b.module.blocks[i] == a.module.blocks[i]);
    }
    assert forall|f: int| 0 <= f < a.module.functions.len() implies (
    #[trigger] c.module.functions[f]).blocks == a.module.functions[f].blocks by {
        assert(b.module.functions[f].blocks == a.module.functions[f].blocks);
    }
    assert forall|i: int| 0 <= i < a.module.insts.len() implies #[trigger] c.module.insts[i]
        == a.module.insts[i] by {
        assert(b.module.insts[i] == a.module.insts[i]);
    }
}

/// What adds only to the block of a basic block works within the basic blocks.
proof fn lemma_stays_within(
    j: Jit,
    k: Jit,
    blocks: Seq<Block>,
    idx: int,
)
    requires
        stays_in_block(j, k),
        0 <= idx < blocks.len(),
        block_at(j, blocks[idx]) == j.pos,
    ensures
        works_within(j, k, blocks),
{
    assert forall|b: int|
        0 <= b < j.module.blocks.len() && !is_block_of(
            j,
            blocks,
            b as usize,
        ) implies #[trigger] k.module.blocks[b] == j.module.blocks[b] by {
        if b == j.pos {
            assert(block_at(j, blocks[idx]) == b as usize);
        }
    }
}

/// The instructions of a block: they add only to its block, the builder stays
/// there, and a branch at their end is a terminator.
proof fn lemma_straight_ends(
    j: Jit,
    blocks: Seq<Block>,
    idx: int,
    init: Seq<TypedValue>,
)
    requires
        j.steady(init),
        laid_out(j, blocks),
        0 <= idx < blocks.len(),
        j.compile_straight(blocks[idx], init) matches Some((k, _)) && k.module.fits(),
    ensures
        ({
            let (k, stack) = j.compile_straight(blocks[idx], init).unwrap();
            &&& works_within(j, k, blocks)
            &&& k.pos == block_at(j, blocks[idx])
            &&& forall|b: BlockRef|
                b < j.module.blocks.len() && b != k.pos ==> #[trigger] k.module.terminated(b)
                    == j.module.terminated(b)
            &&& blocks[idx].exit is Conditional || blocks[idx].exit is Unconditional
                ==> k.terminated()
        }),
{
    reveal(Jit::compile_straight);
    let block = blocks[idx];
    let bb = block_at(j, block);
    assert(j.basic_blocks.contains_key(block.start));
    let a = j.set_positioned(block.start).position(bb);
    lemma_record_block(j, init, block.start, BasicBlockInfo::Positioned(bb), bb);
    assert(exit_recorded(j, block.exit));
    assert(exit_recorded(a, block.exit));
    lemma_phi_stack_stays(a, block.start, init);
    lemma_build_phi_stack(a, block.start, init);
    let (b, stack) = a.build_phi_stack(block.start, init).unwrap();
    let n = block.code.len();
    assert(exit_recorded(b, block.exit));
    lemma_bytecode_stays(b, stack, block, n);
    lemma_compile_bytecode(b, stack, block, n);
    let (k, _) = b.compile_bytecode(stack, block, n).unwrap();
    lemma_stays_transitive(a, b, k);
    assert(works_within(j, a, blocks));
    lemma_block_at_kept(j, a, blocks, idx);
    lemma_stays_within(a, k, blocks, idx);
    lemma_blocks_kept_reflexive(blocks);
    lemma_within_transitive(j, a, k, blocks, blocks);
    assert forall|c: BlockRef|
        c < j.module.blocks.len() && c != k.pos implies #[trigger] k.module.terminated(c)
        == j.module.terminated(c) by {
        lemma_others_stay_terminated(a, k, c);
    }
    if block.exit is Conditional || block.exit is Unconditional {
        assert(ends_in_branch(block));
        lemma_compile_bytecode(b, stack, block, (n - 1) as nat);
        let (c, part) = b.compile_bytecode(stack, block, (n - 1) as nat).unwrap();
        law_branch_ends_block(c, part, block.code[n - 1], block.exit, 0);
        lemma_bytecode_stays(b, stack, block, (n - 1) as nat);
    }
}

proof fn lemma_block_at_kept(j: Jit, k: Jit, blocks: Seq<Block>, idx: int)
    requires
        works_within(j, k, blocks),
        0 <= idx < blocks.len(),
        j.basic_blocks.contains_key(blocks[idx].start),
    ensures
        block_at(k, blocks[idx]) == block_at(j, blocks[idx]),
{
}

proof fn lemma_blocks_kept_reflexive(blocks: Seq<Block>)
    ensures
        blocks_kept(blocks, blocks),
{
}

/// A block, and what it leads to: each basic block that has been compiled has
/// its terminator, unless it ends where the body ends.
#[verifier::rlimit(50)]
pub proof fn lemma_block_ends(
    j: Jit,
    blocks: Seq<Block>,
    idx: int,
    init: Seq<TypedValue>,
)
    requires
        j.steady(init),
        laid_out(j, blocks),
        j.compile_block(blocks, idx, init) matches Some((k, _, _)) && k.module.fits(),
    ensures
        ({
            let (k, done, _) = j.compile_block(blocks, idx, init).unwrap();
            &&& works_within(j, k, blocks)
            &&& laid_out(k, done)
            &&& apart(j, blocks) && ended(j, blocks) ==> apart(k, done) && ended(k, done)
        }),
    decreases ungenerated(blocks).len(), 0nat,
{
    reveal(Jit::compile_block);
    reveal(Jit::compile_destinations);
    law_blocks_stay_generated(j, blocks, idx, init);
    lemma_compile_block(j, blocks, idx, init);
    let (k, done, _) = j.compile_block(blocks, idx, init).unwrap();
    lemma_grows_keeps(j, k);
    lemma_blocks_kept_reflexive(blocks);
    if blocks[idx].generated {
        assert(works_within(j, j, blocks));
    } else {
        let block = blocks[idx];
        let marked = mark_generated(blocks, idx);
        lemma_mark_generated(blocks, idx);
        lemma_compile_straight(j, block, init);
        let (a, stack) = j.compile_straight(block, init).unwrap();
        assert(blocks_kept(blocks, marked));
        match block.exit {
            Exit::Conditional { destinations } => {
                lemma_compile_destinations(a, marked, destinations, stack, destinations.len());
                lemma_grows_keeps(a, k);
                lemma_straight_ends(j, blocks, idx, init);
                lemma_layout_stays(j, a, blocks, marked);
                if apart(j, blocks) && ended(j, blocks) {
                    lemma_marked_ended(j, a, blocks, idx);
                }
                lemma_destinations_end(
                    a,
                    marked,
                    destinations,
                    stack,
                    destinations.len(),
                );
                lemma_within_transitive(j, a, k, blocks, marked);
            },
            Exit::Unconditional { destination } => {
                lemma_get_basic_block(a, stack, block.start);
                let (b, src) = a.get_basic_block(block.start);
                lemma_grows_keeps(a, b);
                lemma_straight_ends(j, blocks, idx, init);
                lemma_layout_stays(j, a, blocks, marked);
                assert(a.basic_blocks.contains_key(block.start));
                assert(b == a);
                if apart(j, blocks) && ended(j, blocks) {
                    lemma_marked_ended(j, a, blocks, idx);
                }
                lemma_same_code_ends(j, a, k, blocks, marked);
            },
            Exit::Required { destination } => {
                lemma_get_basic_block(a, stack, block.start);
                let (b, src) = a.get_basic_block(block.start);
                lemma_grows_keeps(a, b);
                lemma_required_jump(b, stack, destination);
                let c = b.required_jump(destination);
                lemma_grows_keeps(b, c);
                lemma_straight_ends(j, blocks, idx, init);
                lemma_layout_stays(j, a, blocks, marked);
                assert(a.basic_blocks.contains_key(block.start));
                assert(b == a);
                lemma_required_ends(j, a, stack, blocks, idx, destination);
                lemma_same_code_ends(j, c, k, blocks, marked);
            },
            Exit::BodyEnd => {
                lemma_straight_ends(j, blocks, idx, init);
                lemma_layout_stays(j, a, blocks, marked);
                if apart(j, blocks) && ended(j, blocks) {
                    lemma_marked_ended(j, a, blocks, idx);
                }
            },
        }
    }
}

/// Where the block at `idx` has its terminator, or ends where the body ends, the
/// basic blocks stay ended when it is marked.
proof fn lemma_marked_ended(
    j: Jit,
    a: Jit,
    blocks: Seq<Block>,
    idx: int,
)
    requires
        j.wf(),
        laid_out(j, blocks),
        apart(j, blocks),
        ended(j, blocks),
        works_within(j, a, blocks),
        0 <= idx < blocks.len(),
        forall|b: BlockRef|
            b < j.module.blocks.len() && b != block_at(j, blocks[idx])
                ==> #[trigger] a.module.terminated(b) == j.module.terminated(b),
        blocks[idx].exit is BodyEnd || a.module.terminated(block_at(j, blocks[idx])),
    ensures
        ended(a, mark_generated(blocks, idx)),
{
    let marked = mark_generated(blocks, idx);
    assert(blocks_kept(blocks, marked));
    lemma_layout_stays(j, a, blocks, marked);
    assert forall|i: int|
        0 <= i < marked.len() && (#[trigger] marked[i]).generated && !(
        marked[i].exit is BodyEnd) implies a.module.terminated(block_at(a, marked[i])) by {
        assert(block_at(a, marked[i]) == block_at(j, blocks[i]));
        if i != idx {
            assert(j.basic_blocks.contains_key(blocks[i].start));
            assert(j.module.terminated(block_at(j, blocks[i])));
            assert(block_at(j, blocks[idx]) == block_at(j, blocks[i]) ==> !(
            blocks[idx].exit is BodyEnd));
        }
    }
}

/// Where module and blocks are the same, the basic blocks stay ended.
proof fn lemma_same_code_ends(
    j: Jit,
    a: Jit,
    k: Jit,
    blocks: Seq<Block>,
    marked: Seq<Block>,
)
    requires
        laid_out(j, blocks),
        works_within(j, a, blocks),
        blocks_kept(blocks, marked),
        laid_out(a, marked),
        k.module == a.module,
        k.basic_blocks == a.basic_blocks,
    ensures
        works_within(j, k, blocks),
        laid_out(k, marked),
        apart(a, marked) ==> apart(k, marked),
        ended(a, marked) ==> ended(k, marked),
{
    assert(works_within(a, k, marked));
    lemma_within_transitive(j, a, k, blocks, marked);
    lemma_blocks_kept_reflexive(marked);
    lemma_layout_stays(a, k, marked, marked);
}

/// The passage to the block that starts behind ends the block.
proof fn lemma_required_ends(
    j: Jit,
    a: Jit,
    stack: Seq<TypedValue>,
    blocks: Seq<Block>,
    idx: int,
    destination: usize,
)
    requires
        j.wf(),
        laid_out(j, blocks),
        a.steady(stack),
        works_within(j, a, blocks),
        0 <= idx < blocks.len(),
        a.pos == block_at(j, blocks[idx]),
        blocks[idx].exit == (Exit::Required { destination }),
        forall|b: BlockRef|
            b < j.module.blocks.len() && b != a.pos ==> #[trigger] a.module.terminated(b)
                == j.module.terminated(b),
        a.required_jump(destination).module.fits(),
    ensures
        works_within(j, a.required_jump(destination), blocks),
        laid_out(a.required_jump(destination), mark_generated(blocks, idx)),
        apart(j, blocks) ==> apart(a.required_jump(destination), mark_generated(blocks, idx)),
        apart(j, blocks) && ended(j, blocks) ==> ended(
            a.required_jump(destination),
            mark_generated(blocks, idx),
        ),
{
    let c = a.required_jump(destination);
    let marked = mark_generated(blocks, idx);
    assert(blocks_kept(blocks, marked));
    lemma_blocks_kept_reflexive(blocks);
    lemma_layout_stays(j, a, blocks, blocks);
    assert(exit_recorded(a, blocks[idx].exit));
    law_branch_ends_block(a, stack, Instruction::Ret, Exit::BodyEnd, destination);
    assert(works_within(a, c, blocks)) by {
        assert forall|b: int|
            0 <= b < a.module.blocks.len() && !is_block_of(
                a,
                blocks,
                b as usize,
            ) implies #[trigger] c.module.blocks[b] == a.module.blocks[b] by {
            if b == a.pos {
                assert(block_at(a, blocks[idx]) == b as usize);
            }
        }
    }
    lemma_within_transitive(j, a, c, blocks, blocks);
    lemma_layout_stays(j, c, blocks, marked);
    assert forall|b: BlockRef|
        b < j.module.blocks.len() && b != block_at(
            j,
            blocks[idx],
        ) implies #[trigger] c.module.terminated(b) == j.module.terminated(b) by {
        let info = a.basic_blocks[destination];
        if !a.terminated() {
            let d = a.set_positioned(destination);
            lemma_append_terminated(d.module, d.pos, Op::Br { dest: info.block() }, b);
        }
        assert(a.module.terminated(b) == j.module.terminated(b));
    }
    if apart(j, blocks) && ended(j, blocks) {
        lemma_marked_ended(j, c, blocks, idx);
    }
}

proof fn lemma_destinations_end(
    j: Jit,
    blocks: Seq<Block>,
    destinations: Seq<usize>,
    stack: Seq<TypedValue>,
    n: nat,
)
    requires
        j.steady(stack),
        laid_out(j, blocks),
        j.compile_destinations(blocks, destinations, stack, n) matches Some((k, _, _))
            && k.module.fits(),
    ensures
        ({
            let (k, done, _) = j.compile_destinations(blocks, destinations, stack, n).unwrap();
            &&& works_within(j, k, blocks)
            &&& laid_out(k, done)
            &&& apart(j, blocks) && ended(j, blocks) ==> apart(k, done) && ended(k, done)
        }),
    decreases ungenerated(blocks).len(), n,
{
    reveal(Jit::compile_block);
    reveal(Jit::compile_destinations);
    lemma_blocks_kept_reflexive(blocks);
    if n == 0 {
        assert(works_within(j, j, blocks));
    } else {
        let (k, done, _) = j.compile_destinations(blocks, destinations, stack, n).unwrap();
        let (a, part, d) = j.compile_destinations(
            blocks,
            destinations,
            stack,
            (n - 1) as nat,
        ).unwrap();
        lemma_compile_destinations(j, blocks, destinations, stack, (n - 1) as nat);
        lemma_values_stay(j, a, stack);
        if let Some(i) = find_block(part, destinations[n - 1]) {
            lemma_compile_block(a, part, i, stack);
            lemma_grows_keeps(a, k);
            lemma_destinations_end(j, blocks, destinations, stack, (n - 1) as nat);
            lemma_destinations_stay_generated(
                j,
                blocks,
                destinations,
                stack,
                (n - 1) as nat,
            );
            lemma_block_ends(a, part, i, stack);
            lemma_within_transitive(j, a, k, blocks, part);
        } else {
            lemma_destinations_end(j, blocks, destinations, stack, (n - 1) as nat);
        }
    }
}

/// Whether a value is constant by itself.
pub open spec fn is_literal(v: ValueRef) -> bool {
    v is Int32 || v is Text || v is Null || v is SizeOf
}

/// The values that an operation computes with, if it is one that LLVM's builder can
/// compute at once.
pub open spec fn computes_with(op: Op<Seq<ValueRef>>) -> Option<Seq<ValueRef>> {
    match op {
        Op::Binary { lhs, rhs, .. } => Some(seq![lhs, rhs]),
        Op::Compare { lhs, rhs, .. } => Some(seq![lhs, rhs]),
        Op::CompareNull { val, .. } => Some(seq![val]),
        Op::Field { obj, .. } => Some(seq![obj]),
        Op::Cast { val, .. } => Some(seq![val]),
        _ => None,
    }
}

/// A branch or a return ends a block. An operation on literals behind it leaves
/// the block ended, since LLVM puts nothing there. Any other instruction does not,
/// nor does an operation on a parameter, or on the result of an instruction that
/// is none of these operations.
pub proof fn law_blocks_end_in_terminators(
    m: ModuleSpec,
    bb: BlockRef,
    op: Op<Seq<ValueRef>>,
    i: int,
)
    requires
        m.wf(),
        bb < m.blocks.len(),
        m.append(bb, op).fits(),
    ensures
        ({
            let after = m.append(bb, op).terminated(bb);
            &&& op is Br || op is CondBr || op is RetVoid || op is Ret ==> after
            &&& computes_with(op) matches Some(vals) ==> {
                &&& (forall|k: int| 0 <= k < vals.len() ==> is_literal(#[trigger] vals[k]))
                    ==> after == m.terminated(bb)
                &&& 0 <= i < vals.len() && vals[i] is Param ==> !after
                &&& 0 <= i < vals.len() ==> (vals[i] matches ValueRef::Inst(id) ==> id
                    < m.insts.len() && computes_with(m.insts[id as int].op) is None ==> !after)
            }
            &&& op is Alloca || op is Load || op is Store || op is Call || op is Phi ==> !after
        }),
{
    lemma_append_terminated(m, bb, op, bb);
    let m2 = m.append(bb, op);
    let n = m.insts.len() as int;
    reveal_with_fuel(ModuleSpec::folds, 2);
    reveal_with_fuel(ModuleSpec::is_constant, 2);
    assert(m2.insts[n].op == op);
    if let Some(vals) = computes_with(op) {
        if forall|k: int| 0 <= k < vals.len() ==> is_literal(#[trigger] vals[k]) {
            assert(is_literal(vals[0]));
            assert(is_literal(vals[vals.len() - 1]));
            assert(m2.is_constant(vals[0], n));
            assert(m2.is_constant(vals[vals.len() - 1], n));
        }
        if 0 <= i < vals.len() {
            if let ValueRef::Inst(id) = vals[i] {
                if id < m.insts.len() && computes_with(m.insts[id as int].op) is None {
                    assert(m2.insts[id as int] == m.insts[id as int]);
                    assert(!m2.folds(id as int));
                    assert(!m2.is_constant(vals[i], n));
                }
            }
        }
    }
}

} // verus!
