//! What compiling the code of a method leaves as it is.
use vstd::prelude::*;

use crate::exec::instruction::Instruction;
use crate::exec::jit::cfg::{Block, Exit};
use crate::exec::jit::model::{
    Receiver, branch_predicate, find_block, lemma_mark_generated, mark_generated, ungenerated,
};
use crate::exec::jit::module::{FunctionRef, Op, Predicate, ValueRef};
use crate::exec::jit::state::{Jit, PhiSpec, TypedValue};
use crate::metadata::image::Table;

verus! {

/// Whether `k` has the variables of `j`, compiles the same function of the same
/// assembly, and has for each position the block that it had.
pub open spec fn keeps_context(j: Jit, k: Jit) -> bool {
    &&& k.image == j.image
    &&& k.builtins == j.builtins
    &&& k.generating == j.generating
    &&& k.locals == j.locals
    &&& k.arguments == j.arguments
    &&& forall|pc: usize| #[trigger]
        j.basic_blocks.contains_key(pc) ==> k.basic_blocks.contains_key(pc)
            && k.basic_blocks[pc].block() == j.basic_blocks[pc].block()
}

pub proof fn lemma_context_transitive(a: Jit, b: Jit, c: Jit)
    requires
        keeps_context(a, b),
        keeps_context(b, c),
    ensures
        keeps_context(a, c),
{
}

proof fn lemma_callee_keeps(j: Jit, rva: u32, receiver: Receiver)
    ensures
        j.callee(rva, receiver) matches Some((k, _)) ==> keeps_context(j, k),
{
}

proof fn lemma_calls_keep(j: Jit, stack: Seq<TypedValue>, table: usize, entry: usize)
    ensures
        j.gen_instr_call(stack, table, entry) matches Some((k, _)) ==> keeps_context(j, k),
        j.gen_instr_callvirt(stack, table, entry) matches Some((k, _)) ==> keeps_context(j, k),
{
    if let Some(Table::MethodDef(mdt)) = j.image.row_spec(table, entry) {
        lemma_callee_keeps(j, mdt.rva, Receiver::Nothing);
        lemma_callee_keeps(j, mdt.rva, Receiver::Class(j.image.methods@[mdt.rva].class));
    }
}

proof fn lemma_new_object_keeps(j: Jit, stack: Seq<TypedValue>, table: usize, entry: usize)
    ensures
        j.gen_instr_newobj(stack, table, entry) matches Some((k, _)) ==> keeps_context(j, k),
{
    if let Some(Table::MethodDef(mdt)) = j.image.row_spec(table, entry) {
        if let Some((a, lty)) = j.lower_class(j.image.methods@[mdt.rva].class) {
            let alloc = Op::Call {
                callee: a.builtins["memory_alloc"@],
                args: seq![ValueRef::SizeOf(lty)],
            };
            let (b, memory) = a.emit(alloc);
            let (c, obj) = b.emit(Op::Cast { val: memory, ty: lty });
            assert(keeps_context(j, c));
            lemma_callee_keeps(c, mdt.rva, Receiver::Lowered(lty));
        }
    }
}

proof fn lemma_cond_br_keeps(j: Jit, cond: Op<Seq<ValueRef>>, exit: Exit)
    ensures
        j.gen_cond_br(cond, exit) matches Some(k) ==> keeps_context(j, k),
{
}

proof fn lemma_branches_keep(j: Jit, stack: Seq<TypedValue>, pred: Predicate, exit: Exit)
    ensures
        j.gen_branch_on_value(stack, pred, exit) matches Some((k, _)) ==> keeps_context(j, k),
        j.gen_branch_on_values(stack, pred, exit) matches Some((k, _)) ==> keeps_context(j, k),
{
    lemma_cond_br_keeps(j, Op::CompareNull { pred, val: stack.last().val }, exit);
    let lhs = stack[stack.len() - 2].val;
    let rhs = stack[stack.len() - 1].val;
    lemma_cond_br_keeps(j, Op::Compare { pred, lhs, rhs }, exit);
}

proof fn lemma_fields_keep(j: Jit, stack: Seq<TypedValue>, table: usize, entry: usize)
    ensures
        j.gen_instr_stfld(stack, table, entry) matches Some((k, _)) ==> keeps_context(j, k),
        j.gen_instr_ldfld(stack, table, entry) matches Some((k, _)) ==> keeps_context(j, k),
{
}

/// An instruction changes no variable, and no block of a position.
pub proof fn law_instruction_keeps_context(
    j: Jit,
    stack: Seq<TypedValue>,
    instr: Instruction,
    exit: Exit,
)
    ensures
        j.compile_instr(stack, instr, exit) matches Some((k, _)) ==> keeps_context(j, k),
{
    reveal(Jit::compile_instr);
    match instr {
        Instruction::Newobj { table, entry } => lemma_new_object_keeps(j, stack, table, entry),
        Instruction::Call { table, entry } => lemma_calls_keep(j, stack, table, entry),
        Instruction::CallVirt { table, entry } => lemma_calls_keep(j, stack, table, entry),
        Instruction::Ldfld { table, entry } => lemma_fields_keep(j, stack, table, entry),
        Instruction::Stfld { table, entry } => lemma_fields_keep(j, stack, table, entry),
        Instruction::Brfalse { .. } => lemma_branches_keep(j, stack, Predicate::Equal, exit),
        Instruction::Brtrue { .. } => lemma_branches_keep(j, stack, Predicate::NotEqual, exit),
        Instruction::Bge { .. }
        | Instruction::Blt { .. }
        | Instruction::Ble { .. }
        | Instruction::Bne_un { .. }
        | Instruction::Bgt { .. } => lemma_branches_keep(j, stack, branch_predicate(instr), exit),
        _ => {},
    }
}

proof fn lemma_bytecode_keeps(j: Jit, stack: Seq<TypedValue>, block: Block, n: nat)
    ensures
        j.compile_bytecode(stack, block, n) matches Some((k, _)) ==> keeps_context(j, k),
    decreases n,
{
    if n > 0 {
        lemma_bytecode_keeps(j, stack, block, (n - 1) as nat);
        if let Some((a, part)) = j.compile_bytecode(stack, block, (n - 1) as nat) {
            law_instruction_keeps_context(a, part, block.code[n - 1], block.exit);
        }
    }
}

proof fn lemma_first_phis_keep(j: Jit, stack: Seq<TypedValue>, phi: PhiSpec, n: nat)
    ensures
        keeps_context(j, j.first_phis(stack, phi, n).0),
    decreases n,
{
    if n > 0 {
        lemma_first_phis_keep(j, stack, phi, (n - 1) as nat);
    }
}

proof fn lemma_add_phis_keep(j: Jit, stack: Seq<TypedValue>, base: nat, phi: PhiSpec, n: nat)
    ensures
        j.add_phis(stack, base, phi, n) matches Some(k) ==> keeps_context(j, k),
    decreases n,
{
    if n > 0 {
        lemma_add_phis_keep(j, stack, base, phi, (n - 1) as nat);
    }
}

proof fn lemma_more_phis_keep(
    j: Jit,
    stack: Seq<TypedValue>,
    base: nat,
    phis: Seq<PhiSpec>,
    n: nat,
)
    ensures
        j.more_phis(stack, base, phis, n) matches Some(k) ==> keeps_context(j, k),
    decreases n,
{
    if n > 1 {
        lemma_more_phis_keep(j, stack, base, phis, (n - 1) as nat);
        if let Some(a) = j.more_phis(stack, base, phis, (n - 1) as nat) {
            lemma_add_phis_keep(a, stack, base, phis[n - 1], phis[n - 1].stack.len());
        }
    }
}

/// The code of a block changes no variable, and no block of a position.
pub proof fn law_straight_code_keeps_context(j: Jit, block: Block, init: Seq<TypedValue>)
    ensures
        j.compile_straight(block, init) matches Some((k, _)) ==> keeps_context(j, k),
{
    reveal(Jit::compile_straight);
    reveal(Jit::build_phi_stack);
    if j.basic_blocks.contains_key(block.start) {
        let bb = j.basic_blocks[block.start].block();
        let a = j.set_positioned(block.start).position(bb);
        assert(keeps_context(j, a));
        if let Some((b, full)) = a.build_phi_stack(block.start, init) {
            if a.phi_stack.contains_key(block.start) {
                let phis = a.phi_stack[block.start];
                lemma_first_phis_keep(a, init, phis[0], phis[0].stack.len());
                let (c, _) = a.first_phis(init, phis[0], phis[0].stack.len());
                lemma_more_phis_keep(c, full, init.len(), phis, phis.len());
                lemma_context_transitive(a, c, b);
            }
            assert(keeps_context(a, b));
            lemma_context_transitive(j, a, b);
            lemma_bytecode_keeps(b, full, block, block.code.len());
        }
    }
}

/// A block, with what it leads to, changes no variable, and no block of a position.
pub proof fn law_block_keeps_context(
    j: Jit,
    blocks: Seq<Block>,
    idx: int,
    init: Seq<TypedValue>,
)
    ensures
        j.compile_block(blocks, idx, init) matches Some((k, _, _)) ==> keeps_context(j, k),
    decreases ungenerated(blocks).len(), 0nat,
{
    reveal(Jit::compile_block);
    reveal(Jit::compile_destinations);
    if 0 <= idx < blocks.len() && !blocks[idx].generated {
        let block = blocks[idx];
        let marked = mark_generated(blocks, idx);
        lemma_mark_generated(blocks, idx);
        law_straight_code_keeps_context(j, block, init);
        if let Some((a, stack)) = j.compile_straight(block, init) {
            if let Exit::Conditional { destinations } = block.exit {
                lemma_destinations_keep(a, marked, destinations, stack, destinations.len());
            }
        }
    }
}

pub proof fn lemma_destinations_keep(
    j: Jit,
    blocks: Seq<Block>,
    destinations: Seq<usize>,
    stack: Seq<TypedValue>,
    n: nat,
)
    ensures
        j.compile_destinations(blocks, destinations, stack, n) matches Some((k, _, _))
            ==> keeps_context(j, k),
    decreases ungenerated(blocks).len(), n,
{
    reveal(Jit::compile_block);
    reveal(Jit::compile_destinations);
    if n > 0 {
        let m = (n - 1) as nat;
        lemma_destinations_keep(j, blocks, destinations, stack, m);
        if let Some((a, done, d)) = j.compile_destinations(blocks, destinations, stack, m) {
            if let Some(i) = find_block(done, destinations[n - 1]) {
                if ungenerated(done).len() <= ungenerated(blocks).len() {
                    law_block_keeps_context(a, done, i, stack);
                }
            }
        }
    }
}

pub proof fn lemma_blocks_keep(j: Jit, blocks: Seq<Block>, n: nat)
    ensures
        j.compile_blocks(blocks, n) matches Some((k, _)) ==> keeps_context(j, k),
    decreases n,
{
    if n > 0 {
        lemma_blocks_keep(j, blocks, (n - 1) as nat);
        if let Some((a, done)) = j.compile_blocks(blocks, (n - 1) as nat) {
            law_block_keeps_context(a, done, n - 1, seq![]);
        }
    }
}

pub proof fn lemma_close_blocks_keep(j: Jit, function: FunctionRef, n: nat)
    ensures
        keeps_context(j, j.close_blocks(function, n)),
    decreases n,
{
    if n > 0 {
        lemma_close_blocks_keep(j, function, (n - 1) as nat);
    }
}

pub proof fn lemma_append_blocks_keep(j: Jit, function: FunctionRef, blocks: Seq<Block>, n: nat)
    ensures
        ({
            let k = j.append_blocks(function, blocks, n);
            &&& k.image == j.image
            &&& k.builtins == j.builtins
            &&& k.generating == j.generating
            &&& k.locals == j.locals
            &&& k.arguments == j.arguments
            &&& k.types == j.types
            &&& k.phi_stack == j.phi_stack
            &&& k.module.insts == j.module.insts
        }),
    decreases n,
{
    if n > 0 {
        lemma_append_blocks_keep(j, function, blocks, (n - 1) as nat);
    }
}

} // verus!
