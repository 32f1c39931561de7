//! What holds of the compiler's state at all times.
use vstd::prelude::*;

use crate::exec::jit::module::{
    BlockRef, FunctionRef, Incoming, LLVMType, ModuleSpec, Op, ValueRef, lemma_add_function_wf,
    lemma_append_block_wf, lemma_append_wf, lemma_prepend_wf,
};
use crate::exec::jit::state::{
    Jit, TypedValue, lemma_method_joins_queue, lemma_module_grows,
};
use crate::exec::jit::types::{lemma_types_grow_transitive, types_grow};

verus! {

/// Whether `b` begins with `a`.
pub open spec fn begins_with<A>(b: Seq<A>, a: Seq<A>) -> bool {
    &&& a.len() <= b.len()
    &&& forall|i: int| 0 <= i < a.len() ==> #[trigger] b[i] == a[i]
}

impl ModuleSpec {
    /// Whether everything in the module can be counted by a `usize`. The numbers
    /// of functions, blocks, instructions and strings then tell them apart.
    pub open spec fn fits(self) -> bool {
        &&& self.functions.len() <= usize::MAX
        &&& self.blocks.len() <= usize::MAX
        &&& self.insts.len() <= usize::MAX
        &&& self.strings.len() <= usize::MAX
    }

    /// Whether `later` has all that this module has, under the same numbers.
    pub open spec fn extends_to(self, later: ModuleSpec) -> bool {
        &&& self.functions.len() <= later.functions.len()
        &&& forall|f: int|
            0 <= f < self.functions.len() ==> {
                &&& (#[trigger] later.functions[f]).name == self.functions[f].name
                &&& later.functions[f].ret == self.functions[f].ret
                &&& later.functions[f].params == self.functions[f].params
                &&& begins_with(later.functions[f].blocks, self.functions[f].blocks)
            }
        &&& self.blocks.len() <= later.blocks.len()
        &&& forall|b: int|
            0 <= b < self.blocks.len() ==> (#[trigger] later.blocks[b]).function
                == self.blocks[b].function
        &&& begins_with(later.insts, self.insts)
        &&& begins_with(later.incoming, self.incoming)
        &&& begins_with(later.strings, self.strings)
    }

    /// Whether the instruction is listed in the block that it belongs to.
    pub open spec fn inst_stands(self, id: int) -> bool {
        &&& self.insts[id].block < self.blocks.len()
        &&& self.blocks[self.insts[id].block as int].insts.contains(id as usize)
    }

    /// Whether the block is listed in the function that it belongs to.
    pub open spec fn block_stands(self, b: int) -> bool {
        &&& self.blocks[b].function < self.functions.len()
        &&& self.functions[self.blocks[b].function as int].blocks.contains(b as usize)
    }

    /// Whether each instruction is listed once, in its block, and each block
    /// once, in its function.
    pub open spec fn consistent(self) -> bool {
        &&& forall|id: int| 0 <= id < self.insts.len() ==> #[trigger] self.inst_stands(id)
        &&& forall|b: int, i: int|
            0 <= b < self.blocks.len() && 0 <= i < self.blocks[b].insts.len()
                ==> self.insts[#[trigger] self.blocks[b].insts[i] as int].block == b
        &&& forall|b: int|
            0 <= b < self.blocks.len() ==> (#[trigger] self.blocks[b]).insts.no_duplicates()
        &&& forall|b: int| 0 <= b < self.blocks.len() ==> #[trigger] self.block_stands(b)
        &&& forall|f: int, i: int|
            0 <= f < self.functions.len() && 0 <= i < self.functions[f].blocks.len()
                ==> self.blocks[#[trigger] self.functions[f].blocks[i] as int].function == f
        &&& forall|f: int|
            0 <= f < self.functions.len()
                ==> (#[trigger] self.functions[f]).blocks.no_duplicates()
    }

    /// Whether the block is the first of its function.
    pub open spec fn is_entry_block(self, b: int) -> bool {
        let f = self.blocks[b].function as int;
        &&& 0 <= b < self.blocks.len()
        &&& f < self.functions.len()
        &&& self.functions[f].blocks.len() > 0
        &&& self.functions[f].blocks[0] == b
    }

    /// Whether variables are allocated in entry blocks only, in front of all
    /// other instructions.
    pub open spec fn variables_first(self) -> bool {
        &&& forall|id: int|
            0 <= id < self.insts.len() && (#[trigger] self.insts[id]).op is Alloca
                ==> self.is_entry_block(self.insts[id].block as int)
        &&& forall|b: int, i: int, k: int|
            0 <= b < self.blocks.len() && 0 <= i < k < self.blocks[b].insts.len()
                && self.insts[#[trigger] self.blocks[b].insts[k] as int].op is Alloca
                ==> self.insts[#[trigger] self.blocks[b].insts[i] as int].op is Alloca
    }

    /// Whether the value refers to something in the module.
    pub open spec fn has_value(self, v: ValueRef) -> bool {
        match v {
            ValueRef::Inst(id) => id < self.insts.len(),
            ValueRef::Param { function, .. } => function < self.functions.len(),
            ValueRef::Text(i) => i < self.strings.len(),
            ValueRef::Int32(_) | ValueRef::Null(_) | ValueRef::SizeOf(_) => true,
        }
    }

    /// Whether the instruction refers only to what is in the module.
    pub open spec fn has_operands(self, op: Op<Seq<ValueRef>>) -> bool {
        match op {
            Op::Alloca { .. } | Op::RetVoid => true,
            Op::Load { ptr } => self.has_value(ptr),
            Op::Store { val, ptr } => self.has_value(val) && self.has_value(ptr),
            Op::Binary { lhs, rhs, .. } => self.has_value(lhs) && self.has_value(rhs),
            Op::Compare { lhs, rhs, .. } => self.has_value(lhs) && self.has_value(rhs),
            Op::CompareNull { val, .. } => self.has_value(val),
            Op::Field { obj, .. } => self.has_value(obj),
            Op::Cast { val, .. } => self.has_value(val),
            Op::Call { callee, args } => {
                &&& callee < self.functions.len()
                &&& forall|i: int| 0 <= i < args.len() ==> self.has_value(#[trigger] args[i])
            },
            Op::Phi { like } => self.has_value(like),
            Op::Br { dest } => dest < self.blocks.len(),
            Op::CondBr { cond, if_true, if_false } => {
                &&& self.has_value(cond)
                &&& if_true < self.blocks.len()
                &&& if_false < self.blocks.len()
            },
            Op::Ret { val } => self.has_value(val),
        }
    }

    /// Whether no function, block, result or string is referred to that is not in
    /// the module.
    pub open spec fn closed_up(self) -> bool {
        &&& forall|id: int|
            0 <= id < self.insts.len() ==> self.has_operands((#[trigger] self.insts[id]).op)
        &&& forall|i: int|
            0 <= i < self.incoming.len() ==> {
                &&& self.has_value((#[trigger] self.incoming[i]).phi)
                &&& self.has_value(self.incoming[i].val)
                &&& self.incoming[i].block < self.blocks.len()
            }
    }
}

impl Jit {
    /// Whether the values on the stack refer to what is in the module.
    pub open spec fn has_values(self, stack: Seq<TypedValue>) -> bool {
        forall|i: int| 0 <= i < stack.len() ==> self.module.has_value((#[trigger] stack[i]).val)
    }

    /// Whether what comes in at a block refers to what is in the module.
    pub open spec fn has_phis(self, pc: usize) -> bool {
        forall|i: int|
            0 <= i < self.phi_stack[pc].len() ==> {
                &&& (#[trigger] self.phi_stack[pc][i]).src_bb < self.module.blocks.len()
                &&& self.has_values(self.phi_stack[pc][i].stack)
            }
    }

    /// Whether nothing in the state refers to what is not in the module.
    pub open spec fn closed_up(self) -> bool {
        &&& self.module.closed_up()
        &&& forall|id: usize| #[trigger]
            self.arguments.contains_key(id) ==> self.module.has_value(self.arguments[id].val)
        &&& forall|id: usize| #[trigger]
            self.locals.contains_key(id) ==> self.module.has_value(self.locals[id].val)
        &&& forall|pc: usize| #[trigger] self.phi_stack.contains_key(pc) ==> self.has_phis(pc)
        &&& forall|name: Seq<char>| #[trigger]
            self.builtins.contains_key(name) ==> self.builtins[name] < self.module.functions.len()
        &&& forall|rva: u32| #[trigger]
            self.generated.contains_key(rva) ==> self.generated[rva] < self.module.functions.len()
    }

    /// Whether the method at `rva` waits to be compiled.
    pub open spec fn waits(self, rva: u32) -> bool {
        exists|i: int| 0 <= i < self.queue.len() && (#[trigger] self.queue[i]).1 == rva
    }

    /// Whether each called method has one function, of its own and with its
    /// name, that either has been compiled or waits, once, to be compiled; and
    /// the functions that the engine provides are not compiled.
    pub open spec fn calls_are_served(self) -> bool {
        &&& forall|i: int|
            0 <= i < self.queue.len() ==> {
                &&& self.generated.contains_key((#[trigger] self.queue[i]).1)
                &&& self.generated[self.queue[i].1] == self.queue[i].0
                &&& self.module.functions[self.queue[i].0 as int].blocks.len() == 0
            }
        &&& forall|i: int, k: int|
            0 <= i < k < self.queue.len() ==> (#[trigger] self.queue[i]).1 != (
            #[trigger] self.queue[k]).1
        &&& forall|rva: u32| #[trigger]
            self.generated.contains_key(rva) ==> {
                &&& self.image.methods@.contains_key(rva)
                &&& self.generated[rva] < self.module.functions.len()
                &&& self.module.functions[self.generated[rva] as int].name
                    == self.image.methods@[rva].name@
                &&& self.waits(rva)
                    || self.module.functions[self.generated[rva] as int].blocks.len() > 0
            }
        &&& forall|r: u32, s: u32| #[trigger]
            self.generated.contains_key(r) && #[trigger] self.generated.contains_key(s) && r != s
                ==> self.generated[r] != self.generated[s]
        &&& forall|name: Seq<char>| #[trigger]
            self.builtins.contains_key(name) ==> {
                &&& self.builtins[name] < self.module.functions.len()
                &&& self.module.functions[self.builtins[name] as int].blocks.len() == 0
            }
        &&& forall|name: Seq<char>, rva: u32| #[trigger]
            self.builtins.contains_key(name) && #[trigger] self.generated.contains_key(rva)
                ==> self.builtins[name] != self.generated[rva]
    }

    /// Whether the module and the queue are as they should be.
    #[verifier::opaque]
    pub open spec fn sound(self) -> bool {
        &&& self.module.consistent()
        &&& self.module.variables_first()
        &&& self.calls_are_served()
    }

    /// Whether compiling can go on: instructions can be built, and nothing
    /// refers to what is not there.
    pub open spec fn steady(self, stack: Seq<TypedValue>) -> bool {
        &&& self.ready()
        &&& self.closed_up()
        &&& self.has_values(stack)
    }

    /// Whether `later` has all that this state has: compiling only adds. Where
    /// the numbers suffice, what was sound stays sound.
    #[verifier::opaque]
    pub open spec fn grows_to(self, later: Jit) -> bool {
        &&& later.image == self.image
        &&& later.builtins == self.builtins
        &&& later.generating == self.generating
        &&& self.module.extends_to(later.module)
        &&& types_grow(self.types, later.types)
        &&& begins_with(later.queue, self.queue)
        &&& later.pending() <= self.pending()
        &&& forall|rva: u32| #[trigger]
            self.generated.contains_key(rva) ==> later.generated.contains_key(rva)
                && later.generated[rva] == self.generated[rva]
        &&& forall|rva: u32| #[trigger]
            later.generated.contains_key(rva) ==> self.generated.contains_key(rva) || later.waits(
                rva,
            )
        &&& later.module.fits() && self.sound() ==> later.sound()
    }
}

/// What extends a module in two steps extends it.
pub proof fn lemma_extends_transitive(a: ModuleSpec, b: ModuleSpec, c: ModuleSpec)
    requires
        a.extends_to(b),
        b.extends_to(c),
    ensures
        a.extends_to(c),
{
    assert forall|f: int| 0 <= f < a.functions.len() implies {
        &&& (#[trigger] c.functions[f]).name == a.functions[f].name
        &&& c.functions[f].ret == a.functions[f].ret
        &&& c.functions[f].params == a.functions[f].params
        &&& begins_with(c.functions[f].blocks, a.functions[f].blocks)
    } by {
        assert(b.functions[f].name == a.functions[f].name);
        assert forall|i: int|
            0 <= i < a.functions[f].blocks.len() implies #[trigger] c.functions[f].blocks[i]
            == a.functions[f].blocks[i] by {
            assert(b.functions[f].blocks[i] == a.functions[f].blocks[i]);
        }
    }
    assert forall|i: int| 0 <= i < a.blocks.len() implies (#[trigger] c.blocks[i]).function
        == a.blocks[i].function by {
        assert(b.blocks[i].function == a.blocks[i].function);
    }
    lemma_begins_transitive(a.insts, b.insts, c.insts);
    lemma_begins_transitive(a.incoming, b.incoming, c.incoming);
    lemma_begins_transitive(a.strings, b.strings, c.strings);
}

proof fn lemma_begins_transitive<A>(a: Seq<A>, b: Seq<A>, c: Seq<A>)
    requires
        begins_with(b, a),
        begins_with(c, b),
    ensures
        begins_with(c, a),
{
    assert forall|i: int| 0 <= i < a.len() implies #[trigger] c[i] == a[i] by {
        assert(b[i] == a[i]);
    }
}

/// Growth in two steps is growth.
pub proof fn lemma_grows_transitive(a: Jit, b: Jit, c: Jit)
    requires
        a.grows_to(b),
        b.grows_to(c),
    ensures
        a.grows_to(c),
{
    reveal(Jit::grows_to);
    lemma_extends_transitive(a.module, b.module, c.module);
    lemma_types_grow_transitive(a.types, b.types, c.types);
    lemma_begins_transitive(a.queue, b.queue, c.queue);
    assert forall|rva: u32| #[trigger] c.generated.contains_key(
        rva,
    ) implies a.generated.contains_key(rva) || c.waits(rva) by {
        if b.generated.contains_key(rva) && !a.generated.contains_key(rva) {
            let i = choose|i: int| 0 <= i < b.queue.len() && (#[trigger] b.queue[i]).1 == rva;
            assert(c.queue[i] == b.queue[i]);
        }
    }
}

/// A state grows to itself.
pub proof fn lemma_grows_reflexive(j: Jit)
    ensures
        j.grows_to(j),
{
    reveal(Jit::grows_to);
}

/// What a state keeps when it grows.
pub proof fn lemma_grows_keeps(a: Jit, b: Jit)
    requires
        a.grows_to(b),
    ensures
        b.image == a.image,
        b.builtins == a.builtins,
        b.generating == a.generating,
        a.module.extends_to(b.module),
        types_grow(a.types, b.types),
        b.pending() <= a.pending(),
        forall|rva: u32| #[trigger]
            a.generated.contains_key(rva) ==> b.generated.contains_key(rva) && b.generated[rva]
                == a.generated[rva],
        forall|rva: u32| #[trigger]
            b.generated.contains_key(rva) ==> a.generated.contains_key(rva) || b.waits(rva),
        begins_with(b.queue, a.queue),
        b.module.fits() && a.sound() ==> b.sound(),
{
    reveal(Jit::grows_to);
}

/// Values stay where they are when the state grows.
pub proof fn lemma_values_stay(a: Jit, b: Jit, stack: Seq<TypedValue>)
    requires
        a.grows_to(b),
        a.has_values(stack),
    ensures
        b.has_values(stack),
{
    reveal(Jit::grows_to);
}

/// Whether `later` has at least as much of everything as `m`.
spec fn no_smaller(m: ModuleSpec, later: ModuleSpec) -> bool {
    &&& m.functions.len() <= later.functions.len()
    &&& m.blocks.len() <= later.blocks.len()
    &&& m.insts.len() <= later.insts.len()
    &&& m.strings.len() <= later.strings.len()
}

proof fn lemma_operands_stay(m: ModuleSpec, later: ModuleSpec, op: Op<Seq<ValueRef>>)
    requires
        no_smaller(m, later),
        m.has_operands(op),
    ensures
        later.has_operands(op),
{
    if let Op::Call { callee, args } = op {
        assert forall|i: int| 0 <= i < args.len() implies later.has_value(
            #[trigger] args[i],
        ) by {
            assert(m.has_value(args[i]));
        }
    }
}

/// Where a module has no less than one that is closed up, and has only the same
/// references, it is closed up.
proof fn lemma_module_stays_closed(m: ModuleSpec, later: ModuleSpec)
    requires
        m.closed_up(),
        no_smaller(m, later),
        forall|id: int|
            m.insts.len() <= id < later.insts.len() ==> later.has_operands(
                (#[trigger] later.insts[id]).op,
            ),
        begins_with(later.insts, m.insts),
        later.incoming == m.incoming,
    ensures
        later.closed_up(),
{
    assert forall|id: int| 0 <= id < later.insts.len() implies later.has_operands(
        (#[trigger] later.insts[id]).op,
    ) by {
        if id < m.insts.len() {
            assert(later.insts[id] == m.insts[id]);
            lemma_operands_stay(m, later, m.insts[id].op);
        }
    }
    assert forall|i: int| 0 <= i < later.incoming.len() implies {
        &&& later.has_value((#[trigger] later.incoming[i]).phi)
        &&& later.has_value(later.incoming[i].val)
        &&& later.incoming[i].block < later.blocks.len()
    } by {
        assert(m.has_value(m.incoming[i].phi));
    }
}

/// Where only the module changes and stays closed up, the state does.
proof fn lemma_state_stays_closed(j: Jit, module: ModuleSpec, stack: Seq<TypedValue>)
    requires
        j.closed_up(),
        j.has_values(stack),
        no_smaller(j.module, module),
        module.closed_up(),
    ensures
        (Jit { module, ..j }).closed_up(),
        (Jit { module, ..j }).has_values(stack),
{
    let later = Jit { module, ..j };
    assert forall|pc: usize| #[trigger] later.phi_stack.contains_key(pc) implies later.has_phis(
        pc,
    ) by {
        assert(j.has_phis(pc));
        assert forall|i: int| 0 <= i < later.phi_stack[pc].len() implies {
            &&& (#[trigger] later.phi_stack[pc][i]).src_bb < later.module.blocks.len()
            &&& later.has_values(later.phi_stack[pc][i].stack)
        } by {
            assert(j.has_values(j.phi_stack[pc][i].stack));
        }
    }
}

/// An instruction at the end of a block.
pub proof fn lemma_append(j: Jit, stack: Seq<TypedValue>, bb: BlockRef, op: Op<Seq<ValueRef>>)
    requires
        j.steady(stack),
        bb < j.module.blocks.len(),
        j.module.has_operands(op),
        !(op is Alloca),
    ensures
        ({
            let later = Jit { module: j.module.append(bb, op), ..j };
            &&& later.steady(stack)
            &&& j.grows_to(later)
            &&& later.module.has_value(ValueRef::Inst(j.module.insts.len() as usize))
        }),
{
    let m = j.module;
    let module = m.append(bb, op);
    let later = Jit { module, ..j };
    lemma_append_wf(m, bb, op);
    lemma_operands_stay(m, module, op);
    lemma_module_stays_closed(m, module);
    lemma_state_stays_closed(j, module, stack);
    lemma_module_grows(j, module);
    assert(j.grows_to(later)) by {
        reveal(Jit::grows_to);
        if module.fits() && j.sound() {
            reveal(Jit::sound);
            lemma_append_consistent(m, bb, op);
            lemma_append_variables_first(m, bb, op);
            lemma_calls_still_served(j, module);
        }
    }
}

proof fn lemma_append_consistent(m: ModuleSpec, bb: BlockRef, op: Op<Seq<ValueRef>>)
    requires
        m.wf(),
        m.consistent(),
        bb < m.blocks.len(),
        m.append(bb, op).fits(),
    ensures
        m.append(bb, op).consistent(),
{
    let m2 = m.append(bb, op);
    let id = m.insts.len() as usize;
    let old_list = m.blocks[bb as int].insts;
    let new_list = m2.blocks[bb as int].insts;
    assert(new_list == old_list.push(id));
    assert forall|k: int| 0 <= k < m2.insts.len() implies #[trigger] m2.inst_stands(k) by {
        if k < m.insts.len() {
            assert(m.inst_stands(k));
            let b = m.insts[k].block as int;
            let i = choose|i: int|
                0 <= i < m.blocks[b].insts.len() && m.blocks[b].insts[i] == k as usize;
            assert(m2.blocks[b].insts[i] == k as usize);
        } else {
            assert(new_list[old_list.len() as int] == id);
        }
    }
    assert forall|b: int, i: int|
        0 <= b < m2.blocks.len() && 0 <= i < m2.blocks[b].insts.len() implies m2.insts[
    #[trigger] m2.blocks[b].insts[i] as int].block == b by {
        if i < m.blocks[b].insts.len() {
            assert(m.insts[m.blocks[b].insts[i] as int].block == b);
            assert(m.blocks[b].insts[i] < m.insts.len());
        }
    }
    assert forall|b: int| 0 <= b < m2.blocks.len() implies (
    #[trigger] m2.blocks[b]).insts.no_duplicates() by {
        assert(m.blocks[b].insts.no_duplicates());
        if b == bb {
            assert forall|i: int| 0 <= i < old_list.len() implies old_list[i] != id by {
                assert(m.blocks[b].insts[i] < m.insts.len());
            }
        }
    }
    assert forall|b: int| 0 <= b < m2.blocks.len() implies #[trigger] m2.block_stands(b) by {
        assert(m.block_stands(b));
    }
    assert forall|f: int, i: int|
        0 <= f < m2.functions.len() && 0 <= i < m2.functions[f].blocks.len() implies m2.blocks[
    #[trigger] m2.functions[f].blocks[i] as int].function == f by {
        assert(m.blocks[m.functions[f].blocks[i] as int].function == f);
        assert(m.functions[f].blocks[i] < m.blocks.len());
    }
}

proof fn lemma_append_variables_first(m: ModuleSpec, bb: BlockRef, op: Op<Seq<ValueRef>>)
    requires
        m.wf(),
        m.consistent(),
        m.variables_first(),
        bb < m.blocks.len(),
        !(op is Alloca),
        m.append(bb, op).fits(),
    ensures
        m.append(bb, op).variables_first(),
{
    let m2 = m.append(bb, op);
    assert forall|id: int|
        0 <= id < m2.insts.len() && (
        #[trigger] m2.insts[id]).op is Alloca implies m2.is_entry_block(
        m2.insts[id].block as int,
    ) by {
        assert(m2.insts[id] == m.insts[id]);
        assert(m.is_entry_block(m.insts[id].block as int));
    }
    assert forall|b: int, i: int, k: int|
        0 <= b < m2.blocks.len() && 0 <= i < k < m2.blocks[b].insts.len() && m2.insts[
        #[trigger] m2.blocks[b].insts[k] as int].op is Alloca implies m2.insts[
    #[trigger] m2.blocks[b].insts[i] as int].op is Alloca by {
        assert(k < m.blocks[b].insts.len());
        assert(m.blocks[b].insts[k] < m.insts.len());
        assert(m.blocks[b].insts[i] < m.insts.len());
    }
}

/// Where no function gets its first block, calls are served as before.
proof fn lemma_calls_still_served(j: Jit, module: ModuleSpec)
    requires
        j.wf(),
        j.calls_are_served(),
        module.functions.len() == j.module.functions.len(),
        forall|f: int|
            0 <= f < j.module.functions.len() ==> {
                &&& (#[trigger] module.functions[f]).name == j.module.functions[f].name
                &&& module.functions[f].blocks.len() == 0 <==> j.module.functions[f].blocks.len()
                    == 0
            },
    ensures
        (Jit { module, ..j }).calls_are_served(),
{
    let later = Jit { module, ..j };
    assert forall|i: int| 0 <= i < later.queue.len() implies {
        &&& later.generated.contains_key((#[trigger] later.queue[i]).1)
        &&& later.generated[later.queue[i].1] == later.queue[i].0
        &&& later.module.functions[later.queue[i].0 as int].blocks.len() == 0
    } by {
        assert(j.queue[i].0 < j.module.functions.len());
        assert(module.functions[j.queue[i].0 as int].name
            == j.module.functions[j.queue[i].0 as int].name);
    }
    assert forall|rva: u32| #[trigger] later.generated.contains_key(rva) implies {
        &&& later.image.methods@.contains_key(rva)
        &&& later.generated[rva] < later.module.functions.len()
        &&& later.module.functions[later.generated[rva] as int].name
            == later.image.methods@[rva].name@
        &&& later.waits(rva) || later.module.functions[later.generated[rva] as int].blocks.len() > 0
    } by {
        let f = j.generated[rva] as int;
        assert(module.functions[f].name == j.module.functions[f].name);
        if j.waits(rva) {
            let i = choose|i: int| 0 <= i < j.queue.len() && (#[trigger] j.queue[i]).1 == rva;
            assert(later.queue[i].1 == rva);
        }
    }
    assert forall|name: Seq<char>| #[trigger] later.builtins.contains_key(name) implies {
        &&& later.builtins[name] < later.module.functions.len()
        &&& later.module.functions[later.builtins[name] as int].blocks.len() == 0
    } by {
        let f = j.builtins[name] as int;
        assert(module.functions[f].name == j.module.functions[f].name);
    }
}

/// An instruction where the builder is.
pub proof fn lemma_emit(j: Jit, stack: Seq<TypedValue>, op: Op<Seq<ValueRef>>)
    requires
        j.steady(stack),
        j.module.has_operands(op),
        !(op is Alloca),
    ensures
        j.emit(op).0.steady(stack),
        j.grows_to(j.emit(op).0),
        j.emit(op).0.module.has_value(j.emit(op).1),
{
    lemma_append(j, stack, j.pos, op);
}

/// The allocation of a variable.
pub proof fn lemma_alloca(j: Jit, stack: Seq<TypedValue>, ty: LLVMType)
    requires
        j.steady(stack),
    ensures
        j.alloca(ty).0.steady(stack),
        j.grows_to(j.alloca(ty).0),
        j.alloca(ty).0.module.has_value(j.alloca(ty).1),
{
    let m = j.module;
    let g = j.generating.unwrap() as int;
    let bb = m.functions[g].blocks[0];
    let op = Op::<Seq<ValueRef>>::Alloca { ty };
    let module = m.prepend(bb, op);
    let later = Jit { module, ..j };
    lemma_prepend_wf(m, bb, op);
    lemma_module_stays_closed(m, module);
    lemma_state_stays_closed(j, module, stack);
    lemma_module_grows(j, module);
    assert(j.grows_to(later)) by {
        reveal(Jit::grows_to);
        if module.fits() && j.sound() {
            reveal(Jit::sound);
            assert(m.blocks[bb as int].function == g);
            lemma_prepend_consistent(m, bb, op);
            lemma_prepend_variables_first(m, bb, op);
            lemma_calls_still_served(j, module);
        }
    }
}

proof fn lemma_prepend_consistent(m: ModuleSpec, bb: BlockRef, op: Op<Seq<ValueRef>>)
    requires
        m.wf(),
        m.consistent(),
        bb < m.blocks.len(),
        m.prepend(bb, op).fits(),
    ensures
        m.prepend(bb, op).consistent(),
{
    let m2 = m.prepend(bb, op);
    let id = m.insts.len() as usize;
    let old_list = m.blocks[bb as int].insts;
    let new_list = m2.blocks[bb as int].insts;
    assert(new_list == old_list.insert(0, id));
    assert forall|k: int| 0 <= k < m2.insts.len() implies #[trigger] m2.inst_stands(k) by {
        if k < m.insts.len() {
            assert(m.inst_stands(k));
            let b = m.insts[k].block as int;
            let i = choose|i: int|
                0 <= i < m.blocks[b].insts.len() && m.blocks[b].insts[i] == k as usize;
            if b == bb {
                assert(m2.blocks[b].insts[i + 1] == k as usize);
            } else {
                assert(m2.blocks[b].insts[i] == k as usize);
            }
        } else {
            assert(new_list[0] == id);
        }
    }
    assert forall|b: int, i: int|
        0 <= b < m2.blocks.len() && 0 <= i < m2.blocks[b].insts.len() implies m2.insts[
    #[trigger] m2.blocks[b].insts[i] as int].block == b by {
        if b != bb {
            assert(m.insts[m.blocks[b].insts[i] as int].block == b);
            assert(m.blocks[b].insts[i] < m.insts.len());
        } else if i > 0 {
            assert(m.insts[m.blocks[b].insts[i - 1] as int].block == b);
            assert(m.blocks[b].insts[i - 1] < m.insts.len());
        }
    }
    assert forall|b: int| 0 <= b < m2.blocks.len() implies (
    #[trigger] m2.blocks[b]).insts.no_duplicates() by {
        assert(m.blocks[b].insts.no_duplicates());
        if b == bb {
            assert forall|i: int| 0 <= i < old_list.len() implies old_list[i] != id by {
                assert(m.blocks[b].insts[i] < m.insts.len());
            }
            assert forall|i: int, k: int|
                0 <= i < new_list.len() && 0 <= k < new_list.len() && i
                    != k implies new_list[i] != new_list[k] by {
                if i > 0 {
                    assert(new_list[i] == old_list[i - 1]);
                }
                if k > 0 {
                    assert(new_list[k] == old_list[k - 1]);
                }
            }
        }
    }
    assert forall|b: int| 0 <= b < m2.blocks.len() implies #[trigger] m2.block_stands(b) by {
        assert(m.block_stands(b));
    }
    assert forall|f: int, i: int|
        0 <= f < m2.functions.len() && 0 <= i < m2.functions[f].blocks.len() implies m2.blocks[
    #[trigger] m2.functions[f].blocks[i] as int].function == f by {
        assert(m.blocks[m.functions[f].blocks[i] as int].function == f);
        assert(m.functions[f].blocks[i] < m.blocks.len());
    }
}

proof fn lemma_prepend_variables_first(m: ModuleSpec, bb: BlockRef, op: Op<Seq<ValueRef>>)
    requires
        m.wf(),
        m.consistent(),
        m.variables_first(),
        m.is_entry_block(bb as int),
        op is Alloca,
        m.prepend(bb, op).fits(),
    ensures
        m.prepend(bb, op).variables_first(),
{
    let m2 = m.prepend(bb, op);
    assert forall|id: int|
        0 <= id < m2.insts.len() && (
        #[trigger] m2.insts[id]).op is Alloca implies m2.is_entry_block(
        m2.insts[id].block as int,
    ) by {
        if id < m.insts.len() {
            assert(m2.insts[id] == m.insts[id]);
            assert(m.is_entry_block(m.insts[id].block as int));
        }
    }
    assert forall|b: int, i: int, k: int|
        0 <= b < m2.blocks.len() && 0 <= i < k < m2.blocks[b].insts.len() && m2.insts[
        #[trigger] m2.blocks[b].insts[k] as int].op is Alloca implies m2.insts[
    #[trigger] m2.blocks[b].insts[i] as int].op is Alloca by {
        if b == bb {
            assert(m2.blocks[b].insts[k] == m.blocks[b].insts[k - 1]);
            assert(m.blocks[b].insts[k - 1] < m.insts.len());
            if i > 0 {
                assert(m2.blocks[b].insts[i] == m.blocks[b].insts[i - 1]);
                assert(m.blocks[b].insts[i - 1] < m.insts.len());
            }
        } else {
            assert(m.blocks[b].insts[k] < m.insts.len());
            assert(m.blocks[b].insts[i] < m.insts.len());
        }
    }
}

/// A block more for the function that is being compiled.
pub proof fn lemma_append_block(j: Jit, stack: Seq<TypedValue>)
    requires
        j.steady(stack),
    ensures
        j.append_block(j.generating.unwrap()).0.steady(stack),
        j.grows_to(j.append_block(j.generating.unwrap()).0),
        j.append_block(j.generating.unwrap()).1 < j.append_block(
            j.generating.unwrap(),
        ).0.module.blocks.len(),
{
    let m = j.module;
    let function = j.generating.unwrap();
    let module = m.append_block(function);
    let later = Jit { module, ..j };
    lemma_append_block_wf(m, function);
    lemma_module_stays_closed(m, module);
    lemma_state_stays_closed(j, module, stack);
    lemma_module_grows(j, module);
    assert(j.grows_to(later)) by {
        reveal(Jit::grows_to);
        assert(m.extends_to(module));
        if module.fits() && j.sound() {
            reveal(Jit::sound);
            lemma_append_block_consistent(m, function);
            lemma_append_block_variables_first(m, function);
            lemma_calls_still_served(j, module);
        }
    }
}

proof fn lemma_append_block_consistent(m: ModuleSpec, function: FunctionRef)
    requires
        m.wf(),
        m.consistent(),
        function < m.functions.len(),
        m.append_block(function).fits(),
    ensures
        m.append_block(function).consistent(),
{
    let m2 = m.append_block(function);
    let bb = m.blocks.len() as usize;
    let old_list = m.functions[function as int].blocks;
    let new_list = m2.functions[function as int].blocks;
    assert(new_list == old_list.push(bb));
    assert forall|k: int| 0 <= k < m2.insts.len() implies #[trigger] m2.inst_stands(k) by {
        assert(m.inst_stands(k));
    }
    assert forall|b: int, i: int|
        0 <= b < m2.blocks.len() && 0 <= i < m2.blocks[b].insts.len() implies m2.insts[
    #[trigger] m2.blocks[b].insts[i] as int].block == b by {
        assert(m.insts[m.blocks[b].insts[i] as int].block == b);
    }
    assert forall|b: int| 0 <= b < m2.blocks.len() implies (
    #[trigger] m2.blocks[b]).insts.no_duplicates() by {
        if b < m.blocks.len() {
            assert(m.blocks[b].insts.no_duplicates());
        }
    }
    assert forall|b: int| 0 <= b < m2.blocks.len() implies #[trigger] m2.block_stands(b) by {
        if b < m.blocks.len() {
            assert(m.block_stands(b));
            let f = m.blocks[b].function as int;
            let i = choose|i: int|
                0 <= i < m.functions[f].blocks.len() && m.functions[f].blocks[i] == b as usize;
            assert(m2.functions[f].blocks[i] == b as usize);
        } else {
            assert(new_list[old_list.len() as int] == bb);
        }
    }
    assert forall|f: int, i: int|
        0 <= f < m2.functions.len() && 0 <= i < m2.functions[f].blocks.len() implies m2.blocks[
    #[trigger] m2.functions[f].blocks[i] as int].function == f by {
        if i < m.functions[f].blocks.len() {
            assert(m.blocks[m.functions[f].blocks[i] as int].function == f);
            assert(m.functions[f].blocks[i] < m.blocks.len());
        }
    }
    assert forall|f: int| 0 <= f < m2.functions.len() implies (
    #[trigger] m2.functions[f]).blocks.no_duplicates() by {
        assert(m.functions[f].blocks.no_duplicates());
        if f == function {
            assert forall|i: int| 0 <= i < old_list.len() implies old_list[i] != bb by {
                assert(m.functions[f].blocks[i] < m.blocks.len());
            }
        }
    }
}

proof fn lemma_append_block_variables_first(m: ModuleSpec, function: FunctionRef)
    requires
        m.wf(),
        m.consistent(),
        m.variables_first(),
        function < m.functions.len(),
    ensures
        m.append_block(function).variables_first(),
{
    let m2 = m.append_block(function);
    assert forall|id: int|
        0 <= id < m2.insts.len() && (
        #[trigger] m2.insts[id]).op is Alloca implies m2.is_entry_block(
        m2.insts[id].block as int,
    ) by {
        assert(m.is_entry_block(m.insts[id].block as int));
    }
    assert forall|b: int, i: int, k: int|
        0 <= b < m2.blocks.len() && 0 <= i < k < m2.blocks[b].insts.len() && m2.insts[
        #[trigger] m2.blocks[b].insts[k] as int].op is Alloca implies m2.insts[
    #[trigger] m2.blocks[b].insts[i] as int].op is Alloca by {
        assert(m.blocks[b].insts[k] < m.insts.len());
        assert(m.blocks[b].insts[i] < m.insts.len());
    }
}

/// The function of a method that is called for the first time.
pub proof fn lemma_new_callee(
    j: Jit,
    stack: Seq<TypedValue>,
    rva: u32,
    ret: LLVMType,
    params: Seq<LLVMType>,
)
    requires
        j.steady(stack),
        j.image.methods@.contains_key(rva),
        !j.generated.contains_key(rva),
    ensures
        ({
            let (k, f) = j.add_function(j.image.methods@[rva].name@, ret, params);
            let later = Jit {
                generated: k.generated.insert(rva, f),
                queue: k.queue.push((f, rva)),
                ..k
            };
            &&& later.steady(stack)
            &&& j.grows_to(later)
            &&& f < later.module.functions.len()
        }),
{
    let m = j.module;
    let name = j.image.methods@[rva].name@;
    let module = m.add_function(name, ret, params);
    let f = m.functions.len() as usize;
    let mid = Jit { module, ..j };
    let later = Jit { generated: j.generated.insert(rva, f), queue: j.queue.push((f, rva)), ..mid };
    lemma_add_function_wf(m, name, ret, params);
    lemma_module_stays_closed(m, module);
    lemma_state_stays_closed(j, module, stack);
    lemma_module_grows(j, module);
    lemma_method_joins_queue(mid, rva, f);
    assert forall|pc: usize| #[trigger] later.phi_stack.contains_key(pc) implies later.has_phis(
        pc,
    ) by {
        assert(mid.has_phis(pc));
        assert forall|i: int| 0 <= i < later.phi_stack[pc].len() implies {
            &&& (#[trigger] later.phi_stack[pc][i]).src_bb < later.module.blocks.len()
            &&& later.has_values(later.phi_stack[pc][i].stack)
        } by {
            assert(mid.has_values(mid.phi_stack[pc][i].stack));
        }
    }
    assert(j.grows_to(later)) by {
        reveal(Jit::grows_to);
        assert(later.queue[j.queue.len() as int].1 == rva);
        if module.fits() && j.sound() {
            reveal(Jit::sound);
            lemma_add_function_consistent(m, name, ret, params);
            lemma_new_call_served(j, rva, ret, params);
        }
    }
}

/// With one more function, a module stays consistent and its variables stay in
/// front.
pub proof fn lemma_add_function_consistent(
    m: ModuleSpec,
    name: Seq<char>,
    ret: LLVMType,
    params: Seq<LLVMType>,
)
    requires
        m.wf(),
        m.consistent(),
        m.variables_first(),
    ensures
        m.add_function(name, ret, params).consistent(),
        m.add_function(name, ret, params).variables_first(),
{
    let m2 = m.add_function(name, ret, params);
    assert forall|k: int| 0 <= k < m2.insts.len() implies #[trigger] m2.inst_stands(k) by {
        assert(m.inst_stands(k));
    }
    assert forall|b: int| 0 <= b < m2.blocks.len() implies #[trigger] m2.block_stands(b) by {
        assert(m.block_stands(b));
        let f = m.blocks[b].function as int;
        assert(m2.functions[f] == m.functions[f]);
    }
    assert forall|f: int, i: int|
        0 <= f < m2.functions.len() && 0 <= i < m2.functions[f].blocks.len() implies m2.blocks[
    #[trigger] m2.functions[f].blocks[i] as int].function == f by {
        assert(f < m.functions.len());
        assert(m.blocks[m.functions[f].blocks[i] as int].function == f);
    }
    assert forall|f: int| 0 <= f < m2.functions.len() implies (
    #[trigger] m2.functions[f]).blocks.no_duplicates() by {
        if f < m.functions.len() {
            assert(m.functions[f].blocks.no_duplicates());
        }
    }
    assert forall|id: int|
        0 <= id < m2.insts.len() && (
        #[trigger] m2.insts[id]).op is Alloca implies m2.is_entry_block(
        m2.insts[id].block as int,
    ) by {
        assert(m.is_entry_block(m.insts[id].block as int));
    }
}

proof fn lemma_new_call_served(j: Jit, rva: u32, ret: LLVMType, params: Seq<LLVMType>)
    requires
        j.wf(),
        j.calls_are_served(),
        j.image.methods@.contains_key(rva),
        !j.generated.contains_key(rva),
        j.module.add_function(j.image.methods@[rva].name@, ret, params).fits(),
    ensures
        ({
            let (k, f) = j.add_function(j.image.methods@[rva].name@, ret, params);
            (Jit {
                generated: k.generated.insert(rva, f),
                queue: k.queue.push((f, rva)),
                ..k
            }).calls_are_served()
        }),
{
    let m = j.module;
    let (k, f) = j.add_function(j.image.methods@[rva].name@, ret, params);
    let later = Jit { generated: k.generated.insert(rva, f), queue: k.queue.push((f, rva)), ..k };
    let m2 = later.module;
    assert(f == m.functions.len());
    assert forall|i: int| 0 <= i < later.queue.len() implies {
        &&& later.generated.contains_key((#[trigger] later.queue[i]).1)
        &&& later.generated[later.queue[i].1] == later.queue[i].0
        &&& later.module.functions[later.queue[i].0 as int].blocks.len() == 0
    } by {
        if i < j.queue.len() {
            assert(later.queue[i] == j.queue[i]);
            assert(j.generated.contains_key(j.queue[i].1));
            assert(m2.functions[j.queue[i].0 as int] == m.functions[j.queue[i].0 as int]);
        }
    }
    assert forall|i: int, n: int| 0 <= i < n < later.queue.len() implies (
    #[trigger] later.queue[i]).1 != (#[trigger] later.queue[n]).1 by {
        assert(later.queue[i] == j.queue[i]);
        assert(j.generated.contains_key(j.queue[i].1));
        if n < j.queue.len() {
            assert(later.queue[n] == j.queue[n]);
        }
    }
    assert forall|r: u32| #[trigger] later.generated.contains_key(r) implies {
        &&& later.image.methods@.contains_key(r)
        &&& later.generated[r] < later.module.functions.len()
        &&& later.module.functions[later.generated[r] as int].name == later.image.methods@[r].name@
        &&& later.waits(r) || later.module.functions[later.generated[r] as int].blocks.len() > 0
    } by {
        if r == rva {
            assert(later.queue[j.queue.len() as int].1 == rva);
        } else {
            assert(j.generated.contains_key(r));
            let g = j.generated[r] as int;
            assert(m2.functions[g] == m.functions[g]);
            if j.waits(r) {
                let i = choose|i: int| 0 <= i < j.queue.len() && (#[trigger] j.queue[i]).1 == r;
                assert(later.queue[i] == j.queue[i]);
            }
        }
    }
    assert forall|r: u32, s: u32| #[trigger]
        later.generated.contains_key(r) && #[trigger] later.generated.contains_key(s) && r
            != s implies later.generated[r] != later.generated[s] by {
        if r != rva {
            assert(j.generated.contains_key(r));
        }
        if s != rva {
            assert(j.generated.contains_key(s));
        }
    }
    assert forall|name: Seq<char>| #[trigger] later.builtins.contains_key(name) implies {
        &&& later.builtins[name] < later.module.functions.len()
        &&& later.module.functions[later.builtins[name] as int].blocks.len() == 0
    } by {
        assert(j.builtins.contains_key(name));
        assert(m2.functions[j.builtins[name] as int] == m.functions[j.builtins[name] as int]);
    }
    assert forall|name: Seq<char>, r: u32| #[trigger]
        later.builtins.contains_key(name) && #[trigger] later.generated.contains_key(
            r,
        ) implies later.builtins[name] != later.generated[r] by {
        if r != rva {
            assert(j.generated.contains_key(r));
        }
    }
}

/// A value more that a phi may have.
pub proof fn lemma_add_incoming(j: Jit, stack: Seq<TypedValue>, incoming: Incoming)
    requires
        j.steady(stack),
        j.module.has_value(incoming.phi),
        j.module.has_value(incoming.val),
        incoming.block < j.module.blocks.len(),
    ensures
        (Jit { module: j.module.add_incoming(incoming), ..j }).steady(stack),
        j.grows_to(Jit { module: j.module.add_incoming(incoming), ..j }),
{
    let m = j.module;
    let module = m.add_incoming(incoming);
    let later = Jit { module, ..j };
    assert forall|id: int| 0 <= id < module.insts.len() implies module.has_operands(
        (#[trigger] module.insts[id]).op,
    ) by {
        lemma_operands_stay(m, module, m.insts[id].op);
    }
    assert forall|i: int| 0 <= i < module.incoming.len() implies {
        &&& module.has_value((#[trigger] module.incoming[i]).phi)
        &&& module.has_value(module.incoming[i].val)
        &&& module.incoming[i].block < module.blocks.len()
    } by {
        if i < m.incoming.len() {
            assert(m.has_value(m.incoming[i].phi));
        }
    }
    lemma_state_stays_closed(j, module, stack);
    lemma_module_grows(j, module);
    assert(j.grows_to(later)) by {
        reveal(Jit::grows_to);
        if module.fits() && j.sound() {
            reveal(Jit::sound);
            lemma_same_code(m, module);
            lemma_calls_still_served(j, module);
        }
    }
}

/// A string more.
pub proof fn lemma_add_string(j: Jit, stack: Seq<TypedValue>, text: Seq<char>)
    requires
        j.steady(stack),
    ensures
        (Jit { module: j.module.add_string(text), ..j }).steady(stack),
        j.grows_to(Jit { module: j.module.add_string(text), ..j }),
        (Jit { module: j.module.add_string(text), ..j }).module.has_value(
            ValueRef::Text(j.module.strings.len() as usize),
        ),
{
    let m = j.module;
    let module = m.add_string(text);
    let later = Jit { module, ..j };
    lemma_module_stays_closed(m, module);
    lemma_state_stays_closed(j, module, stack);
    lemma_module_grows(j, module);
    assert(j.grows_to(later)) by {
        reveal(Jit::grows_to);
        if module.fits() && j.sound() {
            reveal(Jit::sound);
            lemma_same_code(m, module);
            lemma_calls_still_served(j, module);
        }
    }
}

/// Where functions, blocks and instructions are the same, a module stays
/// consistent and its variables stay in front.
proof fn lemma_same_code(m: ModuleSpec, m2: ModuleSpec)
    requires
        m.consistent(),
        m.variables_first(),
        m2.functions == m.functions,
        m2.blocks == m.blocks,
        m2.insts == m.insts,
    ensures
        m2.consistent(),
        m2.variables_first(),
{
    assert forall|k: int| 0 <= k < m2.insts.len() implies #[trigger] m2.inst_stands(k) by {
        assert(m.inst_stands(k));
    }
    assert forall|b: int| 0 <= b < m2.blocks.len() implies #[trigger] m2.block_stands(b) by {
        assert(m.block_stands(b));
    }
    assert forall|id: int|
        0 <= id < m2.insts.len() && (
        #[trigger] m2.insts[id]).op is Alloca implies m2.is_entry_block(
        m2.insts[id].block as int,
    ) by {
        assert(m.is_entry_block(m.insts[id].block as int));
    }
}

/// Where module, queue and what is called stay the same, and nothing comes to
/// refer to what is not there, the state grows.
pub proof fn lemma_same_module(j: Jit, later: Jit, stack: Seq<TypedValue>)
    requires
        j.steady(stack),
        later.ready(),
        later.closed_up(),
        later.image == j.image,
        later.module == j.module,
        types_grow(j.types, later.types),
        later.generating == j.generating,
        later.generated == j.generated,
        later.queue == j.queue,
        later.builtins == j.builtins,
    ensures
        later.steady(stack),
        j.grows_to(later),
{
    reveal(Jit::grows_to);
    if j.sound() {
        reveal(Jit::sound);
        assert forall|rva: u32| #[trigger] later.generated.contains_key(rva) && j.waits(
            rva,
        ) implies later.waits(rva) by {
            let i = choose|i: int| 0 <= i < j.queue.len() && (#[trigger] j.queue[i]).1 == rva;
            assert(later.queue[i].1 == rva);
        }
    }
}

impl Jit {
    /// Whether calls are served, but for the method whose function is about to
    /// be compiled: it waits no longer and has no block yet.
    pub open spec fn calls_are_served_but(self, function: FunctionRef) -> bool {
        &&& function < self.module.functions.len()
        &&& forall|i: int|
            0 <= i < self.queue.len() ==> {
                &&& self.generated.contains_key((#[trigger] self.queue[i]).1)
                &&& self.generated[self.queue[i].1] == self.queue[i].0
                &&& self.module.functions[self.queue[i].0 as int].blocks.len() == 0
                &&& self.queue[i].0 != function
            }
        &&& forall|i: int, k: int|
            0 <= i < k < self.queue.len() ==> (#[trigger] self.queue[i]).1 != (
            #[trigger] self.queue[k]).1
        &&& forall|rva: u32| #[trigger]
            self.generated.contains_key(rva) ==> {
                &&& self.image.methods@.contains_key(rva)
                &&& self.generated[rva] < self.module.functions.len()
                &&& self.module.functions[self.generated[rva] as int].name
                    == self.image.methods@[rva].name@
                &&& self.waits(rva) || self.generated[rva] == function
                    || self.module.functions[self.generated[rva] as int].blocks.len() > 0
            }
        &&& forall|r: u32, s: u32| #[trigger]
            self.generated.contains_key(r) && #[trigger] self.generated.contains_key(s) && r != s
                ==> self.generated[r] != self.generated[s]
        &&& forall|name: Seq<char>| #[trigger]
            self.builtins.contains_key(name) ==> {
                &&& self.builtins[name] < self.module.functions.len()
                &&& self.module.functions[self.builtins[name] as int].blocks.len() == 0
                &&& self.builtins[name] != function
            }
        &&& forall|name: Seq<char>, rva: u32| #[trigger]
            self.builtins.contains_key(name) && #[trigger] self.generated.contains_key(rva)
                ==> self.builtins[name] != self.generated[rva]
    }

    /// Whether a function can be begun soundly.
    pub open spec fn sound_but(self, function: FunctionRef) -> bool {
        &&& self.module.consistent()
        &&& self.module.variables_first()
        &&& self.calls_are_served_but(function)
    }
}

/// The method at the front of the queue is taken out of it.
pub proof fn lemma_take_from_queue(j: Jit)
    requires
        j.wf(),
        j.sound(),
        j.queue.len() > 0,
    ensures
        (Jit { queue: j.queue.subrange(1, j.queue.len() as int), ..j }).sound_but(j.queue[0].0),
{
    reveal(Jit::sound);
    let (function, rva) = j.queue[0];
    let later = Jit { queue: j.queue.subrange(1, j.queue.len() as int), ..j };
    assert forall|i: int| 0 <= i < later.queue.len() implies {
        &&& later.generated.contains_key((#[trigger] later.queue[i]).1)
        &&& later.generated[later.queue[i].1] == later.queue[i].0
        &&& later.module.functions[later.queue[i].0 as int].blocks.len() == 0
        &&& later.queue[i].0 != function
    } by {
        assert(later.queue[i] == j.queue[i + 1]);
        assert(j.generated.contains_key(j.queue[0].1));
        assert(j.queue[0].1 != j.queue[i + 1].1);
    }
    assert forall|i: int, k: int| 0 <= i < k < later.queue.len() implies (
    #[trigger] later.queue[i]).1 != (#[trigger] later.queue[k]).1 by {
        assert(later.queue[i] == j.queue[i + 1]);
        assert(later.queue[k] == j.queue[k + 1]);
    }
    assert forall|r: u32| #[trigger] later.generated.contains_key(r) implies later.waits(r)
        || later.generated[r] == function
        || later.module.functions[later.generated[r] as int].blocks.len() > 0 by {
        if j.waits(r) {
            let i = choose|i: int| 0 <= i < j.queue.len() && (#[trigger] j.queue[i]).1 == r;
            if i > 0 {
                assert(later.queue[i - 1] == j.queue[i]);
            }
        }
    }
    assert forall|name: Seq<char>| #[trigger] later.builtins.contains_key(
        name,
    ) implies later.builtins[name] != function by {
        assert(j.generated.contains_key(rva));
    }
}

/// A function is added that is not the function of a called method.
pub proof fn lemma_own_function(j: Jit, name: Seq<char>, ret: LLVMType, params: Seq<LLVMType>)
    requires
        j.wf(),
        j.closed_up(),
    ensures
        ({
            let (k, f) = j.add_function(name, ret, params);
            &&& k.wf()
            &&& k.closed_up()
            &&& f < k.module.functions.len()
            &&& j.module.extends_to(k.module)
            &&& k.module.fits() && j.sound() ==> k.sound_but(f)
        }),
{
    let m = j.module;
    let (later, function) = j.add_function(name, ret, params);
    let module = later.module;
    lemma_add_function_wf(m, name, ret, params);
    lemma_module_stays_closed(m, module);
    assert(j.has_values(seq![]));
    lemma_state_stays_closed(j, module, seq![]);
    if module.fits() && j.sound() {
        reveal(Jit::sound);
        lemma_add_function_consistent(m, name, ret, params);
        assert forall|i: int| 0 <= i < later.queue.len() implies {
            &&& later.generated.contains_key((#[trigger] later.queue[i]).1)
            &&& later.generated[later.queue[i].1] == later.queue[i].0
            &&& later.module.functions[later.queue[i].0 as int].blocks.len() == 0
            &&& later.queue[i].0 != function
        } by {
            let f = j.queue[i].0 as int;
            assert(f < m.functions.len());
            assert(module.functions[f] == m.functions[f]);
        }
        assert forall|r: u32| #[trigger] later.generated.contains_key(r) implies {
            &&& later.image.methods@.contains_key(r)
            &&& later.generated[r] < later.module.functions.len()
            &&& later.module.functions[later.generated[r] as int].name
                == later.image.methods@[r].name@
            &&& later.waits(r) || later.generated[r] == function
                || later.module.functions[later.generated[r] as int].blocks.len() > 0
        } by {
            let f = j.generated[r] as int;
            assert(module.functions[f] == m.functions[f]);
            if j.waits(r) {
                let i = choose|i: int| 0 <= i < j.queue.len() && (#[trigger] j.queue[i]).1 == r;
                assert(later.queue[i].1 == r);
            }
        }
        assert forall|b: Seq<char>| #[trigger] later.builtins.contains_key(b) implies {
            &&& later.builtins[b] < later.module.functions.len()
            &&& later.module.functions[later.builtins[b] as int].blocks.len() == 0
            &&& later.builtins[b] != function
        } by {
            let f = j.builtins[b] as int;
            assert(module.functions[f] == m.functions[f]);
        }
    }
}

/// The beginning of a function.
pub proof fn lemma_begin_function(j: Jit, function: FunctionRef)
    requires
        j.wf(),
        j.closed_up(),
        function < j.module.functions.len(),
    ensures
        ({
            let (k, entry) = j.begin_function(function);
            &&& k.steady(seq![])
            &&& entry < k.module.blocks.len()
            &&& j.module.extends_to(k.module)
            &&& k.module.functions[function as int].blocks.len() > 0
            &&& k.pending() == j.pending()
            &&& k.module.fits() && j.sound_but(function) ==> k.sound()
        }),
{
    let m = j.module;
    let (later, entry) = j.begin_function(function);
    let module = later.module;
    lemma_append_block_wf(m, function);
    lemma_module_stays_closed(m, module);
    assert(j.has_values(seq![]));
    lemma_state_stays_closed(j, module, seq![]);
    let mid = Jit { module, ..j };
    assert(later.uncalled() == j.uncalled());
    assert forall|pc: usize| #[trigger] later.phi_stack.contains_key(pc) implies later.has_phis(
        pc,
    ) by {
        assert(mid.has_phis(pc));
        assert forall|i: int| 0 <= i < later.phi_stack[pc].len() implies {
            &&& (#[trigger] later.phi_stack[pc][i]).src_bb < later.module.blocks.len()
            &&& later.has_values(later.phi_stack[pc][i].stack)
        } by {
            assert(mid.has_values(mid.phi_stack[pc][i].stack));
        }
    }
    if module.fits() && j.sound_but(function) {
        reveal(Jit::sound);
        lemma_append_block_consistent(m, function);
        lemma_append_block_variables_first(m, function);
        assert forall|i: int| 0 <= i < later.queue.len() implies {
            &&& later.generated.contains_key((#[trigger] later.queue[i]).1)
            &&& later.generated[later.queue[i].1] == later.queue[i].0
            &&& later.module.functions[later.queue[i].0 as int].blocks.len() == 0
        } by {
            let f = j.queue[i].0 as int;
            assert(f < m.functions.len());
            assert(module.functions[f] == m.functions[f]);
        }
        assert forall|r: u32| #[trigger] later.generated.contains_key(r) implies {
            &&& later.image.methods@.contains_key(r)
            &&& later.generated[r] < later.module.functions.len()
            &&& later.module.functions[later.generated[r] as int].name
                == later.image.methods@[r].name@
            &&& later.waits(r) || later.module.functions[later.generated[r] as int].blocks.len() > 0
        } by {
            if j.waits(r) {
                let i = choose|i: int| 0 <= i < j.queue.len() && (#[trigger] j.queue[i]).1 == r;
                assert(later.queue[i].1 == r);
            }
        }
        assert forall|b: Seq<char>| #[trigger] later.builtins.contains_key(b) implies {
            &&& later.builtins[b] < later.module.functions.len()
            &&& later.module.functions[later.builtins[b] as int].blocks.len() == 0
        } by {
            let f = j.builtins[b] as int;
            assert(module.functions[f] == m.functions[f]);
        }
    }
}

} // verus!
