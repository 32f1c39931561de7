//! What holds of the body of every function.
use vstd::prelude::*;

use crate::exec::jit::cfg::{Block, basic_blocks, targets_in_range};
use crate::exec::jit::cfg_laws::law_blocks_are_runs;
use crate::exec::jit::compiler_laws::{
    law_function_only_adds, law_queue_is_worked_off, lemma_forget_blocks, lemma_generate_queued,
};
use crate::exec::jit::context_laws::{
    keeps_context, lemma_append_blocks_keep, lemma_blocks_keep, lemma_close_blocks_keep,
};
use crate::exec::jit::flow_laws::{
    law_all_blocks_are_compiled, lemma_blocks_kept_so_far, lemma_was_compiled_stays, was_compiled,
};
use crate::exec::jit::function_laws::lemma_blocks_are_new;
use crate::exec::jit::growth::{
    lemma_append_blocks, lemma_close_blocks, lemma_close_last, lemma_closed_up_same,
    lemma_compile_blocks,
    lemma_compile_body, lemma_declare_arguments, lemma_declare_locals, lemma_record_block,
};
use crate::exec::jit::module::{
    BlockRef, FunctionRef, FunctionSpec, LLVMType, ModuleSpec, Op, ValueRef,
};
use crate::exec::jit::sound::{
    begins_with, lemma_begin_function, lemma_grows_keeps, lemma_grows_transitive,
    lemma_own_function, lemma_take_from_queue,
};
use crate::exec::jit::state::{BasicBlockInfo, Jit, TypedValue, lemma_method_leaves_queue};
use crate::exec::jit::terminator_laws::block_at;
use crate::exec::jit::variable_laws::{
    allocates, argument_types, holds_parameter, law_arguments_are_declared,
    law_locals_are_declared, lemma_allocation_stays,
};
use crate::metadata::method::MethodBody;
use crate::metadata::signature::Type;

verus! {

/// How a function returns where the program does not say how: with nothing, or
/// with zero or null, whatever its type has.
pub open spec fn returns_nothing(op: Op<Seq<ValueRef>>, ret: LLVMType) -> bool {
    if ret == LLVMType::Void {
        op == Op::<Seq<ValueRef>>::RetVoid
    } else {
        op == (Op::<Seq<ValueRef>>::Ret { val: ValueRef::Null(ret) })
    }
}

/// If the last block of a body has no terminator, it returns. Otherwise nothing is
/// built.
pub proof fn law_last_block_returns(j: Jit, function: FunctionRef, last: Block)
    requires
        j.wf(),
        j.basic_blocks.contains_key(last.start),
    ensures
        ({
            let bb = j.basic_blocks[last.start].block();
            let n = j.module.insts.len() as int;
            &&& j.close_last(function, last) matches Some(k)
            &&& k.pos == bb
            &&& if j.module.terminated(bb) {
                k.module == j.module
            } else {
                &&& k.module.insts.len() == n + 1
                &&& begins_with(k.module.insts, j.module.insts)
                &&& k.module.insts[n].block == bb
                &&& returns_nothing(
                    k.module.insts[n].op,
                    j.module.functions[function as int].ret,
                )
                &&& k.module.blocks[bb as int].insts == j.module.blocks[bb as int].insts.push(
                    n as usize,
                )
            }
        }),
{
}

/// To give blocks their terminators is to add returns, with nothing or with zero
/// or null, and no other instruction. No more are added than there are blocks.
pub proof fn law_only_returns_are_added(j: Jit, function: FunctionRef, n: nat)
    ensures
        ({
            let k = j.close_blocks(function, n);
            let first = j.module.insts.len();
            &&& k.module.functions == j.module.functions
            &&& begins_with(k.module.insts, j.module.insts)
            &&& k.module.insts.len() <= first + n
            &&& forall|id: int|
                first <= id < k.module.insts.len() ==> {
                    &&& returns_nothing(
                        (#[trigger] k.module.insts[id]).op,
                        j.module.functions[function as int].ret,
                    )
                    &&& j.module.functions[function as int].ret == LLVMType::Void
                        ==> k.module.insts[id].block == j.pos
                }
            &&& k.pos == j.pos
        }),
    decreases n,
{
    if n > 0 {
        law_only_returns_are_added(j, function, (n - 1) as nat);
    }
}

/// Whether the local variables of `k` are allocated from the instruction `first`
/// on, in order, each with a place of its own and its type.
pub open spec fn has_locals(k: Jit, tys: Seq<Type>, first: int) -> bool {
    &&& forall|i: usize| #![trigger k.locals[i]]
        i < tys.len() ==> {
            &&& k.locals.contains_key(i)
            &&& k.locals[i] == (TypedValue {
                ty: tys[i as int],
                val: ValueRef::Inst((first + i) as usize),
            })
            &&& allocates(k, first + i, tys[i as int])
        }
    &&& forall|i: usize| i >= tys.len() ==> !#[trigger] k.locals.contains_key(i)
}

/// Whether each basic block has a block of the module, and those that start at
/// different positions have different ones.
pub open spec fn has_own_blocks(k: Jit, blocks: Seq<Block>) -> bool {
    &&& forall|i: int|
        0 <= i < blocks.len() ==> k.basic_blocks.contains_key((#[trigger] blocks[i]).start)
    &&& forall|i: int, l: int|
        0 <= i < blocks.len() && 0 <= l < blocks.len() && (#[trigger] blocks[i]).start != (
        #[trigger] blocks[l]).start ==> k.basic_blocks[blocks[i].start].block()
            != k.basic_blocks[blocks[l].start].block()
}

/// A body begins with its local variables. Each of its basic blocks has a block,
/// the first one the entry, and all are compiled, with these variables and the
/// arguments that the function has.
#[verifier::rlimit(40)]
pub proof fn law_body_is_compiled(
    j: Jit,
    function: FunctionRef,
    entry: BlockRef,
    method: MethodBody,
)
    requires
        j.steady(seq![]),
        j.generating == Some(function),
        entry < j.module.blocks.len(),
        forall|id: usize| !j.locals.contains_key(id),
        j.compile_body(function, entry, method) matches Some(k) && k.module.fits(),
    ensures
        ({
            let k = j.compile_body(function, entry, method).unwrap();
            &&& has_locals(k, method.locals_ty@, j.module.insts.len() as int)
            &&& k.arguments == j.arguments
            &&& k.generating == j.generating
            &&& k.basic_blocks.contains_key(0) && k.basic_blocks[0].block() == entry
            &&& has_own_blocks(k, basic_blocks(method.body@))
            &&& forall|i: int|
                0 <= i < basic_blocks(method.body@).len() ==> was_compiled(
                    #[trigger] basic_blocks(method.body@)[i],
                    k,
                )
        }),
{
    reveal(Jit::compile_body);
    let blocks = basic_blocks(method.body@);
    let tys = method.locals_ty@;
    let first = j.module.insts.len() as int;
    let k = j.compile_body(function, entry, method).unwrap();
    lemma_declare_locals(j, tys, tys.len());
    let a = j.declare_locals(tys, tys.len()).unwrap();
    lemma_grows_keeps(j, a);
    let b = Jit { basic_blocks: a.basic_blocks.insert(0, BasicBlockInfo::Positioned(entry)), ..a };
    lemma_record_block(a, seq![], 0, BasicBlockInfo::Positioned(entry), a.pos);
    lemma_grows_keeps(a, b);
    lemma_append_blocks(b, function, blocks, blocks.len());
    let c = b.append_blocks(function, blocks, blocks.len());
    lemma_grows_keeps(b, c);
    lemma_append_blocks_keep(b, function, blocks, blocks.len());
    lemma_compile_blocks(c, blocks, blocks.len());
    let (d, done) = c.compile_blocks(blocks, blocks.len()).unwrap();
    lemma_grows_keeps(c, d);
    lemma_blocks_keep(c, blocks, blocks.len());
    lemma_close_last(d, function, done.last());
    let e = d.close_last(function, done.last()).unwrap();
    lemma_grows_keeps(d, e);
    assert(keeps_context(d, e));
    let count = e.module.functions[function as int].blocks.len();
    assert(function < e.module.functions.len());
    lemma_close_blocks(e, function, count);
    lemma_grows_keeps(e, k);
    lemma_close_blocks_keep(e, function, count);
    assert(keeps_context(d, k));
    assert(keeps_context(c, k));
    lemma_grows_transitive(d, e, k);
    lemma_grows_keeps(d, k);
    lemma_grows_transitive(c, d, k);
    lemma_grows_transitive(b, c, k);
    lemma_grows_transitive(a, b, k);
    lemma_grows_keeps(a, k);
    assert(a.module.fits());
    assert(method.locals_ty.len() <= usize::MAX);
    law_locals_are_declared(j, tys, tys.len());
    lemma_grows_transitive(c, d, k);
    lemma_grows_keeps(c, k);
    lemma_blocks_are_new(b, function, blocks, blocks.len());
    assert forall|i: int| 0 <= i < blocks.len() implies k.basic_blocks.contains_key(
        (#[trigger] blocks[i]).start,
    ) && block_at(k, blocks[i]) == block_at(c, blocks[i]) by {
        assert(c.basic_blocks.contains_key(blocks[i].start));
    }
    assert(has_own_blocks(k, blocks)) by {
        assert forall|i: int, l: int|
            0 <= i < blocks.len() && 0 <= l < blocks.len() && (#[trigger] blocks[i]).start != (
            #[trigger] blocks[l]).start implies k.basic_blocks[blocks[i].start].block()
            != k.basic_blocks[blocks[l].start].block() by {
            assert(block_at(k, blocks[i]) == block_at(c, blocks[i]));
            assert(block_at(k, blocks[l]) == block_at(c, blocks[l]));
        }
    }
    assert forall|i: usize| #![trigger k.locals[i]] i < tys.len() implies {
        &&& k.locals.contains_key(i)
        &&& k.locals[i] == (TypedValue {
            ty: tys[i as int],
            val: ValueRef::Inst((first + i) as usize),
        })
        &&& allocates(k, first + i, tys[i as int])
    } by {
        assert(a.locals[i] == k.locals[i]);
        assert(a.module.insts[first + i] == k.module.insts[first + i]);
        lemma_allocation_stays(a, k, first + i, tys[i as int]);
    }
    law_blocks_are_runs(method.body@);
    assert forall|i: int| 0 <= i < blocks.len() implies was_compiled(#[trigger] blocks[i], k) by {
        law_all_blocks_are_compiled(c, blocks, blocks.len(), i);
        lemma_was_compiled_stays(blocks[i], d, k);
    }
}

/// Whether the block of the first position is the entry of the function that is
/// being compiled.
pub open spec fn starts_at_entry(k: Jit) -> bool {
    &&& k.generating matches Some(function)
    &&& k.module.functions[function as int].blocks.len() > 0
    &&& k.basic_blocks.contains_key(0)
    &&& k.basic_blocks[0].block() == k.module.functions[function as int].blocks[0]
}

/// Whether the code of all basic blocks of a body has been built on the way to a
/// state with the module and the variables of `k`.
pub open spec fn body_was_compiled(method: MethodBody, k: Jit) -> bool {
    exists|b: Jit|
        {
            &&& b.module == k.module
            &&& b.locals == k.locals
            &&& b.arguments == k.arguments
            &&& b.generating == k.generating
            &&& starts_at_entry(b)
            &&& has_own_blocks(b, basic_blocks(method.body@))
            &&& forall|i: int|
                0 <= i < basic_blocks(method.body@).len() ==> #[trigger] was_compiled(
                    basic_blocks(method.body@)[i],
                    b,
                )
        }
}

/// The function of a method begins with its arguments, which hold the parameters
/// of the same numbers, and its local variables. All of its basic blocks are
/// compiled with them. Nothing of the blocks is left for the next function.
#[verifier::rlimit(40)]
pub proof fn law_function_is_compiled(j: Jit, function: FunctionRef, method: MethodBody)
    requires
        j.wf(),
        j.closed_up(),
        function < j.module.functions.len(),
        j.module.functions[function as int].blocks.len() == 0,
        method.signature.params.len() < usize::MAX,
        j.generate_func(function, method) matches Some(k) && k.module.fits(),
    ensures
        ({
            let k = j.generate_func(function, method).unwrap();
            let tys = argument_types(method);
            let first = j.module.insts.len() as int;
            &&& forall|i: int|
                0 <= i < tys.len() ==> holds_parameter(
                    k,
                    function,
                    i as usize,
                    #[trigger] tys[i],
                    first + 2 * i,
                )
            &&& forall|i: usize| i >= tys.len() ==> !#[trigger] k.arguments.contains_key(i)
            &&& has_locals(k, method.locals_ty@, first + 2 * tys.len())
            &&& k.generating == Some(function)
            &&& body_was_compiled(method, k)
            &&& k.basic_blocks == Map::<usize, BasicBlockInfo>::empty()
            &&& forall|pc: usize| !k.phi_stack.contains_key(pc)
        }),
{
    reveal(Jit::generate_func);
    lemma_begin_function(j, function);
    let (a, entry) = j.begin_function(function);
    lemma_declare_arguments(a, function, method);
    let b = a.declare_arguments(function, method).unwrap();
    lemma_grows_keeps(a, b);
    lemma_compile_body(b, function, entry, method);
    let c = b.compile_body(function, entry, method).unwrap();
    lemma_grows_keeps(b, c);
    let k = j.generate_func(function, method).unwrap();
    assert(b.module.fits());
    law_arguments_are_declared(a, function, method);
    law_body_is_compiled(b, function, entry, method);
    let tys = argument_types(method);
    let first = j.module.insts.len() as int;
    assert(a.module.insts == j.module.insts);
    assert forall|i: int| 0 <= i < tys.len() implies holds_parameter(
        k,
        function,
        i as usize,
        #[trigger] tys[i],
        first + 2 * i,
    ) by {
        assert(holds_parameter(b, function, i as usize, tys[i], first + 2 * i));
        assert(c.module.insts[first + 2 * i] == b.module.insts[first + 2 * i]);
        assert(c.module.insts[first + 2 * i + 1] == b.module.insts[first + 2 * i + 1]);
        lemma_allocation_stays(b, k, first + 2 * i, tys[i]);
    }
    assert(has_locals(k, method.locals_ty@, first + 2 * tys.len())) by {
        assert forall|i: usize| #![trigger k.locals[i]] i < method.locals_ty@.len() implies {
            &&& k.locals.contains_key(i)
            &&& k.locals[i] == (TypedValue {
                ty: method.locals_ty@[i as int],
                val: ValueRef::Inst((first + 2 * tys.len() + i) as usize),
            })
            &&& allocates(k, first + 2 * tys.len() + i, method.locals_ty@[i as int])
        } by {
            assert(c.locals[i] == k.locals[i]);
        }
    }
    assert(c.module == k.module);
    assert(a.module.functions[function as int].blocks[0] == entry);
    assert(b.module.functions[function as int].blocks[0] == entry);
    assert(c.module.functions[function as int].blocks[0] == entry);
    assert(starts_at_entry(c));
}

/// Whether the function of a called method has been compiled, once and from that
/// method, on the way to `k`.
pub open spec fn was_generated(k: Jit, rva: u32) -> bool {
    exists|a: Jit| #[trigger] generates_on_the_way(a, k, rva)
}

/// Whether `a` is a state in which the function of a called method, which has no
/// blocks yet, is compiled on the way to `k`.
pub open spec fn generates_on_the_way(a: Jit, k: Jit, rva: u32) -> bool {
    &&& a.wf()
    &&& a.closed_up()
    &&& a.image == k.image
    &&& k.generated[rva] < a.module.functions.len()
    &&& a.module.functions[k.generated[rva] as int].blocks.len() == 0
    &&& a.generate_func(k.generated[rva], k.image.methods@[rva]) matches Some(b)
    &&& b.module.extends_to(k.module)
}

/// The queue only grows while a function is compiled.
proof fn lemma_queue_begins(j: Jit, function: FunctionRef, method: MethodBody)
    requires
        j.wf(),
        j.closed_up(),
        function < j.module.functions.len(),
        j.generate_func(function, method) is Some,
    ensures
        begins_with(j.generate_func(function, method).unwrap().queue, j.queue),
{
    reveal(Jit::generate_func);
    lemma_begin_function(j, function);
    let (a, entry) = j.begin_function(function);
    lemma_declare_arguments(a, function, method);
    let b = a.declare_arguments(function, method).unwrap();
    lemma_grows_keeps(a, b);
    lemma_compile_body(b, function, entry, method);
    let c = b.compile_body(function, entry, method).unwrap();
    lemma_grows_keeps(b, c);
    assert forall|i: int| 0 <= i < j.queue.len() implies #[trigger] c.queue[i] == j.queue[i] by {
        assert(b.queue[i] == a.queue[i]);
    }
}

/// When the queue has been worked off, each method that waited in it, or was called
/// meanwhile, has been compiled.
pub proof fn law_waiting_methods_are_compiled(j: Jit, rva: u32)
    requires
        j.wf(),
        j.closed_up(),
        j.sound(),
        j.generate_queued() matches Some(k) && k.module.fits() && k.generated.contains_key(rva),
        j.waits(rva) || !j.generated.contains_key(rva),
    ensures
        was_generated(j.generate_queued().unwrap(), rva),
    decreases j.pending(),
{
    let k = j.generate_queued().unwrap();
    if j.queue.len() > 0 {
        let (function, first) = j.queue[0];
        let a = Jit { queue: j.queue.subrange(1, j.queue.len() as int), ..j };
        let method = j.image.methods@[first];
        lemma_method_leaves_queue(j);
        lemma_closed_up_same(j, a);
        law_queue_is_worked_off(j);
        lemma_take_from_queue(j);
        let b = a.generate_func(function, method).unwrap();
        law_function_only_adds(a, function, method);
        lemma_queue_begins(a, function, method);
        lemma_generate_queued(b);
        assert(b.module.fits());
        assert(j.generated.contains_key(first) && j.generated[first] == function
            && j.module.functions[function as int].blocks.len() == 0) by {
            reveal(Jit::sound);
        }
        if first == rva {
            assert(b.generated[first] == function);
            assert(k.generated[first] == function);
            assert(generates_on_the_way(a, k, rva));
        } else {
            if j.waits(rva) {
                let i = choose|i: int| 0 <= i < j.queue.len() && (#[trigger] j.queue[i]).1 == rva;
                assert(a.queue[i - 1] == j.queue[i]);
                assert(b.queue[i - 1] == a.queue[i - 1]);
                assert(b.waits(rva));
            } else if b.generated.contains_key(rva) {
                assert(b.waits(rva));
            }
            lemma_pending_shrinks(j);
            law_waiting_methods_are_compiled(b, rva);
        }
    }
}

/// One method fewer may have to be compiled when the first of the queue has been.
proof fn lemma_pending_shrinks(j: Jit)
    requires
        j.wf(),
        j.closed_up(),
        j.queue.len() > 0,
        j.generate_queued() is Some,
    ensures
        ({
            let a = Jit { queue: j.queue.subrange(1, j.queue.len() as int), ..j };
            a.generate_func(j.queue[0].0, j.image.methods@[j.queue[0].1]).unwrap().pending()
                < j.pending()
        }),
{
}

/// Compiling a program compiles the body that it starts with, as a function
/// without arguments, with its local variables first, and then each method that it
/// may call.
#[verifier::rlimit(40)]
pub proof fn law_program_is_compiled(j: Jit, method: MethodBody)
    requires
        j.wf(),
        j.closed_up(),
        j.sound(),
        j.generate_main(method) matches Some((k, _)) && k.module.fits(),
    ensures
        ({
            let (k, main) = j.generate_main(method).unwrap();
            let first = j.module.insts.len() as int;
            &&& exists|b: Jit| #[trigger]
                body_was_compiled(method, b) && b.module.extends_to(k.module) && b.generating
                    == Some(main) && has_locals(b, method.locals_ty@, first) && (forall|id: usize|
                    !b.arguments.contains_key(id))
            &&& forall|rva: u32| #[trigger]
                k.generated.contains_key(rva) && !j.generated.contains_key(rva) ==> was_generated(
                    k,
                    rva,
                )
        }),
{
    let params = Seq::<LLVMType>::empty();
    lemma_forget_blocks(j);
    let start = j.forget_blocks();
    lemma_own_function(start, "yacht-Main"@, LLVMType::Void, params);
    let (a, main) = start.add_function("yacht-Main"@, LLVMType::Void, params);
    lemma_begin_function(a, main);
    let (b, entry) = a.begin_function(main);
    lemma_compile_body(b, main, entry, method);
    let c = b.compile_body(main, entry, method).unwrap();
    lemma_grows_keeps(b, c);
    lemma_generate_queued(c);
    let (k, _) = j.generate_main(method).unwrap();
    assert(c.module.fits());
    law_body_is_compiled(b, main, entry, method);
    assert(b.module.functions[main as int].blocks[0] == entry);
    assert(c.module.functions[main as int].blocks[0] == entry);
    assert(starts_at_entry(c));
    assert(body_was_compiled(method, c));
    assert forall|rva: u32| #[trigger]
        k.generated.contains_key(rva) && !j.generated.contains_key(rva) implies was_generated(
        k,
        rva,
    ) by {
        if c.generated.contains_key(rva) {
            assert(c.waits(rva));
        }
        law_waiting_methods_are_compiled(c, rva);
    }
}

/// The state in which the blocks of a body are compiled: each has a place in the
/// function, the first one the entry.
pub open spec fn with_blocks(
    a: Jit,
    function: FunctionRef,
    entry: BlockRef,
    blocks: Seq<Block>,
) -> Jit {
    Jit {
        basic_blocks: a.basic_blocks.insert(0, BasicBlockInfo::Positioned(entry)),
        ..a
    }.append_blocks(function, blocks, blocks.len())
}

/// A body is compiled if its branches lead to instructions, or right behind the
/// last, its local variables can be declared, and its blocks can be compiled.
pub proof fn law_body_compiles(
    j: Jit,
    function: FunctionRef,
    entry: BlockRef,
    method: MethodBody,
)
    requires
        j.steady(seq![]),
        j.generating == Some(function),
        entry < j.module.blocks.len(),
        j.declare_locals(method.locals_ty@, method.locals_ty@.len()) matches Some(a) ==> with_blocks(
            a,
            function,
            entry,
            basic_blocks(method.body@),
        ).module.fits(),
    ensures
        ({
            let blocks = basic_blocks(method.body@);
            j.compile_body(function, entry, method) is Some <==> {
                &&& targets_in_range(method.body@)
                &&& method.body@.len() < usize::MAX
                &&& j.declare_locals(method.locals_ty@, method.locals_ty@.len()) matches Some(a)
                &&& with_blocks(a, function, entry, blocks).compile_blocks(
                    blocks,
                    blocks.len(),
                ) is Some
            }
        }),
{
    reveal(Jit::compile_body);
    let blocks = basic_blocks(method.body@);
    let tys = method.locals_ty@;
    if targets_in_range(method.body@) && method.body@.len() < usize::MAX {
        if let Some(a) = j.declare_locals(tys, tys.len()) {
            lemma_declare_locals(j, tys, tys.len());
            lemma_grows_keeps(j, a);
            let b = Jit {
                basic_blocks: a.basic_blocks.insert(0, BasicBlockInfo::Positioned(entry)),
                ..a
            };
            let c = b.append_blocks(function, blocks, blocks.len());
            assert(c == with_blocks(a, function, entry, blocks));
            if let Some((d, done)) = c.compile_blocks(blocks, blocks.len()) {
                lemma_blocks_are_new(b, function, blocks, blocks.len());
                lemma_blocks_keep(c, blocks, blocks.len());
                law_blocks_are_runs(method.body@);
                lemma_blocks_kept_so_far(c, blocks, blocks.len());
                let last = blocks[blocks.len() - 1];
                assert(done.last().start == last.start);
                assert(c.basic_blocks.contains_key(last.start));
                assert(d.basic_blocks.contains_key(last.start));
            }
        }
    }
}

/// The function of a method is compiled if its arguments can be declared and its
/// body can be compiled.
pub proof fn law_function_compiles(j: Jit, function: FunctionRef, method: MethodBody)
    ensures
        ({
            let (a, entry) = j.begin_function(function);
            j.generate_func(function, method) is Some <==> {
                &&& a.declare_arguments(function, method) matches Some(b)
                &&& b.compile_body(function, entry, method) is Some
            }
        }),
        ({
            let (a, entry) = j.begin_function(function);
            &&& a.pos == entry
            &&& entry == j.module.blocks.len() as usize
            &&& a.generating == Some(function)
            &&& forall|id: usize| !a.locals.contains_key(id)
            &&& forall|id: usize| !a.arguments.contains_key(id)
            &&& a.module.insts == j.module.insts
            &&& a.basic_blocks == j.basic_blocks
        }),
{
    reveal(Jit::generate_func);
}

/// A program is compiled if the body that it starts with can be compiled, as a
/// function of its own, and then all methods that wait.
pub proof fn law_program_compiles(j: Jit, method: MethodBody)
    ensures
        ({
            let main = j.module.functions.len() as usize;
            let module = ModuleSpec {
                functions: j.module.functions.push(
                    FunctionSpec {
                        name: "yacht-Main"@,
                        ret: LLVMType::Void,
                        params: seq![],
                        blocks: seq![],
                    },
                ),
                ..j.module
            };
            let start = Jit {
                module,
                basic_blocks: Map::empty(),
                phi_stack: Map::empty(),
                ..j
            };
            let (a, entry) = start.begin_function(main);
            j.generate_main(method) is Some <==> {
                &&& a.compile_body(main, entry, method) matches Some(b)
                &&& b.generate_queued() is Some
            }
        }),
{
}

} // verus!
