//! What holds of every compilation.
use vstd::prelude::*;

use crate::exec::jit::cfg::{Block, Exit};
use crate::exec::jit::growth::{
    lemma_closed_up_same, lemma_compile_body, lemma_declare_arguments,
};
use crate::exec::jit::model::{
    Receiver, find_block, lemma_mark_generated, mark_generated, ungenerated,
};
use crate::exec::jit::module::{FunctionRef, LLVMType};
use crate::exec::jit::sound::{
    lemma_begin_function, lemma_extends_transitive, lemma_grows_keeps,
    lemma_own_function, lemma_take_from_queue,
};
use crate::exec::jit::state::{Jit, TypedValue, lemma_method_leaves_queue};
use crate::exec::jit::types::{lemma_types_grow_transitive, lower_all, types_grow};
use crate::exec::jit::types_laws::{
    law_lowering_is_stable, lemma_lower_all_at, lemma_lower_all_grows, lemma_lower_class_grows,
};
use crate::metadata::image::Image;
use crate::metadata::method::MethodBody;
use crate::metadata::signature::{ElementType, Type};

verus! {

/// Whether two lists hold the same blocks, and no block that has been compiled
/// in `before` has not in `after`.
pub open spec fn blocks_kept(before: Seq<Block>, after: Seq<Block>) -> bool {
    &&& after.len() == before.len()
    &&& forall|i: int|
        0 <= i < before.len() ==> #[trigger] after[i] == (Block {
            generated: after[i].generated,
            ..before[i]
        }) && (before[i].generated ==> after[i].generated)
}

/// Compiling a block changes no block, but for marking blocks as compiled: this
/// one, and perhaps others. A block that is marked stays marked, so no block is
/// compiled twice.
pub proof fn law_blocks_stay_generated(
    j: Jit,
    blocks: Seq<Block>,
    idx: int,
    init: Seq<TypedValue>,
)
    requires
        j.compile_block(blocks, idx, init) is Some,
    ensures
        0 <= idx < blocks.len(),
        blocks_kept(blocks, j.compile_block(blocks, idx, init).unwrap().1),
        j.compile_block(blocks, idx, init).unwrap().1[idx].generated,
        ungenerated(j.compile_block(blocks, idx, init).unwrap().1).len() <= ungenerated(
            blocks,
        ).len(),
    decreases ungenerated(blocks).len(), 0nat,
{
    reveal(Jit::compile_block);
    reveal(Jit::compile_destinations);
    if !blocks[idx].generated {
        let marked = mark_generated(blocks, idx);
        lemma_mark_generated(blocks, idx);
        let (j2, stack) = j.compile_straight(blocks[idx], init).unwrap();
        if let Exit::Conditional { destinations } = blocks[idx].exit {
            lemma_destinations_stay_generated(
                j2,
                marked,
                destinations,
                stack,
                destinations.len(),
            );
        }
    }
}

/// [`law_blocks_stay_generated`] for the blocks that a block leads to.
pub proof fn lemma_destinations_stay_generated(
    j: Jit,
    blocks: Seq<Block>,
    destinations: Seq<usize>,
    stack: Seq<TypedValue>,
    n: nat,
)
    requires
        j.compile_destinations(blocks, destinations, stack, n) is Some,
    ensures
        blocks_kept(blocks, j.compile_destinations(blocks, destinations, stack, n).unwrap().1),
        ungenerated(
            j.compile_destinations(blocks, destinations, stack, n).unwrap().1,
        ).len() <= ungenerated(blocks).len(),
    decreases ungenerated(blocks).len(), n,
{
    reveal(Jit::compile_block);
    reveal(Jit::compile_destinations);
    if n > 0 {
        lemma_destinations_stay_generated(j, blocks, destinations, stack, (n - 1) as nat);
        let (j2, done, d) = j.compile_destinations(
            blocks,
            destinations,
            stack,
            (n - 1) as nat,
        ).unwrap();
        if let Some(i) = find_block(done, destinations[n - 1]) {
            law_blocks_stay_generated(j2, done, i, stack);
        }
    }
}

/// A method that has been called has its function ever after: however the
/// compilation goes on, to call it again adds no function and puts nothing in
/// the queue.
pub proof fn law_method_joins_queue_once(
    j: Jit,
    rva: u32,
    receiver: Receiver,
    later: Jit,
    again: Receiver,
)
    requires
        j.callee(rva, receiver) matches Some((k, _)) && k.grows_to(later),
    ensures
        later.callee(rva, again) == Some((later, j.callee(rva, receiver).unwrap().1)),
{
    let (k, f) = j.callee(rva, receiver).unwrap();
    assert(k.generated.contains_key(rva) && k.generated[rva] == f);
    lemma_grows_keeps(k, later);
}

/// The function of a method, when the method is called for the first time, has
/// the types of the method's result and parameters, in order; what it takes in
/// front of the parameters comes first.
pub proof fn law_function_has_signature(j: Jit, rva: u32, receiver: Receiver, i: int)
    requires
        !j.generated.contains_key(rva),
        0 <= i < j.image.methods@[rva].signature.params.len(),
        j.callee(rva, receiver) matches Some((k, _)) && k.module.fits(),
    ensures
        ({
            let signature = j.image.methods@[rva].signature;
            let (k, f) = j.callee(rva, receiver).unwrap();
            let func = k.module.functions[f as int];
            let first: int = if receiver is Nothing {
                0
            } else {
                1
            };
            &&& f == j.module.functions.len()
            &&& func.name == j.image.methods@[rva].name@
            &&& k.lower(signature.ret) == Some((k, func.ret))
            &&& func.params.len() == first + signature.params.len()
            &&& k.lower(signature.params[i]) == Some((k, func.params[first + i]))
            &&& receiver matches Receiver::Class(class) ==> k.lower(
                Type { base: ElementType::Class(class) },
            ) == Some((k, func.params[0]))
            &&& receiver matches Receiver::Lowered(lty) ==> func.params[0] == lty
        }),
{
    let signature = j.image.methods@[rva].signature;
    let tys = signature.params@;
    let (k, f) = j.callee(rva, receiver).unwrap();
    let (a, ret) = j.lower(signature.ret).unwrap();
    let (b, first) = a.lower_receiver(receiver).unwrap();
    let (c, rest) = b.lower_all(tys).unwrap();
    if let Receiver::Class(class) = receiver {
        lemma_lower_class_grows(a.image, a.types, class);
    }
    lemma_lower_all_grows(b.image, b.types, tys, tys.len());
    lemma_types_grow_transitive(a.types, b.types, c.types);
    law_lowering_is_stable(j.image, j.types, signature.ret, c.types);
    lemma_lower_all_at(b.image, b.types, tys, tys.len(), i);
    let (t, _) = lower_all(b.image, b.types, tys, i as nat).unwrap();
    law_lowering_is_stable(b.image, t, tys[i], c.types);
    if let Receiver::Class(class) = receiver {
        let ty = Type { base: ElementType::Class(class) };
        law_lowering_is_stable(a.image, a.types, ty, c.types);
    }
}

/// The function of a called method, when it is compiled, gets its entry block
/// and maybe more; everything else that is there stays as it is, under the same
/// numbers.
pub proof fn law_function_only_adds(j: Jit, function: FunctionRef, method: MethodBody)
    requires
        j.wf(),
        j.closed_up(),
        function < j.module.functions.len(),
        j.generate_func(function, method) is Some,
    ensures
        ({
            let k = j.generate_func(function, method).unwrap();
            &&& k.wf()
            &&& k.closed_up()
            &&& k.image == j.image
            &&& k.builtins == j.builtins
            &&& j.module.extends_to(k.module)
            &&& k.module.functions[function as int].blocks.len() > 0
            &&& types_grow(j.types, k.types)
            &&& k.pending() <= j.pending()
            &&& forall|rva: u32| #[trigger]
                j.generated.contains_key(rva) ==> k.generated.contains_key(rva)
                    && k.generated[rva] == j.generated[rva]
            &&& forall|rva: u32| #[trigger]
                k.generated.contains_key(rva) ==> j.generated.contains_key(rva) || k.waits(rva)
            &&& k.module.fits() && j.sound_but(function) ==> k.sound()
        }),
{
    reveal(Jit::generate_func);
    lemma_begin_function(j, function);
    let (k, entry) = j.begin_function(function);
    lemma_declare_arguments(k, function, method);
    let l = k.declare_arguments(function, method).unwrap();
    lemma_grows_keeps(k, l);
    lemma_compile_body(l, function, entry, method);
    let m = l.compile_body(function, entry, method).unwrap();
    lemma_grows_keeps(l, m);
    lemma_extends_transitive(j.module, k.module, l.module);
    lemma_extends_transitive(j.module, l.module, m.module);
    lemma_types_grow_transitive(k.types, l.types, m.types);
    lemma_forget_blocks(m);
    assert(m.module.extends_to(m.module));
    let last = m.forget_blocks();
    assert forall|rva: u32| #[trigger] last.generated.contains_key(
        rva,
    ) implies j.generated.contains_key(rva) || last.waits(rva) by {
        if !j.generated.contains_key(rva) {
            if l.generated.contains_key(rva) {
                let i = choose|i: int| 0 <= i < l.queue.len() && (#[trigger] l.queue[i]).1 == rva;
                assert(m.queue[i] == l.queue[i]);
                assert(last.queue[i].1 == rva);
            } else {
                let i = choose|i: int| 0 <= i < m.queue.len() && (#[trigger] m.queue[i]).1 == rva;
                assert(last.queue[i].1 == rva);
            }
        }
    }
}

/// To forget the blocks of a method takes nothing away from the module.
pub proof fn lemma_forget_blocks(j: Jit)
    requires
        j.wf(),
        j.closed_up(),
    ensures
        j.forget_blocks().wf(),
        j.forget_blocks().closed_up(),
        j.forget_blocks().pending() == j.pending(),
        j.sound() ==> j.forget_blocks().sound(),
{
    let k = j.forget_blocks();
    assert(k.uncalled() == j.uncalled());
    if j.sound() {
        reveal(Jit::sound);
        assert forall|rva: u32| #[trigger] k.generated.contains_key(rva) && j.waits(
            rva,
        ) implies k.waits(rva) by {
            let i = choose|i: int| 0 <= i < j.queue.len() && (#[trigger] j.queue[i]).1 == rva;
            assert(k.queue[i].1 == rva);
        }
    }
}

/// The methods in the queue are compiled one after the other, first come, first
/// served, until none is left: the test in [`Jit::generate_queued`] always holds.
pub proof fn law_queue_is_worked_off(j: Jit)
    requires
        j.wf(),
        j.closed_up(),
        j.queue.len() > 0,
    ensures
        j.generate_queued() == match (Jit {
            queue: j.queue.subrange(1, j.queue.len() as int),
            ..j
        }).generate_func(j.queue[0].0, j.image.methods@[j.queue[0].1]) {
            None => None,
            Some(k) => k.generate_queued(),
        },
{
    let (function, rva) = j.queue[0];
    let k = Jit { queue: j.queue.subrange(1, j.queue.len() as int), ..j };
    lemma_method_leaves_queue(j);
    lemma_closed_up_same(j, k);
    if k.generate_func(function, j.image.methods@[rva]) is Some {
        law_function_only_adds(k, function, j.image.methods@[rva]);
    }
}

/// When the queue has been worked off, nothing waits, and the state is sound if
/// it was.
pub proof fn lemma_generate_queued(j: Jit)
    requires
        j.wf(),
        j.closed_up(),
        j.generate_queued() is Some,
    ensures
        ({
            let k = j.generate_queued().unwrap();
            &&& k.queue.len() == 0
            &&& k.wf()
            &&& k.closed_up()
            &&& k.image == j.image
            &&& k.builtins == j.builtins
            &&& j.module.extends_to(k.module)
            &&& types_grow(j.types, k.types)
            &&& forall|rva: u32| #[trigger]
                j.generated.contains_key(rva) ==> k.generated.contains_key(rva)
                    && k.generated[rva] == j.generated[rva]
            &&& k.module.fits() && j.sound() ==> k.sound()
        }),
    decreases j.pending(),
{
    if j.queue.len() > 0 {
        let (function, rva) = j.queue[0];
        let k = Jit { queue: j.queue.subrange(1, j.queue.len() as int), ..j };
        lemma_method_leaves_queue(j);
        lemma_closed_up_same(j, k);
        law_queue_is_worked_off(j);
        let l = k.generate_func(function, j.image.methods@[rva]).unwrap();
        law_function_only_adds(k, function, j.image.methods@[rva]);
        lemma_generate_queued(l);
        let m = l.generate_queued().unwrap();
        lemma_extends_transitive(j.module, l.module, m.module);
        lemma_types_grow_transitive(j.types, l.types, m.types);
        if m.module.fits() && j.sound() {
            lemma_take_from_queue(j);
        }
    } else {
        assert(j.module.extends_to(j.module));
    }
}

/// A new compiler's state is sound, refers to nothing that is not there, and has
/// nothing in its queue.
pub proof fn law_new_compiler_is_sound(image: Image)
    ensures
        Jit::initial(image).wf(),
        Jit::initial(image).closed_up(),
        Jit::initial(image).sound(),
        Jit::initial(image).queue.len() == 0,
{
    reveal(Jit::sound);
}

/// Compiling a program only adds to the module, and leaves a complete one:
///
/// * nothing waits to be compiled any more;
/// * the program's own function takes and returns nothing and has been compiled;
/// * each method that is called has one function, of its own, with its name, and
///   it has been compiled; the functions that the engine provides have not;
/// * each instruction stands once, in its block, and each block once, in its
///   function;
/// * variables are allocated in entry blocks only, in front of everything else;
/// * no instruction refers to a function, a block, a result or a string that is not
///   there.
#[verifier::rlimit(50)]
pub proof fn law_program_is_complete(j: Jit, method: MethodBody)
    requires
        j.wf(),
        j.closed_up(),
        j.sound(),
        j.generate_main(method) matches Some((k, _)) && k.module.fits(),
    ensures
        ({
            let (k, main) = j.generate_main(method).unwrap();
            let f = k.module.functions[main as int];
            &&& j.module.extends_to(k.module)
            &&& types_grow(j.types, k.types)
            &&& k.queue.len() == 0
            &&& main == j.module.functions.len()
            &&& main < k.module.functions.len()
            &&& f.name == "yacht-Main"@
            &&& f.ret == LLVMType::Void
            &&& f.params == Seq::<LLVMType>::empty()
            &&& f.blocks.len() > 0
            &&& forall|rva: u32| #[trigger]
                k.generated.contains_key(rva) ==> {
                    &&& j.image.methods@.contains_key(rva)
                    &&& k.generated[rva] < k.module.functions.len()
                    &&& k.module.functions[k.generated[rva] as int].name
                        == j.image.methods@[rva].name@
                    &&& k.module.functions[k.generated[rva] as int].blocks.len() > 0
                }
            &&& forall|r: u32, s: u32| #[trigger]
                k.generated.contains_key(r) && #[trigger] k.generated.contains_key(s) && r != s
                    ==> k.generated[r] != k.generated[s]
            &&& forall|name: Seq<char>| #[trigger]
                k.builtins.contains_key(name) ==> {
                    &&& k.builtins[name] < k.module.functions.len()
                    &&& k.module.functions[k.builtins[name] as int].blocks.len() == 0
                }
            &&& k.module.consistent()
            &&& k.module.variables_first()
            &&& k.module.closed_up()
            &&& k.wf()
            &&& k.closed_up()
            &&& k.sound()
        }),
{
    let params = Seq::<LLVMType>::empty();
    lemma_forget_blocks(j);
    let start = j.forget_blocks();
    lemma_own_function(start, "yacht-Main"@, LLVMType::Void, params);
    let (a, main) = start.add_function("yacht-Main"@, LLVMType::Void, params);
    lemma_begin_function(a, main);
    let (b, entry) = a.begin_function(main);
    lemma_compile_body(b, main, entry, method);
    let c = b.compile_body(main, entry, method).unwrap();
    lemma_grows_keeps(b, c);
    lemma_generate_queued(c);
    let k = c.generate_queued().unwrap();
    lemma_extends_transitive(j.module, a.module, b.module);
    lemma_extends_transitive(j.module, b.module, c.module);
    lemma_extends_transitive(j.module, c.module, k.module);
    lemma_extends_transitive(b.module, c.module, k.module);
    lemma_types_grow_transitive(j.types, c.types, k.types);
    reveal(Jit::sound);
    assert(k.module.functions[main as int].name == b.module.functions[main as int].name);
}

/// A new compiler has the functions that the engine provides, and no other: two
/// that write an integer or a string and return nothing, and one that gives memory
/// of a size. They are only declared.
pub proof fn law_new_compiler_provides(image: Image)
    ensures
        ({
            let j = Jit::initial(image);
            let int_writer = j.module.functions[j.builtins["WriteLine(int)"@] as int];
            let text_writer = j.module.functions[j.builtins["WriteLine(string)"@] as int];
            let allocator = j.module.functions[j.builtins["memory_alloc"@] as int];
            &&& j.image == image
            &&& j.module.functions.len() == 3
            &&& j.builtins["WriteLine(int)"@] < 3
            &&& j.builtins["WriteLine(string)"@] < 3
            &&& j.builtins["memory_alloc"@] < 3
            &&& int_writer.name == "WriteLine(int)"@
            &&& int_writer.ret == LLVMType::Void
            &&& int_writer.params == seq![LLVMType::Int32]
            &&& int_writer.blocks.len() == 0
            &&& text_writer.name == "WriteLine(string)"@
            &&& text_writer.ret == LLVMType::Void
            &&& text_writer.params == seq![LLVMType::Int8Ptr]
            &&& text_writer.blocks.len() == 0
            &&& allocator.name == "memory_alloc"@
            &&& allocator.ret == LLVMType::Int8Ptr
            &&& allocator.params == seq![LLVMType::Int32]
            &&& allocator.blocks.len() == 0
            &&& j.module.blocks.len() == 0
            &&& j.module.insts.len() == 0
            &&& j.generated == Map::<u32, FunctionRef>::empty()
            &&& j.queue.len() == 0
        }),
{
    reveal_strlit("WriteLine(int)");
    reveal_strlit("WriteLine(string)");
    reveal_strlit("memory_alloc");
    assert("WriteLine(int)"@.len() == 14);
    assert("WriteLine(string)"@.len() == 17);
    assert("memory_alloc"@.len() == 12);
}

} // verus!
