//! What holds of the code of basic blocks, and of how control and the stack pass
//! from one to another.
use vstd::prelude::*;

use crate::exec::jit::cfg::{Block, Exit};
use crate::exec::jit::compiler_laws::{
    blocks_kept, law_blocks_stay_generated, lemma_destinations_stay_generated,
};
use crate::exec::jit::context_laws::{keeps_context, law_block_keeps_context};
use crate::exec::jit::growth::{
    lemma_build_phi_stack, lemma_compile_block, lemma_compile_blocks, lemma_compile_bytecode,
    lemma_compile_destinations, lemma_compile_instr, lemma_compile_straight,
    lemma_get_basic_block, lemma_record_block, lemma_required_jump,
};
use crate::exec::jit::model::{
    find_block, is_block, lemma_mark_generated, mark_generated, ungenerated,
};
use crate::exec::jit::module::{BlockRef, Op, ValueRef};
use crate::exec::jit::phi_laws::{can_merge, law_phis_merge_stacks};
use crate::exec::jit::placement_laws::{
    built_in_block, law_instruction_is_built_in_its_block, lemma_built_transitive,
    lemma_emit_builds, lemma_nothing_built,
};
use crate::exec::jit::sound::{lemma_extends_transitive, lemma_grows_keeps, lemma_values_stay};
use crate::exec::jit::state::{BasicBlockInfo, Jit, PhiSpec, TypedValue};

verus! {

/// A part of a block: the instructions from `from` up to, not including, `to`.
pub open spec fn part_of(block: Block, from: int, to: int) -> Block {
    Block { code: block.code.subrange(from, to), ..block }
}

/// What comes of the first instructions depends on them alone.
proof fn lemma_same_beginning(
    j: Jit,
    stack: Seq<TypedValue>,
    a: Block,
    b: Block,
    n: nat,
)
    requires
        n <= a.code.len(),
        n <= b.code.len(),
        a.exit == b.exit,
        forall|i: int| 0 <= i < n ==> #[trigger] a.code[i] == b.code[i],
    ensures
        j.compile_bytecode(stack, a, n) == j.compile_bytecode(stack, b, n),
    decreases n,
{
    if n > 0 {
        lemma_same_beginning(j, stack, a, b, (n - 1) as nat);
    }
}

/// The code of a block is compiled in order, and all of it: to compile it is to
/// compile a first part, of any length, and then the rest. No code leaves
/// everything as it is, and one instruction is compiled as such.
pub proof fn law_code_is_compiled_in_order(
    j: Jit,
    stack: Seq<TypedValue>,
    block: Block,
    n: nat,
)
    requires
        n <= block.code.len(),
    ensures
        ({
            let len = block.code.len();
            let first = part_of(block, 0, n as int);
            let rest = part_of(block, n as int, len as int);
            j.compile_bytecode(stack, block, len) == match j.compile_bytecode(stack, first, n) {
                None => None,
                Some((a, part)) => a.compile_bytecode(part, rest, (len - n) as nat),
            }
        }),
        block.code.len() == 0 ==> j.compile_bytecode(stack, block, 0) == Some((j, stack)),
        block.code.len() == 1 ==> j.compile_bytecode(stack, block, 1) == j.compile_instr(
            stack,
            block.code[0],
            block.exit,
        ),
{
    lemma_parts_join(j, stack, block, n, block.code.len());
    lemma_same_beginning(j, stack, block, part_of(block, 0, n as int), n);
    reveal_with_fuel(Jit::compile_bytecode, 2);
}

proof fn lemma_parts_join(j: Jit, stack: Seq<TypedValue>, block: Block, n: nat, m: nat)
    requires
        n <= m <= block.code.len(),
    ensures
        ({
            let rest = part_of(block, n as int, block.code.len() as int);
            j.compile_bytecode(stack, block, m) == match j.compile_bytecode(stack, block, n) {
                None => None,
                Some((a, part)) => a.compile_bytecode(part, rest, (m - n) as nat),
            }
        }),
    decreases m,
{
    if n < m {
        lemma_parts_join(j, stack, block, n, (m - 1) as nat);
        let rest = part_of(block, n as int, block.code.len() as int);
        assert(rest.code[m - n - 1] == block.code[m - 1]);
    }
}

proof fn lemma_bytecode_builds(j: Jit, stack: Seq<TypedValue>, block: Block, n: nat)
    requires
        j.steady(stack),
        n <= block.code.len(),
        j.compile_bytecode(stack, block, n) matches Some((k, _)) && k.module.fits(),
    ensures
        built_in_block(j, j.compile_bytecode(stack, block, n).unwrap().0),
    decreases n,
{
    if n == 0 {
        lemma_nothing_built(j, j);
    } else {
        let m = (n - 1) as nat;
        let (a, part) = j.compile_bytecode(stack, block, m).unwrap();
        let (k, _) = j.compile_bytecode(stack, block, n).unwrap();
        lemma_compile_bytecode(j, stack, block, m);
        lemma_compile_instr(a, part, block.code[n - 1], block.exit);
        lemma_grows_keeps(a, k);
        lemma_bytecode_builds(j, stack, block, m);
        law_instruction_is_built_in_its_block(a, part, block.code[n - 1], block.exit);
        lemma_built_transitive(j, a, k);
    }
}

proof fn lemma_first_phis_build(j: Jit, stack: Seq<TypedValue>, phi: PhiSpec, n: nat)
    requires
        j.pos < j.module.blocks.len(),
        j.first_phis(stack, phi, n).0.module.insts.len() <= usize::MAX,
    ensures
        built_in_block(j, j.first_phis(stack, phi, n).0),
        j.first_phis(stack, phi, n).0.module.blocks.len() == j.module.blocks.len(),
        j.first_phis(stack, phi, n).0.pos == j.pos,
    decreases n,
{
    if n == 0 {
        lemma_nothing_built(j, j);
    } else {
        let (a, part) = j.first_phis(stack, phi, (n - 1) as nat);
        let (k, _) = j.first_phis(stack, phi, n);
        lemma_first_phis_build(j, stack, phi, (n - 1) as nat);
        let op = Op::<Seq<ValueRef>>::Phi { like: phi.stack[n - 1].val };
        lemma_emit_builds(a, op);
        let b = a.emit(op).0;
        lemma_nothing_built(b, k);
        lemma_built_transitive(j, a, b);
        lemma_built_transitive(j, b, k);
    }
}

proof fn lemma_add_phis_build(j: Jit, stack: Seq<TypedValue>, base: nat, phi: PhiSpec, n: nat)
    ensures
        j.add_phis(stack, base, phi, n) matches Some(k) ==> k.module.insts == j.module.insts
            && k.module.blocks == j.module.blocks && k.pos == j.pos,
    decreases n,
{
    if n > 0 {
        lemma_add_phis_build(j, stack, base, phi, (n - 1) as nat);
    }
}

proof fn lemma_more_phis_build(
    j: Jit,
    stack: Seq<TypedValue>,
    base: nat,
    phis: Seq<PhiSpec>,
    n: nat,
)
    ensures
        j.more_phis(stack, base, phis, n) matches Some(k) ==> k.module.insts == j.module.insts
            && k.module.blocks == j.module.blocks && k.pos == j.pos,
    decreases n,
{
    if n > 1 {
        lemma_more_phis_build(j, stack, base, phis, (n - 1) as nat);
        if let Some(a) = j.more_phis(stack, base, phis, (n - 1) as nat) {
            lemma_add_phis_build(a, stack, base, phis[n - 1], phis[n - 1].stack.len());
        }
    }
}

proof fn lemma_phi_stack_builds(j: Jit, start: usize, stack: Seq<TypedValue>)
    requires
        j.pos < j.module.blocks.len(),
        j.build_phi_stack(start, stack) matches Some((k, _)) && k.module.insts.len() <= usize::MAX,
    ensures
        built_in_block(j, j.build_phi_stack(start, stack).unwrap().0),
{
    reveal(Jit::build_phi_stack);
    if j.phi_stack.contains_key(start) {
        let phis = j.phi_stack[start];
        let (a, full) = j.first_phis(stack, phis[0], phis[0].stack.len());
        lemma_more_phis_build(a, full, stack.len(), phis, phis.len());
        lemma_first_phis_build(j, stack, phis[0], phis[0].stack.len());
        let (k, _) = j.build_phi_stack(start, stack).unwrap();
        lemma_nothing_built(a, k);
        lemma_built_transitive(j, a, k);
    } else {
        lemma_nothing_built(j, j);
    }
}

/// The state in which the code of the block that starts at `start` is compiled:
/// the builder is at the end of its block.
pub open spec fn at_block(j: Jit, start: usize) -> Jit {
    let bb = j.basic_blocks[start].block();
    Jit {
        pos: bb,
        basic_blocks: j.basic_blocks.insert(start, BasicBlockInfo::Positioned(bb)),
        ..j
    }
}

/// The code of a basic block goes to the block of its start, and nowhere else:
/// first what puts together the stacks that come in, then all of its instructions,
/// which begin with those values on top of the stack.
pub proof fn law_block_code_goes_to_its_block(j: Jit, block: Block, init: Seq<TypedValue>)
    requires
        j.steady(init),
        j.compile_straight(block, init) matches Some((k, _)) && k.module.fits(),
    ensures
        j.basic_blocks.contains_key(block.start),
        ({
            let a = at_block(j, block.start);
            let (k, stack) = j.compile_straight(block, init).unwrap();
            &&& k.pos == j.basic_blocks[block.start].block()
            &&& built_in_block(a, k)
            &&& if j.phi_stack.contains_key(block.start) {
                &&& a.build_phi_stack(block.start, init) matches Some((b, full))
                &&& b.compile_bytecode(full, block, block.code.len()) == Some((k, stack))
            } else {
                a.compile_bytecode(init, block, block.code.len()) == Some((k, stack))
            }
        }),
{
    reveal(Jit::compile_straight);
    let bb = j.basic_blocks[block.start].block();
    let a = at_block(j, block.start);
    let (k, stack) = j.compile_straight(block, init).unwrap();
    assert(a =~= j.set_positioned(block.start).position(bb));
    lemma_record_block(j, init, block.start, BasicBlockInfo::Positioned(bb), bb);
    lemma_build_phi_stack(a, block.start, init);
    let (b, full) = a.build_phi_stack(block.start, init).unwrap();
    lemma_compile_bytecode(b, full, block, block.code.len());
    lemma_grows_keeps(b, k);
    lemma_phi_stack_builds(a, block.start, init);
    lemma_bytecode_builds(b, full, block, block.code.len());
    lemma_built_transitive(a, b, k);
    assert(k.pos == a.pos) by {
        reveal(built_in_block);
    }
    assert(!j.phi_stack.contains_key(block.start) ==> a.build_phi_stack(block.start, init) == Some(
        (a, init),
    )) by {
        reveal(Jit::build_phi_stack);
    }
}

/// Whether `after` is `before` with the block at `idx` marked.
pub open spec fn marked_at(before: Seq<Block>, after: Seq<Block>, idx: int) -> bool {
    &&& after.len() == before.len()
    &&& after[idx] == (Block { generated: true, ..before[idx] })
    &&& forall|i: int| 0 <= i < before.len() && i != idx ==> #[trigger] after[i] == before[i]
}

/// Whether `k` records that control comes in at `destination` from the block
/// `src_bb` with this stack, behind what was recorded before. What comes in
/// elsewhere stays.
pub open spec fn comes_in(
    a: Jit,
    k: Jit,
    destination: usize,
    src_bb: BlockRef,
    stack: Seq<TypedValue>,
) -> bool {
    let before = if a.phi_stack.contains_key(destination) {
        a.phi_stack[destination].len()
    } else {
        0
    };
    &&& k.phi_stack.contains_key(destination)
    &&& k.phi_stack[destination].len() == before + 1
    &&& k.phi_stack[destination][before as int].src_bb == src_bb
    &&& k.phi_stack[destination][before as int].stack == stack
    &&& forall|i: int|
        0 <= i < before ==> #[trigger] k.phi_stack[destination][i] == a.phi_stack[destination][i]
    &&& forall|d: usize| d != destination ==> #[trigger] k.phi_stack.contains_key(d)
        == a.phi_stack.contains_key(d)
    &&& forall|d: usize| d != destination ==> #[trigger] k.phi_stack[d] == a.phi_stack[d]
}

/// A block that passes control to one place passes its stack there: it is recorded
/// as coming in from the block. Where the block ends because another starts
/// behind it, the passage is built as well. The block is marked.
pub proof fn law_block_passes_stack_on(
    j: Jit,
    blocks: Seq<Block>,
    idx: int,
    init: Seq<TypedValue>,
    destination: usize,
)
    requires
        0 <= idx < blocks.len(),
        !blocks[idx].generated,
        blocks[idx].exit == (Exit::Unconditional { destination }) || blocks[idx].exit == (
        Exit::Required { destination }),
        j.compile_straight(blocks[idx], init) matches Some((a, _))
            && a.basic_blocks.contains_key(blocks[idx].start),
    ensures
        ({
            let (a, stack) = j.compile_straight(blocks[idx], init).unwrap();
            let src_bb = a.basic_blocks[blocks[idx].start].block();
            &&& j.compile_block(blocks, idx, init) matches Some((k, after, next))
            &&& next == destination
            &&& marked_at(blocks, after, idx)
            &&& comes_in(a, k, destination, src_bb, stack)
            &&& k.module == if blocks[idx].exit is Required {
                a.required_jump(destination).module
            } else {
                a.module
            }
        }),
{
    reveal(Jit::compile_block);
    reveal(Jit::compile_destinations);
}

/// A block that ends with the body passes nothing on. The block is marked.
pub proof fn law_last_block_passes_nothing_on(
    j: Jit,
    blocks: Seq<Block>,
    idx: int,
    init: Seq<TypedValue>,
)
    requires
        0 <= idx < blocks.len(),
        !blocks[idx].generated,
        blocks[idx].exit is BodyEnd,
        j.compile_straight(blocks[idx], init) is Some,
    ensures
        ({
            let (a, stack) = j.compile_straight(blocks[idx], init).unwrap();
            &&& j.compile_block(blocks, idx, init) matches Some((k, after, _))
            &&& k == a
            &&& marked_at(blocks, after, idx)
        }),
{
    reveal(Jit::compile_block);
    reveal(Jit::compile_destinations);
}

/// A block that has been compiled is not compiled again.
pub proof fn law_compiled_block_is_left(
    j: Jit,
    blocks: Seq<Block>,
    idx: int,
    init: Seq<TypedValue>,
)
    requires
        0 <= idx < blocks.len(),
        blocks[idx].generated,
    ensures
        j.compile_block(blocks, idx, init) matches Some((k, after, _)) && k == j && after
            == blocks,
{
    reveal(Jit::compile_block);
    reveal(Jit::compile_destinations);
}

/// A block that ends in a branch that compares passes its stack to both
/// destinations: the block that starts at the target is compiled next, and then
/// the one that starts behind, each with the stack that is left.
pub proof fn law_branch_passes_stack_on(
    j: Jit,
    blocks: Seq<Block>,
    idx: int,
    init: Seq<TypedValue>,
    target: usize,
    next: usize,
    t: int,
    n: int,
)
    requires
        0 <= idx < blocks.len(),
        !blocks[idx].generated,
        blocks[idx].exit == (Exit::Conditional { destinations: seq![target, next] }),
        j.compile_straight(blocks[idx], init) is Some,
        // the first blocks that start there
        0 <= t < blocks.len() && blocks[t].start == target,
        forall|i: int| 0 <= i < t ==> (#[trigger] blocks[i]).start != target,
        0 <= n < blocks.len() && blocks[n].start == next,
        forall|i: int| 0 <= i < n ==> (#[trigger] blocks[i]).start != next,
    ensures
        ({
            let (a, stack) = j.compile_straight(blocks[idx], init).unwrap();
            let marked = blocks.update(idx, Block { generated: true, ..blocks[idx] });
            j.compile_block(blocks, idx, init) == match a.compile_block(marked, t, stack) {
                None => None,
                Some((b, done, _)) => b.compile_block(done, n, stack),
            }
        }),
{
    reveal(Jit::compile_block);
    reveal(Jit::compile_destinations);
    let (a, stack) = j.compile_straight(blocks[idx], init).unwrap();
    let destinations = seq![target, next];
    let marked = mark_generated(blocks, idx);
    lemma_mark_generated(blocks, idx);
    lemma_find_block(marked, target, t);
    assert(a.compile_destinations(marked, destinations, stack, 0) == Some((a, marked, 0usize)));
    assert(a.compile_destinations(marked, destinations, stack, 1) == a.compile_block(
        marked,
        t,
        stack,
    ));
    if let Some((b, done, _)) = a.compile_block(marked, t, stack) {
        law_blocks_stay_generated(a, marked, t, stack);
        assert forall|i: int| 0 <= i < blocks.len() implies (#[trigger] done[i]).start
            == blocks[i].start by {
            assert(marked[i].start == blocks[i].start);
        }
        lemma_find_block(done, next, n);
        assert(a.compile_destinations(marked, destinations, stack, 2) == b.compile_block(
            done,
            n,
            stack,
        ));
    }
    assert(destinations.len() == 2);
}

proof fn lemma_find_block(blocks: Seq<Block>, start: usize, i: int)
    requires
        0 <= i < blocks.len(),
        blocks[i].start == start,
        forall|k: int| 0 <= k < i ==> (#[trigger] blocks[k]).start != start,
    ensures
        find_block(blocks, start) == Some(i),
{
    assert(is_block(blocks, start, i));
    let c = choose|c: int| is_block(blocks, start, c);
    assert(c == i) by {
        if c < i {
            assert(blocks[c].start != start);
        } else if i < c {
            assert(blocks[i].start != start);
        }
    }
}

/// Whether `a` is a state in which the code of a block is built, with this stack,
/// on the way to `k`, with the variables that `k` has.
pub open spec fn compiles_on_the_way(a: Jit, b: Block, init: Seq<TypedValue>, k: Jit) -> bool {
    &&& a.steady(init)
    &&& a.compile_straight(b, init) matches Some((c, _))
    &&& c.module.extends_to(k.module)
    &&& keeps_context(a, k)
}

/// Whether the code of a block has been built on the way to `k`.
pub open spec fn was_compiled(b: Block, k: Jit) -> bool {
    exists|a: Jit, init: Seq<TypedValue>| compiles_on_the_way(a, b, init, k)
}

pub proof fn lemma_was_compiled_stays(b: Block, k: Jit, l: Jit)
    requires
        was_compiled(b, k),
        k.module.extends_to(l.module),
        keeps_context(k, l),
    ensures
        was_compiled(b, l),
{
    let (a, init): (Jit, Seq<TypedValue>) = choose|a: Jit, init: Seq<TypedValue>|
        compiles_on_the_way(a, b, init, k);
    lemma_extends_transitive(a.compile_straight(b, init).unwrap().0.module, k.module, l.module);
    assert(compiles_on_the_way(a, b, init, l));
}

/// A block that is marked has been compiled: no block is marked whose code has not
/// been built.
pub proof fn law_marked_blocks_are_compiled(
    j: Jit,
    blocks: Seq<Block>,
    idx: int,
    init: Seq<TypedValue>,
    i: int,
)
    requires
        j.steady(init),
        j.compile_block(blocks, idx, init) matches Some((_, done, _)) && done[i].generated,
        0 <= i < blocks.len(),
        !blocks[i].generated,
    ensures
        was_compiled(blocks[i], j.compile_block(blocks, idx, init).unwrap().0),
    decreases ungenerated(blocks).len(), 0nat,
{
    reveal(Jit::compile_block);
    reveal(Jit::compile_destinations);
    let (k, done, _) = j.compile_block(blocks, idx, init).unwrap();
    if !blocks[idx].generated {
        let block = blocks[idx];
        let marked = mark_generated(blocks, idx);
        lemma_mark_generated(blocks, idx);
        lemma_compile_straight(j, block, init);
        let (a, stack) = j.compile_straight(block, init).unwrap();
        lemma_block_extends(j, blocks, idx, init);
        law_block_keeps_context(j, blocks, idx, init);
        if i == idx {
            assert(compiles_on_the_way(j, block, init, k));
        } else {
            assert(marked[i] == blocks[i]);
            if let Exit::Conditional { destinations } = block.exit {
                lemma_marked_destinations(
                    a,
                    marked,
                    destinations,
                    stack,
                    destinations.len(),
                    i,
                );
            }
        }
    }
}

/// What is built for a block itself is there in the end.
proof fn lemma_block_extends(j: Jit, blocks: Seq<Block>, idx: int, init: Seq<TypedValue>)
    requires
        j.steady(init),
        0 <= idx < blocks.len(),
        !blocks[idx].generated,
        j.compile_block(blocks, idx, init) is Some,
    ensures
        j.compile_straight(blocks[idx], init) is Some,
        j.compile_straight(blocks[idx], init).unwrap().0.module.extends_to(
            j.compile_block(blocks, idx, init).unwrap().0.module,
        ),
{
    reveal(Jit::compile_block);
    reveal(Jit::compile_destinations);
    let block = blocks[idx];
    let marked = mark_generated(blocks, idx);
    lemma_compile_straight(j, block, init);
    let (a, stack) = j.compile_straight(block, init).unwrap();
    let (k, _, _) = j.compile_block(blocks, idx, init).unwrap();
    match block.exit {
        Exit::Conditional { destinations } => {
            lemma_compile_destinations(a, marked, destinations, stack, destinations.len());
            lemma_grows_keeps(a, k);
        },
        Exit::Unconditional { destination } => {
            lemma_get_basic_block(a, stack, block.start);
            lemma_grows_keeps(a, a.get_basic_block(block.start).0);
        },
        Exit::Required { destination } => {
            lemma_get_basic_block(a, stack, block.start);
            let b = a.get_basic_block(block.start).0;
            lemma_grows_keeps(a, b);
            lemma_required_jump(b, stack, destination);
            lemma_grows_keeps(b, b.required_jump(destination));
            lemma_extends_transitive(
                a.module,
                b.module,
                b.required_jump(destination).module,
            );
        },
        Exit::BodyEnd => {},
    }
}

proof fn lemma_marked_destinations(
    j: Jit,
    blocks: Seq<Block>,
    destinations: Seq<usize>,
    stack: Seq<TypedValue>,
    n: nat,
    i: int,
)
    requires
        j.steady(stack),
        j.compile_destinations(blocks, destinations, stack, n) matches Some((_, done, _))
            && done[i].generated,
        0 <= i < blocks.len(),
        !blocks[i].generated,
    ensures
        was_compiled(blocks[i], j.compile_destinations(blocks, destinations, stack, n).unwrap().0),
    decreases ungenerated(blocks).len(), n,
{
    reveal(Jit::compile_block);
    reveal(Jit::compile_destinations);
    if n > 0 {
        let m = (n - 1) as nat;
        lemma_compile_destinations(j, blocks, destinations, stack, m);
        lemma_destinations_stay_generated(j, blocks, destinations, stack, m);
        let (a, part, d) = j.compile_destinations(blocks, destinations, stack, m).unwrap();
        let (k, done, _) = j.compile_destinations(blocks, destinations, stack, n).unwrap();
        lemma_values_stay(j, a, stack);
        assert(a.steady(stack));
        match find_block(part, destinations[n - 1]) {
            None => lemma_marked_destinations(j, blocks, destinations, stack, m, i),
            Some(c) => {
                lemma_compile_block(a, part, c, stack);
                lemma_grows_keeps(a, k);
                law_block_keeps_context(a, part, c, stack);
                if part[i].generated {
                    lemma_marked_destinations(j, blocks, destinations, stack, m, i);
                    lemma_was_compiled_stays(blocks[i], a, k);
                } else {
                    assert(part[i] == blocks[i]);
                    law_marked_blocks_are_compiled(a, part, c, stack, i);
                }
            },
        }
    }
}

/// All blocks of a body are compiled, whether control can get to them or not.
pub proof fn law_all_blocks_are_compiled(j: Jit, blocks: Seq<Block>, n: nat, i: int)
    requires
        j.steady(seq![]),
        j.compile_blocks(blocks, n) is Some,
        0 <= i < n <= blocks.len(),
        forall|k: int| 0 <= k < blocks.len() ==> !(#[trigger] blocks[k]).generated,
    ensures
        ({
            let (k, done) = j.compile_blocks(blocks, n).unwrap();
            &&& blocks_kept(blocks, done)
            &&& done[i].generated
            &&& was_compiled(blocks[i], k)
        }),
{
    lemma_blocks_kept_so_far(j, blocks, n);
    lemma_compiled_so_far(j, blocks, n, i);
}

pub proof fn lemma_blocks_kept_so_far(j: Jit, blocks: Seq<Block>, n: nat)
    requires
        j.compile_blocks(blocks, n) is Some,
        n <= blocks.len(),
    ensures
        blocks_kept(blocks, j.compile_blocks(blocks, n).unwrap().1),
        forall|i: int|
            0 <= i < n ==> (#[trigger] j.compile_blocks(blocks, n).unwrap().1[i]).generated,
    decreases n,
{
    if n > 0 {
        lemma_blocks_kept_so_far(j, blocks, (n - 1) as nat);
        let (a, part) = j.compile_blocks(blocks, (n - 1) as nat).unwrap();
        law_blocks_stay_generated(a, part, n - 1, seq![]);
        let (k, done) = j.compile_blocks(blocks, n).unwrap();
        assert forall|i: int| 0 <= i < blocks.len() implies #[trigger] done[i] == (Block {
            generated: done[i].generated,
            ..blocks[i]
        }) && (blocks[i].generated ==> done[i].generated) by {
            assert(part[i] == (Block { generated: part[i].generated, ..blocks[i] }));
        }
        assert forall|i: int| 0 <= i < n implies (#[trigger] done[i]).generated by {
            if i < n - 1 {
                assert(part[i].generated);
            }
        }
    }
}

proof fn lemma_compiled_so_far(j: Jit, blocks: Seq<Block>, n: nat, i: int)
    requires
        j.steady(seq![]),
        j.compile_blocks(blocks, n) matches Some((_, done)) && done[i].generated,
        0 <= i < blocks.len(),
        n <= blocks.len(),
        !blocks[i].generated,
    ensures
        was_compiled(blocks[i], j.compile_blocks(blocks, n).unwrap().0),
    decreases n,
{
    if n > 0 {
        let m = (n - 1) as nat;
        lemma_compile_blocks(j, blocks, m);
        lemma_blocks_kept_so_far(j, blocks, m);
        let (a, part) = j.compile_blocks(blocks, m).unwrap();
        let (k, done) = j.compile_blocks(blocks, n).unwrap();
        lemma_compile_block(a, part, n - 1, seq![]);
        lemma_grows_keeps(a, k);
        law_block_keeps_context(a, part, n - 1, seq![]);
        if part[i].generated {
            lemma_compiled_so_far(j, blocks, m, i);
            lemma_was_compiled_stays(blocks[i], a, k);
        } else {
            assert(part[i] == blocks[i]);
            law_marked_blocks_are_compiled(a, part, n - 1, seq![], i);
        }
    }
}

/// The code of a block is compiled unless the block has no place in the function,
/// what comes in cannot be put together, or an instruction cannot be compiled.
pub proof fn law_block_code_compiles(j: Jit, block: Block, init: Seq<TypedValue>)
    ensures
        j.compile_straight(block, init) is None <==> {
            let a = at_block(j, block.start);
            ||| !j.basic_blocks.contains_key(block.start)
            ||| j.phi_stack.contains_key(block.start) && !can_merge(j.phi_stack[block.start])
            ||| a.build_phi_stack(block.start, init) matches Some((b, full))
                && b.compile_bytecode(full, block, block.code.len()) is None
        },
        !j.phi_stack.contains_key(block.start) ==> at_block(j, block.start).build_phi_stack(
            block.start,
            init,
        ) == Some((at_block(j, block.start), init)),
{
    reveal(Jit::compile_straight);
    let a = at_block(j, block.start);
    assert(a =~= j.set_positioned(block.start).position(j.basic_blocks[block.start].block()));
    if j.phi_stack.contains_key(block.start) {
        law_phis_merge_stacks(a, block.start, init);
    } else {
        reveal(Jit::build_phi_stack);
    }
}

/// The blocks of a body are compiled one after the other, each with an empty stack.
/// It goes wrong only if one of them cannot be compiled.
pub proof fn law_blocks_are_compiled_in_turn(j: Jit, blocks: Seq<Block>, n: nat)
    ensures
        j.compile_blocks(blocks, 0) == Some((j, blocks)),
        j.compile_blocks(blocks, n) matches Some((a, done)) ==> {
            match a.compile_block(done, n as int, seq![]) {
                None => j.compile_blocks(blocks, n + 1) is None,
                Some((b, more, _)) => j.compile_blocks(blocks, n + 1) == Some((b, more)),
            }
        },
        j.compile_blocks(blocks, n) is None ==> j.compile_blocks(blocks, n + 1) is None,
{
}

} // verus!
