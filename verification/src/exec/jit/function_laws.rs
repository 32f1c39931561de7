//! What holds of the functions of every program.
use vstd::prelude::*;

use crate::exec::instruction::Instruction;
use crate::exec::jit::cfg::{Block, Exit, basic_blocks, targets_in_range};
use crate::exec::jit::cfg_laws::{
    exits_to, law_blocks_are_runs, law_destinations_have_blocks, law_only_last_block_ends_body,
};
use crate::exec::jit::compiler_laws::{
    blocks_kept, law_blocks_stay_generated, law_function_only_adds, law_queue_is_worked_off,
    lemma_forget_blocks, lemma_generate_queued,
};
use crate::exec::jit::growth::{
    lemma_append_blocks, lemma_close_blocks, lemma_close_last, lemma_closed_up_same,
    lemma_compile_block, lemma_compile_blocks, lemma_compile_body, lemma_declare_arguments,
    lemma_declare_locals, lemma_record_block,
};
use crate::exec::jit::model::default_return;
use crate::exec::jit::module::{
    BlockRef, FunctionRef, LLVMType, ModuleSpec, Op, ValueRef, lemma_terminated_stays,
};
use crate::exec::jit::sound::{
    begins_with, lemma_begin_function, lemma_grows_keeps, lemma_own_function,
    lemma_take_from_queue,
};
use crate::exec::jit::state::{BasicBlockInfo, Jit, lemma_method_leaves_queue};
use crate::exec::jit::terminator_laws::{
    apart, block_at, ended, ends_in_branch, exit_recorded, is_block_of, laid_out,
    law_blocks_are_closed, law_closed_blocks_stay, lemma_append_terminated, lemma_block_ends,
    lemma_within_transitive, works_within,
};
use crate::metadata::method::MethodBody;
use crate::metadata::signature::{ElementType, Type};

verus! {

/// Whether basic blocks start at the same position only if it is the first one,
/// and neither ends where the body ends.
pub open spec fn starts_apart(blocks: Seq<Block>) -> bool {
    forall|i: int, k: int|
        0 <= i < blocks.len() && 0 <= k < blocks.len() && i != k && (
        #[trigger] blocks[i]).start == (#[trigger] blocks[k]).start ==> blocks[i].start == 0 && !(
        blocks[i].exit is BodyEnd)
}

/// Whether each block of a function has its terminator.
pub open spec fn all_terminated(m: ModuleSpec, f: int) -> bool {
    forall|n: int|
        0 <= n < m.functions[f].blocks.len() ==> m.terminated(
            #[trigger] m.functions[f].blocks[n],
        )
}

/// Whether between `j` and `k` only `function` has got blocks, and of the first
/// `lo` blocks only `entry` has got instructions.
spec fn others_kept(j: Jit, k: Jit, function: FunctionRef, lo: nat, entry: BlockRef) -> bool {
    &&& lo <= j.module.blocks.len() <= k.module.blocks.len()
    &&& forall|b: int|
        0 <= b < lo && b != entry ==> #[trigger] k.module.blocks[b] == j.module.blocks[b]
    &&& j.module.functions.len() <= k.module.functions.len()
    &&& forall|f: int|
        0 <= f < j.module.functions.len() && f != function ==> (
        #[trigger] k.module.functions[f]).blocks == j.module.functions[f].blocks
    &&& begins_with(k.module.insts, j.module.insts)
}

proof fn lemma_others_transitive(
    a: Jit,
    b: Jit,
    c: Jit,
    function: FunctionRef,
    lo: nat,
    entry: BlockRef,
)
    requires
        others_kept(a, b, function, lo, entry),
        others_kept(b, c, function, lo, entry),
    ensures
        others_kept(a, c, function, lo, entry),
{
    assert forall|i: int| 0 <= i < lo && i != entry implies #[trigger] c.module.blocks[i]
        == a.module.blocks[i] by {
        assert(b.module.blocks[i] == a.module.blocks[i]);
    }
    assert forall|f: int| 0 <= f < a.module.functions.len() && f != function implies (
    #[trigger] c.module.functions[f]).blocks == a.module.functions[f].blocks by {
        assert(b.module.functions[f].blocks == a.module.functions[f].blocks);
    }
    assert forall|i: int| 0 <= i < a.module.insts.len() implies #[trigger] c.module.insts[i]
        == a.module.insts[i] by {
        assert(b.module.insts[i] == a.module.insts[i]);
    }
}

/// All blocks have been compiled: each has its terminator, unless it ends where
/// the body ends.
proof fn lemma_blocks_end(j: Jit, blocks: Seq<Block>, n: nat)
    requires
        j.steady(seq![]),
        laid_out(j, blocks),
        n <= blocks.len(),
        j.compile_blocks(blocks, n) matches Some((k, _)) && k.module.fits(),
    ensures
        ({
            let (k, done) = j.compile_blocks(blocks, n).unwrap();
            &&& works_within(j, k, blocks)
            &&& blocks_kept(blocks, done)
            &&& laid_out(k, done)
            &&& apart(j, blocks) && ended(j, blocks) ==> apart(k, done) && ended(k, done)
            &&& forall|i: int| 0 <= i < n ==> (#[trigger] done[i]).generated
        }),
    decreases n,
{
    if n == 0 {
        assert(works_within(j, j, blocks));
        assert(blocks_kept(blocks, blocks));
    } else {
        let (k, done) = j.compile_blocks(blocks, n).unwrap();
        let (a, part) = j.compile_blocks(blocks, (n - 1) as nat).unwrap();
        lemma_compile_blocks(j, blocks, (n - 1) as nat);
        lemma_compile_block(a, part, n - 1, seq![]);
        lemma_grows_keeps(a, k);
        lemma_blocks_end(j, blocks, (n - 1) as nat);
        law_blocks_stay_generated(a, part, n - 1, seq![]);
        lemma_block_ends(a, part, n - 1, seq![]);
        lemma_within_transitive(j, a, k, blocks, part);
        assert forall|i: int| 0 <= i < blocks.len() implies #[trigger] done[i] == (Block {
            generated: done[i].generated,
            ..blocks[i]
        }) && (blocks[i].generated ==> done[i].generated) by {
            assert(part[i] == Block { generated: part[i].generated, ..blocks[i] });
        }
        assert forall|i: int| 0 <= i < n implies (#[trigger] done[i]).generated by {
            if i < n - 1 {
                assert(part[i].generated);
            }
        }
    }
}

/// Whether `entry` is the only block of the function that is being compiled, and
/// the builder is there.
spec fn at_entry(j: Jit, function: FunctionRef, entry: BlockRef) -> bool {
    &&& j.generating == Some(function)
    &&& function < j.module.functions.len()
    &&& j.module.functions[function as int].blocks == seq![entry]
    &&& entry < j.module.blocks.len()
    &&& j.pos == entry
}

/// Whether between `j` and `k` only the entry block has got instructions.
spec fn fills_entry(j: Jit, k: Jit, function: FunctionRef, entry: BlockRef) -> bool {
    &&& at_entry(k, function, entry)
    &&& k.module.blocks.len() == j.module.blocks.len()
    &&& others_kept(j, k, function, j.module.blocks.len(), entry)
}

proof fn lemma_alloca_fills(j: Jit, function: FunctionRef, entry: BlockRef, ty: LLVMType)
    requires
        at_entry(j, function, entry),
    ensures
        fills_entry(j, j.alloca(ty).0, function, entry),
{
}

proof fn lemma_local_fills(
    j: Jit,
    function: FunctionRef,
    entry: BlockRef,
    id: usize,
    ty: Option<Type>,
)
    requires
        at_entry(j, function, entry),
    ensures
        j.get_local(id, ty) matches Some((k, _)) ==> fills_entry(j, k, function, entry),
{
    if !j.locals.contains_key(id) && ty is Some {
        if let Some((a, lty)) = j.lower(ty.unwrap()) {
            lemma_alloca_fills(a, function, entry, lty);
        }
    }
}

proof fn lemma_argument_fills(
    j: Jit,
    function: FunctionRef,
    entry: BlockRef,
    id: usize,
    ty: Option<Type>,
)
    requires
        at_entry(j, function, entry),
    ensures
        j.get_argument(id, ty) matches Some((k, _)) ==> fills_entry(j, k, function, entry),
{
    if !j.arguments.contains_key(id) && ty is Some {
        if let Some((a, lty)) = j.lower(ty.unwrap()) {
            lemma_alloca_fills(a, function, entry, lty);
        }
    }
}

proof fn lemma_fills_transitive(
    a: Jit,
    b: Jit,
    c: Jit,
    function: FunctionRef,
    entry: BlockRef,
)
    requires
        fills_entry(a, b, function, entry),
        fills_entry(b, c, function, entry),
    ensures
        fills_entry(a, c, function, entry),
{
    lemma_others_transitive(a, b, c, function, a.module.blocks.len(), entry);
}

proof fn lemma_locals_fill(
    j: Jit,
    function: FunctionRef,
    entry: BlockRef,
    tys: Seq<Type>,
    n: nat,
)
    requires
        at_entry(j, function, entry),
    ensures
        j.declare_locals(tys, n) matches Some(k) ==> fills_entry(j, k, function, entry),
    decreases n,
{
    if n > 0 {
        lemma_locals_fill(j, function, entry, tys, (n - 1) as nat);
        if let Some(a) = j.declare_locals(tys, (n - 1) as nat) {
            lemma_local_fills(a, function, entry, (n - 1) as usize, Some(tys[n - 1]));
            if let Some(k) = j.declare_locals(tys, n) {
                lemma_fills_transitive(j, a, k, function, entry);
            }
        }
    }
}

proof fn lemma_param_fills(
    j: Jit,
    function: FunctionRef,
    entry: BlockRef,
    id: usize,
    ty: Type,
)
    requires
        at_entry(j, function, entry),
    ensures
        j.declare_param(function, id, ty) matches Some(k) ==> fills_entry(j, k, function, entry),
{
    lemma_argument_fills(j, function, entry, id, Some(ty));
    if let Some((a, ptr)) = j.get_argument(id, Some(ty)) {
        let k = a.emit_only(Op::Store { val: ValueRef::Param { function, index: id }, ptr });
        assert(fills_entry(a, k, function, entry));
        lemma_fills_transitive(j, a, k, function, entry);
    }
}

proof fn lemma_params_fill(
    j: Jit,
    function: FunctionRef,
    entry: BlockRef,
    shift: nat,
    tys: Seq<Type>,
    n: nat,
)
    requires
        at_entry(j, function, entry),
    ensures
        j.declare_params(function, shift, tys, n) matches Some(k) ==> fills_entry(
            j,
            k,
            function,
            entry,
        ),
    decreases n,
{
    if n > 0 {
        lemma_params_fill(j, function, entry, shift, tys, (n - 1) as nat);
        if let Some(a) = j.declare_params(function, shift, tys, (n - 1) as nat) {
            lemma_param_fills(a, function, entry, (n - 1 + shift) as usize, tys[n - 1]);
            if let Some(k) = j.declare_params(function, shift, tys, n) {
                lemma_fills_transitive(j, a, k, function, entry);
            }
        }
    }
}

/// The arguments of a method are stored in the entry block.
proof fn lemma_arguments_fill(
    j: Jit,
    function: FunctionRef,
    entry: BlockRef,
    method: MethodBody,
)
    requires
        at_entry(j, function, entry),
    ensures
        j.declare_arguments(function, method) matches Some(k) ==> fills_entry(
            j,
            k,
            function,
            entry,
        ),
{
    let params = method.signature.params@;
    if method.signature.has_this {
        let this = Type { base: ElementType::Class(method.class) };
        lemma_param_fills(j, function, entry, 0, this);
        if let Some(a) = j.declare_param(function, 0, this) {
            lemma_params_fill(a, function, entry, 1, params, params.len());
            if let Some(k) = a.declare_params(function, 1, params, params.len()) {
                lemma_fills_transitive(j, a, k, function, entry);
            }
        }
    } else {
        lemma_params_fill(j, function, entry, 0, params, params.len());
    }
}

/// The blocks that are added for basic blocks are new, and belong to different
/// basic blocks if these start at different positions.
#[verifier::rlimit(50)]
pub proof fn lemma_blocks_are_new(j: Jit, function: FunctionRef, blocks: Seq<Block>, n: nat)
    requires
        function < j.module.functions.len(),
        n <= blocks.len(),
        j.basic_blocks.contains_key(0),
        j.append_blocks(function, blocks, n).module.fits(),
    ensures
        ({
            let k = j.append_blocks(function, blocks, n);
            let lo = j.module.blocks.len();
            &&& k.pos == j.pos
            &&& k.generating == j.generating
            &&& k.basic_blocks.contains_key(0)
            &&& k.basic_blocks[0] == j.basic_blocks[0]
            &&& lo <= k.module.blocks.len()
            &&& forall|b: int| 0 <= b < lo ==> #[trigger] k.module.blocks[b] == j.module.blocks[b]
            &&& k.module.insts == j.module.insts
            &&& k.module.functions.len() == j.module.functions.len()
            &&& forall|f: int|
                0 <= f < j.module.functions.len() && f != function
                    ==> #[trigger] k.module.functions[f] == j.module.functions[f]
            &&& k.module.functions[function as int].ret == j.module.functions[function as int].ret
            &&& begins_with(
                k.module.functions[function as int].blocks,
                j.module.functions[function as int].blocks,
            )
            &&& forall|m: int|
                j.module.functions[function as int].blocks.len() <= m
                    < k.module.functions[function as int].blocks.len() ==> lo
                    <= #[trigger] k.module.functions[function as int].blocks[m]
            &&& forall|i: int|
                0 <= i < n && (#[trigger] blocks[i]).start > 0 ==> k.basic_blocks.contains_key(
                    blocks[i].start,
                ) && lo <= block_at(k, blocks[i]) < k.module.blocks.len()
            &&& forall|i: int, l: int|
                0 <= i < n && 0 <= l < n && (#[trigger] blocks[i]).start > 0 && (
                #[trigger] blocks[l]).start > 0 && blocks[i].start != blocks[l].start ==> block_at(
                    k,
                    blocks[i],
                ) != block_at(k, blocks[l])
            &&& starts_apart(blocks) ==> forall|m: int|
                j.module.functions[function as int].blocks.len() <= m
                    < k.module.functions[function as int].blocks.len() ==> is_one_of(
                    k,
                    blocks,
                    n as int,
                    #[trigger] k.module.functions[function as int].blocks[m],
                )
        }),
    decreases n,
{
    if n > 0 {
        let a = j.append_blocks(function, blocks, (n - 1) as nat);
        let k = j.append_blocks(function, blocks, n);
        let lo = j.module.blocks.len();
        let start = blocks[n - 1].start;
        lemma_append_blocks_fits(j, function, blocks, n);
        lemma_blocks_are_new(j, function, blocks, (n - 1) as nat);
        if start > 0 {
            let bb = a.module.blocks.len() as usize;
            assert(bb == a.module.blocks.len());
            assert(k.basic_blocks[start].block() == bb);
            assert forall|b: int| 0 <= b < lo implies #[trigger] k.module.blocks[b]
                == j.module.blocks[b] by {
                assert(a.module.blocks[b] == j.module.blocks[b]);
            }
            assert forall|f: int|
                0 <= f < j.module.functions.len() && f
                    != function implies #[trigger] k.module.functions[f]
                == j.module.functions[f] by {
                assert(a.module.functions[f] == j.module.functions[f]);
            }
            assert forall|i: int| 0 <= i < n && (#[trigger] blocks[i]).start > 0 implies {
                &&& k.basic_blocks.contains_key(blocks[i].start)
                &&& lo <= block_at(k, blocks[i]) < k.module.blocks.len()
                &&& blocks[i].start != start ==> block_at(k, blocks[i]) == block_at(a, blocks[i])
                    && block_at(k, blocks[i]) < bb
            } by {
                if blocks[i].start != start {
                    assert(a.basic_blocks.contains_key(blocks[i].start));
                }
            }
            assert forall|i: int, l: int|
                0 <= i < n && 0 <= l < n && (#[trigger] blocks[i]).start > 0 && (
                #[trigger] blocks[l]).start > 0 && blocks[i].start
                    != blocks[l].start implies block_at(k, blocks[i]) != block_at(
                k,
                blocks[l],
            ) by {
                if blocks[i].start != start && blocks[l].start != start {
                    assert(block_at(a, blocks[i]) != block_at(a, blocks[l]));
                }
            }
            let old_list = a.module.functions[function as int].blocks;
            let new_list = k.module.functions[function as int].blocks;
            assert(new_list == old_list.push(bb));
            if starts_apart(blocks) {
                assert forall|m: int|
                    j.module.functions[function as int].blocks.len() <= m
                        < new_list.len() implies is_one_of(
                    k,
                    blocks,
                    n as int,
                    #[trigger] k.module.functions[function as int].blocks[m],
                ) by {
                    if m < old_list.len() {
                        assert(is_one_of(
                            a,
                            blocks,
                            n - 1,
                            a.module.functions[function as int].blocks[m],
                        ));
                        let i = choose|i: int|
                            0 <= i < n - 1 && (#[trigger] blocks[i]).start > 0 && block_at(
                                a,
                                blocks[i],
                            ) == old_list[m];
                        assert(blocks[i].start != blocks[n - 1].start);
                        assert(block_at(k, blocks[i]) == old_list[m]);
                    } else {
                        assert(block_at(k, blocks[n - 1]) == bb);
                    }
                }
            }
        } else {
            assert(k == a);
            if starts_apart(blocks) {
                assert forall|m: int|
                    j.module.functions[function as int].blocks.len() <= m
                        < k.module.functions[function as int].blocks.len() implies is_one_of(
                    k,
                    blocks,
                    n as int,
                    #[trigger] k.module.functions[function as int].blocks[m],
                ) by {
                    assert(is_one_of(
                        a,
                        blocks,
                        n - 1,
                        a.module.functions[function as int].blocks[m],
                    ));
                    let i = choose|i: int|
                        0 <= i < n - 1 && (#[trigger] blocks[i]).start > 0 && block_at(
                            a,
                            blocks[i],
                        ) == a.module.functions[function as int].blocks[m];
                    assert(block_at(k, blocks[i]) == k.module.functions[function as int].blocks[m]);
                }
            }
        }
    }
}

/// Whether `bb` is the block of one of the first `n` basic blocks, and that does
/// not start at the first position.
pub open spec fn is_one_of(j: Jit, blocks: Seq<Block>, n: int, bb: BlockRef) -> bool {
    exists|i: int|
        0 <= i < n && (#[trigger] blocks[i]).start > 0 && block_at(j, blocks[i]) == bb
}

proof fn lemma_append_blocks_fits(j: Jit, function: FunctionRef, blocks: Seq<Block>, n: nat)
    requires
        n > 0,
        function < j.module.functions.len(),
        j.append_blocks(function, blocks, n).module.fits(),
    ensures
        j.append_blocks(function, blocks, (n - 1) as nat).module.fits(),
        j.append_blocks(function, blocks, (n - 1) as nat).module.functions.len()
            == j.module.functions.len(),
    decreases n,
{
    lemma_append_blocks_keeps_functions(j, function, blocks, (n - 1) as nat);
}

proof fn lemma_append_blocks_keeps_functions(
    j: Jit,
    function: FunctionRef,
    blocks: Seq<Block>,
    n: nat,
)
    requires
        function < j.module.functions.len(),
    ensures
        j.append_blocks(function, blocks, n).module.functions.len() == j.module.functions.len(),
    decreases n,
{
    if n > 0 {
        lemma_append_blocks_keeps_functions(j, function, blocks, (n - 1) as nat);
    }
}

/// When the blocks for its basic blocks have been added, a body is laid out.
proof fn lemma_body_is_laid_out(
    j: Jit,
    function: FunctionRef,
    entry: BlockRef,
    code: Seq<Instruction>,
)
    requires
        at_entry(j, function, entry),
        j.basic_blocks.contains_key(0),
        j.basic_blocks[0].block() == entry,
        targets_in_range(code),
        code.len() < usize::MAX,
        j.append_blocks(
            function,
            basic_blocks(code),
            basic_blocks(code).len(),
        ).module.fits(),
    ensures
        ({
            let blocks = basic_blocks(code);
            let k = j.append_blocks(function, blocks, blocks.len());
            let lo = j.module.blocks.len();
            &&& laid_out(k, blocks)
            &&& ended(k, blocks)
            &&& forall|bb: BlockRef| #[trigger]
                is_block_of(k, blocks, bb) ==> bb == entry || lo <= bb
            &&& forall|m: int|
                0 <= m < k.module.functions[function as int].blocks.len() ==> (
                #[trigger] k.module.functions[function as int].blocks[m] == entry || lo
                    <= k.module.functions[function as int].blocks[m])
            &&& starts_apart(blocks) ==> apart(k, blocks)
            &&& starts_apart(blocks) ==> forall|m: int|
                0 <= m < k.module.functions[function as int].blocks.len() ==> is_block_of(
                    k,
                    blocks,
                    #[trigger] k.module.functions[function as int].blocks[m],
                )
        }),
{
    let blocks = basic_blocks(code);
    let k = j.append_blocks(function, blocks, blocks.len());
    let lo = j.module.blocks.len();
    lemma_blocks_are_new(j, function, blocks, blocks.len());
    law_blocks_are_runs(code);
    assert forall|i: int| 0 <= i < blocks.len() implies k.basic_blocks.contains_key(
        (#[trigger] blocks[i]).start,
    ) && (blocks[i].start == 0 ==> block_at(k, blocks[i]) == entry) by {}
    assert forall|i: int| 0 <= i < blocks.len() implies exit_recorded(
        k,
        (#[trigger] blocks[i]).exit,
    ) && ends_in_branch(blocks[i]) by {
        let b = blocks[i];
        match b.exit {
            Exit::Conditional { destinations } => {
                assert forall|d: int|
                    0 <= d < destinations.len() implies k.basic_blocks.contains_key(
                    #[trigger] destinations[d],
                ) by {
                    lemma_destination_recorded(k, code, i, destinations[d]);
                }
                assert(b.code.last() == code[b.end() - 1]);
            },
            Exit::Unconditional { destination } => {
                lemma_destination_recorded(k, code, i, destination);
                assert(b.code.last() == code[b.end() - 1]);
            },
            Exit::Required { destination } => {
                lemma_destination_recorded(k, code, i, destination);
            },
            Exit::BodyEnd => {},
        }
    }
    assert forall|bb: BlockRef| #[trigger] is_block_of(k, blocks, bb) implies bb == entry || lo
        <= bb by {
        let i = choose|i: int| 0 <= i < blocks.len() && block_at(k, #[trigger] blocks[i]) == bb;
        assert(blocks[i].start == 0 || lo <= block_at(k, blocks[i]));
    }
    let list = k.module.functions[function as int].blocks;
    assert(list[0] == entry);
    if starts_apart(blocks) {
        assert forall|i: int, l: int|
            0 <= i < blocks.len() && 0 <= l < blocks.len() && i != l && block_at(
                k,
                #[trigger] blocks[i],
            ) == block_at(k, #[trigger] blocks[l]) implies !(blocks[i].exit is BodyEnd) by {
            assert(blocks[i].start == 0 || lo <= block_at(k, blocks[i]));
            assert(blocks[l].start == 0 || lo <= block_at(k, blocks[l]));
            assert(blocks[i].start == blocks[l].start);
        }
        assert forall|m: int| 0 <= m < list.len() implies is_block_of(
            k,
            blocks,
            #[trigger] k.module.functions[function as int].blocks[m],
        ) by {
            if m == 0 {
                assert(block_at(k, blocks[0]) == entry);
            } else {
                assert(is_one_of(k, blocks, blocks.len() as int, list[m]));
                let i = choose|i: int|
                    0 <= i < blocks.len() && (#[trigger] blocks[i]).start > 0 && block_at(
                        k,
                        blocks[i],
                    ) == list[m];
                assert(block_at(k, blocks[i]) == list[m]);
            }
        }
    }
}

proof fn lemma_destination_recorded(k: Jit, code: Seq<Instruction>, i: int, d: usize)
    requires
        targets_in_range(code),
        code.len() < usize::MAX,
        0 <= i < basic_blocks(code).len(),
        exits_to(basic_blocks(code)[i].exit, d as int),
        forall|l: int|
            0 <= l < basic_blocks(code).len() ==> k.basic_blocks.contains_key(
                (#[trigger] basic_blocks(code)[l]).start,
            ),
    ensures
        k.basic_blocks.contains_key(d),
{
    law_destinations_have_blocks(code, i, d as int);
    let l = choose|l: int|
        0 <= l < basic_blocks(code).len() && (#[trigger] basic_blocks(code)[l]).start == d;
    assert(k.basic_blocks.contains_key(basic_blocks(code)[l].start));
}

/// To see to terminators adds only to the blocks of the function and to the one
/// where the builder is.
proof fn lemma_close_blocks_within(
    j: Jit,
    function: FunctionRef,
    n: nat,
    lo: nat,
    entry: BlockRef,
)
    requires
        j.wf(),
        j.pos < j.module.blocks.len(),
        function < j.module.functions.len(),
        n <= j.module.functions[function as int].blocks.len(),
        lo <= j.module.blocks.len(),
        j.pos == entry || lo <= j.pos,
        forall|m: int|
            0 <= m < j.module.functions[function as int].blocks.len() ==> (
            #[trigger] j.module.functions[function as int].blocks[m] == entry || lo
                <= j.module.functions[function as int].blocks[m]),
    ensures
        others_kept(j, j.close_blocks(function, n), function, lo, entry),
        j.close_blocks(function, n).module.functions == j.module.functions,
        j.close_blocks(function, n).module.blocks.len() == j.module.blocks.len(),
        j.close_blocks(function, n).pos == j.pos,
    decreases n,
{
    if n > 0 {
        lemma_close_blocks_within(j, function, (n - 1) as nat, lo, entry);
        let a = j.close_blocks(function, (n - 1) as nat);
        let k = j.close_blocks(function, n);
        let bb = j.module.functions[function as int].blocks[n - 1];
        assert(bb < j.module.blocks.len());
        assert(others_kept(a, k, function, lo, entry));
        lemma_others_transitive(j, a, k, function, lo, entry);
    }
}

/// A body adds to no block of another function, and all blocks of its own
/// function have their terminators in the end. In a function that returns
/// nothing this holds if basic blocks start at different positions.
#[verifier::rlimit(50)]
pub proof fn law_body_is_terminated(
    j: Jit,
    function: FunctionRef,
    entry: BlockRef,
    method: MethodBody,
)
    requires
        j.steady(seq![]),
        j.generating == Some(function),
        j.module.functions[function as int].blocks == seq![entry],
        j.pos == entry,
        j.compile_body(function, entry, method) matches Some(k) && k.module.fits(),
    ensures
        ({
            let k = j.compile_body(function, entry, method).unwrap();
            &&& k.module.functions[function as int].ret == j.module.functions[function as int].ret
            &&& forall|f: int|
                0 <= f < j.module.functions.len() && f != function ==> (
                #[trigger] k.module.functions[f]).blocks == j.module.functions[f].blocks
            &&& forall|b: int|
                0 <= b < j.module.blocks.len() && b != entry ==> #[trigger] k.module.blocks[b]
                    == j.module.blocks[b]
            &&& begins_with(k.module.insts, j.module.insts)
            &&& starts_apart(basic_blocks(method.body@)) || j.module.functions[function as int].ret
                != LLVMType::Void ==> all_terminated(k.module, function as int)
        }),
{
    reveal(Jit::compile_body);
    let blocks = basic_blocks(method.body@);
    let tys = method.locals_ty@;
    let lo = j.module.blocks.len();
    let k = j.compile_body(function, entry, method).unwrap();
    assert(entry < lo) by {
        assert(j.module.functions[function as int].blocks[0] < j.module.blocks.len());
    }
    assert(at_entry(j, function, entry));
    // the states on the way
    lemma_declare_locals(j, tys, tys.len());
    let a = j.declare_locals(tys, tys.len()).unwrap();
    lemma_grows_keeps(j, a);
    let b = Jit {
        basic_blocks: a.basic_blocks.insert(0, BasicBlockInfo::Positioned(entry)),
        ..a
    };
    lemma_record_block(a, seq![], 0, BasicBlockInfo::Positioned(entry), a.pos);
    lemma_append_blocks(b, function, blocks, blocks.len());
    let c = b.append_blocks(function, blocks, blocks.len());
    lemma_grows_keeps(b, c);
    lemma_compile_blocks(c, blocks, blocks.len());
    let (d, done) = c.compile_blocks(blocks, blocks.len()).unwrap();
    lemma_grows_keeps(c, d);
    lemma_close_last(d, function, done.last());
    let e = d.close_last(function, done.last()).unwrap();
    lemma_grows_keeps(d, e);
    let count = e.module.functions[function as int].blocks.len();
    lemma_close_blocks(e, function, count);
    lemma_grows_keeps(e, k);
    // what they keep
    lemma_locals_fill(j, function, entry, tys, tys.len());
    lemma_body_is_laid_out(b, function, entry, method.body@);
    lemma_blocks_are_new(b, function, blocks, blocks.len());
    law_blocks_are_runs(method.body@);
    lemma_blocks_end(c, blocks, blocks.len());
    assert(others_kept(j, b, function, lo, entry));
    assert(others_kept(b, c, function, lo, entry));
    lemma_others_transitive(j, b, c, function, lo, entry);
    assert(others_kept(c, d, function, lo, entry)) by {
        assert forall|i: int| 0 <= i < lo && i != entry implies #[trigger] d.module.blocks[i]
            == c.module.blocks[i] by {
            assert(!is_block_of(c, blocks, i as usize));
        }
    }
    lemma_others_transitive(j, c, d, function, lo, entry);
    let last = done.last();
    let end = block_at(d, last);
    assert(last == done[blocks.len() - 1]);
    assert(end == block_at(c, blocks.last()));
    assert(is_block_of(c, blocks, end));
    assert(others_kept(d, e, function, lo, entry));
    lemma_others_transitive(j, d, e, function, lo, entry);
    assert(e.module.functions[function as int].blocks
        == c.module.functions[function as int].blocks);
    lemma_close_blocks_within(e, function, count, lo, entry);
    lemma_others_transitive(j, e, k, function, lo, entry);
    if j.module.functions[function as int].ret != LLVMType::Void {
        assert forall|n: int|
            0 <= n < k.module.functions[function as int].blocks.len() implies k.module.terminated(
            #[trigger] k.module.functions[function as int].blocks[n],
        ) by {
            law_blocks_are_closed(e, function, count, n);
        }
    } else if starts_apart(blocks) {
        assert forall|n: int| 0 <= n < count implies e.module.terminated(
            #[trigger] e.module.functions[function as int].blocks[n],
        ) by {
            let bb = c.module.functions[function as int].blocks[n];
            assert(is_block_of(c, blocks, bb));
            let i = choose|i: int| 0 <= i < blocks.len() && block_at(c, #[trigger] blocks[i]) == bb;
            assert(done[i].generated);
            assert(block_at(d, done[i]) == bb);
            if i < blocks.len() - 1 {
                law_only_last_block_ends_body(method.body@, i);
                assert(d.module.terminated(bb));
            }
            let op = default_return(LLVMType::Void);
            let p = d.position(end);
            if !p.terminated() {
                lemma_append_terminated(p.module, end, op, bb);
            }
        }
        law_closed_blocks_stay(e, function, count);
    }
}

/// Whether blocks and instructions that were there are the same, but for those
/// of one function.
spec fn others_untouched(j: Jit, k: Jit, function: FunctionRef) -> bool {
    forall|f: int|
        0 <= f < j.module.functions.len() && f != function ==> {
            &&& (#[trigger] k.module.functions[f]).blocks == j.module.functions[f].blocks
            &&& all_terminated(j.module, f) ==> all_terminated(k.module, f)
        }
}

/// Where the blocks that were there are the same, so are their terminators.
proof fn lemma_same_blocks_untouched(j: Jit, k: Jit, function: FunctionRef)
    requires
        j.wf(),
        forall|f: int|
            0 <= f < j.module.functions.len() && f != function ==> (
            #[trigger] k.module.functions[f]).blocks == j.module.functions[f].blocks,
        forall|b: int|
            0 <= b < j.module.blocks.len() ==> #[trigger] k.module.blocks[b]
                == j.module.blocks[b],
        begins_with(k.module.insts, j.module.insts),
    ensures
        others_untouched(j, k, function),
{
    assert forall|f: int| 0 <= f < j.module.functions.len() && f != function implies {
        &&& (#[trigger] k.module.functions[f]).blocks == j.module.functions[f].blocks
        &&& all_terminated(j.module, f) ==> all_terminated(k.module, f)
    } by {
        if all_terminated(j.module, f) {
            assert forall|n: int|
                0 <= n < k.module.functions[f].blocks.len() implies k.module.terminated(
                #[trigger] k.module.functions[f].blocks[n],
            ) by {
                let bb = j.module.functions[f].blocks[n];
                assert(bb < j.module.blocks.len());
                assert(j.module.terminated(bb));
                assert(k.module.blocks[bb as int] == j.module.blocks[bb as int]);
                lemma_terminated_stays(j.module, k.module, bb);
            }
        }
    }
}

/// A function that is compiled from nothing: see [`law_body_is_terminated`]. The
/// blocks of other functions, and their terminators, stay as they are.
pub proof fn law_function_is_terminated(j: Jit, function: FunctionRef, method: MethodBody)
    requires
        j.wf(),
        j.closed_up(),
        function < j.module.functions.len(),
        j.module.functions[function as int].blocks.len() == 0,
        j.generate_func(function, method) matches Some(k) && k.module.fits(),
    ensures
        ({
            let k = j.generate_func(function, method).unwrap();
            &&& k.module.functions[function as int].ret == j.module.functions[function as int].ret
            &&& starts_apart(basic_blocks(method.body@)) || j.module.functions[function as int].ret
                != LLVMType::Void ==> all_terminated(k.module, function as int)
            &&& forall|f: int|
                0 <= f < j.module.functions.len() && f != function ==> {
                    &&& (#[trigger] k.module.functions[f]).blocks == j.module.functions[f].blocks
                    &&& all_terminated(j.module, f) ==> all_terminated(k.module, f)
                }
        }),
{
    reveal(Jit::generate_func);
    let k = j.generate_func(function, method).unwrap();
    lemma_begin_function(j, function);
    let (a, entry) = j.begin_function(function);
    lemma_declare_arguments(a, function, method);
    let b = a.declare_arguments(function, method).unwrap();
    lemma_grows_keeps(a, b);
    lemma_compile_body(b, function, entry, method);
    let c = b.compile_body(function, entry, method).unwrap();
    lemma_grows_keeps(b, c);
    assert(entry == j.module.blocks.len());
    assert(a.module.functions[function as int].blocks =~= seq![entry]);
    lemma_arguments_fill(a, function, entry, method);
    law_body_is_terminated(b, function, entry, method);
    assert forall|i: int| 0 <= i < j.module.blocks.len() implies #[trigger] c.module.blocks[i]
        == j.module.blocks[i] by {
        assert(a.module.blocks[i] == j.module.blocks[i]);
        assert(b.module.blocks[i] == a.module.blocks[i]);
    }
    assert forall|f: int| 0 <= f < j.module.functions.len() && f != function implies (
    #[trigger] c.module.functions[f]).blocks == j.module.functions[f].blocks by {
        assert(a.module.functions[f] == j.module.functions[f]);
        assert(b.module.functions[f].blocks == a.module.functions[f].blocks);
    }
    assert forall|i: int| 0 <= i < j.module.insts.len() implies #[trigger] c.module.insts[i]
        == j.module.insts[i] by {
        assert(b.module.insts[i] == a.module.insts[i]);
    }
    lemma_same_blocks_untouched(j, c, function);
}

/// Whether a called method has been compiled, and returns something or has basic
/// blocks that start at different positions.
pub open spec fn owes_terminators(j: Jit, rva: u32) -> bool {
    let f = j.module.functions[j.generated[rva] as int];
    &&& f.blocks.len() > 0
    &&& starts_apart(basic_blocks(j.image.methods@[rva].body@)) || f.ret != LLVMType::Void
}

/// Whether each called method that owes terminators has a function with all of
/// them.
pub open spec fn calls_are_terminated(j: Jit) -> bool {
    forall|rva: u32| #[trigger]
        j.generated.contains_key(rva) && owes_terminators(j, rva) ==> all_terminated(
            j.module,
            j.generated[rva] as int,
        )
}

/// When the queue has been worked off, the functions of called methods have
/// their terminators, and functions that were there keep theirs.
#[verifier::rlimit(50)]
proof fn lemma_queue_is_terminated(j: Jit)
    requires
        j.wf(),
        j.closed_up(),
        j.sound(),
        calls_are_terminated(j),
        j.generate_queued() matches Some(k) && k.module.fits(),
    ensures
        ({
            let k = j.generate_queued().unwrap();
            &&& calls_are_terminated(k)
            &&& forall|f: int|
                0 <= f < j.module.functions.len() && j.module.functions[f].blocks.len() > 0
                    && #[trigger] all_terminated(j.module, f) ==> all_terminated(k.module, f)
        }),
    decreases j.pending(),
{
    if j.queue.len() > 0 {
        let (function, rva) = j.queue[0];
        let a = Jit { queue: j.queue.subrange(1, j.queue.len() as int), ..j };
        let method = j.image.methods@[rva];
        lemma_method_leaves_queue(j);
        lemma_closed_up_same(j, a);
        law_queue_is_worked_off(j);
        let b = a.generate_func(function, method).unwrap();
        law_function_only_adds(a, function, method);
        lemma_generate_queued(b);
        lemma_take_from_queue(j);
        assert(j.module.functions[function as int].blocks.len() == 0 && j.generated.contains_key(
            rva,
        ) && j.generated[rva] == function) by {
            reveal(Jit::sound);
        }
        law_function_is_terminated(a, function, method);
        assert(calls_are_terminated(b)) by {
            reveal(Jit::sound);
            assert forall|r: u32| #[trigger]
                b.generated.contains_key(r) && owes_terminators(b, r) implies all_terminated(
                b.module,
                b.generated[r] as int,
            ) by {
                lemma_compiled_was_called(a, b, function, method, r);
                let f = j.generated[r] as int;
                if r == rva {
                    assert(b.generated[rva] == function);
                } else {
                    assert(j.generated[r] != j.generated[rva]);
                    assert(b.module.functions[f].blocks == j.module.functions[f].blocks);
                    assert(b.module.functions[f].ret == j.module.functions[f].ret);
                }
            }
        }
        lemma_queue_is_terminated(b);
        let k = j.generate_queued().unwrap();
        assert forall|f: int|
            0 <= f < j.module.functions.len() && j.module.functions[f].blocks.len() > 0
                && #[trigger] all_terminated(j.module, f) implies all_terminated(k.module, f) by {
            assert(b.module.functions[f].blocks == j.module.functions[f].blocks);
            assert(all_terminated(b.module, f));
        }
    }
}

/// A method whose function has blocks when another one has been compiled was
/// called before, or is that one.
proof fn lemma_compiled_was_called(
    j: Jit,
    k: Jit,
    function: FunctionRef,
    method: MethodBody,
    rva: u32,
)
    requires
        j.wf(),
        j.closed_up(),
        j.sound_but(function),
        j.generate_func(function, method) == Some(k),
        k.module.fits(),
        k.generated.contains_key(rva),
        k.module.functions[k.generated[rva] as int].blocks.len() > 0,
    ensures
        j.generated.contains_key(rva),
        k.generated[rva] == j.generated[rva],
{
    law_function_only_adds(j, function, method);
    if !j.generated.contains_key(rva) {
        reveal(Jit::sound);
        let i = choose|i: int| 0 <= i < k.queue.len() && (#[trigger] k.queue[i]).1 == rva;
        assert(k.generated[k.queue[i].1] == k.queue[i].0);
    }
}

/// In a compiled program all blocks have their terminators: those of the
/// program's own function, if its basic blocks start at different positions, and
/// those of the functions of called methods that return something, or whose
/// basic blocks start at different positions.
#[verifier::rlimit(50)]
pub proof fn law_program_is_terminated(j: Jit, method: MethodBody)
    requires
        j.wf(),
        j.closed_up(),
        j.sound(),
        calls_are_terminated(j),
        j.generate_main(method) matches Some((k, _)) && k.module.fits(),
    ensures
        ({
            let (k, main) = j.generate_main(method).unwrap();
            &&& calls_are_terminated(k)
            &&& starts_apart(basic_blocks(method.body@)) ==> all_terminated(k.module, main as int)
        }),
{
    let params = Seq::<LLVMType>::empty();
    lemma_forget_blocks(j);
    let start = j.forget_blocks();
    lemma_own_function(start, "yacht-Main"@, LLVMType::Void, params);
    let (a, main) = start.add_function("yacht-Main"@, LLVMType::Void, params);
    lemma_begin_function(a, main);
    let (b, entry) = a.begin_function(main);
    lemma_compile_body(b, main, entry, method);
    let c = b.compile_body(main, entry, method).unwrap();
    lemma_grows_keeps(b, c);
    lemma_generate_queued(c);
    assert(entry == a.module.blocks.len());
    assert(b.module.functions[main as int].blocks =~= seq![entry]);
    law_body_is_terminated(b, main, entry, method);
    assert(main == j.module.functions.len());
    assert forall|i: int| 0 <= i < j.module.blocks.len() implies #[trigger] c.module.blocks[i]
        == j.module.blocks[i] by {
        assert(b.module.blocks[i] == a.module.blocks[i]);
    }
    assert forall|f: int| 0 <= f < j.module.functions.len() && f != main implies (
    #[trigger] c.module.functions[f]).blocks == j.module.functions[f].blocks by {
        assert(b.module.functions[f] == a.module.functions[f]);
    }
    lemma_same_blocks_untouched(j, c, main);
    assert(calls_are_terminated(c)) by {
        reveal(Jit::sound);
        assert forall|r: u32| #[trigger]
            c.generated.contains_key(r) && owes_terminators(c, r) implies all_terminated(
            c.module,
            c.generated[r] as int,
        ) by {
            if j.generated.contains_key(r) {
                let f = j.generated[r] as int;
                assert(c.module.functions[f].blocks == j.module.functions[f].blocks);
                assert(c.module.functions[f].ret == b.module.functions[f].ret);
            } else {
                let i = choose|i: int| 0 <= i < c.queue.len() && (#[trigger] c.queue[i]).1 == r;
                assert(c.generated[c.queue[i].1] == c.queue[i].0);
            }
        }
    }
    lemma_queue_is_terminated(c);
}

} // verus!
