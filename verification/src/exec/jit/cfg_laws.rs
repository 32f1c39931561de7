//! What holds of the basic blocks of every method body.
use vstd::prelude::*;

use crate::exec::instruction::{Instruction, Transfer};
use crate::exec::jit::cfg::{
    Block, Exit, Walk, basic_blocks, branch_exit, entered_from_before, entered_from_behind,
    is_branch, is_entry, leads_to, target_in_range, targets_in_range, walk,
};

verus! {

/// Whether `b` is a run of instructions of `code`, not compiled yet, that is
/// empty only behind the last instruction.
pub open spec fn is_run(code: Seq<Instruction>, b: Block) -> bool {
    &&& b.end() <= code.len()
    &&& b.code == code.subrange(b.start as int, b.end())
    &&& b.code.len() == 0 ==> b.start == code.len()
    &&& !b.generated
}

/// Whether the exit of `b` fits what stands at its end in `code`.
pub open spec fn exit_fits(code: Seq<Instruction>, b: Block) -> bool {
    match b.exit {
        Exit::Required { destination } => destination == b.end() && is_entry(code, b.end()),
        Exit::BodyEnd => b.end() == code.len(),
        _ => b.start < b.end() && is_branch(code[b.end() - 1]) && b.exit == branch_exit(
            code,
            b.end() - 1,
        ),
    }
}

/// Whether no branch leads into the middle of `b`.
pub open spec fn entered_at_start_only(code: Seq<Instruction>, b: Block) -> bool {
    forall|k: int| b.start < k < b.end() ==> !#[trigger] is_entry(code, k)
}

/// Whether only the last instruction of `b` may be a branch, and then is the
/// one that the exit of `b` speaks of.
pub open spec fn branches_at_end_only(code: Seq<Instruction>, b: Block) -> bool {
    &&& forall|k: int| b.start <= k < b.end() - 1 ==> !is_branch(#[trigger] code[k])
    &&& b.start < b.end() && is_branch(code[b.end() - 1]) ==> b.exit == branch_exit(
        code,
        b.end() - 1,
    )
}

/// Whether no branch of `code` is itself the target of a branch at or behind it.
pub open spec fn no_branch_entered_from_behind(code: Seq<Instruction>) -> bool {
    forall|k: int|
        0 <= k < code.len() && is_branch(code[k]) ==> !#[trigger] entered_from_behind(code, k)
}

/// Whether position `k` of `code` belongs to a block.
pub open spec fn covered(code: Seq<Instruction>, k: int) -> bool {
    exists|i: int| 0 <= i < basic_blocks(code).len() && #[trigger] basic_blocks(code)[i].covers(k)
}

/// Whether control can pass from the instruction at position `p` to position `k`.
pub open spec fn flows_to(code: Seq<Instruction>, p: int, k: int) -> bool {
    match code[p].transfer_spec() {
        Transfer::Next => k == p + 1,
        _ => leads_to(code[p], p, k),
    }
}

/// What the walk keeps true of the first `n` positions.
spec fn walk_inv(code: Seq<Instruction>, n: int, w: Walk) -> bool {
    &&& forall|i: int| 0 <= i < w.blocks.len() ==> is_run(code, #[trigger] w.blocks[i])
    &&& forall|i: int| 0 <= i < w.blocks.len() ==> exit_fits(code, #[trigger] w.blocks[i])
    &&& forall|i: int| 0 <= i < w.blocks.len() ==> (#[trigger] w.blocks[i]).code.len() > 0
    &&& forall|i: int|
        0 <= i < w.blocks.len() ==> !((#[trigger] w.blocks[i]).exit is BodyEnd)
    &&& forall|i: int|
        0 <= i < w.blocks.len() ==> (#[trigger] w.blocks[i]).start == 0 || is_entry(
            code,
            w.blocks[i].start as int,
        )
    &&& w.open matches Some(s) ==> {
        &&& 0 <= s <= code.len()
        &&& s < n || (s == 0 && n == 0)
        &&& s == 0 || is_entry(code, s)
    }
    // every position where a block opens has one, or is where the open block starts
    &&& forall|k: int| 0 <= k < n && #[trigger] is_entry(code, k) ==> starts_in(w, k)
    // the first block starts at the first position
    &&& if w.blocks.len() == 0 {
        w.open == Some(0int)
    } else {
        w.blocks[0].start == 0
    }
}

/// What the walk also keeps true where no branch is entered from behind.
spec fn tidy_inv(code: Seq<Instruction>, n: int, w: Walk) -> bool {
    &&& forall|i: int|
        0 <= i < w.blocks.len() ==> entered_at_start_only(code, #[trigger] w.blocks[i])
    &&& forall|i: int|
        0 <= i < w.blocks.len() ==> branches_at_end_only(code, #[trigger] w.blocks[i])
    &&& forall|i: int, j: int|
        0 <= i < j < w.blocks.len() ==> (#[trigger] w.blocks[i]).end()
            <= (#[trigger] w.blocks[j]).start
    &&& forall|i: int|
        0 <= i < w.blocks.len() ==> (#[trigger] w.blocks[i]).end() <= (match w.open {
            Some(s) => s,
            None => n,
        })
    &&& w.open matches Some(s) ==> {
        &&& forall|k: int| s < k < n ==> !#[trigger] is_entry(code, k)
        &&& forall|k: int| s <= k < n && k < code.len() ==> !is_branch(#[trigger] code[k])
    }
}

/// Whether a block of the walk, or its open block, starts at position `k`.
spec fn starts_in(w: Walk, k: int) -> bool {
    w.open == Some(k) || exists|i: int|
        0 <= i < w.blocks.len() && (#[trigger] w.blocks[i]).start == k
}

/// Whatever started in `w` starts in `w2`, whose blocks extend those of `w`
/// by one that starts where the open block of `w` does.
proof fn lemma_starts_kept(w: Walk, w2: Walk, k: int)
    requires
        starts_in(w, k),
        w.blocks.len() <= w2.blocks.len(),
        forall|i: int| 0 <= i < w.blocks.len() ==> w2.blocks[i] == #[trigger] w.blocks[i],
        w.open == Some(k) ==> w2.open == w.open || w2.blocks.len() > w.blocks.len()
            && w2.blocks[w.blocks.len() as int].start == k,
    ensures
        starts_in(w2, k),
{
    if w.open != Some(k) {
        let i = choose|i: int| 0 <= i < w.blocks.len() && (#[trigger] w.blocks[i]).start == k;
        assert(w2.blocks[i] == w.blocks[i]);
    }
}

proof fn lemma_open_at(code: Seq<Instruction>, n: int, w: Walk)
    requires
        code.len() < usize::MAX,
        0 <= n <= code.len(),
        walk_inv(code, n, w) || walk_inv(code, n + 1, w),
        is_entry(code, n),
    ensures
        walk_inv(code, n + 1, w.open_at(code, n)),
{
    let w2 = w.open_at(code, n);
    assert forall|k: int| 0 <= k < n + 1 && #[trigger] is_entry(code, k) implies starts_in(
        w2,
        k,
    ) by {
        if k < n {
            lemma_starts_kept(w, w2, k);
        }
    }
}

proof fn lemma_branch_at(code: Seq<Instruction>, n: int, w: Walk)
    requires
        code.len() < usize::MAX,
        0 <= n < code.len(),
        walk_inv(code, n, w) || walk_inv(code, n + 1, w),
        is_branch(code[n]),
    ensures
        walk_inv(code, n, w.branch_at(code, n)),
        walk_inv(code, n + 1, w) ==> walk_inv(code, n + 1, w.branch_at(code, n)),
{
    let w2 = w.branch_at(code, n);
    assert forall|k: int| 0 <= k < n + 1 && #[trigger] is_entry(code, k) && (k < n || walk_inv(
        code,
        n + 1,
        w,
    )) implies starts_in(w2, k) by {
        lemma_starts_kept(w, w2, k);
    }
}

proof fn lemma_walk(code: Seq<Instruction>, n: nat)
    requires
        code.len() < usize::MAX,
        n <= code.len() + 1,
    ensures
        walk_inv(code, n as int, walk(code, n)),
    decreases n,
{
    if n > 0 {
        let k = n - 1;
        lemma_walk(code, k as nat);
        let w0 = walk(code, k as nat);
        let w1 = if entered_from_before(code, k) {
            w0.open_at(code, k)
        } else {
            w0
        };
        if entered_from_before(code, k) {
            lemma_open_at(code, k, w0);
        }
        let w2 = if k < code.len() && is_branch(code[k]) {
            w1.branch_at(code, k)
        } else {
            w1
        };
        if k < code.len() && is_branch(code[k]) {
            lemma_branch_at(code, k, w1);
        }
        if entered_from_behind(code, k) {
            lemma_open_at(code, k, w2);
        }
    }
}

proof fn lemma_tidy_walk(code: Seq<Instruction>, n: nat)
    requires
        code.len() < usize::MAX,
        no_branch_entered_from_behind(code),
        n <= code.len() + 1,
    ensures
        tidy_inv(code, n as int, walk(code, n)),
    decreases n,
{
    if n > 0 {
        let k = n - 1;
        lemma_tidy_walk(code, k as nat);
        lemma_walk(code, k as nat);
    }
}

/// Every body has a block, the first block starts at the first position, every
/// block is a run of instructions whose exit fits what stands at its end, and
/// every other block starts where a branch leads.
pub proof fn law_blocks_are_runs(code: Seq<Instruction>)
    requires
        code.len() < usize::MAX,
        targets_in_range(code),
    ensures
        basic_blocks(code).len() >= 1,
        basic_blocks(code)[0].start == 0,
        forall|i: int|
            0 <= i < basic_blocks(code).len() ==> {
                let b = #[trigger] basic_blocks(code)[i];
                is_run(code, b) && exit_fits(code, b) && (b.start == 0 || is_entry(
                    code,
                    b.start as int,
                ))
            },
{
    lemma_walk(code, code.len() + 1);
}

/// Wherever a branch leads, a block starts.
pub proof fn law_entries_have_blocks(code: Seq<Instruction>, k: int)
    requires
        code.len() < usize::MAX,
        targets_in_range(code),
        is_entry(code, k),
    ensures
        exists|i: int|
            0 <= i < basic_blocks(code).len() && (#[trigger] basic_blocks(code)[i]).start == k,
{
    lemma_walk(code, code.len() + 1);
    let p = choose|p: int| 0 <= p < code.len() && leads_to(#[trigger] code[p], p, k);
    assert(target_in_range(code[p], code.len()));
    let w = walk(code, code.len() + 1);
    assert(starts_in(w, k));
    let blocks = basic_blocks(code);
    if w.open == Some(k) {
        assert(blocks[blocks.len() - 1].start == k);
    } else {
        let i = choose|i: int| 0 <= i < w.blocks.len() && (#[trigger] w.blocks[i]).start == k;
        assert(blocks[i] == w.blocks[i]);
    }
}

/// Whether a block with this exit passes control to position `d`.
pub open spec fn exits_to(exit: Exit, d: int) -> bool {
    match exit {
        Exit::Conditional { destinations } => exists|j: int|
            0 <= j < destinations.len() && #[trigger] destinations[j] == d,
        Exit::Unconditional { destination } => destination == d,
        Exit::Required { destination } => destination == d,
        Exit::BodyEnd => false,
    }
}

/// Wherever a block passes control to, a block starts.
pub proof fn law_destinations_have_blocks(code: Seq<Instruction>, i: int, d: int)
    requires
        code.len() < usize::MAX,
        targets_in_range(code),
        0 <= i < basic_blocks(code).len(),
        exits_to(basic_blocks(code)[i].exit, d),
    ensures
        exists|j: int|
            0 <= j < basic_blocks(code).len() && (#[trigger] basic_blocks(code)[j]).start == d,
{
    law_blocks_are_runs(code);
    let b = basic_blocks(code)[i];
    if !(b.exit is Required) {
        let p = b.end() - 1;
        assert(leads_to(code[p], p, d));
        assert(p < d || d <= p);
    }
    law_entries_have_blocks(code, d);
}

/// The first instruction belongs to a block.
pub proof fn law_first_instruction_is_covered(code: Seq<Instruction>)
    requires
        0 < code.len() < usize::MAX,
        targets_in_range(code),
    ensures
        covered(code, 0),
{
    law_blocks_are_runs(code);
    assert(basic_blocks(code)[0].covers(0));
}

/// If an instruction belongs to a block, so does every instruction that control
/// can pass to from it. With [`law_first_instruction_is_covered`]: every
/// instruction that can be reached belongs to a block.
pub proof fn law_flow_stays_covered(code: Seq<Instruction>, p: int, k: int)
    requires
        code.len() < usize::MAX,
        targets_in_range(code),
        0 <= p < code.len(),
        covered(code, p),
        flows_to(code, p, k),
        k < code.len(),
    ensures
        covered(code, k),
{
    law_blocks_are_runs(code);
    let blocks = basic_blocks(code);
    let i = choose|i: int| 0 <= i < blocks.len() && #[trigger] blocks[i].covers(p);
    let b = blocks[i];
    if code[p].transfer_spec() is Next && k < b.end() {
        assert(b.covers(k));
    } else {
        if !(code[p].transfer_spec() is Next) {
            assert(leads_to(code[p], p, k));
            assert(p < k || k <= p);
        }
        assert(is_entry(code, k));
        law_entries_have_blocks(code, k);
        let j = choose|j: int| 0 <= j < blocks.len() && (#[trigger] blocks[j]).start == k;
        assert(blocks[j].covers(k));
    }
}

/// Only the last block can be empty, and only the last block can end with the body.
pub proof fn law_only_last_block_ends_body(code: Seq<Instruction>, i: int)
    requires
        code.len() < usize::MAX,
        0 <= i < basic_blocks(code).len() - 1,
    ensures
        basic_blocks(code)[i].code.len() > 0,
        !(basic_blocks(code)[i].exit is BodyEnd),
{
    lemma_walk(code, code.len() + 1);
    assert(basic_blocks(code)[i] == walk(code, code.len() + 1).blocks[i]);
}

/// Where no branch is itself the target of a branch at or behind it, the blocks
/// lie behind one another without overlap, no branch leads into the middle of
/// a block, and the only branch in a block is the one that ends it.
pub proof fn law_blocks_are_disjoint(code: Seq<Instruction>)
    requires
        code.len() < usize::MAX,
        targets_in_range(code),
        no_branch_entered_from_behind(code),
    ensures
        forall|i: int, j: int|
            0 <= i < j < basic_blocks(code).len() ==> (#[trigger] basic_blocks(code)[i]).end() <= (
            #[trigger] basic_blocks(code)[j]).start,
        forall|i: int|
            0 <= i < basic_blocks(code).len() ==> entered_at_start_only(
                code,
                #[trigger] basic_blocks(code)[i],
            ),
        forall|i: int|
            0 <= i < basic_blocks(code).len() ==> branches_at_end_only(
                code,
                #[trigger] basic_blocks(code)[i],
            ),
{
    lemma_walk(code, code.len() + 1);
    lemma_tidy_walk(code, code.len() + 1);
}

/// Whether no block starts behind position `p` and up to position `k`.
pub open spec fn no_start_between(code: Seq<Instruction>, p: int, k: int) -> bool {
    forall|i: int|
        0 <= i < basic_blocks(code).len() ==> !(p < (#[trigger] basic_blocks(code)[i]).start <= k)
}

/// Whether a branch that is always taken stands before position `k`, and no block
/// starts between them or at `k`.
pub open spec fn passed_by(code: Seq<Instruction>, k: int) -> bool {
    exists|p: int|
        0 <= p < k && (#[trigger] code[p]).transfer_spec() is Always && no_start_between(
            code,
            p,
            k,
        )
}

/// What belongs to no block is passed by.
pub proof fn law_uncovered_is_passed_by(code: Seq<Instruction>, k: int)
    requires
        code.len() < usize::MAX,
        targets_in_range(code),
        0 <= k < code.len(),
        !covered(code, k),
    ensures
        passed_by(code, k),
    decreases k,
{
    law_blocks_are_runs(code);
    let blocks = basic_blocks(code);
    assert forall|i: int| 0 <= i < blocks.len() implies (#[trigger] blocks[i]).start != k by {
        if blocks[i].start == k {
            assert(blocks[i].covers(k));
        }
    }
    if k == 0 {
        law_first_instruction_is_covered(code);
    } else if covered(code, k - 1) {
        if !(code[k - 1].transfer_spec() is Always) {
            law_flow_stays_covered(code, k - 1, k);
        }
        assert(no_start_between(code, k - 1, k));
    } else {
        law_uncovered_is_passed_by(code, k - 1);
        let p = choose|p: int|
            0 <= p < k - 1 && (#[trigger] code[p]).transfer_spec() is Always && no_start_between(
                code,
                p,
                k - 1,
            );
        assert(no_start_between(code, p, k));
    }
}

/// Where no branch is itself the target of a branch at or behind it, exactly what
/// is passed by belongs to no block.
pub proof fn law_passed_by_is_uncovered(code: Seq<Instruction>, k: int)
    requires
        code.len() < usize::MAX,
        targets_in_range(code),
        no_branch_entered_from_behind(code),
        0 <= k < code.len(),
    ensures
        !covered(code, k) <==> passed_by(code, k),
{
    law_blocks_are_disjoint(code);
    let blocks = basic_blocks(code);
    if !covered(code, k) {
        law_uncovered_is_passed_by(code, k);
    } else if passed_by(code, k) {
        let p = choose|p: int|
            0 <= p < k && (#[trigger] code[p]).transfer_spec() is Always && no_start_between(
                code,
                p,
                k,
            );
        let i = choose|i: int| 0 <= i < blocks.len() && #[trigger] blocks[i].covers(k);
        assert(branches_at_end_only(code, blocks[i]));
        assert(is_branch(code[p]));
    }
}

/// The target of a branch that compares.
pub open spec fn conditional_target(instr: Instruction) -> Option<usize> {
    match instr {
        Instruction::Brfalse { target } => Some(target),
        Instruction::Brtrue { target } => Some(target),
        Instruction::Beq { target } => Some(target),
        Instruction::Bne_un { target } => Some(target),
        Instruction::Bge { target } => Some(target),
        Instruction::Bgt { target } => Some(target),
        Instruction::Ble { target } => Some(target),
        Instruction::Blt { target } => Some(target),
        _ => None,
    }
}

/// A branch that compares passes control to its target or to the next instruction,
/// [`Instruction::Br`] to its target, and any other instruction to the next one.
pub proof fn law_control_passes(instr: Instruction)
    ensures
        match instr {
            Instruction::Br { target } => instr.transfer_spec() == (Transfer::Always { target }),
            _ => match conditional_target(instr) {
                Some(target) => instr.transfer_spec() == (Transfer::Conditional { target }),
                None => instr.transfer_spec() == Transfer::Next,
            },
        },
{
}

/// Targets are in range if each leads to an instruction, or right behind the last.
pub proof fn law_targets_are_in_range(code: Seq<Instruction>)
    ensures
        targets_in_range(code) <==> forall|p: int|
            0 <= p < code.len() ==> {
                &&& conditional_target(#[trigger] code[p]) matches Some(target) ==> target
                    <= code.len()
                &&& code[p] matches Instruction::Br { target } ==> target <= code.len()
            },
{
    assert forall|p: int| 0 <= p < code.len() implies {
        target_in_range(#[trigger] code[p], code.len()) <==> {
            &&& conditional_target(code[p]) matches Some(target) ==> target <= code.len()
            &&& code[p] matches Instruction::Br { target } ==> target <= code.len()
        }
    } by {
        law_control_passes(code[p]);
    }
    if targets_in_range(code) {
        assert forall|p: int| 0 <= p < code.len() implies {
            &&& conditional_target(#[trigger] code[p]) matches Some(target) ==> target <= code.len()
            &&& code[p] matches Instruction::Br { target } ==> target <= code.len()
        } by {
            assert(target_in_range(code[p], code.len()));
        }
    }
}

/// Whether a block starts at position `k`.
pub open spec fn starts_at(code: Seq<Instruction>, k: int) -> bool {
    exists|i: int|
        0 <= i < basic_blocks(code).len() && (#[trigger] basic_blocks(code)[i]).start == k
}

/// Wherever a branch can lead, a block starts: at the target of each branch, and
/// behind each that compares.
pub proof fn law_branches_lead_to_blocks(code: Seq<Instruction>, p: int)
    requires
        code.len() < usize::MAX,
        targets_in_range(code),
        0 <= p < code.len(),
    ensures
        code[p] matches Instruction::Br { target } ==> starts_at(code, target as int),
        conditional_target(code[p]) matches Some(target) ==> starts_at(code, target as int)
            && starts_at(code, p + 1),
{
    law_control_passes(code[p]);
    if let Instruction::Br { target } = code[p] {
        assert(leads_to(code[p], p, target as int));
        assert(p < target || target <= p);
        law_entries_have_blocks(code, target as int);
    }
    if let Some(target) = conditional_target(code[p]) {
        assert(leads_to(code[p], p, target as int));
        assert(p < target || target <= p);
        law_entries_have_blocks(code, target as int);
        assert(leads_to(code[p], p, p + 1));
        law_entries_have_blocks(code, p + 1);
    }
}

/// A block that ends in a branch passes control to where the branch can lead: the
/// target first, then the next position. A block that ends before another starts
/// passes control there, and one that ends with the body passes it nowhere.
pub proof fn law_exits_follow_branches(code: Seq<Instruction>, i: int)
    requires
        code.len() < usize::MAX,
        targets_in_range(code),
        0 <= i < basic_blocks(code).len(),
    ensures
        ({
            let b = basic_blocks(code)[i];
            match b.exit {
                Exit::Conditional { destinations } => {
                    &&& b.code.len() > 0
                    &&& conditional_target(b.code[b.code.len() - 1]) matches Some(target)
                    &&& destinations == seq![target, b.end() as usize]
                },
                Exit::Unconditional { destination } => {
                    &&& b.code.len() > 0
                    &&& b.code[b.code.len() - 1] == (Instruction::Br { target: destination })
                },
                Exit::Required { destination } => {
                    &&& destination == b.end()
                    &&& starts_at(code, b.end())
                },
                Exit::BodyEnd => b.end() == code.len(),
            }
        }),
{
    law_blocks_are_runs(code);
    let b = basic_blocks(code)[i];
    if b.code.len() > 0 {
        law_control_passes(b.code[b.code.len() - 1]);
        assert(b.code[b.code.len() - 1] == code[b.end() - 1]);
    }
    if let Exit::Required { destination } = b.exit {
        law_entries_have_blocks(code, b.end());
    }
}

} // verus!
