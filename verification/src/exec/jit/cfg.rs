//! The control flow graph of a method body: its basic blocks.
//!
//! A position `k` of the body opens a block when some branch leads there:
//! when `k` is the target of a branch, or follows a conditional one. One walk
//! over the positions, from first to last, cuts the body into blocks. At each
//! position three things happen, in this order:
//!
//! 1. branches before `k` that lead to `k` open a block there;
//! 2. a branch at `k` ends the open block;
//! 3. branches at or behind `k` that lead to `k` open a block there.
//!
//! Code that nothing can reach, between an unconditional branch and the next
//! position where a block opens, belongs to no block.
use std::collections::BTreeMap;

use vstd::prelude::*;
use vstd::std_specs::btree::{group_btree_axioms, increasing_seq};
use vstd::std_specs::cmp::OrdSpec;
use vstd::std_specs::iter::IteratorSpec;

use crate::exec::instruction::{Instruction, Transfer};

verus! {

/// A run of instructions of a method body.
#[derive(Debug, Clone)]
pub struct BasicBlock {
    /// The instructions.
    pub code: Vec<Instruction>,
    /// The position of the first of them in the body.
    pub start: usize,
    /// How the block passes control on.
    pub kind: BrKind,
    /// Whether the block has been compiled.
    pub generated: bool,
}

/// How a block passes control on.
#[derive(Clone, Debug, PartialEq)]
pub enum BrKind {
    /// It ends in a conditional branch: to the first destination if the branch
    /// is taken, to the second if not.
    ConditionalJmp { destinations: Vec<usize> },
    /// It ends in an unconditional branch.
    UnconditionalJmp { destination: usize },
    /// It ends because another block starts behind it.
    JmpRequired { destination: usize },
    /// It ends where the body ends.
    BlockStart,
}

/// Cuts method bodies into basic blocks.
#[derive(Debug, Clone)]
pub struct CFGMaker {}

/// What a [`BrKind`] stands for.
#[verifier::ext_equal]
pub enum Exit {
    Conditional { destinations: Seq<usize> },
    Unconditional { destination: usize },
    Required { destination: usize },
    BodyEnd,
}

/// What a [`BasicBlock`] stands for.
#[verifier::ext_equal]
pub struct Block {
    pub code: Seq<Instruction>,
    pub start: usize,
    pub exit: Exit,
    pub generated: bool,
}

impl View for BrKind {
    type V = Exit;

    open spec fn view(&self) -> Exit {
        match *self {
            BrKind::ConditionalJmp { destinations } => Exit::Conditional {
                destinations: destinations@,
            },
            BrKind::UnconditionalJmp { destination } => Exit::Unconditional { destination },
            BrKind::JmpRequired { destination } => Exit::Required { destination },
            BrKind::BlockStart => Exit::BodyEnd,
        }
    }
}

impl View for BasicBlock {
    type V = Block;

    open spec fn view(&self) -> Block {
        Block {
            code: self.code@,
            start: self.start,
            exit: self.kind@,
            generated: self.generated,
        }
    }
}

impl Block {
    /// The position behind the block's last instruction.
    pub open spec fn end(self) -> int {
        self.start + self.code.len()
    }

    /// Whether the instruction at position `k` belongs to the block.
    pub open spec fn covers(self, k: int) -> bool {
        self.start <= k < self.end()
    }
}

/// What a list of blocks stands for.
pub open spec fn block_views(blocks: Seq<BasicBlock>) -> Seq<Block> {
    Seq::new(blocks.len(), |i: int| blocks[i]@)
}

/// Whether every branch of `code` leads to a position of `code` or right
/// behind its last instruction.
pub open spec fn targets_in_range(code: Seq<Instruction>) -> bool {
    forall|p: int| 0 <= p < code.len() ==> target_in_range(#[trigger] code[p], code.len())
}

/// Whether `instr`, if it is a branch, leads no further than `len`.
pub open spec fn target_in_range(instr: Instruction, len: nat) -> bool {
    match instr.transfer_spec() {
        Transfer::Conditional { target } => target <= len,
        Transfer::Always { target } => target <= len,
        Transfer::Next => true,
    }
}

/// Whether `instr` is a branch.
pub open spec fn is_branch(instr: Instruction) -> bool {
    !(instr.transfer_spec() is Next)
}

/// Whether the branch `instr` at position `p` leads to position `k`.
pub open spec fn leads_to(instr: Instruction, p: int, k: int) -> bool {
    match instr.transfer_spec() {
        Transfer::Conditional { target } => target == k || p + 1 == k,
        Transfer::Always { target } => target == k,
        Transfer::Next => false,
    }
}

/// Whether a branch before position `k` leads there.
pub open spec fn entered_from_before(code: Seq<Instruction>, k: int) -> bool {
    exists|p: int| 0 <= p < code.len() && p < k && leads_to(#[trigger] code[p], p, k)
}

/// Whether a branch at position `k`, or behind it, leads there.
pub open spec fn entered_from_behind(code: Seq<Instruction>, k: int) -> bool {
    exists|p: int| 0 <= p < code.len() && k <= p && leads_to(#[trigger] code[p], p, k)
}

/// Whether some branch leads to position `k`.
pub open spec fn is_entry(code: Seq<Instruction>, k: int) -> bool {
    entered_from_before(code, k) || entered_from_behind(code, k)
}

/// The block of the instructions from position `start` up to, not including, `end`.
pub open spec fn block_of(code: Seq<Instruction>, start: int, end: int, exit: Exit) -> Block {
    Block { code: code.subrange(start, end), start: start as usize, exit, generated: false }
}

/// How a block passes control on that ends in the branch at position `k`.
pub open spec fn branch_exit(code: Seq<Instruction>, k: int) -> Exit {
    match code[k].transfer_spec() {
        Transfer::Conditional { target } => Exit::Conditional {
            destinations: seq![target, (k + 1) as usize],
        },
        Transfer::Always { target } => Exit::Unconditional { destination: target },
        Transfer::Next => Exit::BodyEnd,
    }
}

/// The walk over a body: the blocks so far, and where the open block starts.
#[verifier::ext_equal]
pub struct Walk {
    pub blocks: Seq<Block>,
    pub open: Option<int>,
}

impl Walk {
    /// Opens a block at position `k`; an open block that starts before `k` ends.
    pub open spec fn open_at(self, code: Seq<Instruction>, k: int) -> Walk {
        let blocks = match self.open {
            Some(s) if s < k => self.blocks.push(
                block_of(code, s, k, Exit::Required { destination: k as usize }),
            ),
            _ => self.blocks,
        };
        Walk { blocks, open: Some(k) }
    }

    /// Ends the open block, if there is one, with the branch at position `k`.
    pub open spec fn branch_at(self, code: Seq<Instruction>, k: int) -> Walk {
        let blocks = match self.open {
            Some(s) => self.blocks.push(block_of(code, s, k + 1, branch_exit(code, k))),
            None => self.blocks,
        };
        Walk { blocks, open: None }
    }

    /// What position `k` does to the walk.
    pub open spec fn visit(self, code: Seq<Instruction>, k: int) -> Walk {
        let w = if entered_from_before(code, k) {
            self.open_at(code, k)
        } else {
            self
        };
        let w = if k < code.len() && is_branch(code[k]) {
            w.branch_at(code, k)
        } else {
            w
        };
        if entered_from_behind(code, k) {
            w.open_at(code, k)
        } else {
            w
        }
    }

    /// Ends the open block where the body ends.
    pub open spec fn finish(self, code: Seq<Instruction>) -> Seq<Block> {
        match self.open {
            Some(s) => self.blocks.push(block_of(code, s, code.len() as int, Exit::BodyEnd)),
            None => self.blocks,
        }
    }
}

/// The walk over the first `n` positions of `code`.
pub open spec fn walk(code: Seq<Instruction>, n: nat) -> Walk
    decreases n,
{
    if n == 0 {
        Walk { blocks: seq![], open: Some(0) }
    } else {
        walk(code, (n - 1) as nat).visit(code, n - 1)
    }
}

/// The basic blocks of `code`. The position behind the last instruction takes
/// part in the walk: branches may lead there.
pub open spec fn basic_blocks(code: Seq<Instruction>) -> Seq<Block> {
    walk(code, code.len() + 1).finish(code)
}

/// Whether [`targets_in_range`] holds of `code`.
pub fn check_targets(code: &[Instruction]) -> (r: bool)
    ensures
        r == targets_in_range(code@),
{
    let mut pc: usize = 0;
    while pc < code.len()
        invariant
            pc <= code.len(),
            forall|p: int| 0 <= p < pc ==> target_in_range(#[trigger] code@[p], code@.len()),
        decreases code.len() - pc,
    {
        let far = match code[pc].transfer() {
            Transfer::Conditional { target } => target > code.len(),
            Transfer::Always { target } => target > code.len(),
            Transfer::Next => false,
        };
        if far {
            assert(!target_in_range(code@[pc as int], code@.len()));
            return false;
        }
        pc = pc + 1;
    }
    true
}

/// What happens at a position: whether a branch before it, or one at or behind
/// it, leads there.
#[derive(Clone, Copy)]
struct Entry {
    before: bool,
    behind: bool,
}

/// What happens at the positions of a body, by position. Where nothing happens
/// there is no entry; where there is a branch there is one.
struct Entries {
    map: BTreeMap<usize, Entry>,
}

impl Entries {
    /// What happens at position `k`.
    spec fn at(self, k: usize) -> Entry {
        if self.map@.contains_key(k) {
            self.map@[k]
        } else {
            Entry { before: false, behind: false }
        }
    }

    /// Whether the entries hold what the first `n` instructions of `code` do.
    spec fn of(self, code: Seq<Instruction>, n: int) -> bool {
        &&& forall|k: usize| #[trigger] self.map@.contains_key(k) ==> k <= code.len()
        &&& forall|k: usize| 0 <= k < n && is_branch(code[k as int]) ==> #[trigger]
            self.map@.contains_key(k)
        &&& forall|k: usize|
            #![trigger self.at(k)]
            self.at(k).before == exists|p: int|
                0 <= p < n && p < k && leads_to(#[trigger] code[p], p, k as int)
        &&& forall|k: usize|
            #![trigger self.at(k)]
            self.at(k).behind == exists|p: int|
                0 <= p < n && k <= p && leads_to(#[trigger] code[p], p, k as int)
    }

    /// What happens at position `k`.
    fn get(&self, k: usize) -> (r: Entry)
        ensures
            r == self.at(k),
    {
        broadcast use group_btree_axioms;

        match self.map.get(&k) {
            Some(entry) => *entry,
            None => Entry { before: false, behind: false },
        }
    }

    /// Records that there is a branch at position `p`.
    fn touch(&mut self, p: usize)
        ensures
            final(self).map@ == old(self).map@.insert(p, old(self).at(p)),
    {
        broadcast use group_btree_axioms;

        let entry = self.get(p);
        self.map.insert(p, entry);
    }

    /// Records that the instruction at position `p` leads to `target`.
    fn mark(&mut self, p: usize, target: usize)
        ensures
            final(self).map@ == old(self).map@.insert(
                target,
                (if p < target {
                    Entry { before: true, ..old(self).at(target) }
                } else {
                    Entry { behind: true, ..old(self).at(target) }
                }),
            ),
    {
        broadcast use group_btree_axioms;

        let mut entry = self.get(target);
        if p < target {
            entry.before = true;
        } else {
            entry.behind = true;
        }
        self.map.insert(target, entry);
    }

    /// The entries of `code`.
    fn new(code: &[Instruction]) -> (r: Self)
        requires
            targets_in_range(code@),
            code.len() < usize::MAX,
        ensures
            r.of(code@, code.len() as int),
    {
        let mut entries = Entries { map: BTreeMap::new() };
        let mut pc: usize = 0;
        while pc < code.len()
            invariant
                pc <= code.len() < usize::MAX,
                targets_in_range(code@),
                entries.of(code@, pc as int),
            decreases code.len() - pc,
        {
            let ghost old_entries = entries;
            assert(target_in_range(code@[pc as int], code@.len()));
            match code[pc].transfer() {
                Transfer::Conditional { target } => {
                    entries.touch(pc);
                    entries.mark(pc, target);
                    entries.mark(pc, pc + 1);
                },
                Transfer::Always { target } => {
                    entries.touch(pc);
                    entries.mark(pc, target);
                },
                Transfer::Next => {},
            }
            proof {
                assert forall|k: usize| #![trigger entries.at(k)] entries.at(k).before
                    == exists|p: int|
                    0 <= p < pc + 1 && p < k && leads_to(#[trigger] code@[p], p, k as int) by {
                    assert(old_entries.at(k).before == exists|p: int|
                        0 <= p < pc && p < k && leads_to(#[trigger] code@[p], p, k as int));
                    assert(leads_to(code@[pc as int], pc as int, k as int) || !leads_to(
                        code@[pc as int],
                        pc as int,
                        k as int,
                    ));
                }
                assert forall|k: usize| #![trigger entries.at(k)] entries.at(k).behind
                    == exists|p: int|
                    0 <= p < pc + 1 && k <= p && leads_to(#[trigger] code@[p], p, k as int) by {
                    assert(old_entries.at(k).behind == exists|p: int|
                        0 <= p < pc && k <= p && leads_to(#[trigger] code@[p], p, k as int));
                    assert(leads_to(code@[pc as int], pc as int, k as int) || !leads_to(
                        code@[pc as int],
                        pc as int,
                        k as int,
                    ));
                }
            }
            pc = pc + 1;
        }
        entries
    }
}

/// Whether `items` are the entries of a map in the order of their positions.
spec fn in_order(items: Seq<(&usize, &Entry)>, map: Map<usize, Entry>) -> bool {
    &&& forall|i: int, j: int|
        0 <= i < j < items.len() ==> *(#[trigger] items[i]).0 < *(#[trigger] items[j]).0
    &&& forall|i: int|
        0 <= i < items.len() ==> map.contains_key(*(#[trigger] items[i]).0) && map[*items[i].0]
            == *items[i].1
    &&& forall|k: usize| #[trigger]
        map.contains_key(k) ==> exists|i: int|
            0 <= i < items.len() && *(#[trigger] items[i]).0 == k
}

/// Numbers in increasing order: one that comes later is greater.
proof fn lemma_increasing(keys: Seq<usize>, i: int, j: int)
    requires
        increasing_seq(keys),
        0 <= i < j < keys.len(),
    ensures
        keys[i] < keys[j],
{
    broadcast use group_btree_axioms;

    assert(keys[i].cmp_spec(&keys[j]) is Less);
}

/// Positions at which nothing happens do not change the walk.
proof fn lemma_nothing_happens(code: Seq<Instruction>, from: nat, to: nat)
    requires
        from <= to,
        forall|k: int|
            from <= k < to ==> !#[trigger] is_entry(code, k) && !(k < code.len() && is_branch(
                code[k],
            )),
    ensures
        walk(code, to) == walk(code, from),
    decreases to,
{
    if from < to {
        lemma_nothing_happens(code, from, (to - 1) as nat);
        assert(!is_entry(code, to - 1));
    }
}

/// The instructions of `code` from position `start` up to, not including, `end`.
fn copy_range(code: &[Instruction], start: usize, end: usize) -> (r: Vec<Instruction>)
    requires
        start <= end <= code.len(),
    ensures
        r@ == code@.subrange(start as int, end as int),
{
    let mut r: Vec<Instruction> = Vec::new();
    let mut i: usize = start;
    while i < end
        invariant
            start <= i <= end <= code.len(),
            r@ == code@.subrange(start as int, i as int),
        decreases end - i,
    {
        r.push(code[i]);
        assert(code@.subrange(start as int, i + 1) =~= code@.subrange(start as int, i as int).push(
            code@[i as int],
        ));
        i = i + 1;
    }
    r
}

/// Adds the block of the instructions from `start` up to `end` to `blocks`.
fn create_block(
    blocks: &mut Vec<BasicBlock>,
    code: &[Instruction],
    start: usize,
    end: usize,
    kind: BrKind,
)
    requires
        start <= end <= code.len(),
    ensures
        block_views(final(blocks)@) == block_views(old(blocks)@).push(
            block_of(code@, start as int, end as int, kind@),
        ),
{
    blocks.push(
        BasicBlock { code: copy_range(code, start, end), start, kind, generated: false },
    );
    assert(block_views(blocks@) =~= block_views(old(blocks)@).push(
        block_of(code@, start as int, end as int, kind@),
    ));
}

impl CFGMaker {
    pub fn new() -> (r: Self)
        ensures
            r == (CFGMaker {  }),
    {
        CFGMaker {  }
    }

    /// Cuts `code` into its basic blocks.
    pub fn make_basic_blocks(&mut self, code: &[Instruction]) -> (r: Vec<BasicBlock>)
        requires
            targets_in_range(code@),
            code.len() < usize::MAX,
        ensures
            block_views(r@) == basic_blocks(code@),
            *final(self) == *old(self),
    {
        let entries = Entries::new(code);
        let mut start: Option<usize> = Some(0);
        let mut blocks: Vec<BasicBlock> = Vec::new();
        assert(block_views(blocks@) =~= walk(code@, 0).blocks);

        broadcast use group_btree_axioms;

        let ghost mut done: nat = 0;
        let items = entries.map.iter();
        proof {
            let seq = items.remaining();
            let keys = seq.map_values(|kv: (&usize, &Entry)| *kv.0);
            assert(increasing_seq(keys));
            assert forall|i: int, j: int| 0 <= i < j < seq.len() implies *(#[trigger] seq[i]).0
                < *(#[trigger] seq[j]).0 by {
                lemma_increasing(keys, i, j);
            }
            assert(in_order(seq, entries.map@));
        }
        for item in it: items
            invariant
                in_order(it.seq(), entries.map@),
                code.len() < usize::MAX,
                entries.of(code@, code.len() as int),
                done <= code.len() + 1,
                done == (if it.index() == 0 {
                    0
                } else {
                    (*it.seq()[it.index() - 1].0 + 1) as nat
                }),
                start matches Some(s) ==> s <= code.len() && (s < done || (s == 0 && done == 0)),
                block_views(blocks@) == walk(code@, done).blocks,
                walk(code@, done).open == (match start {
                    Some(s) => Some(s as int),
                    None => None,
                }),
        {
            let (key, entry) = (*item.0, *item.1);
            let ghost w0 = walk(code@, key as nat);
            proof {
                assert(it.seq()[it.index()] == item);
                assert(entries.map@.contains_key(key));
                assert(entries.at(key) == entry);
                assert forall|k: int| done <= k < key implies !#[trigger] is_entry(code@, k)
                    && !(k < code@.len() && is_branch(code@[k])) by {
                    assert(!entries.map@.contains_key(k as usize));
                    assert(!entries.at(k as usize).before && !entries.at(k as usize).behind);
                }
                lemma_nothing_happens(code@, done, key as nat);
            }
            assert(walk(code@, (key + 1) as nat) == w0.visit(code@, key as int));
            assert(entry.before == entered_from_before(code@, key as int));
            assert(entry.behind == entered_from_behind(code@, key as int));
            if entry.before {
                if let Some(s) = start {
                    if s < key {
                        create_block(
                            &mut blocks,
                            code,
                            s,
                            key,
                            BrKind::JmpRequired { destination: key },
                        );
                    }
                }
                start = Some(key);
            }
            if key < code.len() {
                let kind = match code[key].transfer() {
                    Transfer::Conditional { target } => {
                        let destinations = vec![target, key + 1];
                        assert(destinations@ =~= seq![target, (key + 1) as usize]);
                        Some(BrKind::ConditionalJmp { destinations })
                    },
                    Transfer::Always { target } => Some(
                        BrKind::UnconditionalJmp { destination: target },
                    ),
                    Transfer::Next => None,
                };
                if let Some(kind) = kind {
                    assert(kind@ == branch_exit(code@, key as int));
                    if let Some(s) = start {
                        create_block(&mut blocks, code, s, key + 1, kind);
                    }
                    start = None;
                }
            }
            if entry.behind {
                if let Some(s) = start {
                    if s < key {
                        create_block(
                            &mut blocks,
                            code,
                            s,
                            key,
                            BrKind::JmpRequired { destination: key },
                        );
                    }
                }
                start = Some(key);
            }
            proof {
                done = (key + 1) as nat;
            }
        }

        proof {
            assert forall|k: int| done <= k < code@.len() + 1 implies !#[trigger] is_entry(
                code@,
                k,
            ) && !(k < code@.len() && is_branch(code@[k])) by {
                assert(!entries.map@.contains_key(k as usize));
                assert(!entries.at(k as usize).before && !entries.at(k as usize).behind);
            }
            lemma_nothing_happens(code@, done, code@.len() + 1);
        }
        if let Some(s) = start {
            create_block(&mut blocks, code, s, code.len(), BrKind::BlockStart);
        }
        blocks
    }
}

impl BrKind {
    /// Where a conditional branch leads: if taken, and if not.
    pub fn get_conditional_jump_destinations(&self) -> (r: &Vec<usize>)
        requires
            self is ConditionalJmp,
        ensures
            *r == self->destinations,
            self@ == (Exit::Conditional { destinations: r@ }),
    {
        match self {
            BrKind::ConditionalJmp { destinations } => destinations,
            _ => { unreached() },
        }
    }

    /// Where a block leads that passes control to one place.
    pub fn get_unconditional_jump_destination(&self) -> (r: usize)
        requires
            self is UnconditionalJmp || self is JmpRequired,
        ensures
            self@ == (Exit::Unconditional { destination: r }) || self@ == (Exit::Required {
                destination: r,
            }),
    {
        match self {
            BrKind::UnconditionalJmp { destination } => *destination,
            BrKind::JmpRequired { destination } => *destination,
            _ => { unreached() },
        }
    }
}

impl BasicBlock {
    /// The position behind the block's last instruction.
    pub fn code_end_position(&self) -> (r: usize)
        requires
            self.start + self.code.len() <= usize::MAX,
        ensures
            r == self@.end(),
    {
        self.start + self.code.len()
    }
}

} // verus!
