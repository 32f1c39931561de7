//! What the compiler keeps while it compiles.
use rustc_hash::FxHashMap;
use vstd::prelude::*;

use crate::exec::jit::fx::{contents, fx_new};
use crate::exec::jit::module::{BlockRef, FunctionRef, ModuleSpec, ValueRef};
use crate::exec::jit::types::TypesSpec;
use crate::metadata::image::Image;
use crate::metadata::signature::Type;

verus! {

/// The LLVM block of a basic block, and whether the builder has been there.
#[derive(Debug, Clone, Copy, PartialEq, Eq, Structural)]
pub enum BasicBlockInfo {
    Positioned(BlockRef),
    Unpositioned(BlockRef),
}

/// A value with its CIL type.
#[derive(Debug, Clone, Copy, PartialEq, Eq, Structural)]
pub struct TypedValue {
    pub ty: Type,
    pub val: ValueRef,
}

/// What is on the evaluation stack when control passes on from a block.
#[derive(Debug, Clone)]
pub struct PhiStack {
    pub src_bb: BlockRef,
    pub stack: Vec<TypedValue>,
}

/// The variables of the method that is being compiled. The values are pointers
/// to them.
#[derive(Debug, Clone)]
pub struct Environment {
    pub arguments: FxHashMap<usize, TypedValue>,
    pub locals: FxHashMap<usize, TypedValue>,
}

/// What a [`PhiStack`] stands for.
#[verifier::ext_equal]
pub struct PhiSpec {
    pub src_bb: BlockRef,
    pub stack: Seq<TypedValue>,
}

impl View for PhiStack {
    type V = PhiSpec;

    open spec fn view(&self) -> PhiSpec {
        PhiSpec { src_bb: self.src_bb, stack: self.stack@ }
    }
}

/// What a list of [`PhiStack`]s stands for.
pub open spec fn phi_views(phis: Vec<PhiStack>) -> Seq<PhiSpec> {
    Seq::new(phis@.len(), |i: int| phis@[i]@)
}

impl BasicBlockInfo {
    /// The block.
    pub open spec fn block(self) -> BlockRef {
        match self {
            BasicBlockInfo::Positioned(bb) => bb,
            BasicBlockInfo::Unpositioned(bb) => bb,
        }
    }

    /// The block.
    pub fn retrieve(&self) -> (r: BlockRef)
        ensures
            r == self.block(),
    {
        match self {
            BasicBlockInfo::Positioned(bb) | BasicBlockInfo::Unpositioned(bb) => *bb,
        }
    }

    /// Records that the builder has been at the block.
    pub fn set_positioned(&mut self) -> (r: &Self)
        ensures
            *final(self) == BasicBlockInfo::Positioned(old(self).block()),
            *r == *final(self),
    {
        match self {
            BasicBlockInfo::Unpositioned(bb) => {
                let bb: usize = *bb;
                *self = BasicBlockInfo::Positioned(bb);
            },
            _ => {},
        };
        self
    }

    /// Whether the builder has been at the block.
    pub fn is_positioned(&self) -> (r: bool)
        ensures
            r == (*self is Positioned),
    {
        match self {
            BasicBlockInfo::Positioned(_) => true,
            _ => false,
        }
    }
}

impl TypedValue {
    pub fn new(ty: Type, val: ValueRef) -> (r: Self)
        ensures
            r == (TypedValue { ty, val }),
    {
        TypedValue { ty, val }
    }
}

impl Environment {
    /// No variables.
    pub fn new() -> (r: Self)
        ensures
            contents(r.arguments) == Map::<usize, TypedValue>::empty(),
            contents(r.locals) == Map::<usize, TypedValue>::empty(),
    {
        Environment { arguments: fx_new(), locals: fx_new() }
    }
}

/// What the compiler's state stands for.
#[verifier::ext_equal]
pub struct Jit {
    pub image: Image,
    pub module: ModuleSpec,
    pub types: TypesSpec,
    /// The block at whose end instructions are built.
    pub pos: BlockRef,
    /// The function that is being compiled.
    pub generating: Option<FunctionRef>,
    /// The functions of the methods that have been called, by their address.
    pub generated: Map<u32, FunctionRef>,
    /// The blocks of the method that is being compiled, by their start.
    pub basic_blocks: Map<usize, BasicBlockInfo>,
    /// What comes in on the stack, by the start of the block where it comes in.
    pub phi_stack: Map<usize, Seq<PhiSpec>>,
    pub arguments: Map<usize, TypedValue>,
    pub locals: Map<usize, TypedValue>,
    /// The functions whose methods are still to be compiled, with the addresses
    /// of the methods.
    pub queue: Seq<(FunctionRef, u32)>,
    /// The functions that the engine provides.
    pub builtins: Map<Seq<char>, FunctionRef>,
}

impl Jit {
    /// Whether everything in the state refers to what is there.
    pub open spec fn wf(self) -> bool {
        &&& self.module.wf()
        &&& forall|pc: usize| #[trigger]
            self.basic_blocks.contains_key(pc) ==> self.basic_blocks[pc].block()
                < self.module.blocks.len()
        &&& forall|i: int|
            0 <= i < self.queue.len() ==> (#[trigger] self.queue[i]).0
                < self.module.functions.len()
        &&& forall|i: int|
            0 <= i < self.queue.len() ==> self.image.methods@.contains_key(
                (#[trigger] self.queue[i]).1,
            )
        &&& self.builtins.contains_key("WriteLine(int)"@)
        &&& self.builtins.contains_key("WriteLine(string)"@)
        &&& self.builtins.contains_key("memory_alloc"@)
    }

    /// Whether instructions can be built: in a block of the module, for a
    /// function that has an entry block.
    pub open spec fn ready(self) -> bool {
        &&& self.wf()
        &&& self.pos < self.module.blocks.len()
        &&& self.generating matches Some(f) && f < self.module.functions.len()
            && self.module.functions[f as int].blocks.len() > 0
    }

    /// The methods that have not been called yet.
    pub open spec fn uncalled(self) -> Set<u32> {
        self.image.methods@.dom().difference(self.generated.dom())
    }

    /// How many methods may still have to be compiled: those that have not been
    /// called yet, and those that wait.
    pub open spec fn pending(self) -> nat {
        self.uncalled().len() + self.queue.len()
    }

    /// Whether `later` is a state that compiling a part of a function can lead
    /// to from this one.
    pub open spec fn leads_to(self, later: Jit) -> bool {
        &&& later.ready()
        &&& later.image == self.image
        &&& later.generating == self.generating
        &&& later.pending() <= self.pending()
        &&& self.module.blocks.len() <= later.module.blocks.len()
        &&& self.module.functions.len() <= later.module.functions.len()
    }
}

/// Where the module grows and stays well-formed, the state stays ready.
pub proof fn lemma_module_grows(j: Jit, module: ModuleSpec)
    requires
        j.ready(),
        module.wf(),
        j.module.blocks.len() <= module.blocks.len(),
        j.module.functions.len() <= module.functions.len(),
        module.functions[j.generating.unwrap() as int].blocks.len() > 0,
    ensures
        j.leads_to(Jit { module, ..j }),
{
    let later = Jit { module, ..j };
    assert(later.wf());
    assert(later.uncalled() == j.uncalled());
}

/// Where a block of the module is recorded, and the builder moves to one, the
/// state stays ready.
pub proof fn lemma_block_recorded(j: Jit, pc: usize, info: BasicBlockInfo, pos: BlockRef)
    requires
        j.ready(),
        info.block() < j.module.blocks.len(),
        pos < j.module.blocks.len(),
    ensures
        j.leads_to(Jit { basic_blocks: j.basic_blocks.insert(pc, info), pos, ..j }),
{
    let later = Jit { basic_blocks: j.basic_blocks.insert(pc, info), pos, ..j };
    assert(later.wf());
    assert(later.uncalled() == j.uncalled());
}

/// When a method is called for the first time and its function joins the queue,
/// as many methods may still have to be compiled as before.
pub proof fn lemma_method_joins_queue(j: Jit, rva: u32, f: FunctionRef)
    requires
        j.ready(),
        j.image.methods@.contains_key(rva),
        !j.generated.contains_key(rva),
        f < j.module.functions.len(),
    ensures
        j.leads_to(
            Jit { generated: j.generated.insert(rva, f), queue: j.queue.push((f, rva)), ..j },
        ),
{
    let later = Jit { generated: j.generated.insert(rva, f), queue: j.queue.push((f, rva)), ..j };
    assert(later.wf());
    assert(j.uncalled().contains(rva));
    assert(later.uncalled() =~= j.uncalled().remove(rva));
    assert(j.uncalled().finite());
}

/// When a method leaves the queue, one method fewer may still have to be compiled.
pub proof fn lemma_method_leaves_queue(j: Jit)
    requires
        j.wf(),
        j.queue.len() > 0,
    ensures
        ({
            let later = Jit { queue: j.queue.subrange(1, j.queue.len() as int), ..j };
            later.wf() && later.pending() < j.pending()
        }),
        j.queue[0].0 < j.module.functions.len(),
        j.image.methods@.contains_key(j.queue[0].1),
{
    let later = Jit { queue: j.queue.subrange(1, j.queue.len() as int), ..j };
    assert forall|i: int| 0 <= i < later.queue.len() implies #[trigger] later.queue[i]
        == j.queue[i + 1] by {}
    assert(later.uncalled() == j.uncalled());
}

} // verus!
