//! The module that the compiler builds, described by plain values.
//!
//! A [`Module`] records what LLVM's builder is asked for: the functions, their
//! basic blocks and the instructions, which are numbered in the order in which
//! they are built. An instruction goes to the end of a block, but for the
//! allocation of a variable, which goes to the front.
//!
//! LLVM's builder computes an operation on constants at once. A block lists such
//! an operation like any other, but LLVM puts nothing in the block for it.
use vstd::prelude::*;

verus! {

/// A function, by its index in [`Module::functions`].
pub type FunctionRef = usize;

/// A basic block, by its index in [`Module::blocks`].
pub type BlockRef = usize;

/// The types of values.
#[derive(Clone, Copy, Debug, PartialEq, Eq, Structural)]
pub enum LLVMType {
    Void,
    Int8,
    Int32,
    /// A pointer to bytes.
    Int8Ptr,
    /// A pointer to a structure, by its index among the structures.
    StructPtr(usize),
}

/// A value that an instruction can work on.
#[derive(Clone, Copy, Debug, PartialEq, Eq, Structural)]
pub enum ValueRef {
    /// The result of an instruction, by its index in [`Module::insts`].
    Inst(usize),
    /// A parameter of a function.
    Param { function: FunctionRef, index: usize },
    /// A 32-bit constant.
    Int32(i32),
    /// A pointer to a string, by its index in [`Module::strings`].
    Text(usize),
    /// The null value of a type.
    Null(LLVMType),
    /// The size of what a pointer of this type points to.
    SizeOf(LLVMType),
}

#[derive(Clone, Copy, Debug, PartialEq, Eq, Structural)]
pub enum BinaryOp {
    Add,
    Sub,
    Mul,
    SRem,
}

/// The predicates of integer comparisons.
#[derive(Clone, Copy, Debug, PartialEq, Eq, Structural)]
pub enum Predicate {
    Equal,
    NotEqual,
    SignedGreaterEqual,
    SignedGreater,
    SignedLessEqual,
    SignedLess,
}

/// What an instruction does. `A` is the type of argument lists.
#[verifier::ext_equal]
#[derive(Clone, Debug)]
pub enum Op<A> {
    /// Allocates a variable.
    Alloca { ty: LLVMType },
    Load { ptr: ValueRef },
    Store { val: ValueRef, ptr: ValueRef },
    Binary { op: BinaryOp, lhs: ValueRef, rhs: ValueRef },
    Compare { pred: Predicate, lhs: ValueRef, rhs: ValueRef },
    /// Compares with the null value of the same type.
    CompareNull { pred: Predicate, val: ValueRef },
    /// The address of a field of a structure.
    Field { obj: ValueRef, index: usize },
    Cast { val: ValueRef, ty: LLVMType },
    Call { callee: FunctionRef, args: A },
    /// A value that depends on the block that control came from. It has the type
    /// of `like`.
    Phi { like: ValueRef },
    Br { dest: BlockRef },
    CondBr { cond: ValueRef, if_true: BlockRef, if_false: BlockRef },
    RetVoid,
    Ret { val: ValueRef },
}

/// An instruction.
#[derive(Clone, Debug)]
pub struct Inst {
    /// The block that it belongs to.
    pub block: BlockRef,
    pub op: Op<Vec<ValueRef>>,
}

/// A basic block.
#[derive(Clone, Debug)]
pub struct IrBlock {
    pub function: FunctionRef,
    /// The instructions, first to last, by their index in [`Module::insts`].
    pub insts: Vec<usize>,
}

/// A function.
#[derive(Clone, Debug)]
pub struct Function {
    pub name: String,
    pub ret: LLVMType,
    pub params: Vec<LLVMType>,
    /// The blocks; the first is the entry. None, if the function is only declared.
    pub blocks: Vec<BlockRef>,
}

/// A value that a [`Op::Phi`] has if control came from `block`.
#[derive(Clone, Copy, Debug, PartialEq, Eq, Structural)]
pub struct Incoming {
    pub phi: ValueRef,
    pub val: ValueRef,
    pub block: BlockRef,
}

/// A module.
#[derive(Clone, Debug)]
pub struct Module {
    pub functions: Vec<Function>,
    pub blocks: Vec<IrBlock>,
    pub insts: Vec<Inst>,
    pub incoming: Vec<Incoming>,
    pub strings: Vec<String>,
}

/// What an [`Inst`] stands for.
#[verifier::ext_equal]
pub struct InstSpec {
    pub block: BlockRef,
    pub op: Op<Seq<ValueRef>>,
}

/// What an [`IrBlock`] stands for.
#[verifier::ext_equal]
pub struct BlockSpec {
    pub function: FunctionRef,
    pub insts: Seq<usize>,
}

/// What a [`Function`] stands for.
#[verifier::ext_equal]
pub struct FunctionSpec {
    pub name: Seq<char>,
    pub ret: LLVMType,
    pub params: Seq<LLVMType>,
    pub blocks: Seq<BlockRef>,
}

/// What a [`Module`] stands for.
#[verifier::ext_equal]
pub struct ModuleSpec {
    pub functions: Seq<FunctionSpec>,
    pub blocks: Seq<BlockSpec>,
    pub insts: Seq<InstSpec>,
    pub incoming: Seq<Incoming>,
    pub strings: Seq<Seq<char>>,
}

/// What an instruction does, with its argument list as a sequence.
pub open spec fn op_view(op: Op<Vec<ValueRef>>) -> Op<Seq<ValueRef>> {
    match op {
        Op::Alloca { ty } => Op::Alloca { ty },
        Op::Load { ptr } => Op::Load { ptr },
        Op::Store { val, ptr } => Op::Store { val, ptr },
        Op::Binary { op, lhs, rhs } => Op::Binary { op, lhs, rhs },
        Op::Compare { pred, lhs, rhs } => Op::Compare { pred, lhs, rhs },
        Op::CompareNull { pred, val } => Op::CompareNull { pred, val },
        Op::Field { obj, index } => Op::Field { obj, index },
        Op::Cast { val, ty } => Op::Cast { val, ty },
        Op::Call { callee, args } => Op::Call { callee, args: args@ },
        Op::Phi { like } => Op::Phi { like },
        Op::Br { dest } => Op::Br { dest },
        Op::CondBr { cond, if_true, if_false } => Op::CondBr { cond, if_true, if_false },
        Op::RetVoid => Op::RetVoid,
        Op::Ret { val } => Op::Ret { val },
    }
}

/// Whether an instruction ends a block.
pub open spec fn is_terminator<A>(op: Op<A>) -> bool {
    match op {
        Op::Br { .. } | Op::CondBr { .. } | Op::RetVoid | Op::Ret { .. } => true,
        _ => false,
    }
}

impl View for Inst {
    type V = InstSpec;

    open spec fn view(&self) -> InstSpec {
        InstSpec { block: self.block, op: op_view(self.op) }
    }
}

impl View for IrBlock {
    type V = BlockSpec;

    open spec fn view(&self) -> BlockSpec {
        BlockSpec { function: self.function, insts: self.insts@ }
    }
}

impl View for Function {
    type V = FunctionSpec;

    open spec fn view(&self) -> FunctionSpec {
        FunctionSpec {
            name: self.name@,
            ret: self.ret,
            params: self.params@,
            blocks: self.blocks@,
        }
    }
}

impl View for Module {
    type V = ModuleSpec;

    open spec fn view(&self) -> ModuleSpec {
        ModuleSpec {
            functions: Seq::new(self.functions@.len(), |i: int| self.functions@[i]@),
            blocks: Seq::new(self.blocks@.len(), |i: int| self.blocks@[i]@),
            insts: Seq::new(self.insts@.len(), |i: int| self.insts@[i]@),
            incoming: self.incoming@,
            strings: Seq::new(self.strings@.len(), |i: int| self.strings@[i]@),
        }
    }
}

impl ModuleSpec {
    /// The module without anything in it.
    pub open spec fn empty() -> ModuleSpec {
        ModuleSpec {
            functions: seq![],
            blocks: seq![],
            insts: seq![],
            incoming: seq![],
            strings: seq![],
        }
    }

    /// Whether blocks list only instructions of the module, and functions only
    /// blocks of the module.
    pub open spec fn wf(self) -> bool {
        &&& forall|b: int, i: int|
            0 <= b < self.blocks.len() && 0 <= i < self.blocks[b].insts.len()
                ==> #[trigger] self.blocks[b].insts[i] < self.insts.len()
        &&& forall|f: int, i: int|
            0 <= f < self.functions.len() && 0 <= i < self.functions[f].blocks.len()
                ==> #[trigger] self.functions[f].blocks[i] < self.blocks.len()
    }

    /// Whether a value that an instruction with index `bound` works on is
    /// constant: a constant itself, or what an earlier instruction makes of
    /// constants.
    pub open spec fn is_constant(self, val: ValueRef, bound: int) -> bool
        decreases bound, 0int,
    {
        match val {
            ValueRef::Inst(id) => id < bound && self.folds(id as int),
            ValueRef::Param { .. } => false,
            _ => true,
        }
    }

    /// Whether LLVM's builder computes an instruction at once, and puts nothing
    /// in the block for it: an operation that only works on constants.
    pub open spec fn folds(self, id: int) -> bool
        decreases id, 1int,
    {
        match self.insts[id].op {
            Op::Binary { lhs, rhs, .. } | Op::Compare { lhs, rhs, .. } => self.is_constant(lhs, id)
                && self.is_constant(rhs, id),
            Op::CompareNull { val, .. } | Op::Cast { val, .. } => self.is_constant(val, id),
            Op::Field { obj, .. } => self.is_constant(obj, id),
            _ => false,
        }
    }

    /// Whether an instruction ends a block, with none behind it but such as LLVM
    /// puts nothing in the block for.
    pub open spec fn terminated(self, bb: BlockRef) -> bool {
        let insts = self.blocks[bb as int].insts;
        exists|i: int|
            0 <= i < insts.len() && is_terminator(self.insts[#[trigger] insts[i] as int].op) && (
            forall|k: int| i < k < insts.len() ==> self.folds(#[trigger] insts[k] as int))
    }

    /// The module with one more function, without blocks.
    pub open spec fn add_function(
        self,
        name: Seq<char>,
        ret: LLVMType,
        params: Seq<LLVMType>,
    ) -> ModuleSpec {
        ModuleSpec {
            functions: self.functions.push(
                FunctionSpec { name, ret, params, blocks: seq![] },
            ),
            ..self
        }
    }

    /// The module with one more block, without instructions, at the end of a function.
    pub open spec fn append_block(self, function: FunctionRef) -> ModuleSpec {
        let f = self.functions[function as int];
        let bb = self.blocks.len() as usize;
        ModuleSpec {
            functions: self.functions.update(
                function as int,
                FunctionSpec { blocks: f.blocks.push(bb), ..f },
            ),
            blocks: self.blocks.push(BlockSpec { function, insts: seq![] }),
            ..self
        }
    }

    /// The module with one more instruction at the end of a block.
    pub open spec fn append(self, bb: BlockRef, op: Op<Seq<ValueRef>>) -> ModuleSpec {
        let b = self.blocks[bb as int];
        let id = self.insts.len() as usize;
        ModuleSpec {
            blocks: self.blocks.update(bb as int, BlockSpec { insts: b.insts.push(id), ..b }),
            insts: self.insts.push(InstSpec { block: bb, op }),
            ..self
        }
    }

    /// The module with one more instruction at the front of a block.
    pub open spec fn prepend(self, bb: BlockRef, op: Op<Seq<ValueRef>>) -> ModuleSpec {
        let b = self.blocks[bb as int];
        let id = self.insts.len() as usize;
        ModuleSpec {
            blocks: self.blocks.update(bb as int, BlockSpec { insts: b.insts.insert(0, id), ..b }),
            insts: self.insts.push(InstSpec { block: bb, op }),
            ..self
        }
    }

    /// The module with one more value for a [`Op::Phi`].
    pub open spec fn add_incoming(self, incoming: Incoming) -> ModuleSpec {
        ModuleSpec { incoming: self.incoming.push(incoming), ..self }
    }

    /// The module with one more string.
    pub open spec fn add_string(self, text: Seq<char>) -> ModuleSpec {
        ModuleSpec { strings: self.strings.push(text), ..self }
    }
}

impl Module {
    pub fn new() -> (r: Self)
        ensures
            r@ == ModuleSpec::empty(),
            r@.wf(),
    {
        let r = Module {
            functions: Vec::new(),
            blocks: Vec::new(),
            insts: Vec::new(),
            incoming: Vec::new(),
            strings: Vec::new(),
        };
        assert(r@ =~= ModuleSpec::empty());
        r
    }

    /// Whether a value that the instruction with index `bound` works on is constant.
    fn is_constant(&self, val: ValueRef, bound: usize) -> (r: bool)
        requires
            bound < self@.insts.len(),
        ensures
            r == self@.is_constant(val, bound as int),
        decreases bound, 0int,
    {
        match val {
            ValueRef::Inst(id) => id < bound && self.folds(id),
            ValueRef::Param { .. } => false,
            _ => true,
        }
    }

    /// Whether LLVM's builder computes an instruction at once, and puts nothing
    /// in the block for it.
    pub fn folds(&self, id: usize) -> (r: bool)
        requires
            id < self@.insts.len(),
        ensures
            r == self@.folds(id as int),
        decreases id, 1int,
    {
        assert(self@.insts[id as int].op == op_view(self.insts[id as int].op));
        match self.insts[id].op {
            Op::Binary { lhs, rhs, .. } | Op::Compare { lhs, rhs, .. } => self.is_constant(lhs, id)
                && self.is_constant(rhs, id),
            Op::CompareNull { val, .. } | Op::Cast { val, .. } => self.is_constant(val, id),
            Op::Field { obj, .. } => self.is_constant(obj, id),
            _ => false,
        }
    }

    /// Whether an instruction ends a block, with none behind it but such as LLVM
    /// puts nothing in the block for.
    pub fn has_terminator(&self, bb: BlockRef) -> (r: bool)
        requires
            self@.wf(),
            bb < self@.blocks.len(),
        ensures
            r == self@.terminated(bb),
    {
        let ghost insts = self@.blocks[bb as int].insts;
        let mut n: usize = self.blocks[bb].insts.len();
        while n > 0
            invariant
                self@.wf(),
                bb < self@.blocks.len(),
                insts == self@.blocks[bb as int].insts,
                insts == self.blocks@[bb as int].insts@,
                n <= insts.len(),
                forall|k: int| n <= k < insts.len() ==> self@.folds(#[trigger] insts[k] as int),
            decreases n,
        {
            let id: usize = self.blocks[bb].insts[n - 1];
            assert(self@.blocks[bb as int].insts[n - 1] < self@.insts.len());
            assert(self@.insts[id as int].op == op_view(self.insts[id as int].op));
            match self.insts[id].op {
                Op::Br { .. } | Op::CondBr { .. } | Op::RetVoid | Op::Ret { .. } => {
                    assert(insts[n - 1] == id);
                    return true;
                },
                _ => {},
            }
            if !self.folds(id) {
                assert(!self@.terminated(bb)) by {
                    assert(insts[n - 1] == id);
                }
                return false;
            }
            n = n - 1;
        }
        false
    }

    /// Adds a function, without blocks.
    pub fn add_function(&mut self, name: String, ret: LLVMType, params: Vec<LLVMType>) -> (r:
        FunctionRef)
        requires
            old(self)@.wf(),
        ensures
            r == old(self)@.functions.len(),
            final(self)@ == old(self)@.add_function(name@, ret, params@),
            final(self)@.wf(),
    {
        let r: usize = self.functions.len();
        self.functions.push(Function { name, ret, params, blocks: Vec::new() });
        assert(self@ =~= old(self)@.add_function(name@, ret, params@));
        proof {
            lemma_add_function_wf(old(self)@, name@, ret, params@);
        }
        r
    }

    /// Adds a block, without instructions, at the end of a function.
    pub fn append_block(&mut self, function: FunctionRef) -> (r: BlockRef)
        requires
            old(self)@.wf(),
            function < old(self)@.functions.len(),
        ensures
            r == old(self)@.blocks.len(),
            final(self)@ == old(self)@.append_block(function),
            final(self)@.wf(),
    {
        let r: usize = self.blocks.len();
        self.blocks.push(IrBlock { function, insts: Vec::new() });
        self.functions[function].blocks.push(r);
        assert(self@ =~= old(self)@.append_block(function));
        proof {
            lemma_append_block_wf(old(self)@, function);
        }
        r
    }

    /// Adds an instruction at the end of a block.
    pub fn append(&mut self, bb: BlockRef, op: Op<Vec<ValueRef>>) -> (r: ValueRef)
        requires
            old(self)@.wf(),
            bb < old(self)@.blocks.len(),
        ensures
            r == ValueRef::Inst(old(self)@.insts.len() as usize),
            final(self)@ == old(self)@.append(bb, op_view(op)),
            final(self)@.wf(),
    {
        let id: usize = self.insts.len();
        self.insts.push(Inst { block: bb, op });
        self.blocks[bb].insts.push(id);
        assert(self@ =~= old(self)@.append(bb, op_view(op)));
        proof {
            lemma_append_wf(old(self)@, bb, op_view(op));
        }
        ValueRef::Inst(id)
    }

    /// Adds an instruction at the front of a block.
    pub fn prepend(&mut self, bb: BlockRef, op: Op<Vec<ValueRef>>) -> (r: ValueRef)
        requires
            old(self)@.wf(),
            bb < old(self)@.blocks.len(),
        ensures
            r == ValueRef::Inst(old(self)@.insts.len() as usize),
            final(self)@ == old(self)@.prepend(bb, op_view(op)),
            final(self)@.wf(),
    {
        let id: usize = self.insts.len();
        self.insts.push(Inst { block: bb, op });
        self.blocks[bb].insts.insert(0, id);
        assert(self@ =~= old(self)@.prepend(bb, op_view(op)));
        proof {
            lemma_prepend_wf(old(self)@, bb, op_view(op));
        }
        ValueRef::Inst(id)
    }

    /// Adds a value for a [`Op::Phi`].
    pub fn add_incoming(&mut self, incoming: Incoming)
        ensures
            final(self)@ == old(self)@.add_incoming(incoming),
            old(self)@.wf() ==> final(self)@.wf(),
    {
        self.incoming.push(incoming);
        assert(self@ =~= old(self)@.add_incoming(incoming));
    }

    /// Adds a string.
    pub fn add_string(&mut self, text: String) -> (r: ValueRef)
        ensures
            r == ValueRef::Text(old(self)@.strings.len() as usize),
            final(self)@ == old(self)@.add_string(text@),
            old(self)@.wf() ==> final(self)@.wf(),
    {
        let id: usize = self.strings.len();
        self.strings.push(text);
        assert(self@ =~= old(self)@.add_string(text@));
        ValueRef::Text(id)
    }
}

/// Instructions that are built later do not change whether a value is constant.
proof fn lemma_constant_stays(m: ModuleSpec, later: ModuleSpec, val: ValueRef, bound: int)
    requires
        0 <= bound < m.insts.len(),
        m.insts.len() <= later.insts.len(),
        forall|i: int| 0 <= i < m.insts.len() ==> later.insts[i] == #[trigger] m.insts[i],
    ensures
        later.is_constant(val, bound) == m.is_constant(val, bound),
    decreases bound, 0int,
{
    if let ValueRef::Inst(id) = val {
        if id < bound {
            lemma_folds_stays(m, later, id as int);
        }
    }
}

/// Instructions that are built later do not change whether one works on constants.
pub proof fn lemma_folds_stays(m: ModuleSpec, later: ModuleSpec, id: int)
    requires
        0 <= id < m.insts.len(),
        m.insts.len() <= later.insts.len(),
        forall|i: int| 0 <= i < m.insts.len() ==> later.insts[i] == #[trigger] m.insts[i],
    ensures
        later.folds(id) == m.folds(id),
    decreases id, 1int,
{
    assert(later.insts[id] == m.insts[id]);
    match m.insts[id].op {
        Op::Binary { lhs, rhs, .. } | Op::Compare { lhs, rhs, .. } => {
            lemma_constant_stays(m, later, lhs, id);
            lemma_constant_stays(m, later, rhs, id);
        },
        Op::CompareNull { val, .. } | Op::Cast { val, .. } => {
            lemma_constant_stays(m, later, val, id);
        },
        Op::Field { obj, .. } => {
            lemma_constant_stays(m, later, obj, id);
        },
        _ => {},
    }
}

/// A block that keeps its instructions keeps its terminator.
pub proof fn lemma_terminated_stays(m: ModuleSpec, later: ModuleSpec, bb: BlockRef)
    requires
        m.wf(),
        bb < m.blocks.len(),
        later.blocks[bb as int].insts == m.blocks[bb as int].insts,
        m.insts.len() <= later.insts.len(),
        forall|i: int| 0 <= i < m.insts.len() ==> later.insts[i] == #[trigger] m.insts[i],
    ensures
        later.terminated(bb) == m.terminated(bb),
{
    let insts = m.blocks[bb as int].insts;
    assert forall|k: int| 0 <= k < insts.len() implies {
        &&& later.folds(#[trigger] insts[k] as int) == m.folds(insts[k] as int)
        &&& later.insts[insts[k] as int] == m.insts[insts[k] as int]
    } by {
        assert(m.blocks[bb as int].insts[k] < m.insts.len());
        lemma_folds_stays(m, later, insts[k] as int);
    }
}

/// With one more function a module stays well-formed.
pub proof fn lemma_add_function_wf(
    m: ModuleSpec,
    name: Seq<char>,
    ret: LLVMType,
    params: Seq<LLVMType>,
)
    requires
        m.wf(),
    ensures
        m.add_function(name, ret, params).wf(),
{
    let m2 = m.add_function(name, ret, params);
    assert forall|f: int, i: int|
        0 <= f < m2.functions.len() && 0 <= i
            < m2.functions[f].blocks.len() implies #[trigger] m2.functions[f].blocks[i]
        < m2.blocks.len() by {
        assert(f < m.functions.len());
        assert(m2.functions[f] == m.functions[f]);
        assert(m.functions[f].blocks[i] < m.blocks.len());
    }
}

/// With one more block a module stays well-formed.
pub proof fn lemma_append_block_wf(m: ModuleSpec, function: FunctionRef)
    requires
        m.wf(),
        function < m.functions.len(),
    ensures
        m.append_block(function).wf(),
{
    let m2 = m.append_block(function);
    assert forall|f: int, i: int|
        0 <= f < m2.functions.len() && 0 <= i
            < m2.functions[f].blocks.len() implies #[trigger] m2.functions[f].blocks[i]
        < m2.blocks.len() by {
        if i < m.functions[f].blocks.len() {
            assert(m.functions[f].blocks[i] < m.blocks.len());
        }
    }
    assert forall|b: int, i: int|
        0 <= b < m2.blocks.len() && 0 <= i
            < m2.blocks[b].insts.len() implies #[trigger] m2.blocks[b].insts[i]
        < m2.insts.len() by {
        assert(m.blocks[b].insts[i] < m.insts.len());
    }
}

/// With one more instruction at the end of a block a module stays well-formed.
pub proof fn lemma_append_wf(m: ModuleSpec, bb: BlockRef, op: Op<Seq<ValueRef>>)
    requires
        m.wf(),
        bb < m.blocks.len(),
    ensures
        m.append(bb, op).wf(),
{
    let m2 = m.append(bb, op);
    assert forall|b: int, i: int|
        0 <= b < m2.blocks.len() && 0 <= i
            < m2.blocks[b].insts.len() implies #[trigger] m2.blocks[b].insts[i]
        < m2.insts.len() by {
        if i < m.blocks[b].insts.len() {
            assert(m.blocks[b].insts[i] < m.insts.len());
        }
    }
    assert forall|f: int, i: int|
        0 <= f < m2.functions.len() && 0 <= i
            < m2.functions[f].blocks.len() implies #[trigger] m2.functions[f].blocks[i]
        < m2.blocks.len() by {
        assert(m.functions[f].blocks[i] < m.blocks.len());
    }
}

/// With one more instruction at the front of a block a module stays well-formed.
pub proof fn lemma_prepend_wf(m: ModuleSpec, bb: BlockRef, op: Op<Seq<ValueRef>>)
    requires
        m.wf(),
        bb < m.blocks.len(),
    ensures
        m.prepend(bb, op).wf(),
{
    let m2 = m.prepend(bb, op);
    assert forall|b: int, i: int|
        0 <= b < m2.blocks.len() && 0 <= i
            < m2.blocks[b].insts.len() implies #[trigger] m2.blocks[b].insts[i]
        < m2.insts.len() by {
        if b != bb {
            assert(m.blocks[b].insts[i] < m.insts.len());
        } else if i > 0 {
            assert(m.blocks[b].insts[i - 1] < m.insts.len());
        }
    }
    assert forall|f: int, i: int|
        0 <= f < m2.functions.len() && 0 <= i
            < m2.functions[f].blocks.len() implies #[trigger] m2.functions[f].blocks[i]
        < m2.blocks.len() by {
        assert(m.functions[f].blocks[i] < m.blocks.len());
    }
}

} // verus!
