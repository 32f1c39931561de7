//! What compiling does: the module that comes of a method body.
//!
//! Each function takes the compiler's state and gives the state afterwards.
//! `None` stands for a method that cannot be compiled.
use vstd::prelude::*;

use crate::exec::instruction::Instruction;
use crate::exec::jit::cfg::{Block, Exit, basic_blocks, targets_in_range};
use crate::exec::jit::module::{
    BinaryOp, BlockRef, FunctionRef, Incoming, LLVMType, ModuleSpec, Op, Predicate, ValueRef,
};
use crate::exec::jit::state::{BasicBlockInfo, Jit, PhiSpec, TypedValue};
use crate::exec::jit::types::{TypesSpec, lower, lower_all, lower_class};
use crate::exec::text::utf16_lossy;
use crate::metadata::image::{ExternalCall, Image, MethodDefTable, Table};
use crate::metadata::method::MethodBody;
use crate::metadata::signature::{ElementType, Type};

verus! {

/// The state after a part of a block, and the evaluation stack then.
pub type Emitted = Option<(Jit, Seq<TypedValue>)>;

/// The type of 32-bit integers.
pub open spec fn i4() -> Type {
    Type { base: ElementType::I4 }
}

/// The values on the stack without their types.
pub open spec fn vals(stack: Seq<TypedValue>) -> Seq<ValueRef> {
    Seq::new(stack.len(), |i: int| stack[i].val)
}

/// The stack without the `n` topmost values.
pub open spec fn below(stack: Seq<TypedValue>, n: int) -> Seq<TypedValue> {
    stack.subrange(0, stack.len() - n)
}

/// The `n` topmost values, the topmost last.
pub open spec fn top_vals(stack: Seq<TypedValue>, n: int) -> Seq<ValueRef> {
    vals(stack.subrange(stack.len() - n, stack.len() as int))
}

/// What a function takes in front of the parameters of its method.
pub enum Receiver {
    /// Nothing.
    Nothing,
    /// An object of this class.
    Class(usize),
    /// An object of the class with this type.
    Lowered(LLVMType),
}

/// How a function returns that has nothing to return: with the null value of its
/// type, if it has one.
pub open spec fn default_return(ret: LLVMType) -> Op<Seq<ValueRef>> {
    match ret {
        LLVMType::Void => Op::RetVoid,
        _ => Op::Ret { val: ValueRef::Null(ret) },
    }
}

/// The predicate by which a branch compares two values.
pub open spec fn branch_predicate(instr: Instruction) -> Predicate {
    match instr {
        Instruction::Bge { .. } => Predicate::SignedGreaterEqual,
        Instruction::Blt { .. } => Predicate::SignedLess,
        Instruction::Ble { .. } => Predicate::SignedLessEqual,
        Instruction::Bgt { .. } => Predicate::SignedGreater,
        _ => Predicate::NotEqual,
    }
}

/// Whether the block at `i` is the first that starts there.
pub open spec fn is_block(blocks: Seq<Block>, start: usize, i: int) -> bool {
    &&& 0 <= i < blocks.len()
    &&& blocks[i].start == start
    &&& forall|j: int| 0 <= j < i ==> (#[trigger] blocks[j]).start != start
}

/// The index of the first block that starts there.
pub open spec fn find_block(blocks: Seq<Block>, start: usize) -> Option<int> {
    if exists|i: int| is_block(blocks, start, i) {
        Some(choose|i: int| is_block(blocks, start, i))
    } else {
        None
    }
}

/// The blocks that have not been compiled.
pub open spec fn ungenerated(blocks: Seq<Block>) -> Set<int> {
    Set::new(|i: int| 0 <= i < blocks.len() && !blocks[i].generated)
}

/// The blocks with the one at `idx` compiled.
pub open spec fn mark_generated(blocks: Seq<Block>, idx: int) -> Seq<Block> {
    blocks.update(idx, Block { generated: true, ..blocks[idx] })
}

impl Jit {
    /// The state of a new compiler: nothing but the functions that the engine
    /// provides, which are only declared.
    pub open spec fn initial(image: Image) -> Jit {
        let module = ModuleSpec::empty().add_function(
            "WriteLine(int)"@,
            LLVMType::Void,
            seq![LLVMType::Int32],
        ).add_function("WriteLine(string)"@, LLVMType::Void, seq![LLVMType::Int8Ptr]).add_function(
            "memory_alloc"@,
            LLVMType::Int8Ptr,
            seq![LLVMType::Int32],
        );
        Jit {
            image,
            module,
            types: TypesSpec { structs: seq![], classes: Map::empty() },
            pos: 0,
            generating: None,
            generated: Map::empty(),
            basic_blocks: Map::empty(),
            phi_stack: Map::empty(),
            arguments: Map::empty(),
            locals: Map::empty(),
            queue: seq![],
            builtins: Map::empty().insert("WriteLine(int)"@, 0).insert(
                "WriteLine(string)"@,
                1,
            ).insert("memory_alloc"@, 2),
        }
    }

    /// The builder moves to the end of a block.
    pub open spec fn position(self, bb: BlockRef) -> Jit {
        Jit { pos: bb, ..self }
    }

    /// Builds an instruction.
    pub open spec fn emit(self, op: Op<Seq<ValueRef>>) -> (Jit, ValueRef) {
        (
            Jit { module: self.module.append(self.pos, op), ..self },
            ValueRef::Inst(self.module.insts.len() as usize),
        )
    }

    /// Builds an instruction whose result is not used.
    pub open spec fn emit_only(self, op: Op<Seq<ValueRef>>) -> Jit {
        self.emit(op).0
    }

    /// Builds an instruction whose result goes on the stack.
    pub open spec fn emit_push(
        self,
        stack: Seq<TypedValue>,
        ty: Type,
        op: Op<Seq<ValueRef>>,
    ) -> Emitted {
        let (j, val) = self.emit(op);
        Some((j, stack.push(TypedValue { ty, val })))
    }

    /// Whether the block that is being built has its terminator.
    pub open spec fn terminated(self) -> bool {
        self.module.terminated(self.pos)
    }

    /// Allocates a variable at the front of the function's entry block.
    pub open spec fn alloca(self, ty: LLVMType) -> (Jit, ValueRef) {
        let entry = self.module.functions[self.generating.unwrap() as int].blocks[0];
        (
            Jit { module: self.module.prepend(entry, Op::Alloca { ty }), ..self },
            ValueRef::Inst(self.module.insts.len() as usize),
        )
    }

    /// Adds a function, without blocks.
    pub open spec fn add_function(
        self,
        name: Seq<char>,
        ret: LLVMType,
        params: Seq<LLVMType>,
    ) -> (Jit, FunctionRef) {
        (
            Jit { module: self.module.add_function(name, ret, params), ..self },
            self.module.functions.len() as usize,
        )
    }

    /// Adds a block to a function.
    pub open spec fn append_block(self, function: FunctionRef) -> (Jit, BlockRef) {
        (
            Jit { module: self.module.append_block(function), ..self },
            self.module.blocks.len() as usize,
        )
    }

    /// The LLVM type of a CIL type.
    pub open spec fn lower(self, ty: Type) -> Option<(Jit, LLVMType)> {
        match lower(self.image, self.types, ty) {
            None => None,
            Some((types, lty)) => Some((Jit { types, ..self }, lty)),
        }
    }

    /// The LLVM type of a class.
    pub open spec fn lower_class(self, class: usize) -> Option<(Jit, LLVMType)> {
        match lower_class(self.image, self.types, class) {
            None => None,
            Some((types, lty)) => Some((Jit { types, ..self }, lty)),
        }
    }

    /// The LLVM types of several CIL types.
    pub open spec fn lower_all(self, tys: Seq<Type>) -> Option<(Jit, Seq<LLVMType>)> {
        match lower_all(self.image, self.types, tys, tys.len()) {
            None => None,
            Some((types, ltys)) => Some((Jit { types, ..self }, ltys)),
        }
    }

    /// A pointer to a local variable, which is allocated if it is not there yet
    /// and its type is given.
    pub open spec fn get_local(self, id: usize, ty: Option<Type>) -> Option<(Jit, ValueRef)> {
        if self.locals.contains_key(id) {
            Some((self, self.locals[id].val))
        } else {
            match ty {
                None => None,
                Some(ty) => match self.lower(ty) {
                    None => None,
                    Some((j, lty)) => {
                        let (j, val) = j.alloca(lty);
                        Some(
                            (
                                Jit { locals: j.locals.insert(id, TypedValue { ty, val }), ..j },
                                val,
                            ),
                        )
                    },
                },
            }
        }
    }

    /// A pointer to an argument, which is allocated if it is not there yet and
    /// its type is given.
    pub open spec fn get_argument(self, id: usize, ty: Option<Type>) -> Option<(Jit, ValueRef)> {
        if self.arguments.contains_key(id) {
            Some((self, self.arguments[id].val))
        } else {
            match ty {
                None => None,
                Some(ty) => match self.lower(ty) {
                    None => None,
                    Some((j, lty)) => {
                        let (j, val) = j.alloca(lty);
                        Some(
                            (
                                Jit {
                                    arguments: j.arguments.insert(id, TypedValue { ty, val }),
                                    ..j
                                },
                                val,
                            ),
                        )
                    },
                },
            }
        }
    }

    /// The block of the basic block that starts at `pc`, which is added if it is
    /// not there yet.
    pub open spec fn get_basic_block(self, pc: usize) -> (Jit, BasicBlockInfo) {
        if self.basic_blocks.contains_key(pc) {
            (self, self.basic_blocks[pc])
        } else {
            let (j, bb) = self.append_block(self.generating.unwrap());
            let info = BasicBlockInfo::Unpositioned(bb);
            (Jit { basic_blocks: j.basic_blocks.insert(pc, info), ..j }, info)
        }
    }

    /// Records that the builder has been at the block that starts at `pc`.
    pub open spec fn set_positioned(self, pc: usize) -> Jit {
        let bb = self.basic_blocks[pc].block();
        Jit {
            basic_blocks: self.basic_blocks.insert(pc, BasicBlockInfo::Positioned(bb)),
            ..self
        }
    }

    /// The function of a method, which is added, and put in the queue, when the
    /// method is called for the first time.
    pub open spec fn callee(self, rva: u32, receiver: Receiver) -> Option<(Jit, FunctionRef)> {
        let method = self.image.methods@[rva];
        if self.generated.contains_key(rva) {
            Some((self, self.generated[rva]))
        } else {
            match self.lower(method.signature.ret) {
                None => None,
                Some((j, ret)) => match j.lower_receiver(receiver) {
                    None => None,
                    Some((j, first)) => match j.lower_all(method.signature.params@) {
                        None => None,
                        Some((j, rest)) => {
                            let (j, f) = j.add_function(method.name@, ret, first + rest);
                            Some(
                                (
                                    Jit {
                                        generated: j.generated.insert(rva, f),
                                        queue: j.queue.push((f, rva)),
                                        ..j
                                    },
                                    f,
                                ),
                            )
                        },
                    },
                },
            }
        }
    }

    /// The type of what a function takes in front of the parameters of its method.
    pub open spec fn lower_receiver(self, receiver: Receiver) -> Option<(Jit, Seq<LLVMType>)> {
        match receiver {
            Receiver::Nothing => Some((self, seq![])),
            Receiver::Class(class) => match self.lower_class(class) {
                None => None,
                Some((j, lty)) => Some((j, seq![lty])),
            },
            Receiver::Lowered(lty) => Some((self, seq![lty])),
        }
    }

    /// Builds the call of the method at `rva` with `args`; its result, if it has
    /// one, goes on the stack.
    pub open spec fn call_method(
        self,
        stack: Seq<TypedValue>,
        rva: u32,
        receiver: Receiver,
        args: Seq<ValueRef>,
    ) -> Emitted {
        let ret = self.image.methods@[rva].signature.ret;
        match self.callee(rva, receiver) {
            None => None,
            Some((j, callee)) => if ret.base == ElementType::Void {
                Some((j.emit_only(Op::Call { callee, args }), stack))
            } else {
                j.emit_push(stack, ret, Op::Call { callee, args })
            },
        }
    }

    /// A call of a method of another assembly.
    pub open spec fn gen_external(self, stack: Seq<TypedValue>, call: ExternalCall) -> Emitted {
        if call is Ignored {
            Some((self, stack))
        } else if stack.len() < 1 {
            None
        } else {
            let args = seq![stack.last().val];
            match call {
                ExternalCall::WriteText => Some(
                    (
                        self.emit_only(
                            Op::Call { callee: self.builtins["WriteLine(string)"@], args },
                        ),
                        stack.drop_last(),
                    ),
                ),
                ExternalCall::WriteInt => Some(
                    (
                        self.emit_only(
                            Op::Call { callee: self.builtins["WriteLine(int)"@], args },
                        ),
                        stack.drop_last(),
                    ),
                ),
                _ => Some((self, stack.drop_last())),
            }
        }
    }

    /// A call.
    pub open spec fn gen_instr_call(
        self,
        stack: Seq<TypedValue>,
        table: usize,
        entry: usize,
    ) -> Emitted {
        match self.image.row_spec(table, entry) {
            Some(Table::MemberRef(mrt)) => match self.image.external_call_spec(mrt) {
                Ok(call) => self.gen_external(stack, call),
                Err(_) => None,
            },
            Some(Table::MethodDef(mdt)) => if self.image.methods@.contains_key(mdt.rva) {
                let n = self.image.methods@[mdt.rva].signature.params.len() as int;
                if stack.len() < n {
                    None
                } else {
                    self.call_method(
                        below(stack, n),
                        mdt.rva,
                        Receiver::Nothing,
                        top_vals(stack, n),
                    )
                }
            } else {
                None
            },
            _ => None,
        }
    }

    /// A call on an object, which is on the stack below the arguments.
    pub open spec fn gen_instr_callvirt(
        self,
        stack: Seq<TypedValue>,
        table: usize,
        entry: usize,
    ) -> Emitted {
        match self.image.row_spec(table, entry) {
            Some(Table::MemberRef(_)) => Some((self, stack)),
            Some(Table::MethodDef(mdt)) => if self.image.methods@.contains_key(mdt.rva)
                && self.image.methods@[mdt.rva].signature.has_this {
                let method = self.image.methods@[mdt.rva];
                let n = method.signature.params.len() + 1;
                if stack.len() < n {
                    None
                } else {
                    self.call_method(
                        below(stack, n),
                        mdt.rva,
                        Receiver::Class(method.class),
                        top_vals(stack, n),
                    )
                }
            } else {
                None
            },
            _ => None,
        }
    }

    /// The creation of an object: memory for it, then a call of its constructor.
    pub open spec fn gen_instr_newobj(
        self,
        stack: Seq<TypedValue>,
        table: usize,
        entry: usize,
    ) -> Emitted {
        match self.image.row_spec(table, entry) {
            Some(Table::MemberRef(_)) => Some((self, stack)),
            Some(Table::MethodDef(mdt)) => if self.image.methods@.contains_key(mdt.rva)
                && self.image.methods@[mdt.rva].signature.has_this {
                self.new_object(stack, mdt)
            } else {
                None
            },
            _ => None,
        }
    }

    /// The creation of an object with the constructor `mdt`.
    pub open spec fn new_object(self, stack: Seq<TypedValue>, mdt: MethodDefTable) -> Emitted {
        let method = self.image.methods@[mdt.rva];
        let n = method.signature.params.len() as int;
        match self.lower_class(method.class) {
            None => None,
            Some((j, lty)) => if stack.len() < n {
                None
            } else {
                let (j, memory) = j.emit(
                    Op::Call {
                        callee: j.builtins["memory_alloc"@],
                        args: seq![ValueRef::SizeOf(lty)],
                    },
                );
                let (j, obj) = j.emit(Op::Cast { val: memory, ty: lty });
                match j.callee(mdt.rva, Receiver::Lowered(lty)) {
                    None => None,
                    Some((j, callee)) => Some(
                        (
                            j.emit_only(
                                Op::Call { callee, args: seq![obj] + top_vals(stack, n) },
                            ),
                            below(stack, n).push(
                                TypedValue {
                                    ty: Type { base: ElementType::Class(method.class) },
                                    val: obj,
                                },
                            ),
                        ),
                    ),
                }
            },
        }
    }

    /// The index and the type of the field that the token names, in the class of `obj`.
    pub open spec fn field_of(self, obj: TypedValue, table: usize, entry: usize) -> Option<
        (int, Type),
    > {
        match (self.image.row_spec(table, entry), obj.ty.class_spec()) {
            (Some(Table::Field(f)), Some(class)) => if self.image.strings@.contains_key(f.name)
                && class < self.image.classes.len() {
                let info = self.image.classes[class as int];
                match info.field_index(self.image.strings@[f.name]@) {
                    None => None,
                    Some(i) => Some((i, info.fields[i].ty)),
                }
            } else {
                None
            },
            _ => None,
        }
    }

    /// The assignment of a field.
    pub open spec fn gen_instr_stfld(
        self,
        stack: Seq<TypedValue>,
        table: usize,
        entry: usize,
    ) -> Emitted {
        if stack.len() < 2 {
            None
        } else {
            let val = stack[stack.len() - 1];
            let obj = stack[stack.len() - 2];
            match self.field_of(obj, table, entry) {
                None => None,
                Some((i, _)) => {
                    let (j, ptr) = self.emit(Op::Field { obj: obj.val, index: i as usize });
                    Some((j.emit_only(Op::Store { val: val.val, ptr }), below(stack, 2)))
                },
            }
        }
    }

    /// The value of a field.
    pub open spec fn gen_instr_ldfld(
        self,
        stack: Seq<TypedValue>,
        table: usize,
        entry: usize,
    ) -> Emitted {
        if stack.len() < 1 {
            None
        } else {
            let obj = stack.last();
            match self.field_of(obj, table, entry) {
                None => None,
                Some((i, ty)) => {
                    let (j, ptr) = self.emit(Op::Field { obj: obj.val, index: i as usize });
                    j.emit_push(stack.drop_last(), ty, Op::Load { ptr })
                },
            }
        }
    }

    /// A string literal.
    pub open spec fn gen_ldstr(self, stack: Seq<TypedValue>, us_offset: u32) -> Emitted {
        if self.image.user_strings@.contains_key(us_offset) {
            let text = utf16_lossy(self.image.user_strings@[us_offset]@);
            let val = ValueRef::Text(self.module.strings.len() as usize);
            let ty = Type { base: ElementType::String };
            Some(
                (
                    Jit { module: self.module.add_string(text), ..self },
                    stack.push(TypedValue { ty, val }),
                ),
            )
        } else {
            None
        }
    }

    /// An integer constant.
    pub open spec fn gen_ldc(self, stack: Seq<TypedValue>, n: i32) -> Emitted {
        Some((self, stack.push(TypedValue { ty: i4(), val: ValueRef::Int32(n) })))
    }

    /// The value of a local variable.
    pub open spec fn gen_ldloc(self, stack: Seq<TypedValue>, id: usize) -> Emitted {
        if self.locals.contains_key(id) {
            let local = self.locals[id];
            self.emit_push(stack, local.ty, Op::Load { ptr: local.val })
        } else {
            None
        }
    }

    /// The assignment of a local variable.
    pub open spec fn gen_stloc(self, stack: Seq<TypedValue>, id: usize) -> Emitted {
        if stack.len() < 1 || !self.locals.contains_key(id) {
            None
        } else {
            let op = Op::Store { val: stack.last().val, ptr: self.locals[id].val };
            Some((self.emit_only(op), stack.drop_last()))
        }
    }

    /// The value of an argument. It gets the type of the first argument.
    pub open spec fn gen_ldarg(self, stack: Seq<TypedValue>, id: usize) -> Emitted {
        if self.arguments.contains_key(0) && self.arguments.contains_key(id) {
            self.emit_push(
                stack,
                self.arguments[0].ty,
                Op::Load { ptr: self.arguments[id].val },
            )
        } else {
            None
        }
    }

    /// An operation on the two topmost values. Its result has the type of the
    /// lower one.
    pub open spec fn gen_binary(self, stack: Seq<TypedValue>, op: BinaryOp) -> Emitted {
        if stack.len() < 2 {
            None
        } else {
            let val1 = stack[stack.len() - 2];
            let val2 = stack[stack.len() - 1];
            self.emit_push(
                below(stack, 2),
                val1.ty,
                Op::Binary { op, lhs: val1.val, rhs: val2.val },
            )
        }
    }

    /// The return from the method.
    pub open spec fn gen_ret(self, stack: Seq<TypedValue>) -> Emitted {
        if self.module.functions[self.generating.unwrap() as int].ret == LLVMType::Void {
            Some((self.emit_only(Op::RetVoid), stack))
        } else if stack.len() < 1 {
            None
        } else {
            Some((self.emit_only(Op::Ret { val: stack.last().val }), stack.drop_last()))
        }
    }

    /// A conditional branch on `cond`, which is the next instruction to be built.
    pub open spec fn gen_cond_br(self, cond: Op<Seq<ValueRef>>, exit: Exit) -> Option<Jit> {
        match exit {
            Exit::Conditional { destinations } => if destinations.len() < 2 {
                None
            } else {
                let (j, cond) = self.emit(cond);
                let (j, then) = j.get_basic_block(destinations[0]);
                let (j, other) = j.get_basic_block(destinations[1]);
                Some(
                    j.emit_only(
                        Op::CondBr { cond, if_true: then.block(), if_false: other.block() },
                    ),
                )
            },
            _ => None,
        }
    }

    /// A conditional branch on one value.
    pub open spec fn gen_branch_on_value(
        self,
        stack: Seq<TypedValue>,
        pred: Predicate,
        exit: Exit,
    ) -> Emitted {
        if stack.len() < 1 {
            None
        } else {
            match self.gen_cond_br(Op::CompareNull { pred, val: stack.last().val }, exit) {
                None => None,
                Some(j) => Some((j, stack.drop_last())),
            }
        }
    }

    /// A conditional branch on two values.
    pub open spec fn gen_branch_on_values(
        self,
        stack: Seq<TypedValue>,
        pred: Predicate,
        exit: Exit,
    ) -> Emitted {
        if stack.len() < 2 {
            None
        } else {
            let lhs = stack[stack.len() - 2].val;
            let rhs = stack[stack.len() - 1].val;
            match self.gen_cond_br(Op::Compare { pred, lhs, rhs }, exit) {
                None => None,
                Some(j) => Some((j, below(stack, 2))),
            }
        }
    }

    /// A branch to the block that starts at `destination`, unless the block that
    /// is being built has its terminator.
    pub open spec fn gen_jump(self, destination: usize) -> Jit {
        let (j, info) = self.get_basic_block(destination);
        if j.terminated() {
            j
        } else {
            j.emit_only(Op::Br { dest: info.block() })
        }
    }

    /// An unconditional branch.
    pub open spec fn gen_br(self, stack: Seq<TypedValue>, exit: Exit) -> Emitted {
        match exit {
            Exit::Unconditional { destination } => Some((self.gen_jump(destination), stack)),
            Exit::Required { destination } => Some((self.gen_jump(destination), stack)),
            _ => None,
        }
    }

    /// An instruction of a block with this exit.
    #[verifier::opaque]
    pub open spec fn compile_instr(
        self,
        stack: Seq<TypedValue>,
        instr: Instruction,
        exit: Exit,
    ) -> Emitted {
        match instr {
            Instruction::Ldstr { us_offset } => self.gen_ldstr(stack, us_offset),
            Instruction::Ldc_I4_0 => self.gen_ldc(stack, 0),
            Instruction::Ldc_I4_1 => self.gen_ldc(stack, 1),
            Instruction::Ldc_I4_2 => self.gen_ldc(stack, 2),
            Instruction::Ldc_I4_3 => self.gen_ldc(stack, 3),
            Instruction::Ldc_I4_S { n } => self.gen_ldc(stack, n),
            Instruction::Ldc_I4 { n } => self.gen_ldc(stack, n),
            Instruction::Pop => Some(
                (
                    self,
                    if stack.len() > 0 {
                        stack.drop_last()
                    } else {
                        stack
                    },
                ),
            ),
            Instruction::Call { table, entry } => self.gen_instr_call(stack, table, entry),
            Instruction::CallVirt { table, entry } => self.gen_instr_callvirt(stack, table, entry),
            Instruction::Newobj { table, entry } => self.gen_instr_newobj(stack, table, entry),
            Instruction::Ldloc_0 => self.gen_ldloc(stack, 0),
            Instruction::Ldloc_1 => self.gen_ldloc(stack, 1),
            Instruction::Ldfld { table, entry } => self.gen_instr_ldfld(stack, table, entry),
            Instruction::Stloc_0 => self.gen_stloc(stack, 0),
            Instruction::Stloc_1 => self.gen_stloc(stack, 1),
            Instruction::Stfld { table, entry } => self.gen_instr_stfld(stack, table, entry),
            Instruction::Ldarg_0 => self.gen_ldarg(stack, 0),
            Instruction::Ldarg_1 => self.gen_ldarg(stack, 1),
            Instruction::Add => self.gen_binary(stack, BinaryOp::Add),
            Instruction::Sub => self.gen_binary(stack, BinaryOp::Sub),
            Instruction::Mul => self.gen_binary(stack, BinaryOp::Mul),
            Instruction::Rem => self.gen_binary(stack, BinaryOp::SRem),
            Instruction::Ret => self.gen_ret(stack),
            Instruction::Brfalse { .. } => self.gen_branch_on_value(stack, Predicate::Equal, exit),
            Instruction::Brtrue { .. } => self.gen_branch_on_value(
                stack,
                Predicate::NotEqual,
                exit,
            ),
            Instruction::Bge { .. }
            | Instruction::Blt { .. }
            | Instruction::Ble { .. }
            | Instruction::Bne_un { .. }
            | Instruction::Bgt { .. } => self.gen_branch_on_values(
                stack,
                branch_predicate(instr),
                exit,
            ),
            Instruction::Br { .. } => self.gen_br(stack, exit),
            Instruction::Beq { .. } => None,
        }
    }

    /// The first `n` instructions of a block.
    pub open spec fn compile_bytecode(self, stack: Seq<TypedValue>, block: Block, n: nat) -> Emitted
        decreases n,
    {
        if n == 0 {
            Some((self, stack))
        } else {
            match self.compile_bytecode(stack, block, (n - 1) as nat) {
                None => None,
                Some((j, stack)) => j.compile_instr(stack, block.code[n - 1], block.exit),
            }
        }
    }

    /// Builds a phi for each of the first `n` values that come in from `phi`.
    pub open spec fn first_phis(self, stack: Seq<TypedValue>, phi: PhiSpec, n: nat) -> (
        Jit,
        Seq<TypedValue>,
    )
        decreases n,
    {
        if n == 0 {
            (self, stack)
        } else {
            let (j, stack) = self.first_phis(stack, phi, (n - 1) as nat);
            let come = phi.stack[n - 1];
            let (j, val) = j.emit(Op::Phi { like: come.val });
            let module = j.module.add_incoming(
                Incoming { phi: val, val: come.val, block: phi.src_bb },
            );
            (Jit { module, ..j }, stack.push(TypedValue { ty: come.ty, val }))
        }
    }

    /// Adds the first `n` values that come in from `phi` to the phis on the
    /// stack from `base` on.
    pub open spec fn add_phis(
        self,
        stack: Seq<TypedValue>,
        base: nat,
        phi: PhiSpec,
        n: nat,
    ) -> Option<Jit>
        decreases n,
    {
        if n == 0 {
            Some(self)
        } else {
            match self.add_phis(stack, base, phi, (n - 1) as nat) {
                None => None,
                Some(j) => if base + n - 1 < stack.len() {
                    let incoming = Incoming {
                        phi: stack[base + n - 1].val,
                        val: phi.stack[n - 1].val,
                        block: phi.src_bb,
                    };
                    Some(Jit { module: j.module.add_incoming(incoming), ..j })
                } else {
                    None
                },
            }
        }
    }

    /// Adds the values that come in from the first `n` of `phis`, except the
    /// first, to the phis on the stack.
    pub open spec fn more_phis(
        self,
        stack: Seq<TypedValue>,
        base: nat,
        phis: Seq<PhiSpec>,
        n: nat,
    ) -> Option<Jit>
        decreases n,
    {
        if n <= 1 {
            Some(self)
        } else {
            match self.more_phis(stack, base, phis, (n - 1) as nat) {
                None => None,
                Some(j) => j.add_phis(stack, base, phis[n - 1], phis[n - 1].stack.len()),
            }
        }
    }

    /// Puts what comes in at the block that starts at `start` on the stack.
    #[verifier::opaque]
    pub open spec fn build_phi_stack(self, start: usize, stack: Seq<TypedValue>) -> Emitted {
        if !self.phi_stack.contains_key(start) {
            Some((self, stack))
        } else {
            let phis = self.phi_stack[start];
            if phis.len() == 0 {
                None
            } else {
                let (j, full) = self.first_phis(stack, phis[0], phis[0].stack.len());
                match j.more_phis(full, stack.len(), phis, phis.len()) {
                    None => None,
                    Some(j) => Some((j, full)),
                }
            }
        }
    }

    /// Records what comes in at the block that starts at `destination`.
    pub open spec fn add_phi_stack(
        self,
        destination: usize,
        src_bb: BlockRef,
        stack: Seq<TypedValue>,
    ) -> Jit {
        let phis = if self.phi_stack.contains_key(destination) {
            self.phi_stack[destination]
        } else {
            seq![]
        };
        Jit {
            phi_stack: self.phi_stack.insert(destination, phis.push(PhiSpec { src_bb, stack })),
            ..self
        }
    }

    /// Passes control on from the block that starts at `start` to the one that
    /// starts behind it, unless the block has its terminator.
    pub open spec fn required_jump(self, destination: usize) -> Jit {
        if self.terminated() {
            self
        } else {
            let (j, info) = self.get_basic_block(destination);
            j.set_positioned(destination).emit_only(Op::Br { dest: info.block() })
        }
    }

    /// The instructions of a block, with what comes in on top of the stack.
    #[verifier::opaque]
    pub open spec fn compile_straight(self, block: Block, init: Seq<TypedValue>) -> Emitted {
        if !self.basic_blocks.contains_key(block.start) {
            None
        } else {
            let bb = self.basic_blocks[block.start].block();
            let j = self.set_positioned(block.start).position(bb);
            match j.build_phi_stack(block.start, init) {
                None => None,
                Some((j, stack)) => j.compile_bytecode(stack, block, block.code.len()),
            }
        }
    }

    /// A block and, if it ends in a conditional branch, the blocks that it leads
    /// to. Gives the blocks with those compiled marked, and where control goes.
    #[verifier::opaque]
    pub open spec fn compile_block(
        self,
        blocks: Seq<Block>,
        idx: int,
        init: Seq<TypedValue>,
    ) -> Option<(Jit, Seq<Block>, usize)>
        decreases ungenerated(blocks).len(), 0nat,
    {
        if !(0 <= idx < blocks.len()) {
            None
        } else if blocks[idx].generated {
            Some((self, blocks, 0))
        } else {
            proof {
                lemma_mark_generated(blocks, idx);
            }
            let block = blocks[idx];
            let marked = mark_generated(blocks, idx);
            match self.compile_straight(block, init) {
                None => None,
                Some((j, stack)) => match block.exit {
                    Exit::Conditional { destinations } => j.compile_destinations(
                        marked,
                        destinations,
                        stack,
                        destinations.len(),
                    ),
                    Exit::Unconditional { destination } => {
                        let (j, src) = j.get_basic_block(block.start);
                        let j = j.add_phi_stack(destination, src.block(), stack);
                        Some((j, marked, destination))
                    },
                    Exit::Required { destination } => {
                        let (j, src) = j.get_basic_block(block.start);
                        let j = j.required_jump(destination);
                        let j = j.add_phi_stack(destination, src.block(), stack);
                        Some((j, marked, destination))
                    },
                    Exit::BodyEnd => Some((j, marked, 0)),
                },
            }
        }
    }

    /// The blocks that start at the first `n` of `destinations`, each with the
    /// same stack. Gives where control goes from the last of them.
    ///
    /// No compiled block becomes one that is not (`law_blocks_stay_generated`),
    /// so the test for that always holds; it makes the recursion well-founded.
    #[verifier::opaque]
    pub open spec fn compile_destinations(
        self,
        blocks: Seq<Block>,
        destinations: Seq<usize>,
        stack: Seq<TypedValue>,
        n: nat,
    ) -> Option<(Jit, Seq<Block>, usize)>
        decreases ungenerated(blocks).len(), n,
    {
        if n == 0 {
            Some((self, blocks, 0))
        } else {
            match self.compile_destinations(blocks, destinations, stack, (n - 1) as nat) {
                None => None,
                Some((j, done, d)) => match find_block(done, destinations[n - 1]) {
                    None => Some((j, done, d)),
                    Some(i) => if ungenerated(done).len() <= ungenerated(blocks).len() {
                        j.compile_block(done, i, stack)
                    } else {
                        None
                    },
                },
            }
        }
    }

    /// The first `n` blocks, each with an empty stack, and what they lead to.
    pub open spec fn compile_blocks(self, blocks: Seq<Block>, n: nat) -> Option<(Jit, Seq<Block>)>
        decreases n,
    {
        if n == 0 {
            Some((self, blocks))
        } else {
            match self.compile_blocks(blocks, (n - 1) as nat) {
                None => None,
                Some((j, blocks)) => match j.compile_block(blocks, n - 1, seq![]) {
                    None => None,
                    Some((j, blocks, _)) => Some((j, blocks)),
                },
            }
        }
    }

    /// Allocates the first `n` local variables.
    pub open spec fn declare_locals(self, tys: Seq<Type>, n: nat) -> Option<Jit>
        decreases n,
    {
        if n == 0 {
            Some(self)
        } else {
            match self.declare_locals(tys, (n - 1) as nat) {
                None => None,
                Some(j) => match j.get_local((n - 1) as usize, Some(tys[n - 1])) {
                    None => None,
                    Some((j, _)) => Some(j),
                },
            }
        }
    }

    /// Allocates an argument and stores the function's parameter in it.
    pub open spec fn declare_param(self, function: FunctionRef, id: usize, ty: Type) -> Option<
        Jit,
    > {
        match self.get_argument(id, Some(ty)) {
            None => None,
            Some((j, ptr)) => Some(
                j.emit_only(Op::Store { val: ValueRef::Param { function, index: id }, ptr }),
            ),
        }
    }

    /// Allocates the arguments for the first `n` parameters; `shift` arguments
    /// come before them.
    pub open spec fn declare_params(
        self,
        function: FunctionRef,
        shift: nat,
        tys: Seq<Type>,
        n: nat,
    ) -> Option<Jit>
        decreases n,
    {
        if n == 0 {
            Some(self)
        } else {
            match self.declare_params(function, shift, tys, (n - 1) as nat) {
                None => None,
                Some(j) => j.declare_param(function, (n - 1 + shift) as usize, tys[n - 1]),
            }
        }
    }

    /// Allocates all arguments of a method.
    pub open spec fn declare_arguments(self, function: FunctionRef, method: MethodBody) -> Option<
        Jit,
    > {
        let params = method.signature.params@;
        if method.signature.has_this {
            let this = Type { base: ElementType::Class(method.class) };
            match self.declare_param(function, 0, this) {
                None => None,
                Some(j) => j.declare_params(function, 1, params, params.len()),
            }
        } else {
            self.declare_params(function, 0, params, params.len())
        }
    }

    /// Adds a block for each of the first `n` basic blocks, but for those that
    /// start at the first position.
    pub open spec fn append_blocks(self, function: FunctionRef, blocks: Seq<Block>, n: nat) -> Jit
        decreases n,
    {
        if n == 0 {
            self
        } else {
            let j = self.append_blocks(function, blocks, (n - 1) as nat);
            let start = blocks[n - 1].start;
            if start > 0 {
                let (j, bb) = j.append_block(function);
                Jit {
                    basic_blocks: j.basic_blocks.insert(start, BasicBlockInfo::Unpositioned(bb)),
                    ..j
                }
            } else {
                j
            }
        }
    }

    /// Returns from the last block, unless it has its terminator.
    pub open spec fn close_last(self, function: FunctionRef, last: Block) -> Option<Jit> {
        if !self.basic_blocks.contains_key(last.start) {
            None
        } else {
            let j = self.position(self.basic_blocks[last.start].block());
            if j.terminated() {
                Some(j)
            } else {
                Some(j.emit_only(default_return(j.module.functions[function as int].ret)))
            }
        }
    }

    /// Sees to it that the first `n` blocks of a function have terminators. In a
    /// function that returns nothing the return goes to the last block.
    pub open spec fn close_blocks(self, function: FunctionRef, n: nat) -> Jit
        decreases n,
    {
        if n == 0 {
            self
        } else {
            let j = self.close_blocks(function, (n - 1) as nat);
            let f = j.module.functions[function as int];
            let bb = f.blocks[n - 1];
            if j.module.terminated(bb) {
                j
            } else if f.ret == LLVMType::Void {
                j.emit_only(Op::RetVoid)
            } else {
                Jit { module: j.module.append(bb, default_return(f.ret)), ..j }
            }
        }
    }

    /// The body of a function: its variables, its blocks and their terminators.
    #[verifier::opaque]
    pub open spec fn compile_body(
        self,
        function: FunctionRef,
        entry: BlockRef,
        method: MethodBody,
    ) -> Option<Jit> {
        if !(targets_in_range(method.body@) && method.body@.len() < usize::MAX) {
            None
        } else {
            let blocks = basic_blocks(method.body@);
            match self.declare_locals(method.locals_ty@, method.locals_ty@.len()) {
                None => None,
                Some(j) => {
                    let j = Jit {
                        basic_blocks: j.basic_blocks.insert(0, BasicBlockInfo::Positioned(entry)),
                        ..j
                    };
                    let j = j.append_blocks(function, blocks, blocks.len());
                    match j.compile_blocks(blocks, blocks.len()) {
                        None => None,
                        Some((j, blocks)) => match j.close_last(function, blocks.last()) {
                            None => None,
                            Some(j) => Some(
                                j.close_blocks(
                                    function,
                                    j.module.functions[function as int].blocks.len(),
                                ),
                            ),
                        },
                    }
                },
            }
        }
    }

    /// The state in which a function is compiled from its entry block on.
    pub open spec fn begin_function(self, function: FunctionRef) -> (Jit, BlockRef) {
        let j = Jit {
            generating: Some(function),
            arguments: Map::empty(),
            locals: Map::empty(),
            ..self
        };
        let (j, entry) = j.append_block(function);
        (j.position(entry), entry)
    }

    /// The state without the blocks of a method.
    pub open spec fn forget_blocks(self) -> Jit {
        Jit { basic_blocks: Map::empty(), phi_stack: Map::empty(), ..self }
    }

    /// The function of a called method.
    #[verifier::opaque]
    pub open spec fn generate_func(self, function: FunctionRef, method: MethodBody) -> Option<Jit> {
        let (j, entry) = self.begin_function(function);
        match j.declare_arguments(function, method) {
            None => None,
            Some(j) => match j.compile_body(function, entry, method) {
                None => None,
                Some(j) => Some(j.forget_blocks()),
            },
        }
    }

    /// The functions of the methods in the queue, and of those that join it
    /// meanwhile.
    ///
    /// No method joins the queue twice (`law_method_joins_queue_once`), so the
    /// test always holds; it makes the recursion well-founded.
    pub open spec fn generate_queued(self) -> Option<Jit>
        decreases self.pending(),
    {
        if self.queue.len() == 0 {
            Some(self)
        } else {
            let (function, rva) = self.queue[0];
            let j = Jit { queue: self.queue.subrange(1, self.queue.len() as int), ..self };
            match j.generate_func(function, self.image.methods@[rva]) {
                None => None,
                Some(j) => if j.pending() < self.pending() {
                    j.generate_queued()
                } else {
                    None
                },
            }
        }
    }

    /// The function that the program starts with, and the functions of all
    /// methods that it may call.
    pub open spec fn generate_main(self, method: MethodBody) -> Option<(Jit, FunctionRef)> {
        let (j, function) = self.forget_blocks().add_function(
            "yacht-Main"@,
            LLVMType::Void,
            seq![],
        );
        let (j, entry) = j.begin_function(function);
        match j.compile_body(function, entry, method) {
            None => None,
            Some(j) => match j.generate_queued() {
                None => None,
                Some(j) => Some((j, function)),
            },
        }
    }
}

/// There are finitely many blocks that have not been compiled.
pub proof fn lemma_ungenerated_finite(blocks: Seq<Block>)
    ensures
        ungenerated(blocks).finite(),
{
    vstd::set_lib::lemma_int_range(0, blocks.len() as int);
    vstd::set_lib::lemma_set_subset_finite(
        vstd::set_lib::set_int_range(0, blocks.len() as int),
        ungenerated(blocks),
    );
}

/// When a block is compiled, fewer are left.
pub proof fn lemma_mark_generated(blocks: Seq<Block>, idx: int)
    requires
        0 <= idx < blocks.len(),
        !blocks[idx].generated,
    ensures
        ungenerated(mark_generated(blocks, idx)).len() < ungenerated(blocks).len(),
{
    lemma_ungenerated_finite(blocks);
    assert(ungenerated(blocks).contains(idx));
    assert(ungenerated(mark_generated(blocks, idx)) =~= ungenerated(blocks).remove(idx));
}

} // verus!
