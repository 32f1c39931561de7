//! The compiler.
use std::collections::VecDeque;

use rustc_hash::FxHashMap;
use vstd::prelude::*;

use crate::exec::instruction::Instruction;
use crate::exec::jit::cfg::{BasicBlock, Block, BrKind, CFGMaker, block_views, check_targets};
use crate::exec::jit::cfg_laws::law_blocks_are_runs;
use crate::exec::jit::compiler_laws::{
    law_blocks_stay_generated, lemma_destinations_stay_generated,
};
use crate::exec::jit::error::{CResult, Error};
use crate::exec::jit::fx::{contents, fx_get, fx_insert, fx_new, fx_remove};
use crate::exec::jit::model::{
    Emitted, Receiver, below, default_return, find_block, is_block, lemma_mark_generated,
    mark_generated, top_vals, ungenerated, vals,
};
use crate::exec::jit::module::{
    BinaryOp, BlockRef, FunctionRef, Incoming, LLVMType, Module, Op, Predicate, ValueRef, op_view,
};
use crate::exec::jit::state::{
    BasicBlockInfo, Environment, Jit, PhiSpec, PhiStack, TypedValue, lemma_block_recorded,
    lemma_method_joins_queue, lemma_method_leaves_queue, lemma_module_grows, phi_views,
};
use crate::exec::jit::types::TypeTable;
use crate::exec::text::decode_utf16;
use crate::metadata::image::{ExternalCall, Image, Table};
use crate::metadata::method::MethodBody;
use crate::metadata::signature::{ElementType, Type};

verus! {

/// Compiles the methods of an assembly into a module.
#[derive(Debug)]
pub struct JITCompiler<'a> {
    image: &'a Image,
    module: Module,
    types: TypeTable,
    insert_block: BlockRef,
    generating: Option<FunctionRef>,
    generated: FxHashMap<u32, FunctionRef>,
    basic_blocks: FxHashMap<usize, BasicBlockInfo>,
    phi_stack: FxHashMap<usize, Vec<PhiStack>>,
    env: Environment,
    compile_queue: VecDeque<(FunctionRef, u32)>,
    builtin_functions: FxHashMap<String, FunctionRef>,
}

impl<'a> View for JITCompiler<'a> {
    type V = Jit;

    closed spec fn view(&self) -> Jit {
        Jit {
            image: *self.image,
            module: self.module@,
            types: self.types@,
            pos: self.insert_block,
            generating: self.generating,
            generated: contents(self.generated),
            basic_blocks: contents(self.basic_blocks),
            phi_stack: contents(self.phi_stack).map_values(|v: Vec<PhiStack>| phi_views(v)),
            arguments: contents(self.env.arguments),
            locals: contents(self.env.locals),
            queue: self.compile_queue@,
            builtins: contents(self.builtin_functions),
        }
    }
}

/// Whether a compiler that went from `before` to `after` and left `stack` has
/// done what `want` says, and has failed if there is nothing to do.
pub open spec fn emitted(
    want: Emitted,
    before: Jit,
    after: Jit,
    stack: Seq<TypedValue>,
    r: CResult<()>,
) -> bool {
    match r {
        Ok(_) => want == Some((after, stack)) && before.leads_to(after),
        Err(e) => want is None && e == Error::CouldntCompile,
    }
}

impl<'a> JITCompiler<'a> {
    /// Builds an instruction.
    fn emit(&mut self, op: Op<Vec<ValueRef>>) -> (r: ValueRef)
        requires
            old(self)@.ready(),
        ensures
            old(self)@.emit(op_view(op)) == (final(self)@, r),
            old(self)@.leads_to(final(self)@),
    {
        let r = self.module.append(self.insert_block, op);
        proof {
            lemma_module_grows(old(self)@, self.module@);
        }
        r
    }

    /// Whether the block that is being built lacks its terminator.
    fn cur_bb_has_no_terminator(&self) -> (r: bool)
        requires
            self@.ready(),
        ensures
            r == !self@.terminated(),
    {
        !self.module.has_terminator(self.insert_block)
    }

    /// Allocates a variable at the front of the function's entry block.
    fn alloca(&mut self, ty: LLVMType) -> (r: ValueRef)
        requires
            old(self)@.ready(),
        ensures
            old(self)@.alloca(ty) == (final(self)@, r),
            old(self)@.leads_to(final(self)@),
    {
        let func: usize = match self.generating {
            Some(func) => func,
            None => { unreached() },
        };
        let entry: usize = self.module.functions[func].blocks[0];
        assert(self@.module.functions[func as int].blocks[0] < self@.module.blocks.len());
        let r = self.module.prepend(entry, Op::Alloca { ty });
        proof {
            lemma_module_grows(old(self)@, self.module@);
        }
        r
    }

    /// The LLVM type of a CIL type.
    fn lower(&mut self, ty: &Type) -> (r: CResult<LLVMType>)
        ensures
            match r {
                Ok(lty) => old(self)@.lower(*ty) == Some((final(self)@, lty)),
                Err(e) => old(self)@.lower(*ty) is None && e == Error::CouldntCompile,
            },
            r is Ok && old(self)@.ready() ==> old(self)@.leads_to(final(self)@),
    {
        self.types.lower(self.image, ty)
    }

    /// The LLVM type of a class.
    fn get_class_type(&mut self, class: usize) -> (r: CResult<LLVMType>)
        ensures
            match r {
                Ok(lty) => old(self)@.lower_class(class) == Some((final(self)@, lty)),
                Err(e) => old(self)@.lower_class(class) is None && e == Error::CouldntCompile,
            },
            r is Ok && old(self)@.ready() ==> old(self)@.leads_to(final(self)@),
    {
        self.types.lower_class(self.image, class)
    }

    /// A pointer to a local variable, which is allocated if it is not there yet
    /// and its type is given.
    fn get_local(&mut self, id: usize, ty: Option<Type>) -> (r: CResult<ValueRef>)
        requires
            old(self)@.ready(),
        ensures
            match r {
                Ok(val) => old(self)@.get_local(id, ty) == Some((final(self)@, val))
                    && old(self)@.leads_to(final(self)@),
                Err(e) => old(self)@.get_local(id, ty) is None && e == Error::CouldntCompile,
            },
    {
        if let Some(v) = fx_get(&self.env.locals, &id) {
            return Ok(v.val);
        }
        let ty = match ty {
            Some(ty) => ty,
            None => return Err(Error::CouldntCompile),
        };
        let lty = match self.lower(&ty) {
            Ok(lty) => lty,
            Err(e) => return Err(e),
        };
        let var = self.alloca(lty);
        fx_insert(&mut self.env.locals, id, TypedValue::new(ty, var));
        Ok(var)
    }

    /// A pointer to an argument, which is allocated if it is not there yet and
    /// its type is given.
    fn get_argument(&mut self, id: usize, ty: Option<Type>) -> (r: CResult<ValueRef>)
        requires
            old(self)@.ready(),
        ensures
            match r {
                Ok(val) => old(self)@.get_argument(id, ty) == Some((final(self)@, val))
                    && old(self)@.leads_to(final(self)@),
                Err(e) => old(self)@.get_argument(id, ty) is None && e == Error::CouldntCompile,
            },
    {
        if let Some(v) = fx_get(&self.env.arguments, &id) {
            return Ok(v.val);
        }
        let ty = match ty {
            Some(ty) => ty,
            None => return Err(Error::CouldntCompile),
        };
        let lty = match self.lower(&ty) {
            Ok(lty) => lty,
            Err(e) => return Err(e),
        };
        let var = self.alloca(lty);
        fx_insert(&mut self.env.arguments, id, TypedValue::new(ty, var));
        Ok(var)
    }

    /// The block of the basic block that starts at `pc`, which is added if it is
    /// not there yet.
    fn get_basic_block(&mut self, pc: usize) -> (r: BasicBlockInfo)
        requires
            old(self)@.ready(),
        ensures
            old(self)@.get_basic_block(pc) == (final(self)@, r),
            old(self)@.leads_to(final(self)@),
            final(self)@.basic_blocks.contains_key(pc),
            final(self)@.basic_blocks[pc] == r,
    {
        if let Some(info) = fx_get(&self.basic_blocks, &pc) {
            return *info;
        }
        let func: usize = match self.generating {
            Some(func) => func,
            None => { unreached() },
        };
        let info = BasicBlockInfo::Unpositioned(self.module.append_block(func));
        proof {
            lemma_module_grows(old(self)@, self.module@);
        }
        fx_insert(&mut self.basic_blocks, pc, info);
        info
    }

    /// A function that the engine provides.
    fn builtin(&self, name: &str) -> (r: FunctionRef)
        requires
            self@.builtins.contains_key(name@),
        ensures
            r == self@.builtins[name@],
    {
        match self.builtin_function(name) {
            Some(f) => f,
            None => { unreached() },
        }
    }

    /// The function of a method, which is added, and put in the queue, when the
    /// method is called for the first time.
    fn callee(&mut self, rva: u32, receiver: Receiver) -> (r: CResult<FunctionRef>)
        requires
            old(self)@.ready(),
            old(self)@.image.methods@.contains_key(rva),
        ensures
            match r {
                Ok(f) => old(self)@.callee(rva, receiver) == Some((final(self)@, f))
                    && old(self)@.leads_to(final(self)@),
                Err(e) => old(self)@.callee(rva, receiver) is None && e == Error::CouldntCompile,
            },
    {
        if let Some(llvm_func) = fx_get(&self.generated, &rva) {
            return Ok(*llvm_func);
        }
        let image: &'a Image = self.image;
        let method = match image.get_method(rva) {
            Some(method) => method,
            None => { unreached() },
        };
        let ret_ty = match self.lower(&method.signature.ret) {
            Ok(ty) => ty,
            Err(e) => return Err(e),
        };
        let mut params_ty: Vec<LLVMType> = Vec::new();
        match receiver {
            Receiver::Nothing => {},
            Receiver::Class(class) => match self.get_class_type(class) {
                Ok(ty) => params_ty.push(ty),
                Err(e) => return Err(e),
            },
            Receiver::Lowered(ty) => params_ty.push(ty),
        }
        let ghost first = params_ty@;
        let mut rest = match self.types.lower_all(image, &method.signature.params) {
            Ok(tys) => tys,
            Err(e) => return Err(e),
        };
        params_ty.append(&mut rest);
        let ghost before = self@;
        let func: usize = self.module.add_function(method.name.clone(), ret_ty, params_ty);
        proof {
            lemma_module_grows(before, self.module@);
            lemma_method_joins_queue(self@, rva, func);
        }
        fx_insert(&mut self.generated, rva, func);
        self.compile_queue.push_back((func, rva));
        Ok(func)
    }

    /// Builds a call.
    fn call_function(&mut self, callee: FunctionRef, args: Vec<ValueRef>) -> (r: ValueRef)
        requires
            old(self)@.ready(),
        ensures
            old(self)@.emit(Op::Call { callee, args: args@ }) == (final(self)@, r),
            old(self)@.leads_to(final(self)@),
    {
        self.emit(Op::Call { callee, args })
    }

    /// Builds the call of the method at `rva` with `args`; its result, if it has
    /// one, goes on the stack.
    fn call_method(
        &mut self,
        stack: &mut Vec<TypedValue>,
        rva: u32,
        receiver: Receiver,
        args: Vec<ValueRef>,
    ) -> (r: CResult<()>)
        requires
            old(self)@.ready(),
            old(self)@.image.methods@.contains_key(rva),
        ensures
            emitted(
                old(self)@.call_method(old(stack)@, rva, receiver, args@),
                old(self)@,
                final(self)@,
                final(stack)@,
                r,
            ),
    {
        let image: &'a Image = self.image;
        let ret = match image.get_method(rva) {
            Some(method) => method.signature.ret,
            None => { unreached() },
        };
        let func: usize = match self.callee(rva, receiver) {
            Ok(func) => func,
            Err(e) => return Err(e),
        };
        let val = self.call_function(func, args);
        if !ret.is_void() {
            stack.push(TypedValue::new(ret, val));
        }
        Ok(())
    }

    fn gen_instr_call(
        &mut self,
        stack: &mut Vec<TypedValue>,
        table: usize,
        entry: usize,
    ) -> (r: CResult<()>)
        requires
            old(self)@.ready(),
        ensures
            emitted(
                old(self)@.gen_instr_call(old(stack)@, table, entry),
                old(self)@,
                final(self)@,
                final(stack)@,
                r,
            ),
    {
        let image: &'a Image = self.image;
        match image.row(table, entry) {
            Some(Table::MemberRef(mrt)) => {
                let call = match image.external_call(&mrt) {
                    Ok(call) => call,
                    Err(_) => return Err(Error::CouldntCompile),
                };
                if let ExternalCall::Ignored = call {
                    return Ok(());
                }
                let val = match stack.pop() {
                    Some(val) => val,
                    None => return Err(Error::CouldntCompile),
                };
                let args = vec![val.val];
                assert(args@ =~= seq![val.val]);
                match call {
                    ExternalCall::WriteText => {
                        let f: usize = self.builtin("WriteLine(string)");
                        self.call_function(f, args);
                    },
                    ExternalCall::WriteInt => {
                        let f: usize = self.builtin("WriteLine(int)");
                        self.call_function(f, args);
                    },
                    _ => {},
                }
                Ok(())
            },
            Some(Table::MethodDef(mdt)) => {
                let n: usize = match image.get_method(mdt.rva) {
                    Some(method) => method.signature.params.len(),
                    None => return Err(Error::CouldntCompile),
                };
                if stack.len() < n {
                    return Err(Error::CouldntCompile);
                }
                let args = drain_top(stack, n);
                self.call_method(stack, mdt.rva, Receiver::Nothing, args)
            },
            _ => Err(Error::CouldntCompile),
        }
    }

    fn gen_instr_callvirt(
        &mut self,
        stack: &mut Vec<TypedValue>,
        table: usize,
        entry: usize,
    ) -> (r: CResult<()>)
        requires
            old(self)@.ready(),
        ensures
            emitted(
                old(self)@.gen_instr_callvirt(old(stack)@, table, entry),
                old(self)@,
                final(self)@,
                final(stack)@,
                r,
            ),
    {
        let image: &'a Image = self.image;
        match image.row(table, entry) {
            Some(Table::MemberRef(_)) => Ok(()),
            Some(Table::MethodDef(mdt)) => {
                let method = match image.get_method(mdt.rva) {
                    Some(method) => method,
                    None => return Err(Error::CouldntCompile),
                };
                if !method.signature.has_this() {
                    return Err(Error::CouldntCompile);
                }
                let n: usize = method.signature.params.len();
                if stack.len() <= n {
                    return Err(Error::CouldntCompile);
                }
                let args = drain_top(stack, n + 1);
                self.call_method(stack, mdt.rva, Receiver::Class(method.class), args)
            },
            _ => Err(Error::CouldntCompile),
        }
    }

    fn gen_instr_newobj(
        &mut self,
        stack: &mut Vec<TypedValue>,
        table: usize,
        entry: usize,
    ) -> (r: CResult<()>)
        requires
            old(self)@.ready(),
        ensures
            emitted(
                old(self)@.gen_instr_newobj(old(stack)@, table, entry),
                old(self)@,
                final(self)@,
                final(stack)@,
                r,
            ),
    {
        let image: &'a Image = self.image;
        match image.row(table, entry) {
            Some(Table::MemberRef(_)) => Ok(()),
            Some(Table::MethodDef(mdt)) => {
                let method = match image.get_method(mdt.rva) {
                    Some(method) => method,
                    None => return Err(Error::CouldntCompile),
                };
                if !method.signature.has_this() {
                    return Err(Error::CouldntCompile);
                }
                let class_ty = match self.get_class_type(method.class) {
                    Ok(ty) => ty,
                    Err(e) => return Err(e),
                };
                let n: usize = method.signature.params.len();
                if stack.len() < n {
                    return Err(Error::CouldntCompile);
                }
                let size = vec![ValueRef::SizeOf(class_ty)];
                assert(size@ =~= seq![ValueRef::SizeOf(class_ty)]);
                let alloc: usize = self.builtin("memory_alloc");
                let memory = self.call_function(alloc, size);
                let new_obj = self.emit(Op::Cast { val: memory, ty: class_ty });
                let mut params = vec![new_obj];
                let mut args = drain_top(stack, n);
                params.append(&mut args);
                assert(params@ =~= seq![new_obj] + top_vals(old(stack)@, n as int));
                let func: usize = match self.callee(mdt.rva, Receiver::Lowered(class_ty)) {
                    Ok(func) => func,
                    Err(e) => return Err(e),
                };
                self.call_function(func, params);
                stack.push(TypedValue::new(Type::new(ElementType::Class(method.class)), new_obj));
                Ok(())
            },
            _ => Err(Error::CouldntCompile),
        }
    }

    /// The index and the type of the field that the token names, in the class of `obj`.
    fn field_of(&self, obj: &TypedValue, table: usize, entry: usize) -> (r: CResult<(usize, Type)>)
        ensures
            match r {
                Ok((i, ty)) => self@.field_of(*obj, table, entry) == Some((i as int, ty)),
                Err(e) => self@.field_of(*obj, table, entry) is None && e == Error::CouldntCompile,
            },
    {
        let image: &'a Image = self.image;
        let f = match image.row(table, entry) {
            Some(Table::Field(f)) => f,
            _ => return Err(Error::CouldntCompile),
        };
        let name = match image.get_string(f.name) {
            Some(name) => name,
            None => return Err(Error::CouldntCompile),
        };
        let class: usize = match obj.ty.as_class() {
            Some(class) => class,
            None => return Err(Error::CouldntCompile),
        };
        if class >= image.classes.len() {
            return Err(Error::CouldntCompile);
        }
        match image.classes[class].find_field(name) {
            Some(i) => Ok((i, image.classes[class].fields[i].ty)),
            None => Err(Error::CouldntCompile),
        }
    }

    fn gen_instr_stfld(
        &mut self,
        stack: &mut Vec<TypedValue>,
        table: usize,
        entry: usize,
    ) -> (r: CResult<()>)
        requires
            old(self)@.ready(),
        ensures
            emitted(
                old(self)@.gen_instr_stfld(old(stack)@, table, entry),
                old(self)@,
                final(self)@,
                final(stack)@,
                r,
            ),
    {
        if stack.len() < 2 {
            return Err(Error::CouldntCompile);
        }
        let (obj, val) = pop_two(stack);
        let (idx, _) = match self.field_of(&obj, table, entry) {
            Ok(field) => field,
            Err(e) => return Err(e),
        };
        let gep = self.emit(Op::Field { obj: obj.val, index: idx });
        self.emit(Op::Store { val: val.val, ptr: gep });
        Ok(())
    }

    fn gen_instr_ldfld(
        &mut self,
        stack: &mut Vec<TypedValue>,
        table: usize,
        entry: usize,
    ) -> (r: CResult<()>)
        requires
            old(self)@.ready(),
        ensures
            emitted(
                old(self)@.gen_instr_ldfld(old(stack)@, table, entry),
                old(self)@,
                final(self)@,
                final(stack)@,
                r,
            ),
    {
        let obj = match stack.pop() {
            Some(obj) => obj,
            None => return Err(Error::CouldntCompile),
        };
        let (idx, ty) = match self.field_of(&obj, table, entry) {
            Ok(field) => field,
            Err(e) => return Err(e),
        };
        let gep = self.emit(Op::Field { obj: obj.val, index: idx });
        let val = self.emit(Op::Load { ptr: gep });
        stack.push(TypedValue::new(ty, val));
        Ok(())
    }

    /// Pushes an integer constant.
    fn gen_ldc(&mut self, stack: &mut Vec<TypedValue>, n: i32) -> (r: CResult<()>)
        requires
            old(self)@.ready(),
        ensures
            emitted(
                old(self)@.gen_ldc(old(stack)@, n),
                old(self)@,
                final(self)@,
                final(stack)@,
                r,
            ),
    {
        stack.push(TypedValue::new(Type::i4_ty(), ValueRef::Int32(n)));
        Ok(())
    }

    /// Pushes a string literal.
    fn gen_ldstr(&mut self, stack: &mut Vec<TypedValue>, us_offset: u32) -> (r: CResult<()>)
        requires
            old(self)@.ready(),
        ensures
            emitted(
                old(self)@.gen_ldstr(old(stack)@, us_offset),
                old(self)@,
                final(self)@,
                final(stack)@,
                r,
            ),
    {
        let image: &'a Image = self.image;
        let units = match image.user_strings.get(&us_offset) {
            Some(units) => units,
            None => return Err(Error::CouldntCompile),
        };
        let val = self.module.add_string(decode_utf16(units));
        proof {
            lemma_module_grows(old(self)@, self.module@);
        }
        stack.push(TypedValue::new(Type::string_ty(), val));
        Ok(())
    }

    /// Pushes the value of a local variable.
    fn gen_ldloc(&mut self, stack: &mut Vec<TypedValue>, id: usize) -> (r: CResult<()>)
        requires
            old(self)@.ready(),
        ensures
            emitted(
                old(self)@.gen_ldloc(old(stack)@, id),
                old(self)@,
                final(self)@,
                final(stack)@,
                r,
            ),
    {
        let local = match fx_get(&self.env.locals, &id) {
            Some(local) => *local,
            None => return Err(Error::CouldntCompile),
        };
        let val = self.emit(Op::Load { ptr: local.val });
        stack.push(TypedValue::new(local.ty, val));
        Ok(())
    }

    /// Pops the value of a local variable.
    fn gen_stloc(&mut self, stack: &mut Vec<TypedValue>, id: usize) -> (r: CResult<()>)
        requires
            old(self)@.ready(),
        ensures
            emitted(
                old(self)@.gen_stloc(old(stack)@, id),
                old(self)@,
                final(self)@,
                final(stack)@,
                r,
            ),
    {
        let val = match stack.pop() {
            Some(val) => val.val,
            None => return Err(Error::CouldntCompile),
        };
        let ptr = match self.get_local(id, None) {
            Ok(ptr) => ptr,
            Err(e) => return Err(e),
        };
        self.emit(Op::Store { val, ptr });
        Ok(())
    }

    /// The type of an argument.
    fn get_argument_ty(&self, id: usize) -> (r: CResult<Type>)
        ensures
            match r {
                Ok(ty) => self@.arguments.contains_key(id) && ty == self@.arguments[id].ty,
                Err(e) => !self@.arguments.contains_key(id) && e == Error::CouldntCompile,
            },
    {
        match fx_get(&self.env.arguments, &id) {
            Some(arg) => Ok(arg.ty),
            None => Err(Error::CouldntCompile),
        }
    }

    /// Pushes the value of an argument, with the type of the first one.
    fn gen_ldarg(&mut self, stack: &mut Vec<TypedValue>, id: usize) -> (r: CResult<()>)
        requires
            old(self)@.ready(),
        ensures
            emitted(
                old(self)@.gen_ldarg(old(stack)@, id),
                old(self)@,
                final(self)@,
                final(stack)@,
                r,
            ),
    {
        let ty = match self.get_argument_ty(0) {
            Ok(ty) => ty,
            Err(e) => return Err(e),
        };
        let ptr = match self.get_argument(id, None) {
            Ok(ptr) => ptr,
            Err(e) => return Err(e),
        };
        let val = self.emit(Op::Load { ptr });
        stack.push(TypedValue::new(ty, val));
        Ok(())
    }

    /// Replaces the two topmost values by the result of an operation on them.
    fn gen_binary(&mut self, stack: &mut Vec<TypedValue>, op: BinaryOp) -> (r: CResult<()>)
        requires
            old(self)@.ready(),
        ensures
            emitted(
                old(self)@.gen_binary(old(stack)@, op),
                old(self)@,
                final(self)@,
                final(stack)@,
                r,
            ),
    {
        if stack.len() < 2 {
            return Err(Error::CouldntCompile);
        }
        let (val1, val2) = pop_two(stack);
        let val = self.emit(Op::Binary { op, lhs: val1.val, rhs: val2.val });
        stack.push(TypedValue::new(val1.ty, val));
        Ok(())
    }

    /// Returns from the method, with the topmost value if it returns one.
    fn gen_ret(&mut self, stack: &mut Vec<TypedValue>) -> (r: CResult<()>)
        requires
            old(self)@.ready(),
        ensures
            emitted(
                old(self)@.gen_ret(old(stack)@),
                old(self)@,
                final(self)@,
                final(stack)@,
                r,
            ),
    {
        let func: usize = match self.generating {
            Some(func) => func,
            None => { unreached() },
        };
        assert(self@.module.functions[func as int] == self.module.functions[func as int]@);
        if let LLVMType::Void = self.module.functions[func].ret {
            self.emit(Op::RetVoid);
            return Ok(());
        }
        match stack.pop() {
            Some(val) => {
                self.emit(Op::Ret { val: val.val });
                Ok(())
            },
            None => Err(Error::CouldntCompile),
        }
    }

    /// Builds the condition `cond`, then a branch on it.
    fn gen_cond_br(&mut self, cond: Op<Vec<ValueRef>>, kind: &BrKind) -> (r: CResult<()>)
        requires
            old(self)@.ready(),
        ensures
            match r {
                Ok(_) => old(self)@.gen_cond_br(op_view(cond), kind@) == Some(final(self)@)
                    && old(self)@.leads_to(final(self)@),
                Err(e) => old(self)@.gen_cond_br(op_view(cond), kind@) is None && e
                    == Error::CouldntCompile,
            },
    {
        match kind {
            BrKind::ConditionalJmp { destinations } => {
                if destinations.len() < 2 {
                    return Err(Error::CouldntCompile);
                }
                let cond = self.emit(cond);
                let if_true: usize = self.get_basic_block(destinations[0]).retrieve();
                let if_false: usize = self.get_basic_block(destinations[1]).retrieve();
                self.emit(Op::CondBr { cond, if_true, if_false });
                Ok(())
            },
            _ => Err(Error::CouldntCompile),
        }
    }

    /// Branches on the topmost value.
    fn gen_branch_on_value(
        &mut self,
        stack: &mut Vec<TypedValue>,
        pred: Predicate,
        kind: &BrKind,
    ) -> (r: CResult<()>)
        requires
            old(self)@.ready(),
        ensures
            emitted(
                old(self)@.gen_branch_on_value(old(stack)@, pred, kind@),
                old(self)@,
                final(self)@,
                final(stack)@,
                r,
            ),
    {
        match stack.pop() {
            Some(val) => self.gen_cond_br(Op::CompareNull { pred, val: val.val }, kind),
            None => Err(Error::CouldntCompile),
        }
    }

    /// Branches on the two topmost values.
    fn gen_branch_on_values(
        &mut self,
        stack: &mut Vec<TypedValue>,
        pred: Predicate,
        kind: &BrKind,
    ) -> (r: CResult<()>)
        requires
            old(self)@.ready(),
        ensures
            emitted(
                old(self)@.gen_branch_on_values(old(stack)@, pred, kind@),
                old(self)@,
                final(self)@,
                final(stack)@,
                r,
            ),
    {
        if stack.len() < 2 {
            return Err(Error::CouldntCompile);
        }
        let (val1, val2) = pop_two(stack);
        self.gen_cond_br(Op::Compare { pred, lhs: val1.val, rhs: val2.val }, kind)
    }

    /// Branches to the only destination of a block, unless the block that is
    /// being built has its terminator.
    fn gen_br(&mut self, stack: &mut Vec<TypedValue>, kind: &BrKind) -> (r: CResult<()>)
        requires
            old(self)@.ready(),
        ensures
            emitted(
                old(self)@.gen_br(old(stack)@, kind@),
                old(self)@,
                final(self)@,
                final(stack)@,
                r,
            ),
    {
        let destination: usize = match kind {
            BrKind::UnconditionalJmp { destination } => *destination,
            BrKind::JmpRequired { destination } => *destination,
            _ => return Err(Error::CouldntCompile),
        };
        let dest: usize = self.get_basic_block(destination).retrieve();
        if self.cur_bb_has_no_terminator() {
            self.emit(Op::Br { dest });
        }
        Ok(())
    }

    /// Compiles an instruction of a block with this kind of exit.
    fn compile_instr(
        &mut self,
        stack: &mut Vec<TypedValue>,
        instr: &Instruction,
        kind: &BrKind,
    ) -> (r: CResult<()>)
        requires
            old(self)@.ready(),
        ensures
            emitted(
                old(self)@.compile_instr(old(stack)@, *instr, kind@),
                old(self)@,
                final(self)@,
                final(stack)@,
                r,
            ),
    {
        proof {
            reveal(Jit::compile_instr);
        }
        match instr {
            Instruction::Ldstr { us_offset } => self.gen_ldstr(stack, *us_offset),
            Instruction::Ldc_I4_0 => self.gen_ldc(stack, 0),
            Instruction::Ldc_I4_1 => self.gen_ldc(stack, 1),
            Instruction::Ldc_I4_2 => self.gen_ldc(stack, 2),
            Instruction::Ldc_I4_3 => self.gen_ldc(stack, 3),
            Instruction::Ldc_I4_S { n } => self.gen_ldc(stack, *n),
            Instruction::Ldc_I4 { n } => self.gen_ldc(stack, *n),
            Instruction::Pop => {
                stack.pop();
                Ok(())
            },
            Instruction::Call { table, entry } => self.gen_instr_call(stack, *table, *entry),
            Instruction::CallVirt { table, entry } => self.gen_instr_callvirt(
                stack,
                *table,
                *entry,
            ),
            Instruction::Newobj { table, entry } => self.gen_instr_newobj(stack, *table, *entry),
            Instruction::Ldloc_0 => self.gen_ldloc(stack, 0),
            Instruction::Ldloc_1 => self.gen_ldloc(stack, 1),
            Instruction::Ldfld { table, entry } => self.gen_instr_ldfld(stack, *table, *entry),
            Instruction::Stloc_0 => self.gen_stloc(stack, 0),
            Instruction::Stloc_1 => self.gen_stloc(stack, 1),
            Instruction::Stfld { table, entry } => self.gen_instr_stfld(stack, *table, *entry),
            Instruction::Ldarg_0 => self.gen_ldarg(stack, 0),
            Instruction::Ldarg_1 => self.gen_ldarg(stack, 1),
            Instruction::Add => self.gen_binary(stack, BinaryOp::Add),
            Instruction::Sub => self.gen_binary(stack, BinaryOp::Sub),
            Instruction::Mul => self.gen_binary(stack, BinaryOp::Mul),
            Instruction::Rem => self.gen_binary(stack, BinaryOp::SRem),
            Instruction::Ret => self.gen_ret(stack),
            Instruction::Brfalse { .. } => self.gen_branch_on_value(
                stack,
                Predicate::Equal,
                kind,
            ),
            Instruction::Brtrue { .. } => self.gen_branch_on_value(
                stack,
                Predicate::NotEqual,
                kind,
            ),
            Instruction::Bge { .. } => self.gen_branch_on_values(
                stack,
                Predicate::SignedGreaterEqual,
                kind,
            ),
            Instruction::Blt { .. } => self.gen_branch_on_values(
                stack,
                Predicate::SignedLess,
                kind,
            ),
            Instruction::Ble { .. } => self.gen_branch_on_values(
                stack,
                Predicate::SignedLessEqual,
                kind,
            ),
            Instruction::Bgt { .. } => self.gen_branch_on_values(
                stack,
                Predicate::SignedGreater,
                kind,
            ),
            Instruction::Bne_un { .. } => self.gen_branch_on_values(
                stack,
                Predicate::NotEqual,
                kind,
            ),
            Instruction::Br { .. } => self.gen_br(stack, kind),
            Instruction::Beq { .. } => Err(Error::CouldntCompile),
        }
    }

    /// Compiles the instructions of a block.
    fn compile_bytecode(&mut self, block: &BasicBlock, stack: &mut Vec<TypedValue>) -> (r: CResult<
        (),
    >)
        requires
            old(self)@.ready(),
        ensures
            emitted(
                old(self)@.compile_bytecode(old(stack)@, block@, block@.code.len()),
                old(self)@,
                final(self)@,
                final(stack)@,
                r,
            ),
    {
        let mut i: usize = 0;
        while i < block.code.len()
            invariant
                i <= block.code.len(),
                block@.code == block.code@,
                block@.exit == block.kind@,
                old(self)@.compile_bytecode(old(stack)@, block@, i as nat) == Some(
                    (self@, stack@),
                ),
                old(self)@.leads_to(self@),
            decreases block.code.len() - i,
        {
            if let Err(e) = self.compile_instr(stack, &block.code[i], &block.kind) {
                proof {
                    lemma_failed_bytecode(
                        old(self)@,
                        old(stack)@,
                        block@,
                        i as nat + 1,
                        block@.code.len(),
                    );
                }
                return Err(e);
            }
            i = i + 1;
        }
        Ok(())
    }

    /// Puts what comes in at the block that starts at `start` on the stack.
    #[verifier::rlimit(50)]
    fn build_phi_stack(&mut self, start: usize, stack: &mut Vec<TypedValue>) -> (r: CResult<()>)
        requires
            old(self)@.ready(),
        ensures
            emitted(
                old(self)@.build_phi_stack(start, old(stack)@),
                old(self)@,
                final(self)@,
                final(stack)@,
                r,
            ),
    {
        proof {
            reveal(Jit::build_phi_stack);
        }
        let phi_stacks = match fx_get(&self.phi_stack, &start) {
            Some(phi_stacks) => phi_stacks,
            None => return Ok(()),
        };
        let ghost phis = phi_views(*phi_stacks);
        if phi_stacks.len() == 0 {
            return Err(Error::CouldntCompile);
        }
        let init_stack_size: usize = stack.len();
        let first = &phi_stacks[0];
        let mut i: usize = 0;
        while i < first.stack.len()
            invariant
                i <= first.stack.len(),
                phis[0] == first@,
                old(self)@.first_phis(old(stack)@, phis[0], i as nat) == (self@, stack@),
                old(self)@.ready(),
                old(self)@.leads_to(self@),
            decreases first.stack.len() - i,
        {
            let come = first.stack[i];
            let ghost before = self@;
            let phi = self.module.append(self.insert_block, Op::Phi { like: come.val });
            self.module.add_incoming(Incoming { phi, val: come.val, block: first.src_bb });
            proof {
                lemma_module_grows(before, self.module@);
            }
            stack.push(TypedValue::new(come.ty, phi));
            i = i + 1;
        }
        let ghost full = self@;
        let mut k: usize = 1;
        while k < phi_stacks.len()
            invariant
                1 <= k <= phi_stacks.len(),
                phis == phi_views(*phi_stacks),
                old(self)@.phi_stack.contains_key(start),
                old(self)@.phi_stack[start] == phis,
                init_stack_size == old(stack)@.len(),
                old(self)@.first_phis(old(stack)@, phis[0], phis[0].stack.len()) == (full, stack@),
                full.more_phis(stack@, init_stack_size as nat, phis, k as nat) == Some(self@),
                old(self)@.ready(),
                old(self)@.leads_to(self@),
            decreases phi_stacks.len() - k,
        {
            let more = &phi_stacks[k];
            let ghost part = self@;
            let mut i: usize = 0;
            while i < more.stack.len()
                invariant
                    i <= more.stack.len(),
                    1 <= k < phi_stacks.len(),
                    phis == phi_views(*phi_stacks),
                    old(self)@.phi_stack.contains_key(start),
                    old(self)@.phi_stack[start] == phis,
                    init_stack_size == old(stack)@.len(),
                    old(self)@.first_phis(old(stack)@, phis[0], phis[0].stack.len()) == (
                        full,
                        stack@,
                    ),
                    phis[k as int] == more@,
                    full.more_phis(stack@, init_stack_size as nat, phis, k as nat) == Some(part),
                    part.add_phis(stack@, init_stack_size as nat, more@, i as nat) == Some(self@),
                    old(self)@.ready(),
                    old(self)@.leads_to(self@),
                decreases more.stack.len() - i,
            {
                if i >= stack.len() || init_stack_size >= stack.len() - i {
                    proof {
                        reveal(Jit::build_phi_stack);
                        let base = init_stack_size as nat;
                        let n = more.stack@.len();
                        lemma_failed_phis(part, stack@, base, more@, i as nat + 1, n);
                        lemma_failed_more_phis(full, stack@, base, phis, k as nat + 1, phis.len());
                    }
                    return Err(Error::CouldntCompile);
                }
                let phi = stack[init_stack_size + i].val;
                let ghost before = self@;
                self.module.add_incoming(
                    Incoming { phi, val: more.stack[i].val, block: more.src_bb },
                );
                proof {
                    lemma_module_grows(before, self.module@);
                }
                i = i + 1;
            }
            k = k + 1;
        }
        Ok(())
    }

    /// Records what comes in at the block that starts at `destination`.
    fn add_phi_stack(&mut self, destination: usize, src_bb: BlockRef, stack: Vec<TypedValue>)
        requires
            old(self)@.ready(),
        ensures
            final(self)@ == old(self)@.add_phi_stack(destination, src_bb, stack@),
            old(self)@.leads_to(final(self)@),
    {
        let mut phis = match fx_remove(&mut self.phi_stack, &destination) {
            Some(phis) => phis,
            None => Vec::new(),
        };
        let ghost before = phi_views(phis);
        assert(before =~= if old(self)@.phi_stack.contains_key(destination) {
            old(self)@.phi_stack[destination]
        } else {
            seq![]
        });
        let phi = PhiStack { src_bb, stack };
        phis.push(phi);
        assert(phi_views(phis) =~= before.push(phi@));
        fx_insert(&mut self.phi_stack, destination, phis);
        assert(self@.phi_stack =~= old(self)@.add_phi_stack(
            destination,
            src_bb,
            stack@,
        ).phi_stack);
    }

    /// Passes control on to the block that starts at `destination`, unless the
    /// block that is being built has its terminator.
    fn required_jump(&mut self, destination: usize)
        requires
            old(self)@.ready(),
        ensures
            final(self)@ == old(self)@.required_jump(destination),
            old(self)@.leads_to(final(self)@),
    {
        if self.cur_bb_has_no_terminator() {
            let mut info = self.get_basic_block(destination);
            let dest: usize = info.set_positioned().retrieve();
            proof {
                lemma_block_recorded(self@, destination, info, self@.pos);
            }
            fx_insert(&mut self.basic_blocks, destination, info);
            self.emit(Op::Br { dest });
        }
    }

    /// Compiles the instructions of a block, with what comes in on top of the
    /// stack.
    fn compile_straight(&mut self, block: &BasicBlock, stack: &mut Vec<TypedValue>) -> (r: CResult<
        (),
    >)
        requires
            old(self)@.ready(),
        ensures
            emitted(
                old(self)@.compile_straight(block@, old(stack)@),
                old(self)@,
                final(self)@,
                final(stack)@,
                r,
            ),
    {
        proof {
            reveal(Jit::compile_straight);
        }
        let mut info = match fx_get(&self.basic_blocks, &block.start) {
            Some(info) => *info,
            None => return Err(Error::CouldntCompile),
        };
        let bb: usize = info.set_positioned().retrieve();
        proof {
            lemma_block_recorded(self@, block.start, info, bb);
        }
        fx_insert(&mut self.basic_blocks, block.start, info);
        self.insert_block = bb;
        assert(self@ == old(self)@.set_positioned(block.start).position(bb));
        if let Err(e) = self.build_phi_stack(block.start, stack) {
            return Err(e);
        }
        self.compile_bytecode(block, stack)
    }

    /// Compiles a block and, if it ends in a conditional branch, the blocks that
    /// it leads to. Returns where control goes.
    #[verifier::rlimit(50)]
    fn compile_block(
        &mut self,
        blocks: &mut Vec<BasicBlock>,
        idx: usize,
        init_stack: Vec<TypedValue>,
    ) -> (r: CResult<usize>)
        requires
            old(self)@.ready(),
            idx < old(blocks)@.len(),
        ensures
            match r {
                Ok(d) => old(self)@.compile_block(
                    block_views(old(blocks)@),
                    idx as int,
                    init_stack@,
                ) == Some((final(self)@, block_views(final(blocks)@), d)) && old(self)@.leads_to(
                    final(self)@,
                ),
                Err(e) => old(self)@.compile_block(
                    block_views(old(blocks)@),
                    idx as int,
                    init_stack@,
                ) is None && e == Error::CouldntCompile,
            },
        decreases ungenerated(block_views(old(blocks)@)).len(),
    {
        proof {
            reveal(Jit::compile_block);
            reveal(Jit::compile_destinations);
        }
        let ghost all = block_views(blocks@);
        if blocks[idx].generated {
            return Ok(0);
        }
        let mut stack = init_stack;
        if let Err(e) = self.compile_straight(&blocks[idx], &mut stack) {
            return Err(e);
        }
        blocks[idx].generated = true;
        let ghost marked = mark_generated(all, idx as int);
        assert(block_views(blocks@) =~= marked);
        proof {
            lemma_mark_generated(all, idx as int);
        }
        let ghost reached = self@;
        let start: usize = blocks[idx].start;
        assert(blocks@[idx as int].kind@ == all[idx as int].exit);
        match &blocks[idx].kind {
            BrKind::ConditionalJmp { destinations } => {
                let ghost named = destinations@;
                let destinations = destinations.clone();
                assert(destinations@ =~= named);
                let mut d: usize = 0;
                let mut k: usize = 0;
                while k < destinations.len()
                    invariant
                        k <= destinations.len(),
                        reached.compile_destinations(marked, destinations@, stack@, k as nat)
                            == Some((self@, block_views(blocks@), d)),
                        reached.compile_destinations(
                            marked,
                            destinations@,
                            stack@,
                            destinations@.len(),
                        ) is None ==> old(self)@.compile_block(
                            block_views(old(blocks)@),
                            idx as int,
                            init_stack@,
                        ) is None,
                        ungenerated(marked).len() < ungenerated(block_views(old(blocks)@)).len(),
                        old(self)@.leads_to(self@),
                    decreases destinations.len() - k,
                {
                    proof {
                        reveal(Jit::compile_block);
                        reveal(Jit::compile_destinations);
                    }
                    if let Some(i) = find_block_index(blocks, destinations[k]) {
                        proof {
                            lemma_destinations_stay_generated(
                                reached,
                                marked,
                                destinations@,
                                stack@,
                                k as nat,
                            );
                        }
                        let copy = stack.clone();
                        assert(copy@ =~= stack@);
                        match self.compile_block(blocks, i, copy) {
                            Ok(dst) => d = dst,
                            Err(e) => {
                                proof {
                                    lemma_failed_destinations(
                                        reached,
                                        marked,
                                        destinations@,
                                        stack@,
                                        k as nat + 1,
                                        destinations@.len(),
                                    );
                                }
                                return Err(e);
                            },
                        }
                    }
                    k = k + 1;
                }
                Ok(d)
            },
            BrKind::UnconditionalJmp { destination } => {
                let destination: usize = *destination;
                let src_bb: usize = self.get_basic_block(start).retrieve();
                self.add_phi_stack(destination, src_bb, stack);
                Ok(destination)
            },
            BrKind::JmpRequired { destination } => {
                let destination: usize = *destination;
                let src_bb: usize = self.get_basic_block(start).retrieve();
                self.required_jump(destination);
                self.add_phi_stack(destination, src_bb, stack);
                Ok(destination)
            },
            BrKind::BlockStart => Ok(0),
        }
    }

    /// Compiles all blocks.
    #[verifier::rlimit(50)]
    fn compile_blocks(&mut self, blocks: &mut Vec<BasicBlock>) -> (r: CResult<()>)
        requires
            old(self)@.ready(),
        ensures
            match r {
                Ok(_) => old(self)@.compile_blocks(
                    block_views(old(blocks)@),
                    old(blocks)@.len(),
                ) == Some((final(self)@, block_views(final(blocks)@))) && old(self)@.leads_to(
                    final(self)@,
                ) && final(blocks)@.len() == old(blocks)@.len(),
                Err(e) => old(self)@.compile_blocks(
                    block_views(old(blocks)@),
                    old(blocks)@.len(),
                ) is None && e == Error::CouldntCompile,
            },
    {
        let ghost all = block_views(blocks@);
        let mut i: usize = 0;
        while i < blocks.len()
            invariant
                i <= blocks.len(),
                all.len() == blocks@.len(),
                blocks@.len() == old(blocks)@.len(),
                all == block_views(old(blocks)@),
                old(self)@.compile_blocks(all, i as nat) == Some((self@, block_views(blocks@))),
                old(self)@.ready(),
                old(self)@.leads_to(self@),
            decreases blocks.len() - i,
        {
            let ghost before = self@;
            let ghost so_far = block_views(blocks@);
            let stack: Vec<TypedValue> = Vec::new();
            assert(stack@ =~= seq![]);
            if let Err(e) = self.compile_block(blocks, i, stack) {
                proof {
                    lemma_failed_blocks(old(self)@, all, i as nat + 1, all.len());
                }
                return Err(e);
            }
            proof {
                law_blocks_stay_generated(before, so_far, i as int, seq![]);
            }
            i = i + 1;
        }
        Ok(())
    }

    /// Allocates the local variables.
    fn declare_locals(&mut self, tys: &Vec<Type>) -> (r: CResult<()>)
        requires
            old(self)@.ready(),
        ensures
            match r {
                Ok(_) => old(self)@.declare_locals(tys@, tys@.len()) == Some(final(self)@)
                    && old(self)@.leads_to(final(self)@),
                Err(e) => old(self)@.declare_locals(tys@, tys@.len()) is None && e
                    == Error::CouldntCompile,
            },
    {
        let mut i: usize = 0;
        while i < tys.len()
            invariant
                i <= tys.len(),
                old(self)@.declare_locals(tys@, i as nat) == Some(self@),
                old(self)@.leads_to(self@),
            decreases tys.len() - i,
        {
            if let Err(e) = self.get_local(i, Some(tys[i])) {
                proof {
                    lemma_failed_locals(old(self)@, tys@, i as nat + 1, tys@.len());
                }
                return Err(e);
            }
            i = i + 1;
        }
        Ok(())
    }

    /// Allocates an argument and stores the function's parameter in it.
    fn declare_param(&mut self, function: FunctionRef, index: usize, ty: Type) -> (r: CResult<()>)
        requires
            old(self)@.ready(),
        ensures
            match r {
                Ok(_) => old(self)@.declare_param(function, index, ty) == Some(final(self)@)
                    && old(self)@.leads_to(final(self)@),
                Err(e) => old(self)@.declare_param(function, index, ty) is None && e
                    == Error::CouldntCompile,
            },
    {
        let ptr = match self.get_argument(index, Some(ty)) {
            Ok(ptr) => ptr,
            Err(e) => return Err(e),
        };
        self.emit(Op::Store { val: ValueRef::Param { function, index }, ptr });
        Ok(())
    }

    /// Allocates all arguments of a method.
    fn declare_arguments(&mut self, function: FunctionRef, method: &MethodBody) -> (r: CResult<()>)
        requires
            old(self)@.ready(),
        ensures
            match r {
                Ok(_) => old(self)@.declare_arguments(function, *method) == Some(final(self)@)
                    && old(self)@.leads_to(final(self)@),
                Err(e) => old(self)@.declare_arguments(function, *method) is None && e
                    == Error::CouldntCompile,
            },
    {
        let shift: usize = if method.signature.has_this() {
            let this = Type::new(ElementType::Class(method.class));
            if let Err(e) = self.declare_param(function, 0, this) {
                return Err(e);
            }
            1
        } else {
            0
        };
        let ghost before = self@;
        let params = &method.signature.params;
        let mut i: usize = 0;
        while i < params.len()
            invariant
                i <= params.len(),
                shift <= 1,
                before.declare_params(function, shift as nat, params@, i as nat) == Some(self@),
                before.declare_params(function, shift as nat, params@, params@.len()) is None
                    ==> old(self)@.declare_arguments(function, *method) is None,
                old(self)@.leads_to(self@),
            decreases params.len() - i,
        {
            if let Err(e) = self.declare_param(function, i + shift, params[i]) {
                proof {
                    lemma_failed_params(
                        before,
                        function,
                        shift as nat,
                        params@,
                        i as nat + 1,
                        params@.len(),
                    );
                }
                return Err(e);
            }
            i = i + 1;
        }
        Ok(())
    }

    /// Adds a block for each basic block, but for those that start at the first
    /// position.
    fn append_blocks(&mut self, function: FunctionRef, blocks: &Vec<BasicBlock>)
        requires
            old(self)@.ready(),
            function < old(self)@.module.functions.len(),
        ensures
            final(self)@ == old(self)@.append_blocks(
                function,
                block_views(blocks@),
                blocks@.len(),
            ),
            old(self)@.leads_to(final(self)@),
    {
        let ghost all = block_views(blocks@);
        let mut i: usize = 0;
        while i < blocks.len()
            invariant
                i <= blocks.len(),
                all == block_views(blocks@),
                function < old(self)@.module.functions.len(),
                self@ == old(self)@.append_blocks(function, all, i as nat),
                old(self)@.leads_to(self@),
            decreases blocks.len() - i,
        {
            assert(all[i as int] == blocks@[i as int]@);
            let start: usize = blocks[i].start;
            if start > 0 {
                let ghost before = self@;
                let bb: usize = self.module.append_block(function);
                proof {
                    lemma_module_grows(before, self.module@);
                    lemma_block_recorded(
                        self@,
                        start,
                        BasicBlockInfo::Unpositioned(bb),
                        self@.pos,
                    );
                }
                fx_insert(&mut self.basic_blocks, start, BasicBlockInfo::Unpositioned(bb));
            }
            i = i + 1;
        }
    }

    /// The terminator of a block that has nothing to return.
    fn default_return(&self, function: FunctionRef) -> (r: Op<Vec<ValueRef>>)
        requires
            function < self@.module.functions.len(),
        ensures
            op_view(r) == default_return(self@.module.functions[function as int].ret),
    {
        assert(self@.module.functions[function as int] == self.module.functions[function as int]@);
        match self.module.functions[function].ret {
            LLVMType::Void => Op::RetVoid,
            ret => Op::Ret { val: ValueRef::Null(ret) },
        }
    }

    /// Returns from the last block, unless it has its terminator.
    fn close_last(&mut self, function: FunctionRef, start: usize) -> (r: CResult<()>)
        requires
            old(self)@.ready(),
            function < old(self)@.module.functions.len(),
        ensures
            forall|last: Block| last.start == start ==> #[trigger] old(self)@.close_last(
                function,
                last,
            ) == (match r {
                Ok(_) => Some(final(self)@),
                Err(_) => None,
            }),
            match r {
                Ok(_) => old(self)@.leads_to(final(self)@),
                Err(e) => e == Error::CouldntCompile,
            },
    {
        let bb: usize = match fx_get(&self.basic_blocks, &start) {
            Some(info) => info.retrieve(),
            None => return Err(Error::CouldntCompile),
        };
        assert(self@.basic_blocks.contains_key(start));
        self.insert_block = bb;
        assert(self@ == old(self)@.position(bb));
        if self.cur_bb_has_no_terminator() {
            let op = self.default_return(function);
            self.emit(op);
        }
        Ok(())
    }

    /// Sees to it that the blocks of a function have terminators.
    fn close_blocks(&mut self, function: FunctionRef)
        requires
            old(self)@.ready(),
            function < old(self)@.module.functions.len(),
        ensures
            final(self)@ == old(self)@.close_blocks(
                function,
                old(self)@.module.functions[function as int].blocks.len(),
            ),
            old(self)@.leads_to(final(self)@),
    {
        let n: usize = self.module.functions[function].blocks.len();
        let mut i: usize = 0;
        while i < n
            invariant
                i <= n,
                function < old(self)@.module.functions.len(),
                n == old(self)@.module.functions[function as int].blocks.len(),
                self@ == old(self)@.close_blocks(function, i as nat),
                self@.module.functions == old(self)@.module.functions,
                old(self)@.leads_to(self@),
            decreases n - i,
        {
            assert(self@.module.functions[function as int]
                == self.module.functions[function as int]@);
            let bb: usize = self.module.functions[function].blocks[i];
            assert(self@.module.functions[function as int].blocks[i as int]
                < self@.module.blocks.len());
            if !self.module.has_terminator(bb) {
                if let LLVMType::Void = self.module.functions[function].ret {
                    self.emit(Op::RetVoid);
                } else {
                    let ghost before = self@;
                    let op = self.default_return(function);
                    self.module.append(bb, op);
                    proof {
                        lemma_module_grows(before, self.module@);
                    }
                }
            }
            i = i + 1;
        }
    }

    /// Compiles the body of a function: its variables, its blocks and their
    /// terminators.
    #[verifier::rlimit(50)]
    fn compile_body(&mut self, function: FunctionRef, entry: BlockRef, method: &MethodBody) -> (r:
        CResult<()>)
        requires
            old(self)@.ready(),
            function < old(self)@.module.functions.len(),
            entry < old(self)@.module.blocks.len(),
        ensures
            match r {
                Ok(_) => old(self)@.compile_body(function, entry, *method) == Some(final(self)@)
                    && old(self)@.leads_to(final(self)@),
                Err(e) => old(self)@.compile_body(function, entry, *method) is None && e
                    == Error::CouldntCompile,
            },
    {
        proof {
            reveal(Jit::compile_body);
        }
        if method.body.len() == usize::MAX || !check_targets(&method.body) {
            return Err(Error::CouldntCompile);
        }
        let mut blocks = CFGMaker::new().make_basic_blocks(&method.body);
        proof {
            law_blocks_are_runs(method.body@);
        }
        if let Err(e) = self.declare_locals(&method.locals_ty) {
            return Err(e);
        }
        proof {
            lemma_block_recorded(self@, 0, BasicBlockInfo::Positioned(entry), self@.pos);
        }
        fx_insert(&mut self.basic_blocks, 0, BasicBlockInfo::Positioned(entry));
        self.append_blocks(function, &blocks);
        if let Err(e) = self.compile_blocks(&mut blocks) {
            return Err(e);
        }
        let last: usize = blocks.len() - 1;
        assert(block_views(blocks@).last() == blocks@[last as int]@);
        if let Err(e) = self.close_last(function, blocks[last].start) {
            return Err(e);
        }
        self.close_blocks(function);
        Ok(())
    }

    /// Starts with a function: adds its entry block, and moves there.
    fn begin_function(&mut self, function: FunctionRef) -> (r: BlockRef)
        requires
            old(self)@.wf(),
            function < old(self)@.module.functions.len(),
        ensures
            old(self)@.begin_function(function) == (final(self)@, r),
            final(self)@.ready(),
            final(self)@.pending() == old(self)@.pending(),
            final(self)@.module.functions.len() == old(self)@.module.functions.len(),
            r < final(self)@.module.blocks.len(),
    {
        self.generating = Some(function);
        self.env = Environment::new();
        let entry: usize = self.module.append_block(function);
        self.insert_block = entry;
        assert(self@ =~= old(self)@.begin_function(function).0);
        assert(self@.uncalled() == old(self)@.uncalled());
        entry
    }

    /// Forgets the blocks of a method.
    fn forget_blocks(&mut self)
        ensures
            final(self)@ == old(self)@.forget_blocks(),
            old(self)@.wf() ==> final(self)@.wf(),
            final(self)@.pending() == old(self)@.pending(),
    {
        self.basic_blocks = fx_new();
        self.phi_stack = fx_new();
        assert(self@ =~= old(self)@.forget_blocks());
        assert(self@.uncalled() == old(self)@.uncalled());
    }

    /// Compiles the function of a called method.
    fn generate_func(&mut self, function: FunctionRef, method: &MethodBody) -> (r: CResult<()>)
        requires
            old(self)@.wf(),
            function < old(self)@.module.functions.len(),
        ensures
            match r {
                Ok(_) => old(self)@.generate_func(function, *method) == Some(final(self)@)
                    && final(self)@.wf() && final(self)@.pending() <= old(self)@.pending()
                    && final(self)@.image == old(self)@.image,
                Err(e) => old(self)@.generate_func(function, *method) is None && e
                    == Error::CouldntCompile,
            },
    {
        proof {
            reveal(Jit::generate_func);
        }
        let entry: usize = self.begin_function(function);
        if let Err(e) = self.declare_arguments(function, method) {
            return Err(e);
        }
        if let Err(e) = self.compile_body(function, entry, method) {
            return Err(e);
        }
        self.forget_blocks();
        Ok(())
    }

    /// Compiles the functions of the methods in the queue, and of those that
    /// join it meanwhile.
    fn generate_queued(&mut self) -> (r: CResult<()>)
        requires
            old(self)@.wf(),
        ensures
            match r {
                Ok(_) => old(self)@.generate_queued() == Some(final(self)@) && final(self)@.wf(),
                Err(e) => old(self)@.generate_queued() is None && e == Error::CouldntCompile,
            },
    {
        let image: &'a Image = self.image;
        while self.compile_queue.len() > 0
            invariant
                self@.wf(),
                self@.image == *image,
                self@.generate_queued() == old(self)@.generate_queued(),
            decreases self@.pending(),
        {
            let ghost before = self@;
            let (function, rva) = match self.compile_queue.pop_front() {
                Some(waiting) => waiting,
                None => { unreached() },
            };
            proof {
                lemma_method_leaves_queue(before);
                assert(self@ =~= Jit {
                    queue: before.queue.subrange(1, before.queue.len() as int),
                    ..before
                });
            }
            let method = match image.get_method(rva) {
                Some(method) => method,
                None => { unreached() },
            };
            if let Err(e) = self.generate_func(function, method) {
                return Err(e);
            }
        }
        Ok(())
    }

    /// A compiler for the methods of `image`.
    pub fn new(image: &'a Image) -> (r: Self)
        ensures
            r@ == Jit::initial(*image),
            r@.wf(),
            r@.module.fits(),
    {
        let mut module = Module::new();
        let number = vec![LLVMType::Int32];
        let string = vec![LLVMType::Int8Ptr];
        let size = vec![LLVMType::Int32];
        assert(number@ =~= seq![LLVMType::Int32]);
        assert(string@ =~= seq![LLVMType::Int8Ptr]);
        assert(size@ =~= seq![LLVMType::Int32]);
        let mut fs: FxHashMap<String, FunctionRef> = fx_new();
        let f: usize = module.add_function("WriteLine(int)".to_string(), LLVMType::Void, number);
        fx_insert(&mut fs, "WriteLine(int)".to_string(), f);
        let f: usize = module.add_function("WriteLine(string)".to_string(), LLVMType::Void, string);
        fx_insert(&mut fs, "WriteLine(string)".to_string(), f);
        let f: usize = module.add_function("memory_alloc".to_string(), LLVMType::Int8Ptr, size);
        fx_insert(&mut fs, "memory_alloc".to_string(), f);
        let r = JITCompiler {
            image,
            module,
            types: TypeTable::new(),
            insert_block: 0,
            generating: None,
            generated: fx_new(),
            basic_blocks: fx_new(),
            phi_stack: fx_new(),
            env: Environment::new(),
            compile_queue: VecDeque::new(),
            builtin_functions: fs,
        };
        assert(r@ =~= Jit::initial(*image));
        proof {
            lemma_module_fits(r.module);
        }
        r
    }

    /// Compiles the method that the program starts with, and all methods that it
    /// may call. Returns its function.
    #[verifier::rlimit(50)]
    pub fn generate_main(&mut self, method: &MethodBody) -> (r: CResult<FunctionRef>)
        requires
            old(self)@.wf(),
        ensures
            match r {
                Ok(f) => old(self)@.generate_main(*method) == Some((final(self)@, f))
                    && final(self)@.wf() && final(self)@.module.fits(),
                Err(e) => old(self)@.generate_main(*method) is None && e == Error::CouldntCompile,
            },
    {
        self.forget_blocks();
        let params: Vec<LLVMType> = Vec::new();
        assert(params@ =~= seq![]);
        let ghost before = self@;
        let function: usize = self.module.add_function(
            "yacht-Main".to_string(),
            LLVMType::Void,
            params,
        );
        assert(self@ =~= before.add_function("yacht-Main"@, LLVMType::Void, seq![]).0);
        assert(self@.wf());
        let entry: usize = self.begin_function(function);
        if let Err(e) = self.compile_body(function, entry, method) {
            return Err(e);
        }
        if let Err(e) = self.generate_queued() {
            return Err(e);
        }
        proof {
            lemma_module_fits(self.module);
        }
        Ok(function)
    }

    /// The function that the engine provides under this name, if there is one.
    pub fn builtin_function(&self, name: &str) -> (r: Option<FunctionRef>)
        ensures
            r == (if self@.builtins.contains_key(name@) {
                Some(self@.builtins[name@])
            } else {
                None
            }),
    {
        match fx_get(&self.builtin_functions, &name.to_string()) {
            Some(f) => Some(*f),
            None => None,
        }
    }

    /// The module.
    pub fn module(&self) -> (r: &Module)
        ensures
            r@ == self@.module,
    {
        &self.module
    }

    /// The structures of the module.
    pub fn types(&self) -> (r: &TypeTable)
        ensures
            r@ == self@.types,
    {
        &self.types
    }
}

/// What a [`Module`] holds can be counted by a `usize`.
proof fn lemma_module_fits(module: Module)
    ensures
        module@.fits(),
{
    assert(module.functions.len() == module@.functions.len());
    assert(module.blocks.len() == module@.blocks.len());
    assert(module.insts.len() == module@.insts.len());
    assert(module.strings.len() == module@.strings.len());
}

/// What has an LLVM type.
pub trait CastIntoLLVMType {
    /// The LLVM type, and what becomes of the compiler's state when it is asked
    /// for. `None`, if there is none.
    spec fn llvmty_spec(&self, j: Jit) -> Option<(Jit, LLVMType)>;

    /// The LLVM type.
    fn to_llvmty<'a>(&self, compiler: &mut JITCompiler<'a>) -> (r: CResult<LLVMType>)
        ensures
            match r {
                Ok(lty) => self.llvmty_spec(old(compiler)@) == Some((final(compiler)@, lty)),
                Err(e) => self.llvmty_spec(old(compiler)@) is None && e == Error::CouldntCompile,
            },
    ;
}

impl CastIntoLLVMType for Type {
    open spec fn llvmty_spec(&self, j: Jit) -> Option<(Jit, LLVMType)> {
        j.lower(*self)
    }

    fn to_llvmty<'a>(&self, compiler: &mut JITCompiler<'a>) -> (r: CResult<LLVMType>) {
        compiler.lower(self)
    }
}

/// Where some blocks cannot be compiled, not all can.
proof fn lemma_failed_blocks(j: Jit, blocks: Seq<Block>, i: nat, n: nat)
    requires
        j.compile_blocks(blocks, i) is None,
        i <= n,
    ensures
        j.compile_blocks(blocks, n) is None,
    decreases n - i,
{
    if i < n {
        lemma_failed_blocks(j, blocks, i + 1, n);
    }
}

/// Where some local variables cannot be allocated, not all can.
proof fn lemma_failed_locals(j: Jit, tys: Seq<Type>, i: nat, n: nat)
    requires
        j.declare_locals(tys, i) is None,
        i <= n,
    ensures
        j.declare_locals(tys, n) is None,
    decreases n - i,
{
    if i < n {
        lemma_failed_locals(j, tys, i + 1, n);
    }
}

/// Where some arguments cannot be allocated, not all can.
proof fn lemma_failed_params(
    j: Jit,
    function: FunctionRef,
    shift: nat,
    tys: Seq<Type>,
    i: nat,
    n: nat,
)
    requires
        j.declare_params(function, shift, tys, i) is None,
        i <= n,
    ensures
        j.declare_params(function, shift, tys, n) is None,
    decreases n - i,
{
    if i < n {
        lemma_failed_params(j, function, shift, tys, i + 1, n);
    }
}

/// The index of the first block that starts there.
fn find_block_index(blocks: &Vec<BasicBlock>, start: usize) -> (r: Option<usize>)
    ensures
        match r {
            Some(i) => i < blocks@.len() && find_block(block_views(blocks@), start) == Some(
                i as int,
            ),
            None => find_block(block_views(blocks@), start) is None,
        },
{
    let ghost all = block_views(blocks@);
    let mut i: usize = 0;
    while i < blocks.len()
        invariant
            i <= blocks.len(),
            all == block_views(blocks@),
            forall|j: int| 0 <= j < i ==> (#[trigger] all[j]).start != start,
        decreases blocks.len() - i,
    {
        if blocks[i].start == start {
            assert(is_block(all, start, i as int));
            return Some(i);
        }
        assert(all[i as int].start != start);
        i = i + 1;
    }
    None
}

/// Where some blocks that a block leads to cannot be compiled, not all can.
proof fn lemma_failed_destinations(
    j: Jit,
    blocks: Seq<Block>,
    destinations: Seq<usize>,
    stack: Seq<TypedValue>,
    i: nat,
    n: nat,
)
    requires
        j.compile_destinations(blocks, destinations, stack, i) is None,
        i <= n,
    ensures
        j.compile_destinations(blocks, destinations, stack, n) is None,
    decreases n - i,
{
    reveal(Jit::compile_block);
    reveal(Jit::compile_destinations);
    if i < n {
        lemma_failed_destinations(j, blocks, destinations, stack, i + 1, n);
    }
}

/// Where some values cannot be added to the phis, not all can.
proof fn lemma_failed_phis(
    j: Jit,
    stack: Seq<TypedValue>,
    base: nat,
    phi: PhiSpec,
    i: nat,
    n: nat,
)
    requires
        j.add_phis(stack, base, phi, i) is None,
        i <= n,
    ensures
        j.add_phis(stack, base, phi, n) is None,
    decreases n - i,
{
    if i < n {
        lemma_failed_phis(j, stack, base, phi, i + 1, n);
    }
}

/// Where the values from some blocks cannot be added to the phis, not all can.
proof fn lemma_failed_more_phis(
    j: Jit,
    stack: Seq<TypedValue>,
    base: nat,
    phis: Seq<PhiSpec>,
    i: nat,
    n: nat,
)
    requires
        j.more_phis(stack, base, phis, i) is None,
        i <= n,
    ensures
        j.more_phis(stack, base, phis, n) is None,
    decreases n - i,
{
    if i < n {
        lemma_failed_more_phis(j, stack, base, phis, i + 1, n);
    }
}

/// Where the first instructions of a block cannot be compiled, the block cannot.
proof fn lemma_failed_bytecode(j: Jit, stack: Seq<TypedValue>, block: Block, i: nat, n: nat)
    requires
        j.compile_bytecode(stack, block, i) is None,
        i <= n,
    ensures
        j.compile_bytecode(stack, block, n) is None,
    decreases n - i,
{
    if i < n {
        lemma_failed_bytecode(j, stack, block, i + 1, n);
    }
}

/// Takes the `n` topmost values off the stack.
fn drain_top(stack: &mut Vec<TypedValue>, n: usize) -> (r: Vec<ValueRef>)
    requires
        n <= old(stack).len(),
    ensures
        final(stack)@ == below(old(stack)@, n as int),
        r@ == top_vals(old(stack)@, n as int),
{
    let at: usize = stack.len() - n;
    let top = stack.split_off(at);
    let mut r: Vec<ValueRef> = Vec::new();
    let mut i: usize = 0;
    while i < top.len()
        invariant
            i <= top.len(),
            r@ == vals(top@).take(i as int),
        decreases top.len() - i,
    {
        r.push(top[i].val);
        assert(vals(top@).take(i + 1) =~= vals(top@).take(i as int).push(top@[i as int].val));
        i = i + 1;
    }
    assert(vals(top@).take(i as int) =~= vals(top@));
    r
}

/// Takes the two topmost values off the stack, the lower one first.
fn pop_two(stack: &mut Vec<TypedValue>) -> (r: (TypedValue, TypedValue))
    requires
        old(stack).len() >= 2,
    ensures
        final(stack)@ == below(old(stack)@, 2),
        r.0 == old(stack)@[old(stack)@.len() - 2],
        r.1 == old(stack)@[old(stack)@.len() - 1],
{
    let n: usize = stack.len();
    let val1 = stack[n - 2];
    let val2 = stack[n - 1];
    stack.truncate(n - 2);
    (val1, val2)
}

} // verus!
