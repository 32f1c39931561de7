//! Compiled code and the interpreter, compared instruction by instruction.
//!
//! The instructions of a module have a meaning here, as far as it takes to
//! compare: constants, variables, objects and their fields, arithmetic,
//! comparisons and the functions that the engine provides.
//!
//! An instruction that the interpreter executes without a fault does the same when
//! it is compiled, if it neither branches, nor returns, nor calls a method of the
//! assembly; so do several such instructions in a row. The branch
//! [`Instruction::Bge`] leads to the same place. Calls of methods of the assembly,
//! returns and whole programs are not compared.
use vstd::prelude::*;

use crate::exec::instruction::Instruction;
use crate::exec::interpret::{Event, Line, Machine, Value, instr_step, step_spec};
use crate::exec::jit::cfg::{Block, Exit};
use crate::exec::jit::growth::{
    lemma_compile_bytecode, lemma_compile_instr, lemma_get_basic_block,
};
use crate::exec::jit::module::{
    BinaryOp, BlockRef, FunctionRef, LLVMType, ModuleSpec, Op, Predicate, ValueRef,
};
use crate::exec::jit::sound::{lemma_emit, lemma_grows_keeps};
use crate::exec::jit::state::{Jit, TypedValue};
use crate::exec::text::utf16_lossy;
use crate::metadata::image::{ExternalCall, Image, Table};

verus! {

/// A value while the program runs.
pub enum RtValue {
    Int(i32),
    /// A string of the module, by its number.
    Text(int),
    /// A variable, by the number of the instruction that allocates it.
    Variable(int),
    /// No object.
    Null,
    /// An object, by its number.
    Object(int),
    /// A field of an object.
    Field { object: int, index: int },
}

/// A function while it runs.
#[verifier::ext_equal]
pub struct Frame {
    /// The results of instructions, by their numbers.
    pub regs: Map<int, RtValue>,
    /// What the variables hold.
    pub vars: Map<int, RtValue>,
    /// What the fields hold, by the number of the object and their own.
    pub heap: Map<(int, int), RtValue>,
    /// How many objects have been made.
    pub objects: int,
    /// What the function has been called with.
    pub params: Seq<RtValue>,
    /// What has been written.
    pub out: Seq<Line>,
}

impl Frame {
    /// The value that `v` refers to, if it is one of those that have a meaning
    /// here.
    pub open spec fn value_of(self, v: ValueRef) -> Option<RtValue> {
        match v {
            ValueRef::Inst(id) => if self.regs.contains_key(id as int) {
                Some(self.regs[id as int])
            } else {
                None
            },
            ValueRef::Param { index, .. } => if index < self.params.len() {
                Some(self.params[index as int])
            } else {
                None
            },
            ValueRef::Int32(n) => Some(RtValue::Int(n)),
            ValueRef::Text(i) => Some(RtValue::Text(i as int)),
            ValueRef::Null(LLVMType::Int8) | ValueRef::Null(LLVMType::Int32) => Some(
                RtValue::Int(0),
            ),
            ValueRef::Null(LLVMType::Int8Ptr) | ValueRef::Null(LLVMType::StructPtr(_)) => Some(
                RtValue::Null,
            ),
            _ => None,
        }
    }

    /// The frame with the result of an instruction.
    pub open spec fn set(self, id: int, v: RtValue) -> Frame {
        Frame { regs: self.regs.insert(id, v), ..self }
    }

    /// The frame with one more line written.
    pub open spec fn write(self, line: Line) -> Frame {
        Frame { out: self.out.push(line), ..self }
    }
}

/// The remainder of a division that rounds towards zero: it has the sign of `x`.
pub open spec fn remainder(x: int, y: int) -> int {
    let a = if x < 0 {
        -x
    } else {
        x
    };
    let b = if y < 0 {
        -y
    } else {
        y
    };
    if x < 0 {
        -(a % b)
    } else {
        a % b
    }
}

/// The result of an operation. It wraps around. A remainder has a meaning only
/// where the division has.
pub open spec fn binary(op: BinaryOp, x: i32, y: i32) -> Option<i32> {
    match op {
        BinaryOp::Add => Some((x + y) as i32),
        BinaryOp::Sub => Some((x - y) as i32),
        BinaryOp::Mul => Some((x * y) as i32),
        BinaryOp::SRem => if y == 0 || (x == i32::MIN && y == -1) {
            None
        } else {
            Some(remainder(x as int, y as int) as i32)
        },
    }
}

/// Whether a comparison holds.
pub open spec fn compares(pred: Predicate, x: i32, y: i32) -> bool {
    match pred {
        Predicate::Equal => x == y,
        Predicate::NotEqual => x != y,
        Predicate::SignedGreaterEqual => x >= y,
        Predicate::SignedGreater => x > y,
        Predicate::SignedLessEqual => x <= y,
        Predicate::SignedLess => x < y,
    }
}

/// Whether a comparison of a value with the null value of its type holds.
pub open spec fn compares_null(pred: Predicate, v: RtValue) -> Option<bool> {
    match (v, pred) {
        (RtValue::Int(x), _) => Some(compares(pred, x, 0)),
        (RtValue::Null, Predicate::Equal) => Some(true),
        (RtValue::Null, Predicate::NotEqual) => Some(false),
        (RtValue::Object(_), Predicate::Equal) | (RtValue::Text(_), Predicate::Equal) => Some(
            false,
        ),
        (RtValue::Object(_), Predicate::NotEqual) | (RtValue::Text(_), Predicate::NotEqual) => Some(
            true,
        ),
        _ => None,
    }
}

/// The value of a condition.
pub open spec fn truth(b: bool) -> RtValue {
    RtValue::Int(
        if b {
            1
        } else {
            0
        },
    )
}

/// What a call does: it writes a line, if it is a call of one of the functions
/// that the engine provides for that.
pub open spec fn exec_call(
    module: ModuleSpec,
    builtins: Map<Seq<char>, FunctionRef>,
    f: Frame,
    callee: FunctionRef,
    args: Seq<ValueRef>,
) -> Option<Frame> {
    if args.len() != 1 {
        None
    } else {
        match f.value_of(args[0]) {
            Some(RtValue::Int(n)) if callee == builtins["WriteLine(int)"@] => Some(
                f.write(Line::Int(n)),
            ),
            Some(RtValue::Text(i)) if callee == builtins["WriteLine(string)"@] && 0 <= i
                < module.strings.len() => Some(f.write(Line::Text(module.strings[i]))),
            _ => None,
        }
    }
}

/// What the instruction `id` does.
pub open spec fn exec_inst(
    module: ModuleSpec,
    builtins: Map<Seq<char>, FunctionRef>,
    f: Frame,
    id: int,
) -> Option<Frame> {
    match module.insts[id].op {
        Op::Alloca { .. } => Some(f.set(id, RtValue::Variable(id))),
        Op::Load { ptr } => match f.value_of(ptr) {
            Some(RtValue::Variable(a)) if f.vars.contains_key(a) => Some(f.set(id, f.vars[a])),
            Some(RtValue::Field { object, index }) if f.heap.contains_key((object, index)) => Some(
                f.set(id, f.heap[(object, index)]),
            ),
            _ => None,
        },
        Op::Store { val, ptr } => match (f.value_of(val), f.value_of(ptr)) {
            (Some(v), Some(RtValue::Variable(a))) => Some(Frame { vars: f.vars.insert(a, v), ..f }),
            (Some(v), Some(RtValue::Field { object, index })) => Some(
                Frame { heap: f.heap.insert((object, index), v), ..f },
            ),
            _ => None,
        },
        Op::Field { obj, index } => match f.value_of(obj) {
            Some(RtValue::Object(object)) => Some(
                f.set(id, RtValue::Field { object, index: index as int }),
            ),
            _ => None,
        },
        Op::Cast { val, .. } => match f.value_of(val) {
            Some(v) => Some(f.set(id, v)),
            None => None,
        },
        Op::Binary { op, lhs, rhs } => match (f.value_of(lhs), f.value_of(rhs)) {
            (Some(RtValue::Int(x)), Some(RtValue::Int(y))) => match binary(op, x, y) {
                Some(n) => Some(f.set(id, RtValue::Int(n))),
                None => None,
            },
            _ => None,
        },
        Op::Compare { pred, lhs, rhs } => match (f.value_of(lhs), f.value_of(rhs)) {
            (Some(RtValue::Int(x)), Some(RtValue::Int(y))) => Some(
                f.set(id, truth(compares(pred, x, y))),
            ),
            _ => None,
        },
        Op::CompareNull { pred, val } => match f.value_of(val) {
            Some(v) => match compares_null(pred, v) {
                Some(b) => Some(f.set(id, truth(b))),
                None => None,
            },
            None => None,
        },
        Op::Call { callee, args } => match exec_call(module, builtins, f, callee, args) {
            Some(g) => Some(g),
            None => if callee == builtins["memory_alloc"@] && args.len() == 1
                && args[0] is SizeOf {
                Some(Frame { objects: f.objects + 1, ..f.set(id, RtValue::Object(f.objects)) })
            } else {
                None
            },
        },
        _ => None,
    }
}

/// What the instructions from `from` up to, not including, `to` do.
pub open spec fn exec_insts(
    module: ModuleSpec,
    builtins: Map<Seq<char>, FunctionRef>,
    f: Frame,
    from: int,
    to: int,
) -> Option<Frame>
    decreases to - from,
{
    if from >= to {
        Some(f)
    } else {
        match exec_insts(module, builtins, f, from, to - 1) {
            None => None,
            Some(g) => exec_inst(module, builtins, g, to - 1),
        }
    }
}

/// Where the terminator `id` leads.
pub open spec fn next_block(module: ModuleSpec, f: Frame, id: int) -> Option<BlockRef> {
    match module.insts[id].op {
        Op::Br { dest } => Some(dest),
        Op::CondBr { cond, if_true, if_false } => match f.value_of(cond) {
            Some(RtValue::Int(n)) => Some(
                if n != 0 {
                    if_true
                } else {
                    if_false
                },
            ),
            _ => None,
        },
        _ => None,
    }
}

/// Whether a value of compiled code and one of the interpreter are the same: the
/// same integer, or a literal and its text.
pub open spec fn same_value(image: Image, module: ModuleSpec, rt: RtValue, v: Value) -> bool {
    match (rt, v) {
        (RtValue::Int(a), Value::Int32(b)) => a == b,
        (RtValue::Text(i), Value::String(offset)) => {
            &&& 0 <= i < module.strings.len()
            &&& image.user_strings@.contains_key(offset)
            &&& module.strings[i] == utf16_lossy(image.user_strings@[offset]@)
        },
        _ => false,
    }
}

/// Whether a value on the compiler's stack is, in the frame, the same as one of
/// the interpreter.
pub open spec fn same_at(j: Jit, f: Frame, tv: TypedValue, v: Value) -> bool {
    f.value_of(tv.val) matches Some(rt) && same_value(j.image, j.module, rt, v)
}

/// Whether a variable holds, in the frame, the same as a value of the interpreter.
pub open spec fn same_variable(j: Jit, f: Frame, tv: TypedValue, v: Value) -> bool {
    f.value_of(tv.val) matches Some(RtValue::Variable(a)) && f.vars.contains_key(a)
        && same_value(j.image, j.module, f.vars[a], v)
}

/// Whether compiled code and the interpreter are at the same point: with the
/// same values on the stack, and the same arguments.
pub open spec fn same_point(
    j: Jit,
    stack: Seq<TypedValue>,
    f: Frame,
    arguments: Seq<Value>,
    m: Machine,
) -> bool {
    &&& m.wf()
    &&& m.sp == stack.len()
    &&& forall|i: int|
        0 <= i < stack.len() ==> same_at(j, f, #[trigger] stack[i], m.slots[m.base + i])
    &&& forall|id: usize| #[trigger]
        j.arguments.contains_key(id) && id < arguments.len() ==> same_variable(
            j,
            f,
            j.arguments[id],
            arguments[id as int],
        )
}

/// Whether the instruction is one that the interpreter executes and that passes
/// control to the instruction that follows.
pub open spec fn is_plain(instr: Instruction) -> bool {
    match instr {
        Instruction::Ldstr { .. }
        | Instruction::Ldc_I4_0
        | Instruction::Ldc_I4_1
        | Instruction::Ldc_I4_S { .. }
        | Instruction::Ldarg_0
        | Instruction::Ldarg_1
        | Instruction::Pop
        | Instruction::Add
        | Instruction::Call { .. } => true,
        _ => false,
    }
}

/// The lines written after an event.
pub open spec fn written(out: Seq<Line>, event: Event) -> Seq<Line> {
    match event {
        Event::Write(line) => out.push(line),
        _ => out,
    }
}

/// What has been computed stays the same when the module grows.
proof fn lemma_exec_stays(
    m: ModuleSpec,
    later: ModuleSpec,
    builtins: Map<Seq<char>, FunctionRef>,
    f: Frame,
    from: int,
    to: int,
)
    requires
        m.extends_to(later),
        0 <= from,
        to <= m.insts.len(),
        exec_insts(m, builtins, f, from, to) is Some,
    ensures
        exec_insts(later, builtins, f, from, to) == exec_insts(m, builtins, f, from, to),
    decreases to - from,
{
    if from < to {
        lemma_exec_stays(m, later, builtins, f, from, to - 1);
        assert(later.insts[to - 1] == m.insts[to - 1]);
        let g = exec_insts(m, builtins, f, from, to - 1).unwrap();
        if let Op::Call { callee, args } = m.insts[to - 1].op {
            if let Some(RtValue::Text(i)) = g.value_of(args[0]) {
                if 0 <= i < m.strings.len() {
                    assert(later.strings[i] == m.strings[i]);
                }
            }
        }
    }
}

/// What is executed in two parts is executed.
proof fn lemma_exec_joins(
    m: ModuleSpec,
    builtins: Map<Seq<char>, FunctionRef>,
    f: Frame,
    from: int,
    mid: int,
    to: int,
)
    requires
        from <= mid <= to,
        exec_insts(m, builtins, f, from, mid) is Some,
    ensures
        exec_insts(m, builtins, f, from, to) == exec_insts(
            m,
            builtins,
            exec_insts(m, builtins, f, from, mid).unwrap(),
            mid,
            to,
        ),
    decreases to - mid,
{
    if mid < to {
        lemma_exec_joins(m, builtins, f, from, mid, to - 1);
    }
}

/// Whether `g` has the results that the first `n` instructions have in `f`.
spec fn keeps_results(f: Frame, g: Frame, n: nat) -> bool {
    forall|id: int|
        0 <= id < n && #[trigger] f.regs.contains_key(id) ==> g.regs.contains_key(id)
            && g.regs[id] == f.regs[id]
}

/// The same point stays the same when the module grows, an instruction gets its
/// result and lines are written, and other values are on the stack.
proof fn lemma_point_moves(
    j: Jit,
    stack: Seq<TypedValue>,
    f: Frame,
    arguments: Seq<Value>,
    m: Machine,
    k: Jit,
    stack2: Seq<TypedValue>,
    g: Frame,
    m2: Machine,
)
    requires
        j.steady(stack),
        same_point(j, stack, f, arguments, m),
        k.image == j.image,
        k.arguments == j.arguments,
        j.module.extends_to(k.module),
        g.vars == f.vars,
        g.params == f.params,
        keeps_results(f, g, j.module.insts.len()),
        m2.wf(),
        m2.sp == stack2.len(),
        forall|i: int|
            0 <= i < stack2.len() ==> ((i < stack.len() && (#[trigger] stack2[i]) == stack[i]
                && m2.slots[m2.base + i] == m.slots[m.base + i]) || same_at(
                k,
                g,
                stack2[i],
                m2.slots[m2.base + i],
            )),
    ensures
        same_point(k, stack2, g, arguments, m2),
{
    assert forall|i: int| 0 <= i < stack2.len() implies same_at(
        k,
        g,
        #[trigger] stack2[i],
        m2.slots[m2.base + i],
    ) by {
        if i < stack.len() && stack2[i] == stack[i] && m2.slots[m2.base + i] == m.slots[m.base
            + i] {
            assert(same_at(j, f, stack[i], m.slots[m.base + i]));
            assert(j.module.has_value(stack[i].val));
            lemma_value_stays(j, f, g, stack[i]);
            lemma_same_value_stays(
                j,
                k,
                f.value_of(stack[i].val).unwrap(),
                m.slots[m.base + i],
            );
        }
    }
    assert forall|id: usize| #[trigger]
        k.arguments.contains_key(id) && id < arguments.len() implies same_variable(
        k,
        g,
        k.arguments[id],
        arguments[id as int],
    ) by {
        assert(same_variable(j, f, j.arguments[id], arguments[id as int]));
        assert(j.module.has_value(j.arguments[id].val));
        lemma_value_stays(j, f, g, j.arguments[id]);
        if let Some(RtValue::Variable(a)) = f.value_of(j.arguments[id].val) {
            lemma_same_value_stays(j, k, f.vars[a], arguments[id as int]);
        }
    }
}

proof fn lemma_value_stays(j: Jit, f: Frame, g: Frame, tv: TypedValue)
    requires
        j.module.has_value(tv.val),
        f.value_of(tv.val) is Some,
        g.params == f.params,
        keeps_results(f, g, j.module.insts.len()),
    ensures
        g.value_of(tv.val) == f.value_of(tv.val),
{
    if let ValueRef::Inst(id) = tv.val {
        assert(f.regs.contains_key(id as int));
    }
}

proof fn lemma_same_value_stays(j: Jit, k: Jit, rt: RtValue, v: Value)
    requires
        k.image == j.image,
        j.module.extends_to(k.module),
        same_value(j.image, j.module, rt, v),
    ensures
        same_value(k.image, k.module, rt, v),
{
    if let RtValue::Text(i) = rt {
        assert(k.module.strings[i] == j.module.strings[i]);
    }
}

/// An instruction does, when it is compiled, what it does when it is
/// interpreted: from the same point both get to the same point, and write the
/// same lines.
pub proof fn law_instruction_agrees(
    j: Jit,
    stack: Seq<TypedValue>,
    instr: Instruction,
    exit: Exit,
    f: Frame,
    arguments: Seq<Value>,
    m: Machine,
)
    requires
        j.steady(stack),
        same_point(j, stack, f, arguments, m),
        is_plain(instr),
        instr_step(j.image, instr, arguments, m) matches Ok((_, event)) && !(event is Enter),
        j.compile_instr(stack, instr, exit) matches Some((k, _)) && k.module.fits(),
    ensures
        ({
            let (m2, event) = instr_step(j.image, instr, arguments, m)->Ok_0;
            let (k, stack2) = j.compile_instr(stack, instr, exit).unwrap();
            let from = j.module.insts.len() as int;
            let to = k.module.insts.len() as int;
            &&& exec_insts(k.module, k.builtins, f, from, to) matches Some(g)
            &&& same_point(k, stack2, g, arguments, m2)
            &&& g.out == written(f.out, event)
        }),
{
    reveal(Jit::compile_instr);
    reveal_with_fuel(exec_insts, 2);
    let (m2, event) = instr_step(j.image, instr, arguments, m)->Ok_0;
    let (k, stack2) = j.compile_instr(stack, instr, exit).unwrap();
    let from = j.module.insts.len() as int;
    lemma_compile_instr(j, stack, instr, exit);
    lemma_grows_keeps(j, k);
    match instr {
        Instruction::Ldstr { .. }
        | Instruction::Ldc_I4_0
        | Instruction::Ldc_I4_1
        | Instruction::Ldc_I4_S { .. } => {
            lemma_point_moves(j, stack, f, arguments, m, k, stack2, f, m2);
        },
        Instruction::Ldarg_0 | Instruction::Ldarg_1 => {
            let id: usize = if instr is Ldarg_0 {
                0
            } else {
                1
            };
            assert(same_variable(j, f, j.arguments[id], arguments[id as int]));
            let a = f.value_of(j.arguments[id].val).unwrap()->Variable_0;
            let g = f.set(from, f.vars[a]);
            lemma_same_value_stays(j, k, f.vars[a], arguments[id as int]);
            assert(same_at(k, g, stack2.last(), arguments[id as int]));
            lemma_point_moves(j, stack, f, arguments, m, k, stack2, g, m2);
        },
        Instruction::Pop => {
            lemma_point_moves(j, stack, f, arguments, m, k, stack2, f, m2);
        },
        Instruction::Add => {
            let n = stack.len();
            assert(same_at(j, f, stack[n - 2], m.slots[m.base + (n - 2)]));
            assert(same_at(j, f, stack[n - 1], m.slots[m.base + (n - 1)]));
            let x = m.peek(1)->Int32_0;
            let y = m.peek(0)->Int32_0;
            let g = f.set(from, RtValue::Int((x + y) as i32));
            lemma_point_moves(j, stack, f, arguments, m, k, stack2, g, m2);
        },
        Instruction::Call { table, entry } => {
            lemma_call_agrees(j, stack, table, entry, f, arguments, m);
        },
        _ => {},
    }
}

/// [`law_instruction_agrees`] for calls of methods of other assemblies.
proof fn lemma_call_agrees(
    j: Jit,
    stack: Seq<TypedValue>,
    table: usize,
    entry: usize,
    f: Frame,
    arguments: Seq<Value>,
    m: Machine,
)
    requires
        j.steady(stack),
        same_point(j, stack, f, arguments, m),
        instr_step(j.image, Instruction::Call { table, entry }, arguments, m) matches Ok((_, event))
            && !(event is Enter),
        j.gen_instr_call(stack, table, entry) matches Some((k, _)) && k.module.fits(),
        j.module.extends_to(j.gen_instr_call(stack, table, entry).unwrap().0.module),
    ensures
        ({
            let (m2, event) = instr_step(
                j.image,
                Instruction::Call { table, entry },
                arguments,
                m,
            )->Ok_0;
            let (k, stack2) = j.gen_instr_call(stack, table, entry).unwrap();
            let from = j.module.insts.len() as int;
            let to = k.module.insts.len() as int;
            &&& exec_insts(k.module, k.builtins, f, from, to) matches Some(g)
            &&& same_point(k, stack2, g, arguments, m2)
            &&& g.out == written(f.out, event)
        }),
{
    reveal_with_fuel(exec_insts, 2);
    let call = Instruction::Call { table, entry };
    let (m2, event) = instr_step(j.image, call, arguments, m)->Ok_0;
    let (k, stack2) = j.gen_instr_call(stack, table, entry).unwrap();
    let from = j.module.insts.len() as int;
    let to = k.module.insts.len() as int;
    if let Some(Table::MemberRef(mrt)) = j.image.row_spec(table, entry) {
        let external = j.image.external_call_spec(mrt)->Ok_0;
        match external {
            ExternalCall::Ignored => {
                lemma_point_moves(j, stack, f, arguments, m, k, stack2, f, m2);
            },
            ExternalCall::WriteNothing => {
                lemma_point_moves(j, stack, f, arguments, m, k, stack2, f, m2);
            },
            _ => {
                let n = stack.len();
                assert(same_at(j, f, stack[n - 1], m.slots[m.base + (n - 1)]));
                lemma_same_value_stays(
                    j,
                    k,
                    f.value_of(stack[n - 1].val).unwrap(),
                    m.slots[m.base + (n - 1)],
                );
                let g = f.write(event->Write_0);
                assert(to == from + 1);
                assert(exec_inst(k.module, k.builtins, f, from) == Some(g));
                lemma_point_moves(j, stack, f, arguments, m, k, stack2, g, m2);
            },
        }
    }
}

/// What `n` plain instructions do when they are interpreted one after the other,
/// from the state `m`, and the lines written then. `None`, if it does not come
/// to that.
pub open spec fn plain_run(
    image: Image,
    code: Seq<Instruction>,
    arguments: Seq<Value>,
    m: Machine,
    out: Seq<Line>,
    n: nat,
) -> Option<(Machine, Seq<Line>)>
    decreases n,
{
    if n == 0 {
        Some((m, out))
    } else {
        match plain_run(image, code, arguments, m, out, (n - 1) as nat) {
            None => None,
            Some((m1, out1)) => if m1.pc < code.len() && is_plain(code[m1.pc as int]) {
                match step_spec(image, code, arguments, m1) {
                    Ok((m2, event)) => if event is Enter {
                        None
                    } else {
                        Some((m2, written(out1, event)))
                    },
                    Err(_) => None,
                }
            } else {
                None
            },
        }
    }
}

/// Plain instructions are executed in order.
proof fn lemma_plain_run_moves_on(
    image: Image,
    code: Seq<Instruction>,
    arguments: Seq<Value>,
    m: Machine,
    out: Seq<Line>,
    n: nat,
)
    requires
        code.len() <= usize::MAX,
    ensures
        plain_run(image, code, arguments, m, out, n) matches Some((m2, _)) ==> m2.pc == m.pc + n,
    decreases n,
{
    if n > 0 {
        lemma_plain_run_moves_on(image, code, arguments, m, out, (n - 1) as nat);
    }
}

/// The plain instructions at the beginning of a block do, when they are
/// compiled, what they do when they are interpreted: from the same point both
/// get to the same point, and write the same lines.
pub proof fn law_block_agrees(
    j: Jit,
    stack: Seq<TypedValue>,
    code: Seq<Instruction>,
    block: Block,
    n: nat,
    f: Frame,
    arguments: Seq<Value>,
    m: Machine,
)
    requires
        j.steady(stack),
        same_point(j, stack, f, arguments, m),
        code.len() <= usize::MAX,
        n <= block.code.len(),
        block.end() <= code.len(),
        block.code == code.subrange(block.start as int, block.end()),
        m.pc == block.start,
        plain_run(j.image, code, arguments, m, f.out, n) is Some,
        j.compile_bytecode(stack, block, n) matches Some((k, _)) && k.module.fits(),
    ensures
        ({
            let (m2, out) = plain_run(j.image, code, arguments, m, f.out, n).unwrap();
            let (k, stack2) = j.compile_bytecode(stack, block, n).unwrap();
            let from = j.module.insts.len() as int;
            let to = k.module.insts.len() as int;
            &&& exec_insts(k.module, k.builtins, f, from, to) matches Some(g)
            &&& same_point(k, stack2, g, arguments, m2)
            &&& g.out == out
            &&& m2.pc == block.start + n
        }),
    decreases n,
{
    if n > 0 {
        let before = (n - 1) as nat;
        lemma_plain_run_moves_on(j.image, code, arguments, m, f.out, before);
        lemma_plain_run_moves_on(j.image, code, arguments, m, f.out, n);
        lemma_compile_bytecode(j, stack, block, before);
        let (a, part) = j.compile_bytecode(stack, block, before).unwrap();
        let instr = block.code[n - 1];
        lemma_compile_instr(a, part, instr, block.exit);
        let (k, stack2) = a.compile_instr(part, instr, block.exit).unwrap();
        lemma_grows_keeps(j, a);
        lemma_grows_keeps(a, k);
        law_block_agrees(j, stack, code, block, before, f, arguments, m);
        let from = j.module.insts.len() as int;
        let mid = a.module.insts.len() as int;
        let to = k.module.insts.len() as int;
        let (m1, out1) = plain_run(j.image, code, arguments, m, f.out, before).unwrap();
        assert(code[m1.pc as int] == instr);
        let g = exec_insts(a.module, a.builtins, f, from, mid).unwrap();
        law_instruction_agrees(a, part, instr, block.exit, g, arguments, m1);
        lemma_exec_stays(a.module, k.module, k.builtins, f, from, mid);
        lemma_exec_joins(k.module, k.builtins, f, from, mid, to);
    }
}

/// A branch that compares two values leads, when it is compiled, to the block of
/// the position to which it leads when it is interpreted, with the same values
/// on the stack.
#[verifier::rlimit(40)]
pub proof fn law_branch_agrees(
    j: Jit,
    stack: Seq<TypedValue>,
    target: usize,
    f: Frame,
    arguments: Seq<Value>,
    m: Machine,
)
    requires
        j.steady(stack),
        same_point(j, stack, f, arguments, m),
        m.pc < usize::MAX,
        instr_step(j.image, Instruction::Bge { target }, arguments, m) is Ok,
        j.compile_instr(
            stack,
            Instruction::Bge { target },
            Exit::Conditional { destinations: seq![target, (m.pc + 1) as usize] },
        ) matches Some((k, _)) && k.module.fits(),
    ensures
        ({
            let exit = Exit::Conditional { destinations: seq![target, (m.pc + 1) as usize] };
            let (m2, event) = instr_step(
                j.image,
                Instruction::Bge { target },
                arguments,
                m,
            )->Ok_0;
            let (k, stack2) = j.compile_instr(stack, Instruction::Bge { target }, exit).unwrap();
            let from = j.module.insts.len() as int;
            let to = k.module.insts.len() as int;
            &&& event is Continue
            &&& exec_insts(k.module, k.builtins, f, from, to - 1) matches Some(g)
            &&& same_point(k, stack2, g, arguments, m2)
            &&& g.out == f.out
            &&& k.basic_blocks.contains_key(m2.pc)
            &&& next_block(k.module, g, to - 1) == Some(k.basic_blocks[m2.pc].block())
        }),
{
    reveal(Jit::compile_instr);
    reveal_with_fuel(exec_insts, 2);
    let exit = Exit::Conditional { destinations: seq![target, (m.pc + 1) as usize] };
    let instr = Instruction::Bge { target };
    let (m2, event) = instr_step(j.image, instr, arguments, m)->Ok_0;
    let (k, stack2) = j.compile_instr(stack, instr, exit).unwrap();
    lemma_compile_instr(j, stack, instr, exit);
    lemma_grows_keeps(j, k);
    let n = stack.len();
    let from = j.module.insts.len() as int;
    assert(same_at(j, f, stack[n - 2], m.slots[m.base + (n - 2)]));
    assert(same_at(j, f, stack[n - 1], m.slots[m.base + (n - 1)]));
    let x = m.peek(1)->Int32_0;
    let y = m.peek(0)->Int32_0;
    let cond = Op::<Seq<ValueRef>>::Compare {
        pred: Predicate::SignedGreaterEqual,
        lhs: stack[n - 2].val,
        rhs: stack[n - 1].val,
    };
    assert(j.gen_cond_br(cond, exit) == Some(k));
    lemma_emit(j, stack, cond);
    let (a, val) = j.emit(cond);
    lemma_get_basic_block(a, stack, target);
    let (b, first) = a.get_basic_block(target);
    lemma_get_basic_block(b, stack, (m.pc + 1) as usize);
    let (c, other) = b.get_basic_block((m.pc + 1) as usize);
    assert(c.basic_blocks[target] == first);
    assert(k.module.insts.len() == from + 2);
    let g = f.set(from, truth(x >= y));
    assert(exec_inst(k.module, k.builtins, f, from) == Some(g));
    lemma_point_moves(j, stack, f, arguments, m, k, stack2, g, m2);
}

} // verus!
