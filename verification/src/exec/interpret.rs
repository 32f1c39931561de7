//! The interpreter.
//!
//! [`Interpreter::step`] executes one instruction. What it cannot do by itself,
//! writing a line and running the body of a called method, it hands back as an
//! [`Action`]. [`Interpreter::interpret`] runs a method: it collects the lines
//! and runs the called methods, for a given number of steps at most.
use vstd::prelude::*;

use crate::exec::instruction::Instruction;
use crate::exec::text::{decode_utf16, utf16_lossy};
use crate::fault::Fault;
use crate::metadata::image::{ExternalCall, Image, MethodDefTable, Table};
use crate::metadata::method::MethodBody;

verus! {

/// The number of values that the evaluation stack can hold.
pub const STACK_SIZE: usize = 1024;

/// A value on the evaluation stack.
#[derive(Debug, Clone, Copy, PartialEq, Eq, Structural)]
pub enum Value {
    Int32(i32),
    /// A string literal, by its offset among the user strings.
    String(u32),
}

/// The state of an interpreter.
#[derive(Clone)]
pub struct Interpreter {
    stack: [Value; 1024],
    base_ptr: usize,
    stack_ptr: usize,
    program_counter: usize,
}

/// A line that the program writes.
#[derive(Clone, Debug)]
pub enum Output {
    Text(String),
    Int(i32),
}

/// What is left to do after a step.
#[derive(Clone, Debug)]
pub enum Action {
    /// Nothing: the next step can be made.
    Continue,
    /// Nothing: the method has returned.
    Return,
    /// Write this line, then make the next step.
    Write(Output),
    /// Run the method body at `rva` from its first instruction with these
    /// arguments, then go on behind the call.
    Enter { rva: u32, params: Vec<Value> },
}

/// What an [`Interpreter`] stands for.
#[verifier::ext_equal]
pub struct Machine {
    /// All slots of the evaluation stack, in use or not.
    pub slots: Seq<Value>,
    /// The slot where the part of the stack in use begins.
    pub base: usize,
    /// The number of values on the stack.
    pub sp: usize,
    /// The position of the next instruction.
    pub pc: usize,
}

/// What an [`Output`] stands for.
#[verifier::ext_equal]
pub enum Line {
    Text(Seq<char>),
    Int(i32),
}

/// What an [`Action`] stands for.
#[verifier::ext_equal]
pub enum Event {
    Continue,
    Return,
    Write(Line),
    Enter { rva: u32, params: Seq<Value> },
}

impl View for Output {
    type V = Line;

    open spec fn view(&self) -> Line {
        match *self {
            Output::Text(s) => Line::Text(s@),
            Output::Int(n) => Line::Int(n),
        }
    }
}

impl View for Action {
    type V = Event;

    open spec fn view(&self) -> Event {
        match *self {
            Action::Continue => Event::Continue,
            Action::Return => Event::Return,
            Action::Write(o) => Event::Write(o@),
            Action::Enter { rva, params } => Event::Enter { rva, params: params@ },
        }
    }
}

/// What a list of lines stands for.
pub open spec fn lines(out: Seq<Output>) -> Seq<Line> {
    Seq::new(out.len(), |i: int| out[i]@)
}

impl View for Interpreter {
    type V = Machine;

    closed spec fn view(&self) -> Machine {
        Machine {
            slots: self.stack@,
            base: self.base_ptr,
            sp: self.stack_ptr,
            pc: self.program_counter,
        }
    }
}

impl Machine {
    /// Whether the values on the stack lie within its slots.
    pub open spec fn wf(self) -> bool {
        &&& self.slots.len() == STACK_SIZE
        &&& self.base + self.sp <= STACK_SIZE
    }

    /// The values on the stack, the topmost last.
    pub open spec fn values(self) -> Seq<Value> {
        self.slots.subrange(self.base as int, self.base + self.sp)
    }

    /// Whether there is room for one more value.
    pub open spec fn has_room(self) -> bool {
        self.base + self.sp < STACK_SIZE
    }

    /// The `i`-th value from the top.
    pub open spec fn peek(self, i: int) -> Value {
        self.slots[self.base + self.sp - 1 - i]
    }

    /// The machine with `v` pushed.
    pub open spec fn push(self, v: Value) -> Machine {
        Machine {
            slots: self.slots.update(self.base + self.sp, v),
            sp: (self.sp + 1) as usize,
            ..self
        }
    }

    /// The machine with the `n` topmost values dropped. Their slots keep them.
    pub open spec fn drop(self, n: int) -> Machine {
        Machine { sp: (self.sp - n) as usize, ..self }
    }

    /// The machine with another program counter.
    pub open spec fn jump(self, pc: int) -> Machine {
        Machine { pc: pc as usize, ..self }
    }

    /// The machine at the next instruction.
    pub open spec fn next(self) -> Machine {
        self.jump(self.pc + 1)
    }

    /// The slots from the `n`-th value from the top on, up to the last slot.
    pub open spec fn top_slots(self, n: int) -> Seq<Value> {
        self.slots.subrange(self.base + self.sp - n, STACK_SIZE as int)
    }
}

/// What a step does that pushes `v`.
pub open spec fn push_step(m: Machine, v: Value) -> Result<(Machine, Event), Fault> {
    if m.has_room() {
        Ok((m.push(v).next(), Event::Continue))
    } else {
        Err(Fault::StackOverflow)
    }
}

/// What a step does that pushes the `i`-th argument.
pub open spec fn ldarg_step(m: Machine, arguments: Seq<Value>, i: int) -> Result<
    (Machine, Event),
    Fault,
> {
    if i < arguments.len() {
        push_step(m, arguments[i])
    } else {
        Err(Fault::MissingArgument)
    }
}

/// What the two topmost values do in an addition.
pub open spec fn add_step(m: Machine) -> Result<(Machine, Event), Fault> {
    if m.sp < 2 {
        Err(Fault::StackUnderflow)
    } else {
        match (m.peek(1), m.peek(0)) {
            (Value::Int32(x), Value::Int32(y)) => if i32::MIN <= x + y <= i32::MAX {
                Ok((m.drop(2).push(Value::Int32((x + y) as i32)).next(), Event::Continue))
            } else {
                Err(Fault::ArithmeticOverflow)
            },
            _ => Err(Fault::TypeMismatch),
        }
    }
}

/// What a branch to `target` does that is taken if the value below the topmost
/// one is not less than the topmost one.
pub open spec fn bge_step(m: Machine, target: usize) -> Result<(Machine, Event), Fault> {
    if m.sp < 2 {
        Err(Fault::StackUnderflow)
    } else {
        match (m.peek(1), m.peek(0)) {
            (Value::Int32(x), Value::Int32(y)) => if x < y {
                Ok((m.drop(2).next(), Event::Continue))
            } else {
                Ok((m.drop(2).jump(target as int), Event::Continue))
            },
            _ => Err(Fault::TypeMismatch),
        }
    }
}

/// What a call of a method of another assembly does.
pub open spec fn external_step(image: Image, call: ExternalCall, m: Machine) -> Result<
    (Machine, Event),
    Fault,
> {
    if call is Ignored {
        Ok((m.next(), Event::Continue))
    } else if m.sp < 1 {
        Err(Fault::StackUnderflow)
    } else {
        match (call, m.peek(0)) {
            (ExternalCall::WriteText, Value::String(offset)) => {
                if image.user_strings@.contains_key(offset) {
                    let text = utf16_lossy(image.user_strings@[offset]@);
                    Ok((m.drop(1).next(), Event::Write(Line::Text(text))))
                } else {
                    Err(Fault::MissingString)
                }
            },
            (ExternalCall::WriteInt, Value::Int32(n)) => Ok(
                (m.drop(1).next(), Event::Write(Line::Int(n))),
            ),
            (ExternalCall::WriteNothing, _) => Ok((m.drop(1).next(), Event::Continue)),
            _ => Err(Fault::TypeMismatch),
        }
    }
}

/// What a call of a method of this assembly does: the machine stays at the call
/// until the method has returned.
pub open spec fn enter_step(image: Image, mdt: MethodDefTable, m: Machine) -> Result<
    (Machine, Event),
    Fault,
> {
    if !image.signatures@.contains_key(mdt.signature) {
        Err(Fault::MissingSignature)
    } else {
        let n = image.signatures@[mdt.signature].params.len();
        if m.sp < n {
            Err(Fault::StackUnderflow)
        } else if !image.methods@.contains_key(mdt.rva) {
            Err(Fault::MissingMethod)
        } else {
            Ok((m.drop(n as int), Event::Enter { rva: mdt.rva, params: m.top_slots(n as int) }))
        }
    }
}

/// What a call does.
pub open spec fn call_step(image: Image, table: usize, entry: usize, m: Machine) -> Result<
    (Machine, Event),
    Fault,
> {
    match image.row_spec(table, entry) {
        None => Err(Fault::MissingRow),
        Some(Table::MemberRef(mrt)) => match image.external_call_spec(mrt) {
            Ok(call) => external_step(image, call, m),
            Err(f) => Err(f),
        },
        Some(Table::MethodDef(mdt)) => enter_step(image, mdt, m),
        Some(_) => Err(Fault::Unimplemented),
    }
}

/// What `instr` does to the machine, and what is left to do then.
pub open spec fn instr_step(
    image: Image,
    instr: Instruction,
    arguments: Seq<Value>,
    m: Machine,
) -> Result<(Machine, Event), Fault> {
    match instr {
        Instruction::Ldstr { us_offset } => push_step(m, Value::String(us_offset)),
        Instruction::Ldc_I4_0 => push_step(m, Value::Int32(0)),
        Instruction::Ldc_I4_1 => push_step(m, Value::Int32(1)),
        Instruction::Ldc_I4_S { n } => push_step(m, Value::Int32(n)),
        Instruction::Ldarg_0 => ldarg_step(m, arguments, 0),
        Instruction::Ldarg_1 => ldarg_step(m, arguments, 1),
        Instruction::Pop => if m.sp < 1 {
            Err(Fault::StackUnderflow)
        } else {
            Ok((m.drop(1).next(), Event::Continue))
        },
        Instruction::Bge { target } => bge_step(m, target),
        Instruction::Add => add_step(m),
        Instruction::Call { table, entry } => call_step(image, table, entry, m),
        Instruction::Ret => Ok((m, Event::Return)),
        _ => Err(Fault::Unimplemented),
    }
}

/// One step of a method with this body.
pub open spec fn step_spec(
    image: Image,
    code: Seq<Instruction>,
    arguments: Seq<Value>,
    m: Machine,
) -> Result<(Machine, Event), Fault> {
    if m.pc < code.len() {
        instr_step(image, code[m.pc as int], arguments, m)
    } else {
        Err(Fault::ProgramCounter)
    }
}

/// How a run ends: the machine and the number of steps that are left, or what
/// stopped it; and the lines written by then.
pub struct Run {
    pub end: Result<(Machine, nat), Fault>,
    pub out: Seq<Line>,
}

/// A run of a method with this body, from the state `m` until it returns, in at
/// most `steps` steps, those of called methods included. `out` is what has been
/// written before.
///
/// The steps that a called method leaves are fewer than those it was given
/// (`law_run_uses_steps`), so the test for that always holds; it makes the
/// recursion well-founded.
pub open spec fn run(
    image: Image,
    code: Seq<Instruction>,
    arguments: Seq<Value>,
    m: Machine,
    steps: nat,
    out: Seq<Line>,
) -> Run
    decreases steps,
{
    if steps == 0 {
        Run { end: Err(Fault::OutOfSteps), out }
    } else {
        let rest = (steps - 1) as nat;
        match step_spec(image, code, arguments, m) {
            Err(f) => Run { end: Err(f), out },
            Ok((m1, Event::Continue)) => run(image, code, arguments, m1, rest, out),
            Ok((m1, Event::Return)) => Run { end: Ok((m1, rest)), out },
            Ok((m1, Event::Write(line))) => run(image, code, arguments, m1, rest, out.push(line)),
            Ok((m1, Event::Enter { rva, params })) => {
                let call = run(image, image.methods@[rva].body@, params, m1.jump(0), rest, out);
                match call.end {
                    Err(f) => call,
                    Ok((m2, left)) => if left < steps {
                        run(image, code, arguments, m2.jump(m1.pc + 1), left, call.out)
                    } else {
                        Run { end: Err(Fault::OutOfSteps), out: call.out }
                    },
                }
            },
        }
    }
}

impl Interpreter {
    /// A machine with an empty stack, at the first instruction.
    pub fn new() -> (r: Self)
        ensures
            r@ == (Machine {
                slots: Seq::new(STACK_SIZE as nat, |i: int| Value::Int32(0)),
                base: 0,
                sp: 0,
                pc: 0,
            }),
            r@.wf(),
    {
        let r = Interpreter {
            stack: [Value::Int32(0);1024],
            base_ptr: 0,
            stack_ptr: 0,
            program_counter: 0,
        };
        assert(r@.slots =~= Seq::new(STACK_SIZE as nat, |i: int| Value::Int32(0)));
        r
    }

    /// Runs `method` from the current program counter until it returns. The
    /// lines that it writes are added to `out`. Gives back how many of the
    /// `steps` are left.
    pub fn interpret(
        &mut self,
        image: &Image,
        method: &MethodBody,
        arguments: &[Value],
        steps: u64,
        out: &mut Vec<Output>,
    ) -> (r: Result<u64, Fault>)
        requires
            old(self)@.wf(),
        ensures
            final(self)@.wf(),
            ({
                let run = run(
                    *image,
                    method.body@,
                    arguments@,
                    old(self)@,
                    steps as nat,
                    lines(old(out)@),
                );
                &&& lines(final(out)@) == run.out
                &&& match r {
                    Ok(left) => run.end == Ok::<(Machine, nat), Fault>(
                        (final(self)@, left as nat),
                    ) && left < steps,
                    Err(f) => run.end == Err::<(Machine, nat), Fault>(f),
                }
            }),
        decreases steps,
    {
        let ghost whole = run(
            *image,
            method.body@,
            arguments@,
            self@,
            steps as nat,
            lines(out@),
        );
        let mut left: u64 = steps;
        loop
            invariant
                left <= steps,
                self@.wf(),
                whole == run(
                    *image,
                    method.body@,
                    arguments@,
                    old(self)@,
                    steps as nat,
                    lines(old(out)@),
                ),
                whole == run(
                    *image,
                    method.body@,
                    arguments@,
                    self@,
                    left as nat,
                    lines(out@),
                ),
            decreases left,
        {
            if left == 0 {
                return Err(Fault::OutOfSteps);
            }
            let rest: u64 = left - 1;
            match self.step(image, method.body.as_slice(), arguments) {
                Err(f) => return Err(f),
                Ok(Action::Continue) => {
                    left = rest;
                },
                Ok(Action::Return) => return Ok(rest),
                Ok(Action::Write(line)) => {
                    let ghost before = lines(out@);
                    out.push(line);
                    assert(lines(out@) =~= before.push(line@));
                    left = rest;
                },
                Ok(Action::Enter { rva, params }) => {
                    let callee = match image.get_method(rva) {
                        Some(callee) => callee,
                        None => return Err(Fault::MissingMethod),
                    };
                    let saved_program_counter: usize = self.enter();
                    match self.interpret(image, callee, params.as_slice(), rest, out) {
                        Err(f) => return Err(f),
                        Ok(n) => {
                            left = n;
                        },
                    }
                    self.leave(saved_program_counter);
                },
            }
        }
    }

    /// Moves to the first instruction, of a called method. Returns the position
    /// of the call.
    pub fn enter(&mut self) -> (r: usize)
        ensures
            r == old(self)@.pc,
            final(self)@ == old(self)@.jump(0),
            old(self)@.wf() ==> final(self)@.wf(),
    {
        let saved_program_counter: usize = self.program_counter;
        self.program_counter = 0;
        saved_program_counter
    }

    /// Moves behind the call at `call`, when the called method has returned.
    pub fn leave(&mut self, call: usize)
        requires
            call < usize::MAX,
        ensures
            final(self)@ == old(self)@.jump(call + 1),
            old(self)@.wf() ==> final(self)@.wf(),
    {
        self.program_counter = call + 1;
    }

    /// Executes the instruction at the program counter of a method with the body
    /// `iseq`. After [`Action::Enter`] the program counter is still at the call.
    pub fn step(&mut self, image: &Image, iseq: &[Instruction], arguments: &[Value]) -> (r: Result<
        Action,
        Fault,
    >)
        requires
            old(self)@.wf(),
        ensures
            final(self)@.wf(),
            match r {
                Ok(action) => step_spec(*image, iseq@, arguments@, old(self)@) == Ok::<
                    (Machine, Event),
                    Fault,
                >((final(self)@, action@)),
                Err(f) => step_spec(*image, iseq@, arguments@, old(self)@) == Err::<
                    (Machine, Event),
                    Fault,
                >(f),
            },
            r matches Ok(Action::Enter { rva, params }) ==> final(self)@.pc < iseq.len()
                && image.methods@.contains_key(rva),
    {
        if self.program_counter >= iseq.len() {
            return Err(Fault::ProgramCounter);
        }
        match iseq[self.program_counter] {
            Instruction::Ldstr { us_offset } => self.push_next(Value::String(us_offset)),
            Instruction::Ldc_I4_0 => self.push_next(Value::Int32(0)),
            Instruction::Ldc_I4_1 => self.push_next(Value::Int32(1)),
            Instruction::Ldc_I4_S { n } => self.push_next(Value::Int32(n)),
            Instruction::Ldarg_0 => {
                if arguments.len() < 1 {
                    return Err(Fault::MissingArgument);
                }
                self.push_next(arguments[0])
            },
            Instruction::Ldarg_1 => {
                if arguments.len() < 2 {
                    return Err(Fault::MissingArgument);
                }
                self.push_next(arguments[1])
            },
            Instruction::Pop => {
                if self.stack_ptr < 1 {
                    return Err(Fault::StackUnderflow);
                }
                self.stack_ptr = self.stack_ptr - 1;
                self.program_counter = self.program_counter + 1;
                Ok(Action::Continue)
            },
            Instruction::Bge { target } => self.instr_bge(target),
            Instruction::Add => {
                if self.stack_ptr < 2 {
                    return Err(Fault::StackUnderflow);
                }
                let y = self.stack_pop();
                let x = self.stack_pop();
                match (x, y) {
                    (Value::Int32(a), Value::Int32(b)) => {
                        if a.checked_add(b).is_none() {
                            return Err(Fault::ArithmeticOverflow);
                        }
                    },
                    _ => return Err(Fault::TypeMismatch),
                }
                self.stack_push(x.add(y));
                self.program_counter = self.program_counter + 1;
                Ok(Action::Continue)
            },
            Instruction::Call { table, entry } => self.instr_call(image, table, entry),
            Instruction::Ret => Ok(Action::Return),
            _ => Err(Fault::Unimplemented),
        }
    }

    /// Pushes `v` and moves to the next instruction.
    fn push_next(&mut self, v: Value) -> (r: Result<Action, Fault>)
        requires
            old(self)@.wf(),
            old(self)@.pc < usize::MAX,
        ensures
            final(self)@.wf(),
            match r {
                Ok(action) => push_step(old(self)@, v) == Ok::<(Machine, Event), Fault>(
                    (final(self)@, action@),
                ),
                Err(f) => push_step(old(self)@, v) == Err::<(Machine, Event), Fault>(f),
            },
    {
        if self.base_ptr + self.stack_ptr >= STACK_SIZE {
            return Err(Fault::StackOverflow);
        }
        self.stack_push(v);
        self.program_counter = self.program_counter + 1;
        Ok(Action::Continue)
    }

    /// Pushes `v`.
    pub fn stack_push(&mut self, v: Value)
        requires
            old(self)@.wf(),
            old(self)@.has_room(),
        ensures
            final(self)@ == old(self)@.push(v),
            final(self)@.wf(),
    {
        self.stack[self.base_ptr + self.stack_ptr] = v;
        self.stack_ptr = self.stack_ptr + 1;
        assert(self@ =~= old(self)@.push(v));
    }

    /// Pops the topmost value.
    pub fn stack_pop(&mut self) -> (r: Value)
        requires
            old(self)@.wf(),
            old(self)@.sp >= 1,
        ensures
            r == old(self)@.peek(0),
            final(self)@ == old(self)@.drop(1),
            final(self)@.wf(),
    {
        self.stack_ptr = self.stack_ptr - 1;
        self.stack[self.base_ptr + self.stack_ptr]
    }

    /// Drops the `n` topmost values. Gives back all slots from the lowest of
    /// them on, up to the last slot of the stack: the dropped values come first.
    pub fn stack_pop_last_elements(&mut self, n: usize) -> (r: Vec<Value>)
        requires
            old(self)@.wf(),
            old(self)@.sp >= n,
        ensures
            r@ == old(self)@.top_slots(n as int),
            final(self)@ == old(self)@.drop(n as int),
            final(self)@.wf(),
    {
        self.stack_ptr = self.stack_ptr - n;
        let start: usize = self.base_ptr + self.stack_ptr;
        let mut r: Vec<Value> = Vec::new();
        let mut i: usize = start;
        while i < STACK_SIZE
            invariant
                start <= i <= STACK_SIZE,
                r@ == self.stack@.subrange(start as int, i as int),
            decreases STACK_SIZE - i,
        {
            r.push(self.stack[i]);
            assert(self.stack@.subrange(start as int, i + 1) =~= self.stack@.subrange(
                start as int,
                i as int,
            ).push(self.stack@[i as int]));
            i = i + 1;
        }
        r
    }

    fn instr_call(&mut self, image: &Image, table: usize, entry: usize) -> (r: Result<
        Action,
        Fault,
    >)
        requires
            old(self)@.wf(),
            old(self)@.pc < usize::MAX,
        ensures
            final(self)@.wf(),
            match r {
                Ok(action) => call_step(*image, table, entry, old(self)@) == Ok::<
                    (Machine, Event),
                    Fault,
                >((final(self)@, action@)),
                Err(f) => call_step(*image, table, entry, old(self)@) == Err::<
                    (Machine, Event),
                    Fault,
                >(f),
            },
    {
        match image.row(table, entry) {
            None => Err(Fault::MissingRow),
            Some(Table::MemberRef(mrt)) => {
                let call = match image.external_call(&mrt) {
                    Ok(call) => call,
                    Err(f) => return Err(f),
                };
                if let ExternalCall::Ignored = call {
                    self.program_counter = self.program_counter + 1;
                    return Ok(Action::Continue);
                }
                if self.stack_ptr < 1 {
                    return Err(Fault::StackUnderflow);
                }
                let val = self.stack_pop();
                self.program_counter = self.program_counter + 1;
                match call {
                    ExternalCall::WriteText => {
                        let offset = match val.as_string() {
                            Some(offset) => offset,
                            None => return Err(Fault::TypeMismatch),
                        };
                        match image.user_strings.get(&offset) {
                            Some(units) => Ok(
                                Action::Write(Output::Text(decode_utf16(units.as_slice()))),
                            ),
                            None => Err(Fault::MissingString),
                        }
                    },
                    ExternalCall::WriteInt => match val.as_int32() {
                        Some(n) => Ok(Action::Write(Output::Int(n))),
                        None => Err(Fault::TypeMismatch),
                    },
                    _ => Ok(Action::Continue),
                }
            },
            Some(Table::MethodDef(mdt)) => {
                let n: usize = match image.signatures.get(&mdt.signature) {
                    Some(sig) => sig.params.len(),
                    None => return Err(Fault::MissingSignature),
                };
                if self.stack_ptr < n {
                    return Err(Fault::StackUnderflow);
                }
                let params = self.stack_pop_last_elements(n);
                if image.get_method(mdt.rva).is_none() {
                    return Err(Fault::MissingMethod);
                }
                Ok(Action::Enter { rva: mdt.rva, params })
            },
            Some(_) => Err(Fault::Unimplemented),
        }
    }

    fn instr_bge(&mut self, target: usize) -> (r: Result<Action, Fault>)
        requires
            old(self)@.wf(),
            old(self)@.pc < usize::MAX,
        ensures
            final(self)@.wf(),
            match r {
                Ok(action) => bge_step(old(self)@, target) == Ok::<(Machine, Event), Fault>(
                    (final(self)@, action@),
                ),
                Err(f) => bge_step(old(self)@, target) == Err::<(Machine, Event), Fault>(f),
            },
    {
        if self.stack_ptr < 2 {
            return Err(Fault::StackUnderflow);
        }
        let val2 = self.stack_pop();
        let val1 = self.stack_pop();
        if val1.as_int32().is_none() || val2.as_int32().is_none() {
            return Err(Fault::TypeMismatch);
        }
        if val1.ge(val2) {
            self.program_counter = target;
        } else {
            self.program_counter = self.program_counter + 1;
        }
        Ok(Action::Continue)
    }
}

impl Value {
    /// The offset of the string literal, if the value is one.
    pub fn as_string(&self) -> (r: Option<u32>)
        ensures
            r == (match *self {
                Value::String(n) => Some(n),
                _ => None,
            }),
    {
        match self {
            Value::String(n) => Some(*n),
            _ => None,
        }
    }

    /// The integer, if the value is one.
    pub fn as_int32(&self) -> (r: Option<i32>)
        ensures
            r == (match *self {
                Value::Int32(n) => Some(n),
                _ => None,
            }),
    {
        match self {
            Value::Int32(n) => Some(*n),
            _ => None,
        }
    }

    /// The sum of two integers.
    pub fn add(self, y: Value) -> (r: Value)
        requires
            self is Int32,
            y is Int32,
            i32::MIN <= self->Int32_0 + y->Int32_0 <= i32::MAX,
        ensures
            r == Value::Int32((self->Int32_0 + y->Int32_0) as i32),
    {
        match (self, y) {
            (Value::Int32(x), Value::Int32(y)) => Value::Int32(x + y),
            _ => { unreached() },
        }
    }

    /// Whether one integer is not less than another.
    pub fn ge(self, y: Value) -> (r: bool)
        requires
            self is Int32,
            y is Int32,
        ensures
            r == (self->Int32_0 >= y->Int32_0),
    {
        match (self, y) {
            (Value::Int32(x), Value::Int32(y)) => x >= y,
            _ => { unreached() },
        }
    }
}

} // verus!
