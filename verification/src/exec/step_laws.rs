//! What each instruction does when it is interpreted.
use vstd::prelude::*;

use crate::exec::instruction::Instruction;
use crate::exec::interpret::{Event, Line, Machine, Run, STACK_SIZE, Value, run, step_spec};
use crate::exec::interpret_laws::law_run_uses_steps;
use crate::exec::text::utf16_lossy;
use crate::fault::Fault;
use crate::metadata::image::{
    AssemblyRefTable, Image, MemberRefTable, MethodDefTable, Table, TypeRefTable,
};
use crate::metadata::image_laws::{
    law_console_is_found, law_other_methods_need_rows, names, refers_to, takes_one, writes_line,
};
use crate::metadata::signature::ElementType;

verus! {

/// What a step gives: the machine and what is left to do, or what stopped it.
pub type Step = Result<(Machine, Event), Fault>;

/// Whether a step leads from `m` to a machine with these values on the stack, the
/// topmost last, that stands at the position `pc`, and leaves this to do.
pub open spec fn gets_to(s: Step, m: Machine, values: Seq<Value>, pc: int, event: Event) -> bool {
    match s {
        Ok((m2, e)) => {
            &&& e == event
            &&& m2.wf()
            &&& m2.values() == values
            &&& m2.sp == values.len()
            &&& m2.base == m.base
            &&& m2.pc == pc
        },
        Err(_) => false,
    }
}

/// Whether a step is stopped by this fault.
pub open spec fn stops(s: Step, fault: Fault) -> bool {
    s == Step::Err(fault)
}

/// The value that an instruction puts on the stack, if it is one that does, and
/// has it.
pub open spec fn pushes(instr: Instruction, arguments: Seq<Value>) -> Option<Value> {
    match instr {
        Instruction::Ldstr { us_offset } => Some(Value::String(us_offset)),
        Instruction::Ldc_I4_0 => Some(Value::Int32(0)),
        Instruction::Ldc_I4_1 => Some(Value::Int32(1)),
        Instruction::Ldc_I4_S { n } => Some(Value::Int32(n)),
        Instruction::Ldarg_0 => if arguments.len() > 0 {
            Some(arguments[0])
        } else {
            None
        },
        Instruction::Ldarg_1 => if arguments.len() > 1 {
            Some(arguments[1])
        } else {
            None
        },
        _ => None,
    }
}

/// A constant, a literal or an argument goes on top of the stack, if there is
/// room. An argument that is missing stops the run.
pub proof fn law_step_pushes(
    image: Image,
    code: Seq<Instruction>,
    arguments: Seq<Value>,
    m: Machine,
)
    requires
        m.wf(),
        m.pc < code.len() <= usize::MAX,
    ensures
        ({
            let s = step_spec(image, code, arguments, m);
            let instr = code[m.pc as int];
            &&& pushes(instr, arguments) matches Some(v) ==> if m.base + m.sp < STACK_SIZE {
                gets_to(s, m, m.values().push(v), m.pc + 1, Event::Continue)
            } else {
                stops(s, Fault::StackOverflow)
            }
            &&& instr is Ldarg_0 && arguments.len() == 0 ==> stops(s, Fault::MissingArgument)
            &&& instr is Ldarg_1 && arguments.len() <= 1 ==> stops(s, Fault::MissingArgument)
        }),
{
    if let Some(v) = pushes(code[m.pc as int], arguments) {
        if m.base + m.sp < STACK_SIZE {
            assert(m.push(v).next().values() =~= m.values().push(v));
        }
    }
}

/// The topmost value leaves the stack.
pub proof fn law_step_pops(
    image: Image,
    code: Seq<Instruction>,
    arguments: Seq<Value>,
    m: Machine,
)
    requires
        m.wf(),
        m.pc < code.len() <= usize::MAX,
        code[m.pc as int] == Instruction::Pop,
    ensures
        ({
            let s = step_spec(image, code, arguments, m);
            if m.sp >= 1 {
                gets_to(s, m, m.values().subrange(0, m.sp - 1), m.pc + 1, Event::Continue)
            } else {
                stops(s, Fault::StackUnderflow)
            }
        }),
{
    if m.sp >= 1 {
        assert(m.drop(1).next().values() =~= m.values().subrange(0, m.sp - 1));
    }
}

/// Two integers on top of the stack give way to their sum. A sum that is out of
/// range, or a value that is no integer, stops the run.
pub proof fn law_step_adds(
    image: Image,
    code: Seq<Instruction>,
    arguments: Seq<Value>,
    m: Machine,
)
    requires
        m.wf(),
        m.pc < code.len() <= usize::MAX,
        code[m.pc as int] == Instruction::Add,
    ensures
        ({
            let s = step_spec(image, code, arguments, m);
            if m.sp < 2 {
                stops(s, Fault::StackUnderflow)
            } else {
                match (m.values()[m.sp - 2], m.values()[m.sp - 1]) {
                    (Value::Int32(x), Value::Int32(y)) => {
                        &&& i32::MIN <= x + y <= i32::MAX ==> gets_to(
                            s,
                            m,
                            m.values().subrange(0, m.sp - 2).push(Value::Int32((x + y) as i32)),
                            m.pc + 1,
                            Event::Continue,
                        )
                        &&& !(i32::MIN <= x + y <= i32::MAX) ==> stops(
                            s,
                            Fault::ArithmeticOverflow,
                        )
                    },
                    _ => stops(s, Fault::TypeMismatch),
                }
            }
        }),
{
    if m.sp >= 2 {
        if let (Value::Int32(x), Value::Int32(y)) = (m.values()[m.sp - 2], m.values()[m.sp - 1]) {
            let v = Value::Int32((x + y) as i32);
            assert(m.drop(2).push(v).next().values() =~= m.values().subrange(0, m.sp - 2).push(v));
        }
    }
}

/// Two integers leave the stack. The run goes on at the target if the lower one is
/// not less than the topmost one, and at the next instruction otherwise.
pub proof fn law_step_branches(
    image: Image,
    code: Seq<Instruction>,
    arguments: Seq<Value>,
    m: Machine,
    target: usize,
)
    requires
        m.wf(),
        m.pc < code.len() <= usize::MAX,
        code[m.pc as int] == (Instruction::Bge { target }),
    ensures
        ({
            let s = step_spec(image, code, arguments, m);
            if m.sp < 2 {
                stops(s, Fault::StackUnderflow)
            } else {
                match (m.values()[m.sp - 2], m.values()[m.sp - 1]) {
                    (Value::Int32(x), Value::Int32(y)) => gets_to(
                        s,
                        m,
                        m.values().subrange(0, m.sp - 2),
                        if x >= y {
                            target as int
                        } else {
                            m.pc + 1
                        },
                        Event::Continue,
                    ),
                    _ => stops(s, Fault::TypeMismatch),
                }
            }
        }),
{
    if m.sp >= 2 {
        assert(m.drop(2).next().values() =~= m.values().subrange(0, m.sp - 2));
        assert(m.drop(2).jump(target as int).values() =~= m.values().subrange(0, m.sp - 2));
    }
}

/// A return changes nothing.
pub proof fn law_step_returns(
    image: Image,
    code: Seq<Instruction>,
    arguments: Seq<Value>,
    m: Machine,
)
    requires
        m.pc < code.len(),
    ensures
        code[m.pc as int] == Instruction::Ret <==> (step_spec(
            image,
            code,
            arguments,
            m,
        ) matches Ok((_, Event::Return))),
        code[m.pc as int] == Instruction::Ret ==> step_spec(image, code, arguments, m) == Step::Ok(
            (m, Event::Return),
        ),
{
}

/// A call of `System.Console.WriteLine` takes the topmost value off the stack and
/// writes it: an integer as it is, a literal as the text that it stands for. If
/// the method takes neither, the value is dropped. A call of another method of
/// another assembly does nothing.
pub proof fn law_step_writes(
    image: Image,
    code: Seq<Instruction>,
    arguments: Seq<Value>,
    m: Machine,
    table: usize,
    entry: usize,
    mrt: MemberRefTable,
    trt: TypeRefTable,
    art: AssemblyRefTable,
)
    requires
        m.wf(),
        m.pc < code.len() <= usize::MAX,
        code[m.pc as int] == (Instruction::Call { table, entry }),
        names(image, table, entry, Table::MemberRef(mrt)),
        refers_to(image, mrt, trt, art),
    ensures
        ({
            let s = step_spec(image, code, arguments, m);
            let rest = m.values().subrange(0, m.sp - 1);
            let top = m.values()[m.sp - 1];
            let signature = image.signatures@[mrt.signature];
            if !writes_line(image, mrt, trt, art) {
                gets_to(s, m, m.values(), m.pc + 1, Event::Continue)
            } else if m.sp < 1 {
                stops(s, Fault::StackUnderflow)
            } else if takes_one(signature, ElementType::I4) {
                match top {
                    Value::Int32(n) => gets_to(s, m, rest, m.pc + 1, Event::Write(Line::Int(n))),
                    _ => stops(s, Fault::TypeMismatch),
                }
            } else if takes_one(signature, ElementType::String) {
                match top {
                    Value::String(offset) => if image.user_strings@.contains_key(offset) {
                        gets_to(
                            s,
                            m,
                            rest,
                            m.pc + 1,
                            Event::Write(
                                Line::Text(utf16_lossy(image.user_strings@[offset]@)),
                            ),
                        )
                    } else {
                        stops(s, Fault::MissingString)
                    },
                    _ => stops(s, Fault::TypeMismatch),
                }
            } else {
                gets_to(s, m, rest, m.pc + 1, Event::Continue)
            }
        }),
{
    law_console_is_found(image, mrt, trt, art);
    assert(image.row_spec(table, entry) == Some(Table::MemberRef(mrt)));
    assert(m.next().values() =~= m.values());
    if m.sp >= 1 {
        assert(m.drop(1).next().values() =~= m.values().subrange(0, m.sp - 1));
    }
}

/// A call of a method of the assembly takes as many values off the stack as the
/// method has parameters. The method's arguments begin with them, in the order in
/// which they were pushed. The machine stays at the call.
pub proof fn law_step_enters(
    image: Image,
    code: Seq<Instruction>,
    arguments: Seq<Value>,
    m: Machine,
    table: usize,
    entry: usize,
    mdt: MethodDefTable,
)
    requires
        m.wf(),
        m.pc < code.len() <= usize::MAX,
        code[m.pc as int] == (Instruction::Call { table, entry }),
        names(image, table, entry, Table::MethodDef(mdt)),
    ensures
        ({
            let s = step_spec(image, code, arguments, m);
            let n = image.signatures@[mdt.signature].params.len() as int;
            if !image.signatures@.contains_key(mdt.signature) {
                stops(s, Fault::MissingSignature)
            } else if m.sp < n {
                stops(s, Fault::StackUnderflow)
            } else if !image.methods@.contains_key(mdt.rva) {
                stops(s, Fault::MissingMethod)
            } else {
                &&& s matches Ok((m2, Event::Enter { rva, params }))
                &&& rva == mdt.rva
                &&& params.len() >= n
                &&& params == m.slots.subrange(m.base + m.sp - n, STACK_SIZE as int)
                &&& params.subrange(0, n) == m.values().subrange(m.sp - n, m.sp as int)
                &&& m2.wf()
                &&& m2.values() == m.values().subrange(0, m.sp - n)
                &&& m2.base == m.base
                &&& m2.pc == m.pc
            }
        }),
{
    assert(image.row_spec(table, entry) == Some(Table::MethodDef(mdt)));
    let n = image.signatures@[mdt.signature].params.len() as int;
    if m.sp >= n {
        assert(m.top_slots(n).subrange(0, n) =~= m.values().subrange(m.sp - n, m.sp as int));
        assert(m.drop(n).values() =~= m.values().subrange(0, m.sp - n));
    }
}

/// Whether the interpreter executes an instruction.
pub open spec fn is_interpreted(instr: Instruction) -> bool {
    match instr {
        Instruction::Ldstr { .. }
        | Instruction::Ldc_I4_0
        | Instruction::Ldc_I4_1
        | Instruction::Ldc_I4_S { .. }
        | Instruction::Ldarg_0
        | Instruction::Ldarg_1
        | Instruction::Pop
        | Instruction::Bge { .. }
        | Instruction::Add
        | Instruction::Call { .. }
        | Instruction::Ret => true,
        _ => false,
    }
}

/// A run stops where there is no instruction, at instructions that the interpreter
/// does not execute, and at calls of what is no method.
pub proof fn law_step_stops(
    image: Image,
    code: Seq<Instruction>,
    arguments: Seq<Value>,
    m: Machine,
)
    ensures
        ({
            let s = step_spec(image, code, arguments, m);
            if m.pc >= code.len() {
                stops(s, Fault::ProgramCounter)
            } else {
                &&& !is_interpreted(code[m.pc as int]) ==> stops(s, Fault::Unimplemented)
                &&& code[m.pc as int] matches Instruction::Call { table, entry } ==> {
                    &&& (forall|row: Table| !names(image, table, entry, row)) ==> stops(
                        s,
                        Fault::MissingRow,
                    )
                    &&& forall|row: Table| #[trigger]
                        names(image, table, entry, row) && !(row is MemberRef) && !(
                        row is MethodDef) ==> stops(s, Fault::Unimplemented)
                }
            }
        }),
{
    if m.pc < code.len() {
        if let Instruction::Call { table, entry } = code[m.pc as int] {
            if let Some(row) = image.row_spec(table, entry) {
                assert(names(image, table, entry, row));
            }
        }
    }
}

/// A run makes one step after the other. A line that a step writes is written
/// before what follows. A fault stops the run, and so does the lack of steps; a
/// return ends it.
pub proof fn law_run_makes_steps(
    image: Image,
    code: Seq<Instruction>,
    arguments: Seq<Value>,
    m: Machine,
    steps: nat,
    out: Seq<Line>,
)
    ensures
        ({
            let r = run(image, code, arguments, m, steps, out);
            let rest = (steps - 1) as nat;
            if steps == 0 {
                r == (Run { end: Err(Fault::OutOfSteps), out })
            } else {
                match step_spec(image, code, arguments, m) {
                    Err(fault) => r == (Run { end: Err(fault), out }),
                    Ok((m1, Event::Return)) => r == (Run { end: Ok((m1, rest)), out }),
                    Ok((m1, Event::Continue)) => r == run(image, code, arguments, m1, rest, out),
                    Ok((m1, Event::Write(line))) => r == run(
                        image,
                        code,
                        arguments,
                        m1,
                        rest,
                        out.push(line),
                    ),
                    Ok((m1, Event::Enter { rva, params })) => {
                        let inner = run(
                            image,
                            image.methods@[rva].body@,
                            params,
                            Machine { pc: 0, ..m1 },
                            rest,
                            out,
                        );
                        match inner.end {
                            Err(fault) => r == (Run { end: Err(fault), out: inner.out }),
                            Ok((m2, left)) => m1.pc < usize::MAX ==> r == run(
                                image,
                                code,
                                arguments,
                                Machine { pc: (m1.pc + 1) as usize, ..m2 },
                                left,
                                inner.out,
                            ),
                        }
                    },
                }
            }
        }),
{
    if steps > 0 {
        let rest = (steps - 1) as nat;
        if let Ok((m1, Event::Enter { rva, params })) = step_spec(image, code, arguments, m) {
            law_run_uses_steps(
                image,
                image.methods@[rva].body@,
                params,
                m1.jump(0),
                rest,
                out,
            );
        }
    }
}

/// A call of a method of another assembly that cannot be found stops the run.
pub proof fn law_step_needs_rows(
    image: Image,
    code: Seq<Instruction>,
    arguments: Seq<Value>,
    m: Machine,
    table: usize,
    entry: usize,
    mrt: MemberRefTable,
)
    requires
        m.pc < code.len(),
        code[m.pc as int] == (Instruction::Call { table, entry }),
        names(image, table, entry, Table::MemberRef(mrt)),
        forall|trt: TypeRefTable, art: AssemblyRefTable| !refers_to(image, mrt, trt, art),
    ensures
        step_spec(image, code, arguments, m) is Err,
{
    assert(image.row_spec(table, entry) == Some(Table::MemberRef(mrt)));
    law_other_methods_need_rows(image, mrt);
}

} // verus!
