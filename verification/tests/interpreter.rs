use std::collections::HashMap;

use yacht::exec::instruction::Instruction;
use yacht::exec::interpret::{Action, Interpreter, Output, Value, STACK_SIZE};
use yacht::fault::Fault;
use yacht::metadata::image::{
    AssemblyRefTable, ExternalCall, Image, MemberRefTable, MethodDefTable, Table, Token,
    TypeRefTable,
};
use yacht::metadata::method::MethodBody;
use yacht::metadata::signature::{ElementType, MethodSignature, Type};

const MEMBER: usize = 0;
const TYPE: usize = 1;
const ASSEMBLY: usize = 2;
const METHOD: usize = 3;

const WRITE_TEXT: Instruction = Instruction::Call { table: MEMBER, entry: 1 };
const WRITE_INT: Instruction = Instruction::Call { table: MEMBER, entry: 2 };
const WRITE_BOOL: Instruction = Instruction::Call { table: MEMBER, entry: 3 };
const CONSTRUCT: Instruction = Instruction::Call { table: MEMBER, entry: 4 };

fn sig(params: Vec<ElementType>, ret: ElementType) -> MethodSignature {
    MethodSignature {
        has_this: false,
        params: params.into_iter().map(Type::new).collect(),
        ret: Type::new(ret),
    }
}

fn method(name: &str, signature: MethodSignature, body: Vec<Instruction>) -> MethodBody {
    MethodBody { name: name.to_string(), class: 0, signature, locals_ty: vec![], body }
}

fn member(class: usize, name: u32, signature: u32) -> Table {
    Table::MemberRef(MemberRefTable {
        class: Token { table: TYPE, entry: class },
        name,
        signature,
    })
}

fn type_ref(scope: Token, name: u32, namespace: u32) -> Table {
    Table::TypeRef(TypeRefTable { resolution_scope: scope, name, namespace })
}

/// An image with the methods of the console, four literals, and no method bodies.
fn image() -> Image {
    let mscorlib = Token { table: ASSEMBLY, entry: 1 };
    let mut strings = HashMap::new();
    for (i, s) in ["mscorlib", "System", "Console", "WriteLine", "Object", ".ctor"]
        .iter()
        .enumerate()
    {
        strings.insert(i as u32 + 1, s.to_string());
    }
    let mut user_strings: HashMap<u32, Vec<u16>> = HashMap::new();
    user_strings.insert(1, "Hello, world!".encode_utf16().collect());
    user_strings.insert(20, "\u{1F980} is a crab".encode_utf16().collect());
    user_strings.insert(40, vec![0x61, 0xD800, 0x62]);
    user_strings.insert(50, vec![0xD83E, 0xD83E, 0xDD80, 0xDD80, 0xD7FF, 0xE000, 0xDBFF]);
    let mut signatures = HashMap::new();
    signatures.insert(1, sig(vec![ElementType::String], ElementType::Void));
    signatures.insert(2, sig(vec![ElementType::I4], ElementType::Void));
    signatures.insert(3, sig(vec![ElementType::Boolean], ElementType::Void));
    signatures.insert(4, sig(vec![], ElementType::Void));
    signatures.insert(5, sig(vec![ElementType::I4], ElementType::I4));
    signatures.insert(6, sig(vec![ElementType::I4, ElementType::I4], ElementType::I4));
    Image {
        tables: vec![
            vec![member(1, 4, 1), member(1, 4, 2), member(1, 4, 3), member(2, 6, 4)],
            vec![type_ref(mscorlib, 3, 2), type_ref(mscorlib, 5, 2)],
            vec![Table::AssemblyRef(AssemblyRefTable { name: 1 })],
            vec![],
        ],
        strings,
        user_strings,
        signatures,
        methods: HashMap::new(),
        classes: vec![],
    }
}

/// Adds a method; returns the instruction that calls it.
fn define(image: &mut Image, rva: u32, signature: u32, m: MethodBody) -> Instruction {
    image.tables[METHOD].push(Table::MethodDef(MethodDefTable { rva, signature }));
    image.methods.insert(rva, m);
    Instruction::Call { table: METHOD, entry: image.tables[METHOD].len() }
}

fn text(o: &Output) -> String {
    match o {
        Output::Text(s) => s.clone(),
        Output::Int(n) => format!("{}", n),
    }
}

/// Runs a method without arguments on a new interpreter.
fn run(image: &Image, body: Vec<Instruction>, steps: u64) -> (Result<u64, Fault>, Vec<String>) {
    let main = method("Main", sig(vec![], ElementType::Void), body);
    let mut out = vec![];
    let r = Interpreter::new().interpret(image, &main, &[], steps, &mut out);
    (r, out.iter().map(text).collect())
}

#[test]
fn hello_world_is_written() {
    let body = vec![Instruction::Ldstr { us_offset: 1 }, WRITE_TEXT, Instruction::Ret];
    let (r, out) = run(&image(), body, 10);
    assert_eq!(r, Ok(7));
    assert_eq!(out, vec!["Hello, world!"]);
}

#[test]
fn literals_are_decoded() {
    let body = vec![
        Instruction::Ldstr { us_offset: 20 },
        WRITE_TEXT,
        Instruction::Ldstr { us_offset: 40 },
        WRITE_TEXT,
        Instruction::Ldstr { us_offset: 50 },
        WRITE_TEXT,
        Instruction::Ret,
    ];
    let (r, out) = run(&image(), body, 12);
    assert_eq!(r, Ok(5));
    // surrogates without their other half are replaced one by one
    let mixed = "\u{FFFD}\u{1F980}\u{FFFD}\u{D7FF}\u{E000}\u{FFFD}";
    assert_eq!(out, vec!["\u{1F980} is a crab", "a\u{FFFD}b", mixed]);
}

#[test]
fn sums_are_written() {
    let body = vec![
        Instruction::Ldc_I4_S { n: 40 },
        Instruction::Ldc_I4_1,
        Instruction::Add,
        Instruction::Ldc_I4_0,
        Instruction::Add,
        WRITE_INT,
        Instruction::Ldc_I4_S { n: -7 },
        WRITE_INT,
        Instruction::Ret,
    ];
    let (r, out) = run(&image(), body, 9);
    assert_eq!(r, Ok(0));
    assert_eq!(out, vec!["41", "-7"]);
}

#[test]
fn other_external_calls_write_nothing() {
    let body = vec![
        Instruction::Ldc_I4_1,
        Instruction::Ldc_I4_0,
        WRITE_BOOL,
        CONSTRUCT,
        WRITE_INT,
        Instruction::Ret,
    ];
    let (r, out) = run(&image(), body, 100);
    assert_eq!(r, Ok(94));
    assert_eq!(out, vec!["1"]);
}

#[test]
fn external_calls_are_told_apart() {
    let mut image = image();
    let call = |image: &Image, i: usize| match image.tables[MEMBER][i] {
        Table::MemberRef(mrt) => image.external_call(&mrt),
        _ => panic!("not a member"),
    };
    assert_eq!(call(&image, 0), Ok(ExternalCall::WriteText));
    assert_eq!(call(&image, 1), Ok(ExternalCall::WriteInt));
    assert_eq!(call(&image, 2), Ok(ExternalCall::WriteNothing));
    assert_eq!(call(&image, 3), Ok(ExternalCall::Ignored));
    image.strings.insert(1, "other".to_string());
    assert_eq!(call(&image, 0), Ok(ExternalCall::Ignored));
    image.signatures.remove(&1);
    assert_eq!(call(&image, 0), Err(Fault::MissingSignature));
    image.strings.remove(&4);
    assert_eq!(call(&image, 0), Err(Fault::MissingString));
    image.tables[TYPE][0] = type_ref(Token { table: TYPE, entry: 1 }, 3, 2);
    assert_eq!(call(&image, 0), Err(Fault::Unimplemented));
    image.tables[TYPE][0] = type_ref(Token { table: ASSEMBLY, entry: 0 }, 3, 2);
    assert_eq!(call(&image, 0), Err(Fault::MissingRow));
    image.tables[TYPE][0] = Table::Other;
    assert_eq!(call(&image, 0), Err(Fault::Unimplemented));
    image.tables[TYPE].clear();
    assert_eq!(call(&image, 0), Err(Fault::MissingRow));
}

#[test]
fn methods_get_their_arguments_in_order() {
    let mut image = image();
    // x + y + y
    let call = define(
        &mut image,
        0x2050,
        6,
        method(
            "f",
            sig(vec![ElementType::I4, ElementType::I4], ElementType::I4),
            vec![
                Instruction::Ldarg_0,
                Instruction::Ldarg_1,
                Instruction::Ldarg_1,
                Instruction::Add,
                Instruction::Add,
                Instruction::Ret,
            ],
        ),
    );
    let body = vec![
        Instruction::Ldc_I4_S { n: 100 },
        Instruction::Ldc_I4_S { n: 3 },
        call,
        WRITE_INT,
        Instruction::Ret,
    ];
    let (r, out) = run(&image, body, 50);
    assert_eq!(r, Ok(39));
    assert_eq!(out, vec!["106"]);
}

#[test]
fn branches_and_recursion_work() {
    let mut image = image();
    // f(x) = x >= 10 ? x : f(x + x)
    let call = Instruction::Call { table: METHOD, entry: 1 };
    let defined = define(
        &mut image,
        0x2050,
        5,
        method(
            "f",
            sig(vec![ElementType::I4], ElementType::I4),
            vec![
                Instruction::Ldarg_0,
                Instruction::Ldc_I4_S { n: 10 },
                Instruction::Bge { target: 7 },
                Instruction::Ldarg_0,
                Instruction::Ldarg_0,
                Instruction::Add,
                call,
                Instruction::Ldarg_0,
                Instruction::Ret,
            ],
        ),
    );
    assert_eq!(call, defined);
    let body = vec![Instruction::Ldc_I4_1, call, WRITE_INT, Instruction::Ret];
    let (r, out) = run(&image, body, 1000);
    // each level leaves its own argument on top of the result of the next one
    assert_eq!(out, vec!["1"]);
    assert!(r.is_ok());
    // 10 >= 10
    let body = vec![Instruction::Ldc_I4_S { n: 10 }, call, WRITE_INT, Instruction::Ret];
    assert_eq!(run(&image, body, 1000), (Ok(991), vec!["10".to_string()]));
}

#[test]
fn faults_stop_a_run() {
    let mut image = image();
    let unsigned = define(&mut image, 0x2050, 77, method("f", sig(vec![], ElementType::Void), vec![]));
    let bodiless = define(&mut image, 0x2060, 4, method("g", sig(vec![], ElementType::Void), vec![]));
    image.methods.remove(&0x2060);
    let one = Instruction::Ldc_I4_1;
    let cases = vec![
        (vec![], Fault::ProgramCounter),
        (vec![one], Fault::ProgramCounter),
        (vec![Instruction::Pop], Fault::StackUnderflow),
        (vec![one, Instruction::Add], Fault::StackUnderflow),
        (vec![one, Instruction::Bge { target: 0 }], Fault::StackUnderflow),
        (vec![WRITE_INT], Fault::StackUnderflow),
        (vec![one, Instruction::Ldstr { us_offset: 1 }, Instruction::Add], Fault::TypeMismatch),
        (
            vec![Instruction::Ldstr { us_offset: 1 }, one, Instruction::Bge { target: 1 }],
            Fault::TypeMismatch,
        ),
        (vec![one, WRITE_TEXT], Fault::TypeMismatch),
        (vec![Instruction::Ldstr { us_offset: 1 }, WRITE_INT], Fault::TypeMismatch),
        (
            vec![Instruction::Ldc_I4_S { n: i32::MAX }, one, Instruction::Add],
            Fault::ArithmeticOverflow,
        ),
        (vec![Instruction::Ldarg_0], Fault::MissingArgument),
        (vec![Instruction::Ldarg_1], Fault::MissingArgument),
        (vec![Instruction::Call { table: 9, entry: 1 }], Fault::MissingRow),
        (vec![Instruction::Call { table: MEMBER, entry: 0 }], Fault::MissingRow),
        (vec![Instruction::Call { table: MEMBER, entry: 5 }], Fault::MissingRow),
        (vec![Instruction::Ldstr { us_offset: 2 }, WRITE_TEXT], Fault::MissingString),
        (vec![unsigned], Fault::MissingSignature),
        (vec![bodiless], Fault::MissingMethod),
        (vec![Instruction::Sub], Fault::Unimplemented),
        (vec![Instruction::Call { table: TYPE, entry: 1 }], Fault::Unimplemented),
    ];
    for (body, fault) in cases {
        assert_eq!(run(&image, body, 100), (Err(fault), vec![]));
    }
}

#[test]
fn a_branch_can_lead_to_the_first_instruction() {
    // counts how often it has been at the first instruction: the sum below the
    // topmost values is 1, then 2, then 3
    let mut image = image();
    image.methods.insert(
        0x2050,
        method(
            "count",
            sig(vec![ElementType::I4], ElementType::I4),
            vec![
                Instruction::Ldc_I4_1,
                Instruction::Add,
                Instruction::Ldc_I4_0,
                Instruction::Ldarg_0,
                Instruction::Bge { target: 0 },
                Instruction::Ret,
            ],
        ),
    );
    let body = image.methods[&0x2050].clone();
    let mut interpreter = Interpreter::new();
    let mut out = vec![];
    interpreter.stack_push(Value::Int32(0));
    // not taken: once
    let r = interpreter.interpret(&image, &body, &[Value::Int32(1)], 100, &mut out);
    assert_eq!(r, Ok(94));
    assert_eq!(interpreter.stack_pop(), Value::Int32(1));
    // taken every time: for ever
    let mut interpreter = Interpreter::new();
    interpreter.stack_push(Value::Int32(0));
    let r = interpreter.interpret(&image, &body, &[Value::Int32(0)], 15, &mut out);
    assert_eq!(r, Err(Fault::OutOfSteps));
    assert_eq!(interpreter.stack_pop(), Value::Int32(3));
}

#[test]
fn a_method_that_has_returned_returns_at_once() {
    let main = method(
        "Main",
        sig(vec![], ElementType::Void),
        vec![Instruction::Ldc_I4_1, WRITE_INT, Instruction::Ldc_I4_0, Instruction::Ret],
    );
    let image = image();
    let mut interpreter = Interpreter::new();
    let mut out = vec![];
    assert_eq!(interpreter.interpret(&image, &main, &[], 10, &mut out), Ok(6));
    assert_eq!(out.len(), 1);
    assert_eq!(interpreter.interpret(&image, &main, &[Value::Int32(7)], 10, &mut out), Ok(9));
    assert_eq!(out.len(), 1);
    assert_eq!(interpreter.stack_pop(), Value::Int32(0));
}

#[test]
fn the_stack_is_bounded() {
    let mut body = vec![Instruction::Ldc_I4_0; STACK_SIZE];
    body.push(Instruction::Ret);
    assert_eq!(run(&image(), body.clone(), 2000).0, Ok(2000 - 1025));
    body.insert(0, Instruction::Ldc_I4_0);
    assert_eq!(run(&image(), body, 2000).0, Err(Fault::StackOverflow));
}

#[test]
fn steps_run_out() {
    // for ever
    let body = vec![
        Instruction::Ldc_I4_0,
        Instruction::Ldc_I4_1,
        Instruction::Ldc_I4_0,
        Instruction::Bge { target: 1 },
        Instruction::Ret,
    ];
    assert_eq!(run(&image(), body, 1000), (Err(Fault::OutOfSteps), vec![]));
    let body = vec![Instruction::Ldc_I4_1, WRITE_INT, Instruction::Ret];
    assert_eq!(run(&image(), body.clone(), 2), (Err(Fault::OutOfSteps), vec!["1".to_string()]));
    // more steps change nothing, and are left
    assert_eq!(run(&image(), body.clone(), 3), (Ok(0), vec!["1".to_string()]));
    assert_eq!(run(&image(), body, 1003), (Ok(1000), vec!["1".to_string()]));
}

#[test]
fn output_is_added_to_what_is_there() {
    let main = method(
        "Main",
        sig(vec![], ElementType::Void),
        vec![Instruction::Ldc_I4_1, WRITE_INT, Instruction::Ret],
    );
    let mut out = vec![Output::Text("before".to_string())];
    assert_eq!(Interpreter::new().interpret(&image(), &main, &[], 10, &mut out), Ok(7));
    let lines: Vec<String> = out.iter().map(text).collect();
    assert_eq!(lines, vec!["before", "1"]);
}

#[test]
fn a_step_hands_back_what_is_left_to_do() {
    let mut image = image();
    let call = define(
        &mut image,
        0x2050,
        5,
        method("f", sig(vec![ElementType::I4], ElementType::I4), vec![Instruction::Ret]),
    );
    let body = [Instruction::Ldarg_0, call, Instruction::Ret];
    let mut interpreter = Interpreter::new();
    assert!(matches!(
        interpreter.step(&image, &body, &[Value::Int32(5)]),
        Ok(Action::Continue)
    ));
    // the machine stays at the call
    match interpreter.step(&image, &body, &[]) {
        Ok(Action::Enter { rva, params }) => {
            assert_eq!(rva, 0x2050);
            assert_eq!(params.len(), STACK_SIZE);
            assert_eq!(params[0], Value::Int32(5));
            let at = interpreter.enter();
            assert_eq!(at, 1);
            let callee = &image.methods[&rva].body;
            assert!(matches!(interpreter.step(&image, callee, &params), Ok(Action::Return)));
            interpreter.leave(at);
        }
        _ => panic!("no call"),
    }
    assert!(matches!(interpreter.step(&image, &body, &[]), Ok(Action::Return)));
    assert!(matches!(
        Interpreter::new().step(&image, &[Instruction::Ret], &[]),
        Ok(Action::Return)
    ));
    let mut writer = Interpreter::new();
    let body = [Instruction::Ldc_I4_1, WRITE_INT];
    assert!(matches!(writer.step(&image, &body, &[]), Ok(Action::Continue)));
    assert!(matches!(
        writer.step(&image, &body, &[]),
        Ok(Action::Write(Output::Int(1)))
    ));
}

#[test]
fn popping_undoes_pushing() {
    let mut interpreter = Interpreter::new();
    interpreter.stack_push(Value::Int32(1));
    interpreter.stack_push(Value::String(2));
    assert_eq!(interpreter.stack_pop(), Value::String(2));
    interpreter.stack_push(Value::Int32(3));
    assert_eq!(interpreter.stack_pop(), Value::Int32(3));
    assert_eq!(interpreter.stack_pop(), Value::Int32(1));
}

#[test]
fn the_last_values_come_first() {
    let mut interpreter = Interpreter::new();
    for n in 1..6 {
        interpreter.stack_push(Value::Int32(n));
    }
    let last = interpreter.stack_pop_last_elements(2);
    assert_eq!(last.len(), STACK_SIZE - 3);
    assert_eq!(last[0], Value::Int32(4));
    assert_eq!(last[1], Value::Int32(5));
    assert_eq!(last[2], Value::Int32(0));
    assert_eq!(interpreter.stack_pop(), Value::Int32(3));
}

#[test]
fn values_are_integers_or_literals() {
    assert_eq!(Value::Int32(3).as_int32(), Some(3));
    assert_eq!(Value::Int32(3).as_string(), None);
    assert_eq!(Value::String(3).as_int32(), None);
    assert_eq!(Value::String(3).as_string(), Some(3));
    assert_eq!(Value::Int32(-3).add(Value::Int32(5)), Value::Int32(2));
    assert!(Value::Int32(5).ge(Value::Int32(5)));
    assert!(Value::Int32(6).ge(Value::Int32(5)));
    assert!(!Value::Int32(-6).ge(Value::Int32(5)));
}
