use std::collections::HashMap;

use yacht::exec::instruction::Instruction;
use yacht::exec::interpret::{Interpreter, Output};
use yacht::exec::jit::compiler::JITCompiler;
use yacht::exec::jit::module::{BinaryOp, Module, Op, Predicate, ValueRef};
use yacht::metadata::image::{
    AssemblyRefTable, Image, MemberRefTable, MethodDefTable, Table, Token, TypeRefTable,
};
use yacht::metadata::method::MethodBody;
use yacht::metadata::signature::{ElementType, MethodSignature, Type};

const WRITE_TEXT: Instruction = Instruction::Call { table: 0, entry: 1 };
const WRITE_INT: Instruction = Instruction::Call { table: 0, entry: 2 };

fn sig(params: usize, ret: ElementType) -> MethodSignature {
    MethodSignature {
        has_this: false,
        params: vec![Type::new(ElementType::I4); params],
        ret: Type::new(ret),
    }
}

fn method(name: &str, params: usize, ret: ElementType, body: Vec<Instruction>) -> MethodBody {
    MethodBody {
        name: name.to_string(),
        class: 0,
        signature: sig(params, ret),
        locals_ty: vec![],
        body,
    }
}

/// An image with the methods of the console and two literals.
fn image() -> Image {
    let mut strings = HashMap::new();
    for (i, s) in ["mscorlib", "System", "Console", "WriteLine"].iter().enumerate() {
        strings.insert(i as u32 + 1, s.to_string());
    }
    let mut user_strings: HashMap<u32, Vec<u16>> = HashMap::new();
    user_strings.insert(1, "less".encode_utf16().collect());
    user_strings.insert(2, "not less \u{1F980}".encode_utf16().collect());
    let mut signatures = HashMap::new();
    let mut text = sig(1, ElementType::Void);
    text.params = vec![Type::string_ty()];
    signatures.insert(1, text);
    signatures.insert(2, sig(1, ElementType::Void));
    let member = |signature: u32| {
        let class = Token { table: 1, entry: 1 };
        Table::MemberRef(MemberRefTable { class, name: 4, signature })
    };
    let resolution_scope = Token { table: 2, entry: 1 };
    Image {
        tables: vec![
            vec![member(1), member(2)],
            vec![Table::TypeRef(TypeRefTable { resolution_scope, name: 3, namespace: 2 })],
            vec![Table::AssemblyRef(AssemblyRefTable { name: 1 })],
            vec![],
        ],
        strings,
        user_strings,
        signatures,
        methods: HashMap::new(),
        classes: vec![],
    }
}

/// Adds a method with `params` integers that returns an integer; returns the
/// instruction that calls it.
fn define(image: &mut Image, params: usize, body: Vec<Instruction>) -> Instruction {
    let n = image.methods.len() as u32;
    let (rva, signature) = (0x2050 + n, 100 + n);
    let name = format!("f{}", n);
    image.signatures.insert(signature, sig(params, ElementType::I4));
    image.methods.insert(rva, method(&name, params, ElementType::I4, body));
    image.tables[3].push(Table::MethodDef(MethodDefTable { rva, signature }));
    Instruction::Call { table: 3, entry: image.tables[3].len() }
}

/// A value while compiled code runs.
#[derive(Clone, Copy, Debug, PartialEq)]
enum Val {
    Int(i32),
    Text(usize),
    Variable(usize),
    Nothing,
}

/// Runs compiled code.
struct Machine<'a> {
    module: &'a Module,
    vars: Vec<Val>,
    out: Vec<String>,
}

impl<'a> Machine<'a> {
    fn value(&self, regs: &HashMap<usize, Val>, args: &[Val], v: ValueRef) -> Val {
        match v {
            ValueRef::Inst(id) => regs[&id],
            ValueRef::Param { index, .. } => args[index],
            ValueRef::Int32(n) => Val::Int(n),
            ValueRef::Text(i) => Val::Text(i),
            ValueRef::Null(_) => Val::Int(0),
            ValueRef::SizeOf(_) => panic!("no objects here"),
        }
    }

    fn call(&mut self, function: usize, args: &[Val]) -> Val {
        let f = &self.module.functions[function];
        if f.blocks.is_empty() {
            match (f.name.as_str(), args[0]) {
                ("WriteLine(int)", Val::Int(n)) => self.out.push(format!("{}", n)),
                ("WriteLine(string)", Val::Text(i)) => {
                    self.out.push(self.module.strings[i].clone())
                }
                _ => panic!("no such call"),
            }
            return Val::Nothing;
        }
        let mut regs: HashMap<usize, Val> = HashMap::new();
        let mut block = f.blocks[0];
        let mut from = block;
        loop {
            let mut next = None;
            for id in &self.module.blocks[block].insts {
                let int = |v: ValueRef| match self.value(&regs, args, v) {
                    Val::Int(n) => n,
                    v => panic!("not an integer: {:?}", v),
                };
                let compare = |pred: Predicate, x: i32, y: i32| {
                    let holds = match pred {
                        Predicate::Equal => x == y,
                        Predicate::NotEqual => x != y,
                        Predicate::SignedGreaterEqual => x >= y,
                        Predicate::SignedGreater => x > y,
                        Predicate::SignedLessEqual => x <= y,
                        Predicate::SignedLess => x < y,
                    };
                    Val::Int(if holds { 1 } else { 0 })
                };
                let variable = |v: ValueRef| match self.value(&regs, args, v) {
                    Val::Variable(a) => a,
                    v => panic!("not a variable: {:?}", v),
                };
                let result = match &self.module.insts[*id].op {
                    Op::Alloca { .. } => {
                        self.vars.push(Val::Nothing);
                        Val::Variable(self.vars.len() - 1)
                    }
                    Op::Load { ptr } => self.vars[variable(*ptr)],
                    Op::Store { val, ptr } => {
                        let (a, v) = (variable(*ptr), self.value(&regs, args, *val));
                        self.vars[a] = v;
                        Val::Nothing
                    }
                    Op::Binary { op, lhs, rhs } => {
                        let (x, y) = (int(*lhs), int(*rhs));
                        Val::Int(match op {
                            BinaryOp::Add => x.wrapping_add(y),
                            BinaryOp::Sub => x.wrapping_sub(y),
                            BinaryOp::Mul => x.wrapping_mul(y),
                            BinaryOp::SRem => x % y,
                        })
                    }
                    Op::Compare { pred, lhs, rhs } => compare(*pred, int(*lhs), int(*rhs)),
                    Op::CompareNull { pred, val } => compare(*pred, int(*val), 0),
                    Op::Call { callee, args: list } => {
                        let list: Vec<Val> =
                            list.iter().map(|v| self.value(&regs, args, *v)).collect();
                        self.call(*callee, &list)
                    }
                    Op::Phi { .. } => {
                        let phi = ValueRef::Inst(*id);
                        let come = self
                            .module
                            .incoming
                            .iter()
                            .find(|i| i.phi == phi && i.block == from)
                            .unwrap();
                        self.value(&regs, args, come.val)
                    }
                    Op::Br { dest } => {
                        next = Some(*dest);
                        break;
                    }
                    Op::CondBr { cond, if_true, if_false } => {
                        next = Some(if int(*cond) != 0 { *if_true } else { *if_false });
                        break;
                    }
                    Op::RetVoid => return Val::Nothing,
                    Op::Ret { val } => return self.value(&regs, args, *val),
                    op => panic!("not here: {:?}", op),
                };
                regs.insert(*id, result);
            }
            from = block;
            block = next.unwrap();
        }
    }
}

/// What a program writes when it is compiled.
fn compiled(image: &Image, main: &MethodBody) -> Vec<String> {
    let mut compiler = JITCompiler::new(image);
    let f = compiler.generate_main(main).unwrap();
    let module = compiler.module();
    // all blocks have their terminators
    for f in &module.functions {
        assert!(f.blocks.iter().all(|b| module.has_terminator(*b)));
    }
    let mut machine = Machine { module, vars: vec![], out: vec![] };
    machine.call(f, &[]);
    machine.out
}

/// What a program writes when it is interpreted.
fn interpreted(image: &Image, main: &MethodBody) -> Vec<String> {
    let mut out = vec![];
    assert!(Interpreter::new().interpret(image, main, &[], 100_000, &mut out).is_ok());
    out.iter()
        .map(|o| match o {
            Output::Text(s) => s.clone(),
            Output::Int(n) => format!("{}", n),
        })
        .collect()
}

/// Checks what a program writes, both ways.
fn writes(image: &Image, body: Vec<Instruction>, lines: &[&str]) {
    let main = method("Main", 0, ElementType::Void, body);
    assert_eq!(interpreted(image, &main), lines);
    assert_eq!(compiled(image, &main), lines);
}

#[test]
fn straight_code_agrees() {
    writes(
        &image(),
        vec![
            Instruction::Ldstr { us_offset: 2 },
            WRITE_TEXT,
            Instruction::Ldc_I4_S { n: 40 },
            Instruction::Ldc_I4_1,
            Instruction::Ldc_I4_1,
            Instruction::Add,
            Instruction::Add,
            Instruction::Ldc_I4_0,
            Instruction::Pop,
            WRITE_INT,
            Instruction::Ret,
        ],
        &["not less \u{1F980}", "42"],
    );
}

#[test]
fn branches_agree() {
    for (x, y, line) in [(1, 2, "less"), (2, 2, "not less \u{1F980}"), (3, 2, "not less \u{1F980}")]
    {
        writes(
            &image(),
            vec![
                Instruction::Ldc_I4_S { n: x },
                Instruction::Ldc_I4_S { n: y },
                Instruction::Bge { target: 6 },
                Instruction::Ldstr { us_offset: 1 },
                WRITE_TEXT,
                Instruction::Ret,
                Instruction::Ldstr { us_offset: 2 },
                WRITE_TEXT,
                Instruction::Ret,
            ],
            &[line],
        );
    }
}

#[test]
fn a_value_stays_on_the_stack_across_a_branch() {
    // the value below the two that are compared is there in both blocks
    for (x, line) in [(5, "107"), (1, "101")] {
        writes(
            &image(),
            vec![
                Instruction::Ldc_I4_S { n: 100 },
                Instruction::Ldc_I4_S { n: x },
                Instruction::Ldc_I4_S { n: 3 },
                Instruction::Bge { target: 8 },
                Instruction::Ldc_I4_1,
                Instruction::Add,
                WRITE_INT,
                Instruction::Ret,
                Instruction::Ldc_I4_S { n: 7 },
                Instruction::Add,
                WRITE_INT,
                Instruction::Ret,
            ],
            &[line],
        );
    }
}

#[test]
fn calls_agree() {
    let mut image = image();
    // fib(x) = 1 >= x ? x : fib(x - 1) + fib(x - 2)
    let fib = Instruction::Call { table: 3, entry: 1 };
    let defined = define(
        &mut image,
        1,
        vec![
            Instruction::Ldc_I4_1,
            Instruction::Ldarg_0,
            Instruction::Bge { target: 13 },
            Instruction::Ldarg_0,
            Instruction::Ldc_I4_S { n: -1 },
            Instruction::Add,
            fib,
            Instruction::Ldarg_0,
            Instruction::Ldc_I4_S { n: -2 },
            Instruction::Add,
            fib,
            Instruction::Add,
            Instruction::Ret,
            Instruction::Ldarg_0,
            Instruction::Ret,
        ],
    );
    assert_eq!(fib, defined);
    let twice = define(
        &mut image,
        2,
        vec![
            Instruction::Ldarg_0,
            Instruction::Ldarg_1,
            Instruction::Ldarg_1,
            Instruction::Add,
            Instruction::Add,
            Instruction::Ret,
        ],
    );
    writes(
        &image,
        vec![
            Instruction::Ldc_I4_S { n: 10 },
            fib,
            WRITE_INT,
            Instruction::Ldc_I4_S { n: 7 },
            Instruction::Ldc_I4_S { n: 3 },
            fib,
            twice,
            WRITE_INT,
            Instruction::Ret,
        ],
        &["55", "11"],
    );
}
