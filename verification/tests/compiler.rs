use std::collections::HashMap;

use yacht::exec::instruction::Instruction;
use yacht::exec::jit::compiler::{CastIntoLLVMType, JITCompiler};
use yacht::exec::jit::error::Error;
use yacht::exec::jit::module::{BinaryOp, Incoming, LLVMType, Module, Op, Predicate, ValueRef};
use yacht::exec::jit::state::{BasicBlockInfo, Environment, TypedValue};
use yacht::exec::jit::types::{ClassTypesHolder, TypeTable};
use yacht::metadata::class::{ClassField, ClassInfo};
use yacht::metadata::image::{
    AssemblyRefTable, FieldTable, Image, MemberRefTable, MethodDefTable, Table, Token,
    TypeRefTable,
};
use yacht::metadata::method::MethodBody;
use yacht::metadata::signature::{ElementType, MethodSignature, Type};

const MEMBER: usize = 0;
const METHOD: usize = 3;
const FIELD: usize = 4;

const WRITE_TEXT: Instruction = Instruction::Call { table: MEMBER, entry: 1 };
const WRITE_INT: Instruction = Instruction::Call { table: MEMBER, entry: 2 };
const WRITE_BOOL: Instruction = Instruction::Call { table: MEMBER, entry: 3 };
const CONSTRUCT: Instruction = Instruction::Call { table: MEMBER, entry: 4 };

/// The functions that every module has.
const INT_WRITER: usize = 0;
const TEXT_WRITER: usize = 1;
const ALLOCATOR: usize = 2;
/// The function that the program starts with.
const MAIN: usize = 3;

fn sig(has_this: bool, params: &[ElementType], ret: ElementType) -> MethodSignature {
    MethodSignature {
        has_this,
        params: params.iter().map(|p| Type::new(*p)).collect(),
        ret: Type::new(ret),
    }
}

fn body(locals: &[ElementType], body: Vec<Instruction>) -> MethodBody {
    MethodBody {
        name: "Main".to_string(),
        class: 0,
        signature: sig(false, &[], ElementType::Void),
        locals_ty: locals.iter().map(|p| Type::new(*p)).collect(),
        body,
    }
}

fn class(namespace: &str, name: &str, fields: &[(&str, ElementType)]) -> ClassInfo {
    ClassInfo {
        name: name.to_string(),
        namespace: namespace.to_string(),
        fields: fields
            .iter()
            .map(|(name, ty)| ClassField { name: name.to_string(), ty: Type::new(*ty) })
            .collect(),
    }
}

/// An image with the methods of the console, two literals and two classes. The
/// class `Node` has fields `value`, `next` and `owner`, the class `Owner` a field
/// of the class `Node`.
fn image() -> Image {
    let mut strings = HashMap::new();
    let names = [
        "mscorlib", "System", "Console", "WriteLine", "Object", ".ctor", "value", "next", "owner",
    ];
    for (i, s) in names.iter().enumerate() {
        strings.insert(i as u32 + 1, s.to_string());
    }
    let mut user_strings: HashMap<u32, Vec<u16>> = HashMap::new();
    user_strings.insert(1, "Hello".encode_utf16().collect());
    user_strings.insert(9, vec![0xDC00, 0x21]);
    let mut signatures = HashMap::new();
    signatures.insert(1, sig(false, &[ElementType::String], ElementType::Void));
    signatures.insert(2, sig(false, &[ElementType::I4], ElementType::Void));
    signatures.insert(3, sig(false, &[ElementType::Boolean], ElementType::Void));
    signatures.insert(4, sig(true, &[], ElementType::Void));
    let member = |class: usize, name: u32, signature: u32| {
        let class = Token { table: 1, entry: class };
        Table::MemberRef(MemberRefTable { class, name, signature })
    };
    let type_ref = |name: u32| {
        let resolution_scope = Token { table: 2, entry: 1 };
        Table::TypeRef(TypeRefTable { resolution_scope, name, namespace: 2 })
    };
    Image {
        tables: vec![
            vec![member(1, 4, 1), member(1, 4, 2), member(1, 4, 3), member(2, 6, 4)],
            vec![type_ref(3), type_ref(5)],
            vec![Table::AssemblyRef(AssemblyRefTable { name: 1 })],
            vec![],
            vec![
                Table::Field(FieldTable { name: 7 }),
                Table::Field(FieldTable { name: 8 }),
                Table::Field(FieldTable { name: 9 }),
                Table::Field(FieldTable { name: 1 }),
            ],
        ],
        strings,
        user_strings,
        signatures,
        methods: HashMap::new(),
        classes: vec![
            class(
                "App",
                "Node",
                &[
                    ("value", ElementType::I4),
                    ("next", ElementType::Class(0)),
                    ("owner", ElementType::Class(1)),
                ],
            ),
            class("App", "Owner", &[("node", ElementType::Class(0)), ("on", ElementType::Boolean)]),
        ],
    }
}

/// Adds a method; returns its row.
fn define(
    image: &mut Image,
    name: &str,
    class: usize,
    signature: MethodSignature,
    body: Vec<Instruction>,
) -> usize {
    let rva = 0x2050 + image.methods.len() as u32 * 16;
    let m = MethodBody { name: name.to_string(), class, signature, locals_ty: vec![], body };
    image.methods.insert(rva, m);
    image.tables[METHOD].push(Table::MethodDef(MethodDefTable { rva, signature: 0 }));
    image.tables[METHOD].len()
}

fn call(entry: usize) -> Instruction {
    Instruction::Call { table: METHOD, entry }
}

fn inst(id: usize) -> ValueRef {
    ValueRef::Inst(id)
}

fn num(n: i32) -> ValueRef {
    ValueRef::Int32(n)
}

fn show(op: Op<Vec<ValueRef>>) -> String {
    format!("{:?}", op)
}

/// The instructions of each block of a function.
fn code(module: &Module, function: usize) -> Vec<Vec<String>> {
    module.functions[function]
        .blocks
        .iter()
        .map(|b| {
            assert_eq!(module.blocks[*b].function, function);
            module.blocks[*b].insts.iter().map(|i| show(module.insts[*i].op.clone())).collect()
        })
        .collect()
}

/// Compiles a program.
fn compile(image: &Image, main: &MethodBody) -> Result<Module, Error> {
    let mut compiler = JITCompiler::new(image);
    compiler.generate_main(main).map(|f| {
        assert_eq!(f, MAIN);
        let module = compiler.module().clone();
        // each instruction stands once, in its block
        for (i, inst) in module.insts.iter().enumerate() {
            let n = module.blocks[inst.block].insts.iter().filter(|k| **k == i).count();
            assert_eq!(n, 1);
        }
        let n: usize = module.blocks.iter().map(|b| b.insts.len()).sum();
        assert_eq!(n, module.insts.len());
        // what is called is compiled, what the engine provides is not
        for (i, f) in module.functions.iter().enumerate() {
            assert_eq!(f.blocks.is_empty(), i <= ALLOCATOR);
        }
        module
    })
}

fn fails(image: &Image, locals: &[ElementType], code: Vec<Instruction>) {
    assert_eq!(compile(image, &body(locals, code)).err(), Some(Error::CouldntCompile));
}

#[test]
fn a_new_module_has_what_the_engine_provides() {
    let image = image();
    let compiler = JITCompiler::new(&image);
    let module = compiler.module();
    let names: Vec<&str> = module.functions.iter().map(|f| f.name.as_str()).collect();
    assert_eq!(names, vec!["WriteLine(int)", "WriteLine(string)", "memory_alloc"]);
    assert_eq!(module.functions[INT_WRITER].params, vec![LLVMType::Int32]);
    assert_eq!(module.functions[INT_WRITER].ret, LLVMType::Void);
    assert_eq!(module.functions[TEXT_WRITER].params, vec![LLVMType::Int8Ptr]);
    assert_eq!(module.functions[TEXT_WRITER].ret, LLVMType::Void);
    assert_eq!(module.functions[ALLOCATOR].params, vec![LLVMType::Int32]);
    assert_eq!(module.functions[ALLOCATOR].ret, LLVMType::Int8Ptr);
    assert_eq!(compiler.builtin_function("WriteLine(int)"), Some(INT_WRITER));
    assert_eq!(compiler.builtin_function("WriteLine(string)"), Some(TEXT_WRITER));
    assert_eq!(compiler.builtin_function("memory_alloc"), Some(ALLOCATOR));
    assert_eq!(compiler.builtin_function("WriteLine"), None);
    assert!(compiler.types().structs.is_empty());
}

#[test]
fn literals_and_constants_are_written() {
    let main = body(
        &[],
        vec![
            Instruction::Ldstr { us_offset: 1 },
            WRITE_TEXT,
            Instruction::Ldstr { us_offset: 9 },
            WRITE_TEXT,
            Instruction::Ldc_I4 { n: -5 },
            WRITE_INT,
            Instruction::Ldc_I4_3,
            WRITE_BOOL,
            CONSTRUCT,
            Instruction::Pop,
            Instruction::Ret,
        ],
    );
    let module = compile(&image(), &main).unwrap();
    assert_eq!(module.strings, vec!["Hello", "\u{FFFD}!"]);
    assert_eq!(module.functions[MAIN].name, "yacht-Main");
    assert_eq!(module.functions[MAIN].ret, LLVMType::Void);
    assert!(module.functions[MAIN].params.is_empty());
    assert_eq!(
        code(&module, MAIN),
        vec![vec![
            show(Op::Call { callee: TEXT_WRITER, args: vec![ValueRef::Text(0)] }),
            show(Op::Call { callee: TEXT_WRITER, args: vec![ValueRef::Text(1)] }),
            show(Op::Call { callee: INT_WRITER, args: vec![num(-5)] }),
            show(Op::RetVoid),
        ]]
    );
}

#[test]
fn operations_take_the_lower_value_first() {
    let ops = [
        (Instruction::Add, BinaryOp::Add),
        (Instruction::Sub, BinaryOp::Sub),
        (Instruction::Mul, BinaryOp::Mul),
        (Instruction::Rem, BinaryOp::SRem),
    ];
    for (instr, op) in ops.iter() {
        let main = body(
            &[],
            vec![
                Instruction::Ldc_I4_2,
                Instruction::Ldc_I4_S { n: 7 },
                *instr,
                WRITE_INT,
                Instruction::Ret,
            ],
        );
        let module = compile(&image(), &main).unwrap();
        assert_eq!(
            code(&module, MAIN),
            vec![vec![
                show(Op::Binary { op: *op, lhs: num(2), rhs: num(7) }),
                show(Op::Call { callee: INT_WRITER, args: vec![inst(0)] }),
                show(Op::RetVoid),
            ]]
        );
    }
}

#[test]
fn variables_are_allocated_first() {
    let main = body(
        &[ElementType::I4, ElementType::String],
        vec![
            Instruction::Ldc_I4_1,
            Instruction::Stloc_0,
            Instruction::Ldstr { us_offset: 1 },
            Instruction::Stloc_1,
            Instruction::Ldloc_0,
            WRITE_INT,
            Instruction::Ldloc_1,
            WRITE_TEXT,
            Instruction::Ret,
        ],
    );
    let module = compile(&image(), &main).unwrap();
    assert_eq!(
        code(&module, MAIN),
        vec![vec![
            show(Op::Alloca { ty: LLVMType::Int8Ptr }),
            show(Op::Alloca { ty: LLVMType::Int32 }),
            show(Op::Store { val: num(1), ptr: inst(0) }),
            show(Op::Store { val: ValueRef::Text(0), ptr: inst(1) }),
            show(Op::Load { ptr: inst(0) }),
            show(Op::Call { callee: INT_WRITER, args: vec![inst(4)] }),
            show(Op::Load { ptr: inst(1) }),
            show(Op::Call { callee: TEXT_WRITER, args: vec![inst(6)] }),
            show(Op::RetVoid),
        ]]
    );
}

#[test]
fn branches_compare() {
    let two = [
        (Instruction::Bge { target: 4 }, Predicate::SignedGreaterEqual),
        (Instruction::Bgt { target: 4 }, Predicate::SignedGreater),
        (Instruction::Ble { target: 4 }, Predicate::SignedLessEqual),
        (Instruction::Blt { target: 4 }, Predicate::SignedLess),
        (Instruction::Bne_un { target: 4 }, Predicate::NotEqual),
    ];
    for (instr, pred) in two.iter() {
        let main = body(
            &[],
            vec![
                Instruction::Ldc_I4_0,
                Instruction::Ldc_I4_1,
                *instr,
                CONSTRUCT,
                Instruction::Ret,
            ],
        );
        let module = compile(&image(), &main).unwrap();
        assert_eq!(
            code(&module, MAIN),
            vec![
                vec![
                    show(Op::Compare { pred: *pred, lhs: num(0), rhs: num(1) }),
                    show(Op::CondBr { cond: inst(0), if_true: 2, if_false: 1 }),
                ],
                vec![show(Op::Br { dest: 2 })],
                vec![show(Op::RetVoid)],
            ]
        );
    }
    let one = [
        (Instruction::Brfalse { target: 3 }, Predicate::Equal),
        (Instruction::Brtrue { target: 3 }, Predicate::NotEqual),
    ];
    for (instr, pred) in one.iter() {
        let main =
            body(&[], vec![Instruction::Ldc_I4_0, *instr, CONSTRUCT, Instruction::Ret]);
        let module = compile(&image(), &main).unwrap();
        assert_eq!(
            code(&module, MAIN),
            vec![
                vec![
                    show(Op::CompareNull { pred: *pred, val: num(0) }),
                    show(Op::CondBr { cond: inst(0), if_true: 2, if_false: 1 }),
                ],
                vec![show(Op::Br { dest: 2 })],
                vec![show(Op::RetVoid)],
            ]
        );
    }
}

#[test]
fn a_loop_is_compiled() {
    // i = 0; while (i < 3) i = i + 1;
    let main = body(
        &[ElementType::I4],
        vec![
            Instruction::Ldc_I4_0,
            Instruction::Stloc_0,
            Instruction::Br { target: 7 },
            Instruction::Ldloc_0,
            Instruction::Ldc_I4_1,
            Instruction::Add,
            Instruction::Stloc_0,
            Instruction::Ldloc_0,
            Instruction::Ldc_I4_3,
            Instruction::Blt { target: 3 },
            Instruction::Ret,
        ],
    );
    let module = compile(&image(), &main).unwrap();
    let f = &module.functions[MAIN];
    assert_eq!(f.blocks, vec![0, 1, 2, 3]);
    assert_eq!(
        code(&module, MAIN),
        vec![
            vec![
                show(Op::Alloca { ty: LLVMType::Int32 }),
                show(Op::Store { val: num(0), ptr: inst(0) }),
                show(Op::Br { dest: 2 }),
            ],
            vec![
                show(Op::Load { ptr: inst(0) }),
                show(Op::Binary { op: BinaryOp::Add, lhs: inst(3), rhs: num(1) }),
                show(Op::Store { val: inst(4), ptr: inst(0) }),
                show(Op::Br { dest: 2 }),
            ],
            vec![
                show(Op::Load { ptr: inst(0) }),
                show(Op::Compare { pred: Predicate::SignedLess, lhs: inst(7), rhs: num(3) }),
                show(Op::CondBr { cond: inst(8), if_true: 1, if_false: 3 }),
            ],
            vec![show(Op::RetVoid)],
        ]
    );
    assert!(module.incoming.is_empty());
}

#[test]
fn what_comes_in_from_two_blocks_is_merged() {
    // WriteLine(1 ? 2 : 3)
    let main = body(
        &[],
        vec![
            Instruction::Ldc_I4_1,
            Instruction::Brtrue { target: 4 },
            Instruction::Ldc_I4_3,
            Instruction::Br { target: 5 },
            Instruction::Ldc_I4_2,
            WRITE_INT,
            Instruction::Ret,
        ],
    );
    let module = compile(&image(), &main).unwrap();
    // blocks: 0 at 0, 1 at 2, 2 at 4, 3 at 5
    assert_eq!(
        code(&module, MAIN),
        vec![
            vec![
                show(Op::CompareNull { pred: Predicate::NotEqual, val: num(1) }),
                show(Op::CondBr { cond: inst(0), if_true: 2, if_false: 1 }),
            ],
            vec![show(Op::Br { dest: 3 })],
            vec![show(Op::Br { dest: 3 })],
            vec![
                show(Op::Phi { like: num(2) }),
                show(Op::Call { callee: INT_WRITER, args: vec![inst(4)] }),
                show(Op::RetVoid),
            ],
        ]
    );
    assert_eq!(
        module.incoming,
        vec![
            Incoming { phi: inst(4), val: num(2), block: 2 },
            Incoming { phi: inst(4), val: num(3), block: 1 },
        ]
    );
}

#[test]
fn stacks_that_do_not_fit_are_refused() {
    // one block brings one value, the other two
    fails(
        &image(),
        &[],
        vec![
            Instruction::Ldc_I4_1,
            Instruction::Brtrue { target: 5 },
            Instruction::Ldc_I4_3,
            Instruction::Ldc_I4_3,
            Instruction::Br { target: 6 },
            Instruction::Ldc_I4_2,
            WRITE_INT,
            Instruction::Ret,
        ],
    );
}

#[test]
fn a_called_method_is_compiled_once() {
    let mut image = image();
    // f(x) = x < 2 ? x : f(x - 1)
    let f = define(
        &mut image,
        "f",
        0,
        sig(false, &[ElementType::I4], ElementType::I4),
        vec![
            Instruction::Ldarg_0,
            Instruction::Ldc_I4_2,
            Instruction::Bge { target: 5 },
            Instruction::Ldarg_0,
            Instruction::Ret,
            Instruction::Ldarg_0,
            Instruction::Ldc_I4_1,
            Instruction::Sub,
            call(1),
            Instruction::Ret,
        ],
    );
    let main = body(
        &[],
        vec![
            Instruction::Ldc_I4_S { n: 8 },
            call(f),
            WRITE_INT,
            Instruction::Ldc_I4_S { n: 9 },
            call(f),
            Instruction::Pop,
            Instruction::Ret,
        ],
    );
    let module = compile(&image, &main).unwrap();
    assert_eq!(module.functions.len(), 5);
    assert_eq!(module.functions[4].name, "f");
    assert_eq!(module.functions[4].params, vec![LLVMType::Int32]);
    assert_eq!(module.functions[4].ret, LLVMType::Int32);
    assert_eq!(
        code(&module, MAIN),
        vec![vec![
            show(Op::Call { callee: 4, args: vec![num(8)] }),
            show(Op::Call { callee: INT_WRITER, args: vec![inst(0)] }),
            show(Op::Call { callee: 4, args: vec![num(9)] }),
            show(Op::RetVoid),
        ]]
    );
    let parameter = ValueRef::Param { function: 4, index: 0 };
    assert_eq!(
        code(&module, 4),
        vec![
            vec![
                show(Op::Alloca { ty: LLVMType::Int32 }),
                show(Op::Store { val: parameter, ptr: inst(4) }),
                show(Op::Load { ptr: inst(4) }),
                show(Op::Compare {
                    pred: Predicate::SignedGreaterEqual,
                    lhs: inst(6),
                    rhs: num(2),
                }),
                show(Op::CondBr { cond: inst(7), if_true: 3, if_false: 2 }),
            ],
            vec![show(Op::Load { ptr: inst(4) }), show(Op::Ret { val: inst(13) })],
            vec![
                show(Op::Load { ptr: inst(4) }),
                show(Op::Binary { op: BinaryOp::Sub, lhs: inst(9), rhs: num(1) }),
                show(Op::Call { callee: 4, args: vec![inst(10)] }),
                show(Op::Ret { val: inst(11) }),
            ],
        ]
    );
}

#[test]
fn arguments_are_in_the_order_of_the_parameters() {
    let mut image = image();
    let f = define(
        &mut image,
        "f",
        0,
        sig(false, &[ElementType::I4, ElementType::String, ElementType::Boolean], ElementType::Void),
        vec![Instruction::Ldarg_1, WRITE_TEXT, Instruction::Ret],
    );
    let main = body(
        &[],
        vec![
            Instruction::Ldc_I4_1,
            Instruction::Ldstr { us_offset: 1 },
            Instruction::Ldc_I4_0,
            call(f),
            Instruction::Ret,
        ],
    );
    let module = compile(&image, &main).unwrap();
    assert_eq!(
        module.functions[4].params,
        vec![LLVMType::Int32, LLVMType::Int8Ptr, LLVMType::Int8]
    );
    assert_eq!(
        code(&module, MAIN),
        vec![vec![
            show(Op::Call { callee: 4, args: vec![num(1), ValueRef::Text(0), num(0)] }),
            show(Op::RetVoid),
        ]]
    );
    let p = |index: usize| ValueRef::Param { function: 4, index };
    assert_eq!(
        code(&module, 4),
        vec![vec![
            show(Op::Alloca { ty: LLVMType::Int8 }),
            show(Op::Alloca { ty: LLVMType::Int8Ptr }),
            show(Op::Alloca { ty: LLVMType::Int32 }),
            show(Op::Store { val: p(0), ptr: inst(2) }),
            show(Op::Store { val: p(1), ptr: inst(4) }),
            show(Op::Store { val: p(2), ptr: inst(6) }),
            show(Op::Load { ptr: inst(4) }),
            show(Op::Call { callee: TEXT_WRITER, args: vec![inst(8)] }),
            show(Op::RetVoid),
        ]]
    );
}

#[test]
fn objects_are_made_and_used() {
    let mut image = image();
    let constructor = define(
        &mut image,
        ".ctor",
        0,
        sig(true, &[ElementType::I4], ElementType::Void),
        vec![
            Instruction::Ldarg_0,
            CONSTRUCT,
            Instruction::Ldarg_1,
            Instruction::Stfld { table: FIELD, entry: 1 },
            Instruction::Ret,
        ],
    );
    let get = define(
        &mut image,
        "Get",
        0,
        sig(true, &[], ElementType::I4),
        vec![
            Instruction::Ldarg_0,
            Instruction::Ldfld { table: FIELD, entry: 1 },
            Instruction::Ret,
        ],
    );
    let main = body(
        &[],
        vec![
            Instruction::Ldc_I4_3,
            Instruction::Newobj { table: METHOD, entry: constructor },
            Instruction::CallVirt { table: METHOD, entry: get },
            WRITE_INT,
            Instruction::Ret,
        ],
    );
    let module = compile(&image, &main).unwrap();
    let node = LLVMType::StructPtr(0);
    assert_eq!(module.functions[4].name, ".ctor");
    assert_eq!(module.functions[4].params, vec![node, LLVMType::Int32]);
    assert_eq!(module.functions[5].name, "Get");
    assert_eq!(module.functions[5].params, vec![node]);
    assert_eq!(module.functions[5].ret, LLVMType::Int32);
    assert_eq!(
        code(&module, MAIN),
        vec![vec![
            show(Op::Call { callee: ALLOCATOR, args: vec![ValueRef::SizeOf(node)] }),
            show(Op::Cast { val: inst(0), ty: node }),
            show(Op::Call { callee: 4, args: vec![inst(1), num(3)] }),
            show(Op::Call { callee: 5, args: vec![inst(1)] }),
            show(Op::Call { callee: INT_WRITER, args: vec![inst(3)] }),
            show(Op::RetVoid),
        ]]
    );
    let get_code = code(&module, 5);
    let n = module.blocks[module.functions[5].blocks[0]].insts[0];
    assert_eq!(
        get_code,
        vec![vec![
            show(Op::Alloca { ty: node }),
            show(Op::Store { val: ValueRef::Param { function: 5, index: 0 }, ptr: inst(n) }),
            show(Op::Load { ptr: inst(n) }),
            show(Op::Field { obj: inst(n + 2), index: 0 }),
            show(Op::Load { ptr: inst(n + 3) }),
            show(Op::Ret { val: inst(n + 4) }),
        ]]
    );
}

#[test]
fn a_block_without_terminator_returns() {
    // nothing to return: the last block returns
    let module = compile(&image(), &body(&[], vec![CONSTRUCT])).unwrap();
    assert_eq!(code(&module, MAIN), vec![vec![show(Op::RetVoid)]]);
    // something to return: every block returns the null value
    let mut image = image();
    let f = define(
        &mut image,
        "f",
        0,
        sig(false, &[], ElementType::String),
        vec![CONSTRUCT],
    );
    let main = body(&[], vec![call(f), WRITE_TEXT, Instruction::Ret]);
    let module = compile(&image, &main).unwrap();
    let null = ValueRef::Null(LLVMType::Int8Ptr);
    assert_eq!(code(&module, 4), vec![vec![show(Op::Ret { val: null })]]);
    // two blocks start at the branch that is entered from both sides
    let mut image = self::image();
    let g = define(
        &mut image,
        "g",
        0,
        sig(false, &[], ElementType::I4),
        vec![
            Instruction::Ldc_I4_0,
            Instruction::Brtrue { target: 3 },
            CONSTRUCT,
            Instruction::Br { target: 5 },
            Instruction::Br { target: 3 },
            Instruction::Ldc_I4_0,
            Instruction::Ret,
        ],
    );
    let main = body(&[], vec![call(g), WRITE_INT, Instruction::Ret]);
    let module = compile(&image, &main).unwrap();
    for b in &module.functions[4].blocks {
        assert!(module.has_terminator(*b));
    }
}

#[test]
fn operations_on_constants_are_not_behind_a_return() {
    let one = Instruction::Ldc_I4_1;
    // LLVM computes the sums at once, and the block still ends in the return
    let main = body(&[], vec![Instruction::Ret, one, one, Instruction::Add]);
    let module = compile(&image(), &main).unwrap();
    let sum = show(Op::Binary { op: BinaryOp::Add, lhs: num(1), rhs: num(1) });
    assert_eq!(code(&module, MAIN), vec![vec![show(Op::RetVoid), sum]]);
    let main = body(
        &[],
        vec![Instruction::Ret, one, one, Instruction::Add, one, Instruction::Sub],
    );
    let module = compile(&image(), &main).unwrap();
    assert_eq!(code(&module, MAIN)[0].len(), 3);
    // what a variable holds is no constant
    let main = body(
        &[ElementType::I4],
        vec![Instruction::Ret, Instruction::Ldloc_0, one, Instruction::Add],
    );
    let module = compile(&image(), &main).unwrap();
    assert_eq!(
        code(&module, MAIN),
        vec![vec![
            show(Op::Alloca { ty: LLVMType::Int32 }),
            show(Op::RetVoid),
            show(Op::Load { ptr: inst(0) }),
            show(Op::Binary { op: BinaryOp::Add, lhs: inst(2), rhs: num(1) }),
            show(Op::RetVoid),
        ]]
    );
}

#[test]
fn operations_on_constants_are_told_apart() {
    let mut module = Module::new();
    let f = module.add_function("f".to_string(), LLVMType::Void, vec![LLVMType::Int32]);
    let bb = module.append_block(f);
    let param = ValueRef::Param { function: f, index: 0 };
    let null = ValueRef::Null(LLVMType::StructPtr(0));
    let ops = [
        (Op::RetVoid, false),
        (Op::Binary { op: BinaryOp::Mul, lhs: num(2), rhs: num(3) }, true),
        (Op::Compare { pred: Predicate::Equal, lhs: inst(1), rhs: num(6) }, true),
        (Op::CompareNull { pred: Predicate::NotEqual, val: inst(1) }, true),
        (Op::Field { obj: null, index: 1 }, true),
        (Op::Cast { val: inst(4), ty: LLVMType::Int8Ptr }, true),
        (Op::Cast { val: ValueRef::Text(0), ty: LLVMType::Int8Ptr }, true),
        (
            Op::Binary {
                op: BinaryOp::SRem,
                lhs: ValueRef::SizeOf(LLVMType::StructPtr(0)),
                rhs: num(0),
            },
            true,
        ),
    ];
    for (op, folds) in ops {
        let id = module.insts.len();
        module.append(bb, op);
        assert_eq!(module.folds(id), folds);
        assert!(module.has_terminator(bb));
    }
    let others = [
        Op::Binary { op: BinaryOp::Add, lhs: num(1), rhs: param },
        Op::Binary { op: BinaryOp::Add, lhs: param, rhs: num(1) },
        Op::Compare { pred: Predicate::Equal, lhs: inst(8), rhs: num(1) },
        Op::CompareNull { pred: Predicate::Equal, val: inst(8) },
        Op::Field { obj: param, index: 0 },
        Op::Cast { val: param, ty: LLVMType::Int8Ptr },
        Op::Load { ptr: null },
        Op::Store { val: num(1), ptr: null },
        Op::Alloca { ty: LLVMType::Int32 },
        Op::Phi { like: num(1) },
        Op::Call { callee: f, args: vec![num(1)] },
    ];
    for op in others {
        let id = module.insts.len();
        module.append(bb, op);
        assert!(!module.folds(id));
        assert!(!module.has_terminator(bb));
    }
    // nothing but such operations: no terminator
    let other = module.append_block(f);
    module.append(other, Op::Binary { op: BinaryOp::Add, lhs: num(1), rhs: num(1) });
    assert!(!module.has_terminator(other));
}

#[test]
fn a_return_for_a_left_over_block_goes_to_the_last_one() {
    // two blocks start at the branch at 3, so one is left over
    let main = body(
        &[],
        vec![
            Instruction::Ldc_I4_0,
            Instruction::Brtrue { target: 3 },
            CONSTRUCT,
            Instruction::Br { target: 5 },
            Instruction::Br { target: 3 },
            Instruction::Ret,
        ],
    );
    let module = compile(&image(), &main).unwrap();
    let blocks = &module.functions[MAIN].blocks;
    let open: Vec<&usize> = blocks.iter().filter(|b| !module.has_terminator(**b)).collect();
    assert_eq!(open.len(), 1);
    assert!(module.blocks[*open[0]].insts.is_empty());
    assert_eq!(code(&module, MAIN).last(), Some(&vec![show(Op::RetVoid), show(Op::RetVoid)]));
}

#[test]
fn what_cannot_be_compiled_is_refused() {
    let mut image = image();
    let bodiless = define(&mut image, "f", 0, sig(false, &[], ElementType::Void), vec![]);
    image.methods.clear();
    let plain =
        define(&mut image, "g", 0, sig(false, &[ElementType::I4], ElementType::Void), vec![
            Instruction::Ret,
        ]);
    let strange = define(
        &mut image,
        "h",
        0,
        sig(false, &[], ElementType::Other(0x1c)),
        vec![Instruction::Ret],
    );
    let bad_class =
        define(&mut image, "k", 7, sig(true, &[], ElementType::Void), vec![Instruction::Ret]);
    let one = Instruction::Ldc_I4_1;
    let cases = vec![
        vec![Instruction::Add],
        vec![one, Instruction::Add],
        vec![Instruction::Stloc_0],
        vec![Instruction::Ldloc_0],
        vec![one, Instruction::Stloc_1],
        vec![Instruction::Ldarg_0],
        vec![Instruction::Ldarg_1],
        vec![Instruction::Brtrue { target: 0 }],
        vec![one, Instruction::Bge { target: 0 }],
        vec![one, one, Instruction::Beq { target: 0 }],
        vec![Instruction::Br { target: 2 }],
        vec![Instruction::Ldstr { us_offset: 2 }],
        vec![WRITE_INT],
        vec![Instruction::Call { table: MEMBER, entry: 9 }],
        vec![Instruction::Call { table: FIELD, entry: 1 }],
        vec![call(bodiless)],
        vec![call(plain)],
        vec![call(strange)],
        vec![one, Instruction::CallVirt { table: METHOD, entry: plain }],
        vec![Instruction::CallVirt { table: METHOD, entry: bad_class }],
        vec![one, Instruction::CallVirt { table: METHOD, entry: bad_class }],
        vec![one, Instruction::Newobj { table: METHOD, entry: plain }],
        vec![Instruction::Newobj { table: METHOD, entry: bad_class }],
        vec![Instruction::Newobj { table: FIELD, entry: 1 }],
        vec![one, Instruction::Ldfld { table: FIELD, entry: 1 }],
        vec![one, one, Instruction::Stfld { table: FIELD, entry: 1 }],
        vec![one, Instruction::Stfld { table: FIELD, entry: 1 }],
    ];
    for case in cases {
        fails(&image, &[], case);
    }
    fails(&image, &[ElementType::Other(0x0e)], vec![Instruction::Ret]);
    // what is ignored is not refused
    let ignored = vec![
        Instruction::CallVirt { table: MEMBER, entry: 4 },
        Instruction::Newobj { table: MEMBER, entry: 4 },
        Instruction::Pop,
        Instruction::Ret,
    ];
    assert!(compile(&image, &body(&[], ignored)).is_ok());
}

#[test]
fn a_field_is_found_by_its_name() {
    let mut image = image();
    let swap = define(
        &mut image,
        "Swap",
        0,
        sig(true, &[ElementType::Class(1)], ElementType::Void),
        vec![
            Instruction::Ldarg_0,
            Instruction::Ldarg_1,
            Instruction::Stfld { table: FIELD, entry: 3 },
            Instruction::Ldarg_0,
            Instruction::Ldfld { table: FIELD, entry: 2 },
            Instruction::Pop,
            Instruction::Ret,
        ],
    );
    let constructor =
        define(&mut image, ".ctor", 0, sig(true, &[], ElementType::Void), vec![Instruction::Ret]);
    let new = Instruction::Newobj { table: METHOD, entry: constructor };
    let main = body(
        &[],
        vec![new, new, Instruction::CallVirt { table: METHOD, entry: swap }, Instruction::Ret],
    );
    let mut compiler = JITCompiler::new(&image);
    assert_eq!(compiler.generate_main(&main), Ok(MAIN));
    let module = compiler.module();
    let swap_fn = module.functions.iter().position(|f| f.name == "Swap").unwrap();
    assert_eq!(
        module.functions[swap_fn].params,
        vec![LLVMType::StructPtr(0), LLVMType::StructPtr(1)]
    );
    let all: String = code(module, swap_fn).concat().concat();
    assert!(all.contains("index: 2"));
    assert!(all.contains("index: 1"));
    // the structures: a node has a node and an owner, an owner a node
    let structs = &compiler.types().structs;
    assert_eq!(structs.len(), 2);
    assert_eq!(structs[0].name, "Node");
    assert_eq!(
        structs[0].body,
        Some(vec![LLVMType::Int32, LLVMType::StructPtr(0), LLVMType::StructPtr(1)])
    );
    assert_eq!(structs[1].name, "Owner");
    assert_eq!(structs[1].body, Some(vec![LLVMType::StructPtr(0), LLVMType::Int8]));
    // a field that the class does not have
    fails(
        &image,
        &[],
        vec![new, Instruction::Ldfld { table: FIELD, entry: 4 }, Instruction::Ret],
    );
}

#[test]
fn types_have_llvm_types() {
    let image = image();
    let mut compiler = JITCompiler::new(&image);
    let cases = [
        (ElementType::Void, LLVMType::Void),
        (ElementType::Boolean, LLVMType::Int8),
        (ElementType::I4, LLVMType::Int32),
        (ElementType::String, LLVMType::Int8Ptr),
        (ElementType::Class(1), LLVMType::StructPtr(0)),
        (ElementType::Class(0), LLVMType::StructPtr(1)),
        // once more: nothing new
        (ElementType::Class(1), LLVMType::StructPtr(0)),
    ];
    for (base, lty) in cases.iter() {
        assert_eq!(Type::new(*base).to_llvmty(&mut compiler), Ok(*lty));
    }
    assert_eq!(compiler.types().structs.len(), 2);
    for base in [ElementType::Other(0x1d), ElementType::Class(2)].iter() {
        assert_eq!(Type::new(*base).to_llvmty(&mut compiler), Err(Error::CouldntCompile));
    }
}

#[test]
fn classes_are_told_apart_by_namespace_and_name() {
    let a = class("A", "X", &[]);
    let b = class("B", "X", &[]);
    let c = class("A", "Y", &[]);
    let mut holder = ClassTypesHolder::new();
    assert_eq!(holder.get(&a), None);
    holder.add(&a, LLVMType::StructPtr(0));
    assert_eq!(holder.get(&b), None);
    assert_eq!(holder.get(&c), None);
    holder.add(&b, LLVMType::StructPtr(1));
    holder.add(&c, LLVMType::StructPtr(2));
    assert_eq!(holder.get(&a), Some(LLVMType::StructPtr(0)));
    assert_eq!(holder.get(&b), Some(LLVMType::StructPtr(1)));
    assert_eq!(holder.get(&c), Some(LLVMType::StructPtr(2)));
    holder.add(&a, LLVMType::StructPtr(9));
    assert_eq!(holder.get(&a), Some(LLVMType::StructPtr(9)));
}

#[test]
fn several_types_are_asked_for_in_order() {
    let image = image();
    let mut types = TypeTable::new();
    let tys = vec![Type::new(ElementType::Class(1)), Type::i4_ty(), Type::new(ElementType::Class(0))];
    assert_eq!(
        types.lower_all(&image, &tys),
        Ok(vec![LLVMType::StructPtr(0), LLVMType::Int32, LLVMType::StructPtr(1)])
    );
    assert_eq!(types.lower_class(&image, 0), Ok(LLVMType::StructPtr(1)));
    assert_eq!(types.lower(&image, &Type::string_ty()), Ok(LLVMType::Int8Ptr));
    let bad = vec![Type::i4_ty(), Type::new(ElementType::Other(1))];
    assert_eq!(types.lower_all(&image, &bad), Err(Error::CouldntCompile));
}

#[test]
fn a_block_remembers_whether_the_builder_was_there() {
    let mut info = BasicBlockInfo::Unpositioned(4);
    assert!(!info.is_positioned());
    assert_eq!(info.retrieve(), 4);
    assert_eq!(info.set_positioned().retrieve(), 4);
    assert!(info.is_positioned());
    assert_eq!(info, BasicBlockInfo::Positioned(4));
    assert_eq!(info.set_positioned(), &BasicBlockInfo::Positioned(4));
}

#[test]
fn a_new_environment_is_empty() {
    let env = Environment::new();
    assert!(env.arguments.is_empty());
    assert!(env.locals.is_empty());
    let v = TypedValue::new(Type::i4_ty(), num(3));
    assert_eq!(v.ty, Type::new(ElementType::I4));
    assert_eq!(v.val, num(3));
}

#[test]
fn a_module_grows_at_both_ends_of_a_block() {
    let mut module = Module::new();
    let f = module.add_function("f".to_string(), LLVMType::Int32, vec![LLVMType::Int8]);
    let bb = module.append_block(f);
    assert!(!module.has_terminator(bb));
    assert_eq!(module.append(bb, Op::Load { ptr: num(0) }), inst(0));
    assert!(!module.has_terminator(bb));
    assert_eq!(module.prepend(bb, Op::Alloca { ty: LLVMType::Int8 }), inst(1));
    assert_eq!(module.append(bb, Op::Ret { val: inst(0) }), inst(2));
    assert!(module.has_terminator(bb));
    assert_eq!(module.blocks[bb].insts, vec![1, 0, 2]);
    assert_eq!(module.functions[f].blocks, vec![bb]);
    assert_eq!(module.add_string("s".to_string()), ValueRef::Text(0));
    module.add_incoming(Incoming { phi: inst(0), val: num(1), block: bb });
    assert_eq!(module.incoming.len(), 1);
    let g = module.append_block(f);
    for op in [Op::Br { dest: bb }, Op::RetVoid] {
        module.append(g, op);
        assert!(module.has_terminator(g));
    }
    module.append(g, Op::CondBr { cond: inst(0), if_true: bb, if_false: g });
    assert!(module.has_terminator(g));
}

#[test]
fn a_compiler_can_be_used_again() {
    let image = image();
    let mut compiler = JITCompiler::new(&image);
    let main = body(&[], vec![Instruction::Ret]);
    assert_eq!(compiler.generate_main(&main), Ok(3));
    assert_eq!(compiler.generate_main(&main), Ok(4));
    assert_eq!(code(compiler.module(), 3), code(compiler.module(), 4));
}
