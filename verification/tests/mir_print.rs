use slopic_core::ast::Type;
use slopic_core::diagnostic::Span;
use slopic_core::mir::{
    BasicBlock, BinaryOp, Instruction, MirEnum, MirFunction, MirLocal, MirModule, MirStruct,
    MirTest, MirVariant, Statement, Terminator,
};
use slopic_core::mir_print::{render_function, render_module};

fn at(line: usize, column: usize, start: usize) -> Span {
    Span {
        start,
        end: start + 1,
        line,
        column,
    }
}

fn local(ty: Type, name: Option<&str>, is_param: bool) -> MirLocal {
    MirLocal {
        ty,
        name: name.map(|n| n.to_string()),
        is_param,
    }
}

fn block(statements: Vec<(Instruction, Span)>, terminator: Terminator, span: Span) -> BasicBlock {
    BasicBlock {
        statements: statements
            .into_iter()
            .map(|(instruction, span)| Statement { instruction, span })
            .collect(),
        terminator,
        terminator_span: span,
    }
}

fn function(name: &str, params: Vec<usize>, locals: Vec<MirLocal>, return_type: Type, blocks: Vec<BasicBlock>) -> MirFunction {
    MirFunction {
        name: name.to_string(),
        emit: true,
        inline_hint: false,
        params,
        return_type,
        locals,
        blocks,
        entry: 0,
        span: Span::default(),
    }
}

fn module(functions: Vec<MirFunction>, structs: Vec<MirStruct>, enums: Vec<MirEnum>) -> MirModule {
    MirModule {
        functions,
        externs: Vec::new(),
        tests: Vec::new(),
        structs,
        enums,
    }
}

/// `(fn main () -> i32 (if true 1 0))`, as lowering writes it.
fn main_with_a_branch() -> MirFunction {
    function(
        "main",
        Vec::new(),
        vec![local(Type::Bool, None, false), local(Type::I32, None, false)],
        Type::I32,
        vec![
            block(
                vec![(Instruction::ConstBool { dst: 0, value: true }, at(1, 24, 23))],
                Terminator::Branch {
                    condition: 0,
                    then_block: 1,
                    else_block: 2,
                },
                at(1, 20, 19),
            ),
            block(
                vec![(Instruction::ConstInt { dst: 1, value: 1 }, at(1, 29, 28))],
                Terminator::Goto(3),
                at(1, 20, 19),
            ),
            block(
                vec![(Instruction::ConstInt { dst: 1, value: 0 }, at(1, 31, 30))],
                Terminator::Goto(3),
                at(1, 20, 19),
            ),
            block(Vec::new(), Terminator::Return(Some(1)), at(1, 1, 0)),
        ],
    )
}

#[test]
fn renders_a_branch_with_source_locations() {
    let mir = module(vec![main_with_a_branch()], Vec::new(), Vec::new());
    let text = render_module(&mir, &Vec::new());

    assert!(text.contains("fn main() -> i32 {"), "{text}");
    assert!(text.contains("  bb0:  // entry"), "{text}");
    assert!(text.contains("branch _0 -> [true: bb1, false: bb2];"), "{text}");
    assert!(text.contains("_0 = const true;"), "{text}");
    assert!(text.contains("goto -> bb3;"), "{text}");
    assert!(text.contains("return _1;"), "{text}");
    assert!(text.contains("// 1:"), "{text}");
}

/// The structs, enum and calls of
/// `(struct Pair ((left String) (right String)))`,
/// `(enum Shape Empty (Sized ((size i64))))` and a `main` that builds them
/// and calls `note`.
fn aggregates() -> MirModule {
    let pair = MirStruct {
        name: "Pair".to_string(),
        fields: vec![
            ("left".to_string(), Type::String),
            ("right".to_string(), Type::String),
        ],
        emit: true,
    };
    let shape = MirEnum {
        name: "Shape".to_string(),
        variants: vec![
            MirVariant {
                name: "Empty".to_string(),
                tag: 0,
                fields: Vec::new(),
            },
            MirVariant {
                name: "Sized".to_string(),
                tag: 1,
                fields: vec![("size".to_string(), Type::I64)],
            },
        ],
        emit: true,
    };
    let note = function(
        "note",
        vec![0],
        vec![local(Type::String, Some("text"), true)],
        Type::Unit,
        vec![block(
            vec![(
                Instruction::Drop {
                    local: 0,
                    ty: Type::String,
                },
                at(4, 13, 80),
            )],
            Terminator::Return(None),
            at(4, 13, 80),
        )],
    );
    let main = function(
        "main",
        Vec::new(),
        vec![
            local(Type::String, None, false),
            local(Type::String, None, false),
            local(Type::Named("Pair".to_string()), Some("pair"), false),
            local(Type::I64, None, false),
            local(Type::Named("Shape".to_string()), Some("shape"), false),
            local(Type::String, None, false),
            local(Type::Unit, None, false),
            local(Type::I32, None, false),
        ],
        Type::I32,
        vec![block(
            vec![
                (Instruction::StringNew { dst: 0, value: b"l".to_vec() }, at(6, 33, 140)),
                (Instruction::StringNew { dst: 1, value: b"r".to_vec() }, at(6, 44, 151)),
                (
                    Instruction::StructNew {
                        dst: 2,
                        name: "Pair".to_string(),
                        fields: vec![0, 1],
                    },
                    at(6, 25, 132),
                ),
                (Instruction::ConstInt { dst: 3, value: 3 }, at(7, 37, 180)),
                (
                    Instruction::EnumNew {
                        dst: 4,
                        enum_name: "Shape".to_string(),
                        tag: 1,
                        fields: vec![3],
                    },
                    at(7, 25, 168),
                ),
                (Instruction::StringNew { dst: 5, value: b"hi".to_vec() }, at(8, 21, 200)),
                (
                    Instruction::Call {
                        dst: 6,
                        callee: "note".to_string(),
                        args: vec![5],
                        arg_types: vec![Type::String],
                        result: Type::Unit,
                    },
                    at(8, 15, 194),
                ),
                (Instruction::ConstInt { dst: 7, value: 0 }, at(9, 15, 220)),
                (
                    Instruction::Drop {
                        local: 4,
                        ty: Type::Named("Shape".to_string()),
                    },
                    at(5, 13, 110),
                ),
                (
                    Instruction::Drop {
                        local: 2,
                        ty: Type::Named("Pair".to_string()),
                    },
                    at(5, 13, 110),
                ),
            ],
            Terminator::Return(Some(7)),
            at(5, 13, 110),
        )],
    );
    module(vec![note, main], vec![pair], vec![shape])
}

#[test]
fn renders_aggregates_drops_and_calls() {
    let text = render_module(&aggregates(), &Vec::new());

    assert!(text.contains("struct Pair {"), "{text}");
    assert!(text.contains("    left: String,"), "{text}");
    assert!(text.contains("enum Shape {"), "{text}");
    assert!(text.contains("    Sized = 1 (size: i64),"), "{text}");
    assert!(text.contains("= Pair {"), "{text}");
    assert!(text.contains("drop(_"), "{text}");
    assert!(text.contains("note("), "{text}");
}

#[test]
fn rendering_is_stable_across_runs() {
    let first = render_module(&aggregates(), &Vec::new());
    for _ in 0..8 {
        let again = render_module(&aggregates(), &Vec::new());
        assert_eq!(first, again, "MIR rendering must be deterministic");
    }
}

#[test]
fn a_function_is_rendered_line_for_line() {
    let mut f = function(
        "f",
        vec![0],
        vec![
            local(Type::I64, Some("n"), true),
            local(Type::I64, Some("x"), false),
        ],
        Type::I64,
        vec![block(
            vec![(Instruction::Assign { dst: 1, src: 0 }, at(2, 5, 10))],
            Terminator::Return(Some(1)),
            Span::default(),
        )],
    );
    f.emit = false;
    let expected = concat_lines(&[
        "fn f(_0: i64) -> i64 {  // not emitted",
        "    let _1: i64;  // x",
        "",
        "  bb0:  // entry",
        &format!("    _1 = _0;{}// 2:5", " ".repeat(36)),
        "    return _1;",
        "}",
        "",
    ]);
    assert_eq!(render_function(&f, &Vec::new()), expected);
}

fn concat_lines<S: AsRef<str>>(lines: &[S]) -> String {
    let mut out = String::new();
    for line in lines {
        out.push_str(line.as_ref());
        out.push('\n');
    }
    out
}

#[test]
fn the_provenance_comment_starts_at_its_column() {
    let text = render_function(&main_with_a_branch(), &Vec::new());
    for line in text.lines().filter(|line| line.contains("// 1:")) {
        let position = line.chars().position(|c| c == '/').unwrap();
        assert_eq!(position, 48, "{line}");
    }
    // A line already past the column gets its comment right after it.
    let long = function(
        "g",
        Vec::new(),
        vec![local(Type::I64, None, false)],
        Type::I64,
        vec![block(
            vec![(
                Instruction::Call {
                    dst: 0,
                    callee: "a_callee_with_a_rather_long_name".to_string(),
                    args: vec![0, 0, 0],
                    arg_types: Vec::new(),
                    result: Type::I64,
                },
                at(3, 7, 40),
            )],
            Terminator::Unreachable,
            Span::default(),
        )],
    );
    let text = render_function(&long, &Vec::new());
    assert!(
        text.contains("    _0 = a_callee_with_a_rather_long_name(_0, _0, _0) -> i64;// 3:7\n"),
        "{text}"
    );
    assert!(text.contains("    unreachable;\n"), "{text}");
}

#[test]
fn a_parameter_without_a_local_is_shown_as_unknown() {
    let f = function("h", vec![3], Vec::new(), Type::Unit, vec![block(Vec::new(), Terminator::Return(None), Span::default())]);
    assert_eq!(
        render_function(&f, &Vec::new()),
        "fn h(_3: ?) -> unit {\n  bb0:  // entry\n    return;\n}\n\n"
    );
}

#[test]
fn every_instruction_has_a_spelling() {
    let unsigned = || Type::U8;
    let cases: Vec<(Instruction, &str)> = vec![
        (Instruction::ConstInt { dst: 1, value: -42 }, "_1 = const -42;"),
        (Instruction::ConstFloat { dst: 1, bits: 1.5f64.to_bits() }, "_1 = const 1.5;"),
        (Instruction::ConstBool { dst: 2, value: false }, "_2 = const false;"),
        (Instruction::StringNew { dst: 0, value: b"a\"b\n\x01".to_vec() }, "_0 = const [97, 34, 98, 10, 1];"),
        (Instruction::AddressOf { dst: 3, src: 4 }, "_3 = &_4;"),
        (
            Instruction::Binary { dst: 5, op: BinaryOp::Shr, lhs: 6, rhs: 7, ty: unsigned() },
            "_5 = _6 >> _7: u8;",
        ),
        (
            Instruction::Binary { dst: 5, op: BinaryOp::NotEqual, lhs: 6, rhs: 7, ty: Type::I64 },
            "_5 = _6 != _7: i64;",
        ),
        (Instruction::FnAddr { dst: 1, symbol: "slp_main".to_string() }, "_1 = fn slp_main;"),
        (
            Instruction::CallValue { dst: 2, callee: 1, args: vec![3], arg_types: vec![Type::I64], result: Type::Bool },
            "_2 = (*_1)(_3) -> bool;",
        ),
        (Instruction::FieldLoad { dst: 1, base: 2, index: 3 }, "_1 = _2.3;"),
        (Instruction::Load { dst: 1, src: 2 }, "_1 = *_2;"),
        (Instruction::FieldAddr { dst: 1, base: 2, index: 0 }, "_1 = &_2.0;"),
        (Instruction::EnumTag { dst: 1, base: 2 }, "_1 = tag(_2);"),
        (Instruction::EnumFieldLoad { dst: 1, base: 2, index: 1 }, "_1 = payload(_2, 1);"),
        (Instruction::EnumFieldAddr { dst: 1, base: 2, index: 1 }, "_1 = &payload(_2, 1);"),
        (Instruction::FieldStore { base: 2, index: 1, src: 3 }, "_2.1 = _3;"),
        (Instruction::EnumFieldStore { base: 2, index: 0, src: 3 }, "payload(_2, 0) = _3;"),
        (Instruction::Free { local: 9 }, "free(_9);"),
        (
            Instruction::VolatileLoad { dst: 1, addr: 2, ty: Type::Ref { mutable: true, inner: Box::new(Type::U32) } },
            "_1 = volatile_load(_2: (&mut u32));",
        ),
        (Instruction::VolatileStore { addr: 2, src: 3, ty: Type::U16 }, "volatile_store(_2, _3: u16);"),
        (
            Instruction::StructNew { dst: 1, name: "Unit".to_string(), fields: Vec::new() },
            "_1 = Unit {  };",
        ),
    ];
    for (instruction, expected) in cases {
        let f = function(
            "t",
            Vec::new(),
            Vec::new(),
            Type::Unit,
            vec![block(vec![(instruction, Span::default())], Terminator::Goto(0), Span::default())],
        );
        let floats = vec![(1.5f64.to_bits(), format!("{}", 1.5f64))];
        let text = render_function(&f, &floats);
        assert!(text.contains(&format!("    {expected}\n")), "{expected} in {text}");
        assert!(text.contains("    goto -> bb0;\n"), "{text}");
    }
}

#[test]
fn a_test_is_rendered_under_its_quoted_name() {
    let mut mir = module(Vec::new(), Vec::new(), Vec::new());
    mir.structs.push(MirStruct {
        name: "Hidden".to_string(),
        fields: Vec::new(),
        emit: false,
    });
    mir.tests.push(MirTest {
        name: "adds \"two\"\tnumbers".to_string(),
        function: function(
            "test_0",
            Vec::new(),
            Vec::new(),
            Type::Unit,
            vec![
                block(Vec::new(), Terminator::Goto(1), Span::default()),
                block(Vec::new(), Terminator::Return(None), Span::default()),
            ],
        ),
        emit: true,
    });
    let expected = concat_lines(&[
        "struct Hidden {  // not emitted",
        "}",
        "",
        "// test \"adds \\\"two\\\"\\tnumbers\"",
        "fn test_0() -> unit {",
        "  bb0:  // entry",
        "    goto -> bb1;",
        "",
        "  bb1:",
        "    return;",
        "}",
        "",
    ]);
    assert_eq!(render_module(&mir, &Vec::new()), expected);
}

#[test]
fn an_empty_module_renders_as_nothing() {
    assert_eq!(render_module(&module(Vec::new(), Vec::new(), Vec::new()), &Vec::new()), "");
}

#[test]
fn a_float_without_a_spelling_is_shown_by_its_bits() {
    let f = function(
        "t",
        Vec::new(),
        Vec::new(),
        Type::Unit,
        vec![block(
            vec![(Instruction::ConstFloat { dst: 1, bits: 1.5f64.to_bits() }, Span::default())],
            Terminator::Goto(0),
            Span::default(),
        )],
    );
    assert!(render_function(&f, &Vec::new()).contains("    _1 = const f64 0x3ff8000000000000;\n"));
    let other = vec![(2.5f64.to_bits(), "2.5".to_string()), (1.5f64.to_bits(), "1.5".to_string())];
    assert!(render_function(&f, &other).contains("    _1 = const 1.5;\n"));
}
