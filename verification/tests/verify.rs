use slopic_core::ast::Type;
use slopic_core::mir::{
    BasicBlock, BinaryOp, Instruction, MirExtern, MirFunction, MirLocal, MirModule, Terminator,
};
use slopic_core::verify::{check, check_when, verify_definite_initialization, verify_module};

fn module_with(function: MirFunction) -> MirModule {
    MirModule {
        functions: vec![function],
        externs: Vec::new(),
        tests: Vec::new(),
        structs: Vec::new(),
        enums: Vec::new(),
    }
}

fn probe(blocks: Vec<BasicBlock>, locals: usize) -> MirFunction {
    MirFunction {
        name: "probe".into(),
        emit: true,
        inline_hint: false,
        params: Vec::new(),
        return_type: Type::I64,
        locals: (0..locals)
            .map(|_| MirLocal {
                ty: Type::I64,
                name: None,
                is_param: false,
            })
            .collect(),
        blocks,
        entry: 0,
        span: Default::default(),
    }
}

#[test]
fn rejects_a_successor_out_of_range() {
    let mir = module_with(probe(
        vec![BasicBlock::synthetic(Vec::new(), Terminator::Goto(7))],
        1,
    ));
    let errors = verify_module("test.slp", &mir);
    assert_eq!(errors.len(), 1);
    assert_eq!(errors[0].code, "SL0700");
    assert!(
        errors[0].message.contains("out of range"),
        "{:?}",
        errors[0]
    );
}

#[test]
fn rejects_a_local_out_of_range() {
    let mir = module_with(probe(
        vec![BasicBlock::synthetic(
            vec![Instruction::Assign { dst: 0, src: 9 }],
            Terminator::Return(None),
        )],
        1,
    ));
    let errors = verify_module("test.slp", &mir);
    assert!(
        errors.iter().any(|error| error.message.contains("local 9")),
        "{errors:?}"
    );
}

#[test]
fn rejects_a_read_before_definition() {
    let mir = module_with(probe(
        vec![BasicBlock::synthetic(
            vec![Instruction::Assign { dst: 0, src: 1 }],
            Terminator::Return(Some(0)),
        )],
        2,
    ));
    let errors = verify_module("test.slp", &mir);
    assert!(
        errors
            .iter()
            .any(|error| error.message.contains("never defined")),
        "{errors:?}"
    );
}

/// bb0 branches; only the then-branch defines _1, but the merge returns it.
fn defined_on_one_branch_only() -> MirFunction {
    probe(
        vec![
            BasicBlock::synthetic(
                vec![Instruction::ConstBool {
                    dst: 0,
                    value: true,
                }],
                Terminator::Branch {
                    condition: 0,
                    then_block: 1,
                    else_block: 2,
                },
            ),
            BasicBlock::synthetic(
                vec![Instruction::ConstInt { dst: 1, value: 1 }],
                Terminator::Goto(3),
            ),
            BasicBlock::synthetic(Vec::new(), Terminator::Goto(3)),
            BasicBlock::synthetic(Vec::new(), Terminator::Return(Some(1))),
        ],
        2,
    )
}

#[test]
fn a_local_defined_on_one_branch_passes_may_init() {
    let errors = verify_module("test.slp", &module_with(defined_on_one_branch_only()));
    assert_eq!(errors, Vec::new());
}

#[test]
fn a_local_defined_on_one_branch_fails_definite_initialization() {
    let errors = verify_definite_initialization(&defined_on_one_branch_only());
    assert!(
        errors
            .iter()
            .any(|error| error.contains("before it is defined on every path")),
        "the strict check must still catch it: {errors:?}"
    );
}

#[test]
fn rejects_a_call_arity_mismatch() {
    let mir = module_with(probe(
        vec![BasicBlock::synthetic(
            vec![
                Instruction::ConstInt { dst: 0, value: 1 },
                Instruction::Call {
                    dst: 1,
                    callee: "helper".into(),
                    args: vec![0],
                    arg_types: vec![Type::I64, Type::I64],
                    result: Type::I64,
                },
            ],
            Terminator::Return(Some(1)),
        )],
        2,
    ));
    let errors = verify_module("test.slp", &mir);
    assert!(
        errors
            .iter()
            .any(|error| error.message.contains("argument types")),
        "{errors:?}"
    );
}

#[test]
fn rejects_a_mismatched_parameter_list() {
    let mut function = probe(
        vec![BasicBlock::synthetic(Vec::new(), Terminator::Return(None))],
        2,
    );
    function.params = vec![1];
    let errors = verify_module("test.slp", &module_with(function));
    assert!(
        errors
            .iter()
            .any(|error| error.message.contains("leading locals")),
        "{errors:?}"
    );
}

#[test]
fn accepts_arithmetic_and_rejects_it_on_a_non_numeric_type() {
    let good = module_with(probe(
        vec![BasicBlock::synthetic(
            vec![
                Instruction::ConstInt { dst: 0, value: 1 },
                Instruction::Binary {
                    dst: 1,
                    op: BinaryOp::Add,
                    lhs: 0,
                    rhs: 0,
                    ty: Type::I64,
                },
            ],
            Terminator::Return(Some(1)),
        )],
        2,
    ));
    assert_eq!(verify_module("test.slp", &good), Vec::new());

    let bad = module_with(probe(
        vec![BasicBlock::synthetic(
            vec![
                Instruction::StringNew {
                    dst: 0,
                    value: "x".into(),
                },
                Instruction::Binary {
                    dst: 1,
                    op: BinaryOp::Add,
                    lhs: 0,
                    rhs: 0,
                    ty: Type::String,
                },
            ],
            Terminator::Return(Some(1)),
        )],
        2,
    ));
    assert!(verify_module("test.slp", &bad)
        .iter()
        .any(|error| error.message.contains("non-numeric")),);
}

#[test]
fn an_extern_call_must_agree_with_its_declaration() {
    let mut module = module_with(probe(
        vec![BasicBlock::synthetic(
            vec![
                Instruction::ConstInt { dst: 0, value: 20 },
                Instruction::ConstInt { dst: 1, value: 22 },
                Instruction::Call {
                    dst: 2,
                    callee: "hal-add".into(),
                    args: vec![0, 1],
                    arg_types: vec![Type::I64, Type::I64],
                    result: Type::I64,
                },
            ],
            Terminator::Return(Some(2)),
        )],
        3,
    ));
    module.externs.push(MirExtern {
        name: "hal-add".into(),
        symbol: "hal_add".into(),
        params: vec![Type::I64, Type::I64],
        result: Type::I64,
    });
    assert_eq!(verify_module("test.slp", &module), Vec::new());
    module.externs[0].params[1] = Type::String;
    let errors = verify_module("test.slp", &module);
    assert!(
        errors.iter().any(|error| error.message.contains("declared")),
        "a mismatched extern argument must be reported: {errors:?}"
    );
}

#[test]
fn a_function_with_no_blocks_is_reported_and_check_names_the_phase() {
    let mir = module_with(probe(Vec::new(), 0));
    let errors = check("test.slp", &mir, "inlining").unwrap_err();
    assert_eq!(errors.len(), 1);
    assert_eq!(errors[0].code, "SL0700");
    assert!(check("test.slp", &module_with(defined_on_one_branch_only()), "inlining").is_ok());
}

fn typed(name: &str, params: Vec<usize>, locals: Vec<Type>, return_type: Type, blocks: Vec<BasicBlock>) -> MirFunction {
    MirFunction {
        name: name.into(),
        emit: true,
        inline_hint: false,
        params: params.clone(),
        return_type,
        locals: locals
            .into_iter()
            .enumerate()
            .map(|(index, ty)| MirLocal { ty, name: None, is_param: params.contains(&index) })
            .collect(),
        blocks,
        entry: 0,
        span: Default::default(),
    }
}

/// `(fn boolean-score ((value bool)) -> i64 (match value (true 1) (false 0)))`
/// as a match is lowered: each arm tests its pattern, and the test of the
/// last arm still has a way out to the merge that assigns nothing.
fn boolean_score() -> MirFunction {
    typed(
        "boolean-score",
        vec![0],
        vec![Type::Bool, Type::I64, Type::Bool, Type::Bool, Type::Bool, Type::Bool],
        Type::I64,
        vec![
            BasicBlock::synthetic(
                vec![
                    Instruction::ConstBool { dst: 2, value: true },
                    Instruction::Binary { dst: 3, op: BinaryOp::Equal, lhs: 0, rhs: 2, ty: Type::Bool },
                ],
                Terminator::Branch { condition: 3, then_block: 1, else_block: 2 },
            ),
            BasicBlock::synthetic(vec![Instruction::ConstInt { dst: 1, value: 1 }], Terminator::Goto(4)),
            BasicBlock::synthetic(
                vec![
                    Instruction::ConstBool { dst: 4, value: false },
                    Instruction::Binary { dst: 5, op: BinaryOp::Equal, lhs: 0, rhs: 4, ty: Type::Bool },
                ],
                Terminator::Branch { condition: 5, then_block: 3, else_block: 4 },
            ),
            BasicBlock::synthetic(vec![Instruction::ConstInt { dst: 1, value: 0 }], Terminator::Goto(4)),
            BasicBlock::synthetic(Vec::new(), Terminator::Return(Some(1))),
        ],
    )
}

#[test]
fn real_match_lowering_fails_definite_initialization_today() {
    let mut mir = module_with(boolean_score());
    mir.functions.push(typed(
        "main",
        Vec::new(),
        vec![Type::I32],
        Type::I32,
        vec![BasicBlock::synthetic(vec![Instruction::ConstInt { dst: 0, value: 0 }], Terminator::Return(Some(0)))],
    ));
    let scored = mir
        .functions
        .iter()
        .find(|function| function.name.contains("boolean-score"))
        .expect("the function was lowered");
    assert!(
        !verify_definite_initialization(scored).is_empty(),
        "if this passes, seal the match fallthrough and wire the strict check in"
    );
    assert_eq!(
        verify_module("test.slp", &mir),
        Vec::new(),
        "the wired-in may-init check must still accept it"
    );
}

/// A program of several functions, as lowering writes them: a helper with a
/// branch, a match over an enum, and a `main` that builds a struct, loops and
/// calls out.
#[test]
fn real_programs_verify() {
    let shape = Type::Named("Shape".into());
    let pair = Type::Named("Pair".into());
    // (fn helper ((a i64)) -> i64 (let b (+ a 2)) (if (< a b) b a))
    let helper = typed(
        "helper",
        vec![0],
        vec![Type::I64, Type::I64, Type::I64, Type::I64, Type::Bool, Type::I64],
        Type::I64,
        vec![
            BasicBlock::synthetic(
                vec![
                    Instruction::ConstInt { dst: 1, value: 2 },
                    Instruction::Binary { dst: 2, op: BinaryOp::Add, lhs: 0, rhs: 1, ty: Type::I64 },
                    Instruction::Assign { dst: 3, src: 2 },
                    Instruction::Binary { dst: 4, op: BinaryOp::Less, lhs: 0, rhs: 3, ty: Type::I64 },
                ],
                Terminator::Branch { condition: 4, then_block: 1, else_block: 2 },
            ),
            BasicBlock::synthetic(vec![Instruction::Assign { dst: 5, src: 3 }], Terminator::Goto(3)),
            BasicBlock::synthetic(vec![Instruction::Assign { dst: 5, src: 0 }], Terminator::Goto(3)),
            BasicBlock::synthetic(Vec::new(), Terminator::Return(Some(5))),
        ],
    );
    // (fn measure ((shape Shape)) -> i64 (match shape ((Shape:Sized size) size) ((Shape:Empty) 0)))
    let measure = typed(
        "measure",
        vec![0],
        vec![shape.clone(), Type::I64, Type::I64, Type::I64, Type::Bool, Type::I64],
        Type::I64,
        vec![
            BasicBlock::synthetic(
                vec![
                    Instruction::EnumTag { dst: 2, base: 0 },
                    Instruction::ConstInt { dst: 3, value: 1 },
                    Instruction::Binary { dst: 4, op: BinaryOp::Equal, lhs: 2, rhs: 3, ty: Type::I64 },
                ],
                Terminator::Branch { condition: 4, then_block: 1, else_block: 2 },
            ),
            BasicBlock::synthetic(
                vec![
                    Instruction::EnumFieldLoad { dst: 5, base: 0, index: 0 },
                    Instruction::Assign { dst: 1, src: 5 },
                ],
                Terminator::Goto(3),
            ),
            BasicBlock::synthetic(vec![Instruction::ConstInt { dst: 1, value: 0 }], Terminator::Goto(3)),
            BasicBlock::synthetic(vec![Instruction::Drop { local: 0, ty: shape.clone() }], Terminator::Return(Some(1))),
        ],
    );
    // (fn main () -> i32 (let pair (Pair :left "left" :right "right"))
    //   (let mut total 0) (while (< total 3) (set total (+ total 1)))
    //   (show (helper 3)) (show (measure (Shape:Sized 7))) 0)
    let main = typed(
        "main",
        Vec::new(),
        vec![
            Type::String,
            Type::String,
            pair.clone(),
            Type::I64,
            Type::I64,
            Type::Bool,
            Type::I64,
            Type::I64,
            Type::I64,
            Type::I64,
            Type::Unit,
            Type::I64,
            shape.clone(),
            Type::I64,
            Type::Unit,
            Type::I32,
        ],
        Type::I32,
        vec![
            BasicBlock::synthetic(
                vec![
                    Instruction::StringNew { dst: 0, value: b"left".to_vec() },
                    Instruction::StringNew { dst: 1, value: b"right".to_vec() },
                    Instruction::StructNew { dst: 2, name: "Pair".into(), fields: vec![0, 1] },
                    Instruction::ConstInt { dst: 3, value: 0 },
                ],
                Terminator::Goto(1),
            ),
            BasicBlock::synthetic(
                vec![
                    Instruction::ConstInt { dst: 4, value: 3 },
                    Instruction::Binary { dst: 5, op: BinaryOp::Less, lhs: 3, rhs: 4, ty: Type::I64 },
                ],
                Terminator::Branch { condition: 5, then_block: 2, else_block: 3 },
            ),
            BasicBlock::synthetic(
                vec![
                    Instruction::ConstInt { dst: 6, value: 1 },
                    Instruction::Binary { dst: 7, op: BinaryOp::Add, lhs: 3, rhs: 6, ty: Type::I64 },
                    Instruction::Assign { dst: 3, src: 7 },
                ],
                Terminator::Goto(1),
            ),
            BasicBlock::synthetic(
                vec![
                    Instruction::ConstInt { dst: 8, value: 3 },
                    Instruction::Call { dst: 9, callee: "helper".into(), args: vec![8], arg_types: vec![Type::I64], result: Type::I64 },
                    Instruction::Call { dst: 10, callee: "show".into(), args: vec![9], arg_types: vec![Type::I64], result: Type::Unit },
                    Instruction::ConstInt { dst: 11, value: 7 },
                    Instruction::EnumNew { dst: 12, enum_name: "Shape".into(), tag: 1, fields: vec![11] },
                    Instruction::Call { dst: 13, callee: "measure".into(), args: vec![12], arg_types: vec![shape.clone()], result: Type::I64 },
                    Instruction::Call { dst: 14, callee: "show".into(), args: vec![13], arg_types: vec![Type::I64], result: Type::Unit },
                    Instruction::ConstInt { dst: 15, value: 0 },
                    Instruction::Drop { local: 2, ty: pair.clone() },
                ],
                Terminator::Return(Some(15)),
            ),
        ],
    );
    let mut mir = module_with(helper);
    mir.functions.push(measure);
    mir.functions.push(main);
    mir.externs.push(MirExtern { name: "show".into(), symbol: "sl_rt_show_i64".into(), params: vec![Type::I64], result: Type::Unit });
    assert_eq!(verify_module("test.slp", &mir), Vec::new());
}

#[test]
fn the_gate_lets_everything_through_when_verification_is_off() {
    let mir = module_with(probe(Vec::new(), 0));
    assert!(check_when(false, "test.slp", &mir, "inlining").is_ok());
    assert!(check_when(true, "test.slp", &mir, "inlining").is_err());
}
