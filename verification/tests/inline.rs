use slopic_core::ast::Type;
use slopic_core::mir::{
    BasicBlock, BinaryOp, Instruction, MirExtern, MirFunction, MirLocal, MirModule, Terminator,
};
use slopic_core::opt::inline::run;
use slopic_core::opt::optimize;

fn function(name: &str, params: usize, locals: Vec<Type>, blocks: Vec<BasicBlock>) -> MirFunction {
    MirFunction {
        name: name.into(),
        emit: true,
        inline_hint: false,
        params: (0..params).collect(),
        return_type: Type::I64,
        locals: locals
            .into_iter()
            .enumerate()
            .map(|(index, ty)| MirLocal {
                ty,
                name: None,
                is_param: index < params,
            })
            .collect(),
        blocks,
        entry: 0,
        span: Default::default(),
    }
}

fn call(dst: usize, callee: &str, args: Vec<usize>) -> Instruction {
    let arg_types = args.iter().map(|_| Type::I64).collect();
    Instruction::Call {
        dst,
        callee: callee.into(),
        args,
        arg_types,
        result: Type::I64,
    }
}

fn binary(dst: usize, op: BinaryOp, lhs: usize, rhs: usize) -> Instruction {
    Instruction::Binary {
        dst,
        op,
        lhs,
        rhs,
        ty: Type::I64,
    }
}

/// `(fn double ((n i64)) -> i64 (* n 2))`
fn double(name: &str) -> MirFunction {
    function(
        name,
        1,
        vec![Type::I64, Type::I64, Type::I64],
        vec![BasicBlock::synthetic(
            vec![
                Instruction::ConstInt { dst: 1, value: 2 },
                binary(2, BinaryOp::Mul, 0, 1),
            ],
            Terminator::Return(Some(2)),
        )],
    )
}

/// `(fn probe ((n i64)) -> i64 (callee n))`
fn probe_calling(name: &str, callee: &str) -> MirFunction {
    function(
        name,
        1,
        vec![Type::I64, Type::I64],
        vec![BasicBlock::synthetic(
            vec![call(1, callee, vec![0])],
            Terminator::Return(Some(1)),
        )],
    )
}

fn main_returning_zero() -> MirFunction {
    let mut main = function(
        "main",
        0,
        vec![Type::I32],
        vec![BasicBlock::synthetic(
            vec![Instruction::ConstInt { dst: 0, value: 0 }],
            Terminator::Return(Some(0)),
        )],
    );
    main.return_type = Type::I32;
    main
}

fn module_with(functions: Vec<MirFunction>) -> MirModule {
    MirModule {
        functions,
        externs: Vec::new(),
        tests: Vec::new(),
        structs: Vec::new(),
        enums: Vec::new(),
    }
}

fn calls(function: &MirFunction, name: &str) -> bool {
    function.blocks.iter().any(|block| {
        block.statements.iter().any(|statement| {
            matches!(&statement.instruction, Instruction::Call { callee, .. } if callee == name)
        })
    })
}

fn find<'a>(module: &'a MirModule, name: &str) -> &'a MirFunction {
    module
        .functions
        .iter()
        .find(|function| function.name == name)
        .unwrap()
}

/// `(fn countdown ((n i64)) -> i64 (if (< n 1) 0 (countdown (- n 1))))`
fn countdown() -> MirFunction {
    let mut locals = vec![Type::I64; 7];
    locals[2] = Type::Bool;
    function(
        "countdown",
        1,
        locals,
        vec![
            BasicBlock::synthetic(
                vec![
                    Instruction::ConstInt { dst: 1, value: 1 },
                    binary(2, BinaryOp::Less, 0, 1),
                ],
                Terminator::Branch {
                    condition: 2,
                    then_block: 1,
                    else_block: 2,
                },
            ),
            BasicBlock::synthetic(
                vec![Instruction::ConstInt { dst: 3, value: 0 }],
                Terminator::Return(Some(3)),
            ),
            BasicBlock::synthetic(
                vec![
                    Instruction::ConstInt { dst: 4, value: 1 },
                    binary(5, BinaryOp::Sub, 0, 4),
                    call(6, "countdown", vec![5]),
                ],
                Terminator::Return(Some(6)),
            ),
        ],
    )
}

/// A straight-line body of seventeen statements, over the ordinary ceiling.
fn blend() -> MirFunction {
    let mut statements = Vec::new();
    for step in 0..17 {
        statements.push(binary(2 + step, BinaryOp::Add, 0, 1));
    }
    function(
        "blend",
        2,
        vec![Type::I64; 19],
        vec![BasicBlock::synthetic(statements, Terminator::Return(Some(18)))],
    )
}

/// `(fn probe ((n i64)) -> i64 (blend n 3))`
fn probe_calling_blend() -> MirFunction {
    function(
        "probe",
        1,
        vec![Type::I64; 3],
        vec![BasicBlock::synthetic(
            vec![
                Instruction::ConstInt { dst: 1, value: 3 },
                call(2, "blend", vec![0, 1]),
            ],
            Terminator::Return(Some(2)),
        )],
    )
}

#[test]
fn inlines_a_small_leaf_function() {
    let mut module = module_with(vec![
        double("double"),
        probe_calling("probe", "double"),
        main_returning_zero(),
    ]);
    optimize("test.slp", &mut module).unwrap();
    assert!(
        !calls(find(&module, "probe"), "double"),
        "the call should have been inlined"
    );
}

#[test]
fn a_body_over_the_ceiling_is_left_alone() {
    let mut module = module_with(vec![blend(), probe_calling_blend(), main_returning_zero()]);
    optimize("test.slp", &mut module).unwrap();
    assert!(calls(find(&module, "probe"), "blend"));
}

#[test]
fn an_inline_annotation_moves_the_ceiling() {
    let mut hinted = blend();
    hinted.inline_hint = true;
    let mut module = module_with(vec![hinted, probe_calling_blend(), main_returning_zero()]);
    optimize("test.slp", &mut module).unwrap();
    assert!(
        !calls(find(&module, "probe"), "blend"),
        "the hint should have inlined the call"
    );
}

#[test]
fn does_not_inline_a_recursive_function() {
    let mut module = module_with(vec![countdown(), main_returning_zero()]);
    optimize("test.slp", &mut module).unwrap();
    assert!(calls(find(&module, "countdown"), "countdown"));
}

#[test]
fn an_inline_annotation_does_not_inline_a_recursive_function() {
    let mut hinted = countdown();
    hinted.inline_hint = true;
    let mut module = module_with(vec![
        hinted,
        probe_calling("probe", "countdown"),
        main_returning_zero(),
    ]);
    optimize("test.slp", &mut module).unwrap();
    assert!(calls(find(&module, "probe"), "countdown"));
}

#[test]
fn does_not_inline_an_extern_even_when_a_body_appears_under_its_name() {
    let mut module = module_with(vec![
        probe_calling("probe", "hal-double"),
        main_returning_zero(),
        double("hal-double"),
    ]);
    module.externs.push(MirExtern {
        name: "hal-double".into(),
        symbol: "hal_double".into(),
        params: vec![Type::I64],
        result: Type::I64,
    });
    optimize("test.slp", &mut module).unwrap();
    assert!(
        calls(find(&module, "probe"), "hal-double"),
        "an extern call must survive inlining"
    );
}

#[test]
fn inlining_stays_inside_one_module() {
    let mut module = module_with(vec![
        double("beta:double"),
        probe_calling("alpha:probe", "beta:double"),
        double("alpha:double"),
        probe_calling("alpha:other", "alpha:double"),
    ]);
    assert!(run(&mut module));
    assert!(calls(find(&module, "alpha:probe"), "beta:double"));
    assert!(!calls(find(&module, "alpha:other"), "alpha:double"));
}

#[test]
fn a_spliced_call_binds_its_arguments_and_its_result() {
    let mut module = module_with(vec![double("double"), probe_calling("probe", "double")]);
    assert!(run(&mut module));
    let probe = find(&module, "probe");
    // The caller's block now binds the argument and jumps to the callee's
    // body, which returns into a continuation holding what followed the call.
    assert_eq!(probe.blocks.len(), 3);
    assert_eq!(probe.locals.len(), 5);
    assert!(matches!(
        probe.blocks[0].statements[0].instruction,
        Instruction::Assign { dst: 2, src: 0 }
    ));
    assert_eq!(probe.blocks[0].terminator, Terminator::Goto(1));
    assert!(matches!(
        probe.blocks[1].statements[2].instruction,
        Instruction::Assign { dst: 1, src: 4 }
    ));
    assert_eq!(probe.blocks[1].terminator, Terminator::Goto(2));
    assert_eq!(probe.blocks[2].terminator, Terminator::Return(Some(1)));
    assert!(!run(&mut module_with(vec![countdown()])));
}
