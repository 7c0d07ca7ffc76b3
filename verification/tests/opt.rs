use slopic_core::ast::Type;
use slopic_core::mir::{
    BasicBlock, BinaryOp, Instruction, MirExtern, MirFunction, MirLocal, MirModule, Terminator,
};
use slopic_core::cfg::{successors, Cfg};
use slopic_core::opt::{
    eliminate_dead_code, optimize, optimize_within, propagate_constants, propagate_constants_within,
    simplify_cfg, stats, Stats,
};
use slopic_core::verify::{check, verify_module};

fn module_with(functions: Vec<MirFunction>) -> MirModule {
    MirModule {
        functions,
        externs: Vec::new(),
        tests: Vec::new(),
        structs: Vec::new(),
        enums: Vec::new(),
    }
}

fn function(name: &str, params: Vec<usize>, locals: Vec<Type>, blocks: Vec<BasicBlock>) -> MirFunction {
    MirFunction {
        name: name.into(),
        emit: true,
        inline_hint: false,
        params: params.clone(),
        return_type: Type::I64,
        locals: locals
            .into_iter()
            .enumerate()
            .map(|(index, ty)| MirLocal {
                ty,
                name: None,
                is_param: params.contains(&index),
            })
            .collect(),
        blocks,
        entry: 0,
        span: Default::default(),
    }
}

/// `(fn main () -> i32 0)`, as lowering writes it.
fn main_returning_zero() -> MirFunction {
    let mut main = function(
        "main",
        Vec::new(),
        vec![Type::I32],
        vec![BasicBlock::synthetic(
            vec![Instruction::ConstInt { dst: 0, value: 0 }],
            Terminator::Return(Some(0)),
        )],
    );
    main.return_type = Type::I32;
    main
}

/// `(fn probe ((flag bool)) -> i64 (let base (if flag 10 10)) (let doubled (+ base base)) (+ doubled 5))`
fn probe_with_a_branch() -> MirFunction {
    function(
        "probe",
        vec![0],
        vec![Type::Bool, Type::I64, Type::I64, Type::I64, Type::I64, Type::I64, Type::I64],
        vec![
            BasicBlock::synthetic(
                Vec::new(),
                Terminator::Branch {
                    condition: 0,
                    then_block: 1,
                    else_block: 2,
                },
            ),
            BasicBlock::synthetic(
                vec![Instruction::ConstInt { dst: 1, value: 10 }],
                Terminator::Goto(3),
            ),
            BasicBlock::synthetic(
                vec![Instruction::ConstInt { dst: 1, value: 10 }],
                Terminator::Goto(3),
            ),
            BasicBlock::synthetic(
                vec![
                    Instruction::Assign { dst: 2, src: 1 },
                    Instruction::Binary { dst: 3, op: BinaryOp::Add, lhs: 2, rhs: 2, ty: Type::I64 },
                    Instruction::Assign { dst: 4, src: 3 },
                    Instruction::ConstInt { dst: 5, value: 5 },
                    Instruction::Binary { dst: 6, op: BinaryOp::Add, lhs: 4, rhs: 5, ty: Type::I64 },
                ],
                Terminator::Return(Some(6)),
            ),
        ],
    )
}

#[test]
fn a_terminator_that_leaves_the_function_is_reported_rather_than_panicked_on() {
    let mut module = module_with(vec![main_returning_zero()]);
    let last = module.functions[0].blocks.len();
    module.functions[0].blocks[0].terminator = Terminator::Goto(last + 7);

    let error = optimize("test.slp", &mut module).expect_err("the target is out of range");
    assert_eq!(error[0].code, "SL0700");
    assert!(
        error[0].message.contains("out of range"),
        "unexpected message: {}",
        error[0].message
    );
}

#[test]
fn a_pipeline_that_runs_out_of_rounds_still_answers() {
    let mut module = module_with(vec![probe_with_a_branch(), main_returning_zero()]);
    optimize_within("test.slp", &mut module, 1).expect("one round is a valid answer");
    check("test.slp", &module, "a bounded pipeline").expect("the MIR is still valid");
}

#[test]
fn optimized_programs_verify() {
    // `(fn main () -> i32 (+ 20 22))`
    let mut main = function(
        "main",
        Vec::new(),
        vec![Type::I32, Type::I32, Type::I32],
        vec![BasicBlock::synthetic(
            vec![
                Instruction::ConstInt { dst: 0, value: 20 },
                Instruction::ConstInt { dst: 1, value: 22 },
                Instruction::Binary { dst: 2, op: BinaryOp::Add, lhs: 0, rhs: 1, ty: Type::I32 },
            ],
            Terminator::Return(Some(2)),
        )],
    );
    main.return_type = Type::I32;
    let mut mir = module_with(vec![main]);
    optimize("test.slp", &mut mir).unwrap();
    assert_eq!(verify_module("test.slp", &mir), Vec::new());
    let instructions = mir.functions[0].blocks[0].instructions();
    assert!(instructions
        .iter()
        .any(|instruction| matches!(instruction, Instruction::ConstInt { value: 42, .. })));
}

/// `(fn double ((n i64)) -> i64 (* n 2))` and
/// `(fn probe () -> i64 (let a 3) (let b (double a)) (if true (+ b 1) 0))`
fn doubling_module() -> MirModule {
    let double = function(
        "double",
        vec![0],
        vec![Type::I64, Type::I64, Type::I64],
        vec![BasicBlock::synthetic(
            vec![
                Instruction::ConstInt { dst: 1, value: 2 },
                Instruction::Binary { dst: 2, op: BinaryOp::Mul, lhs: 0, rhs: 1, ty: Type::I64 },
            ],
            Terminator::Return(Some(2)),
        )],
    );
    let probe = function(
        "probe",
        Vec::new(),
        vec![Type::I64, Type::I64, Type::Bool, Type::I64, Type::I64, Type::I64],
        vec![
            BasicBlock::synthetic(
                vec![
                    Instruction::ConstInt { dst: 0, value: 3 },
                    Instruction::Call {
                        dst: 1,
                        callee: "double".into(),
                        args: vec![0],
                        arg_types: vec![Type::I64],
                        result: Type::I64,
                    },
                    Instruction::ConstBool { dst: 2, value: true },
                ],
                Terminator::Branch { condition: 2, then_block: 1, else_block: 2 },
            ),
            BasicBlock::synthetic(
                vec![
                    Instruction::ConstInt { dst: 3, value: 1 },
                    Instruction::Binary { dst: 4, op: BinaryOp::Add, lhs: 1, rhs: 3, ty: Type::I64 },
                    Instruction::Assign { dst: 5, src: 4 },
                ],
                Terminator::Goto(3),
            ),
            BasicBlock::synthetic(vec![Instruction::ConstInt { dst: 5, value: 0 }], Terminator::Goto(3)),
            BasicBlock::synthetic(Vec::new(), Terminator::Return(Some(5))),
        ],
    );
    module_with(vec![double, probe, main_returning_zero()])
}

#[test]
fn optimization_reaches_a_fixpoint_and_shrinks_the_module() {
    let before = stats(&doubling_module());
    let mut after_module = doubling_module();
    optimize("test.slp", &mut after_module).unwrap();
    let after = stats(&after_module);
    assert!(
        after.statements < before.statements,
        "optimization should reduce statement count: {before:?} -> {after:?}"
    );
}

/// `(fn probe ((n i64)) -> i64 (let a (+ 1 2)) (if (< n a) a n))`
#[test]
fn optimizing_twice_is_idempotent() {
    let probe = function(
        "probe",
        vec![0],
        vec![Type::I64, Type::I64, Type::I64, Type::I64, Type::I64, Type::Bool, Type::I64],
        vec![
            BasicBlock::synthetic(
                vec![
                    Instruction::ConstInt { dst: 1, value: 1 },
                    Instruction::ConstInt { dst: 2, value: 2 },
                    Instruction::Binary { dst: 3, op: BinaryOp::Add, lhs: 1, rhs: 2, ty: Type::I64 },
                    Instruction::Assign { dst: 4, src: 3 },
                    Instruction::Binary { dst: 5, op: BinaryOp::Less, lhs: 0, rhs: 4, ty: Type::I64 },
                ],
                Terminator::Branch { condition: 5, then_block: 1, else_block: 2 },
            ),
            BasicBlock::synthetic(vec![Instruction::Assign { dst: 6, src: 4 }], Terminator::Goto(3)),
            BasicBlock::synthetic(vec![Instruction::Assign { dst: 6, src: 0 }], Terminator::Goto(3)),
            BasicBlock::synthetic(Vec::new(), Terminator::Return(Some(6))),
        ],
    );
    let mut once = module_with(vec![probe, main_returning_zero()]);
    optimize("test.slp", &mut once).unwrap();
    let first = stats(&once);
    optimize("test.slp", &mut once).expect("re-optimizing stays valid");
    assert_eq!(
        first,
        stats(&once),
        "a second pipeline run should find nothing left to do"
    );
}

#[test]
fn stats_count_functions_blocks_and_statements() {
    let module = module_with(vec![probe_with_a_branch(), main_returning_zero()]);
    assert_eq!(
        stats(&module),
        Stats {
            functions: 2,
            blocks: 5,
            statements: 8,
        }
    );
    assert_eq!(Stats::default(), Stats { functions: 0, blocks: 0, statements: 0 });
}

// ------------------------------------------------------------ volatile

/// A module of `functions` and `main`, with the runtime allocator declared:
/// every volatile test writes through a pointer it gave. Its size is an
/// `i64` here, a type the C boundary takes.
fn with_allocator(functions: Vec<MirFunction>) -> MirModule {
    let mut all = functions;
    all.push(main_returning_zero());
    let mut module = module_with(all);
    module.externs.push(MirExtern {
        name: "rt-alloc".into(),
        symbol: "sl_rt_alloc".into(),
        params: vec![Type::I64],
        result: Type::Ptr(Box::new(Type::U8)),
    });
    module
}

fn allocate(dst: usize, size: usize) -> Instruction {
    Instruction::Call {
        dst,
        callee: "rt-alloc".into(),
        args: vec![size],
        arg_types: vec![Type::I64],
        result: Type::Ptr(Box::new(Type::U8)),
    }
}

fn byte_pointer() -> Type {
    Type::Ptr(Box::new(Type::U8))
}

fn volatile_accesses(function: &MirFunction) -> usize {
    function
        .blocks
        .iter()
        .flat_map(|block| block.instructions())
        .filter(|instruction| {
            matches!(
                instruction,
                Instruction::VolatileLoad { .. } | Instruction::VolatileStore { .. }
            )
        })
        .count()
}

fn has_binary(function: &MirFunction) -> bool {
    function
        .blocks
        .iter()
        .flat_map(|block| block.instructions())
        .any(|instruction| matches!(instruction, Instruction::Binary { .. }))
}

fn calls(function: &MirFunction, name: &str) -> bool {
    function
        .blocks
        .iter()
        .flat_map(|block| block.instructions())
        .any(|instruction| matches!(instruction, Instruction::Call { callee, .. } if callee == name))
}

fn released(mut module: MirModule) -> MirModule {
    optimize("test.slp", &mut module).unwrap();
    module
}

/// `(fn probe () -> i64 (unsafe (let port (rt-alloc 8)) (let ignored (volatile-read port))) 5)`
#[test]
fn a_volatile_load_survives_with_its_result_unused() {
    let probe = function(
        "probe",
        Vec::new(),
        vec![Type::I64, byte_pointer(), Type::U8, Type::I64],
        vec![BasicBlock::synthetic(
            vec![
                Instruction::ConstInt { dst: 0, value: 8 },
                allocate(1, 0),
                Instruction::VolatileLoad { dst: 2, addr: 1, ty: Type::U8 },
                Instruction::ConstInt { dst: 3, value: 5 },
            ],
            Terminator::Return(Some(3)),
        )],
    );
    let module = released(with_allocator(vec![probe]));
    assert_eq!(
        volatile_accesses(&module.functions[0]),
        1,
        "an unused volatile read is still an access: {:#?}",
        module.functions[0].blocks
    );
}

/// `(fn probe () -> i64 (unsafe (let port (rt-alloc 8)) (volatile-write port 1)) 5)`
#[test]
fn a_volatile_store_survives() {
    let probe = function(
        "probe",
        Vec::new(),
        vec![Type::I64, byte_pointer(), Type::U8, Type::I64],
        vec![BasicBlock::synthetic(
            vec![
                Instruction::ConstInt { dst: 0, value: 8 },
                allocate(1, 0),
                Instruction::ConstInt { dst: 2, value: 1 },
                Instruction::VolatileStore { addr: 1, src: 2, ty: Type::U8 },
                Instruction::ConstInt { dst: 3, value: 5 },
            ],
            Terminator::Return(Some(3)),
        )],
    );
    let module = released(with_allocator(vec![probe]));
    assert_eq!(volatile_accesses(&module.functions[0]), 1);
}

/// Two reads of one word, added: both stay.
#[test]
fn two_volatile_loads_of_one_address_are_both_kept() {
    let probe = function(
        "probe",
        Vec::new(),
        vec![Type::I64, byte_pointer(), Type::I64, Type::I64, Type::I64],
        vec![BasicBlock::synthetic(
            vec![
                Instruction::ConstInt { dst: 0, value: 8 },
                allocate(1, 0),
                Instruction::VolatileLoad { dst: 2, addr: 1, ty: Type::I64 },
                Instruction::VolatileLoad { dst: 3, addr: 1, ty: Type::I64 },
                Instruction::Binary { dst: 4, op: BinaryOp::Add, lhs: 2, rhs: 3, ty: Type::I64 },
            ],
            Terminator::Return(Some(4)),
        )],
    );
    let module = released(with_allocator(vec![probe]));
    assert_eq!(volatile_accesses(&module.functions[0]), 2);
}

/// `(volatile-write port 7)` then `(+ (volatile-read port) 1)`: the read is
/// the device's answer, not the 7.
#[test]
fn a_volatile_load_is_never_folded_to_what_was_written() {
    let word_pointer = Type::Ptr(Box::new(Type::I64));
    let probe = function(
        "probe",
        Vec::new(),
        vec![Type::I64, byte_pointer(), word_pointer, Type::I64, Type::I64, Type::I64, Type::I64],
        vec![BasicBlock::synthetic(
            vec![
                Instruction::ConstInt { dst: 0, value: 8 },
                allocate(1, 0),
                Instruction::Assign { dst: 2, src: 1 },
                Instruction::ConstInt { dst: 3, value: 7 },
                Instruction::VolatileStore { addr: 2, src: 3, ty: Type::I64 },
                Instruction::VolatileLoad { dst: 4, addr: 2, ty: Type::I64 },
                Instruction::ConstInt { dst: 5, value: 1 },
                Instruction::Binary { dst: 6, op: BinaryOp::Add, lhs: 4, rhs: 5, ty: Type::I64 },
            ],
            Terminator::Return(Some(6)),
        )],
    );
    let module = released(with_allocator(vec![probe]));
    let probe = &module.functions[0];
    assert_eq!(volatile_accesses(probe), 2);
    assert!(
        has_binary(probe),
        "the addition must survive rather than folding to 8: {:#?}",
        probe.blocks
    );
}

/// `(volatile-write (ptr-offset base 3) 9)`: the offset's addition stays.
#[test]
fn the_address_of_a_volatile_access_is_not_dead() {
    let probe = function(
        "probe",
        Vec::new(),
        vec![Type::I64, byte_pointer(), Type::U64, byte_pointer(), Type::U8, Type::I64],
        vec![BasicBlock::synthetic(
            vec![
                Instruction::ConstInt { dst: 0, value: 64 },
                allocate(1, 0),
                Instruction::ConstInt { dst: 2, value: 3 },
                Instruction::Binary { dst: 3, op: BinaryOp::Add, lhs: 1, rhs: 2, ty: Type::U64 },
                Instruction::ConstInt { dst: 4, value: 9 },
                Instruction::VolatileStore { addr: 3, src: 4, ty: Type::U8 },
                Instruction::ConstInt { dst: 5, value: 5 },
            ],
            Terminator::Return(Some(5)),
        )],
    );
    let module = released(with_allocator(vec![probe]));
    let probe = &module.functions[0];
    assert_eq!(volatile_accesses(probe), 1);
    assert!(has_binary(probe), "the offset arithmetic must survive: {:#?}", probe.blocks);
}

/// Two writes, one of them at an offset, and a read.
fn three_accesses() -> MirFunction {
    function(
        "probe",
        Vec::new(),
        vec![
            Type::I64,
            byte_pointer(),
            Type::U8,
            Type::U64,
            byte_pointer(),
            Type::U8,
            Type::U8,
            Type::I64,
        ],
        vec![BasicBlock::synthetic(
            vec![
                Instruction::ConstInt { dst: 0, value: 64 },
                allocate(1, 0),
                Instruction::ConstInt { dst: 2, value: 1 },
                Instruction::VolatileStore { addr: 1, src: 2, ty: Type::U8 },
                Instruction::ConstInt { dst: 3, value: 1 },
                Instruction::Binary { dst: 4, op: BinaryOp::Add, lhs: 1, rhs: 3, ty: Type::U64 },
                Instruction::ConstInt { dst: 5, value: 2 },
                Instruction::VolatileStore { addr: 4, src: 5, ty: Type::U8 },
                Instruction::VolatileLoad { dst: 6, addr: 1, ty: Type::U8 },
                Instruction::Assign { dst: 7, src: 6 },
            ],
            Terminator::Return(Some(7)),
        )],
    )
}

#[test]
fn optimization_does_not_change_the_volatile_count() {
    let debug = with_allocator(vec![three_accesses()]);
    let release = released(with_allocator(vec![three_accesses()]));
    assert_eq!(
        volatile_accesses(&debug.functions[0]),
        volatile_accesses(&release.functions[0]),
    );
}

/// `poke` writes one byte; `probe` calls it twice.
#[test]
fn inlining_a_volatile_access_duplicates_it_once_per_call() {
    let mut poke = function(
        "poke",
        vec![0],
        vec![byte_pointer(), Type::U8],
        vec![BasicBlock::synthetic(
            vec![
                Instruction::ConstInt { dst: 1, value: 1 },
                Instruction::VolatileStore { addr: 0, src: 1, ty: Type::U8 },
            ],
            Terminator::Return(None),
        )],
    );
    poke.return_type = Type::Unit;
    let poke_call = |dst: usize| Instruction::Call {
        dst,
        callee: "poke".into(),
        args: vec![1],
        arg_types: vec![byte_pointer()],
        result: Type::Unit,
    };
    let probe = function(
        "probe",
        Vec::new(),
        vec![Type::I64, byte_pointer(), Type::Unit, Type::Unit, Type::I64],
        vec![BasicBlock::synthetic(
            vec![
                Instruction::ConstInt { dst: 0, value: 8 },
                allocate(1, 0),
                poke_call(2),
                poke_call(3),
                Instruction::ConstInt { dst: 4, value: 5 },
            ],
            Terminator::Return(Some(4)),
        )],
    );
    let module = released(with_allocator(vec![poke, probe]));
    let probe = &module.functions[1];
    let inlined = volatile_accesses(probe);
    let calls_poke = calls(probe, "poke");
    assert!(
        (inlined == 2 && !calls_poke) || (inlined == 0 && calls_poke),
        "either both copies were inlined or neither was: {inlined} accesses, \
         calls_poke = {calls_poke}"
    );
}

#[test]
fn each_pass_keeps_the_volatile_accesses_of_a_function() {
    let mut probe = three_accesses();
    propagate_constants("test.slp", &mut probe).unwrap();
    assert_eq!(volatile_accesses(&probe), 3);
    simplify_cfg(&mut probe);
    assert_eq!(volatile_accesses(&probe), 3);
    eliminate_dead_code(&mut probe);
    assert_eq!(volatile_accesses(&probe), 3);
}

#[test]
fn a_volatile_access_is_lost_only_with_a_block_nothing_reaches() {
    let mut probe = function(
        "probe",
        vec![0],
        vec![byte_pointer(), Type::U8, Type::I64],
        vec![
            BasicBlock::synthetic(
                vec![Instruction::ConstInt { dst: 2, value: 5 }],
                Terminator::Return(Some(2)),
            ),
            BasicBlock::synthetic(
                vec![
                    Instruction::ConstInt { dst: 1, value: 1 },
                    Instruction::VolatileStore { addr: 0, src: 1, ty: Type::U8 },
                ],
                Terminator::Goto(0),
            ),
        ],
    );
    assert_eq!(volatile_accesses(&probe), 1);
    assert!(simplify_cfg(&mut probe));
    assert_eq!(probe.blocks.len(), 1);
    assert_eq!(volatile_accesses(&probe), 0);
}

// ------------------------------------------------------------ passes

fn instructions(function: &MirFunction) -> Vec<&Instruction> {
    function.blocks.iter().flat_map(|block| block.instructions()).collect()
}

fn probe_in(module: &MirModule) -> &MirFunction {
    module.functions.iter().find(|function| function.name == "probe").expect("probe is in the module")
}

/// `(fn probe ((flag bool)) -> i64 (let base (if flag 10 10)) (+ base 5))`
#[test]
fn folds_across_a_branch() {
    let probe = function(
        "probe",
        vec![0],
        vec![Type::Bool, Type::I64, Type::I64, Type::I64, Type::I64],
        vec![
            BasicBlock::synthetic(Vec::new(), Terminator::Branch { condition: 0, then_block: 1, else_block: 2 }),
            BasicBlock::synthetic(vec![Instruction::ConstInt { dst: 1, value: 10 }], Terminator::Goto(3)),
            BasicBlock::synthetic(vec![Instruction::ConstInt { dst: 1, value: 10 }], Terminator::Goto(3)),
            BasicBlock::synthetic(
                vec![
                    Instruction::Assign { dst: 2, src: 1 },
                    Instruction::ConstInt { dst: 3, value: 5 },
                    Instruction::Binary { dst: 4, op: BinaryOp::Add, lhs: 2, rhs: 3, ty: Type::I64 },
                ],
                Terminator::Return(Some(4)),
            ),
        ],
    );
    let module = released(module_with(vec![probe, main_returning_zero()]));
    let probe = probe_in(&module);
    assert!(
        instructions(probe).iter().any(|inst| matches!(inst, Instruction::ConstInt { value: 15, .. })),
        "expected a folded 15, got {:#?}",
        instructions(probe)
    );
}

/// `(fn probe () -> i64 (let big 9223372036854775807) (+ big 1))`
#[test]
fn does_not_fold_an_overflowing_operation() {
    let probe = function(
        "probe",
        Vec::new(),
        vec![Type::I64, Type::I64, Type::I64, Type::I64],
        vec![BasicBlock::synthetic(
            vec![
                Instruction::ConstInt { dst: 0, value: 9223372036854775807 },
                Instruction::Assign { dst: 1, src: 0 },
                Instruction::ConstInt { dst: 2, value: 1 },
                Instruction::Binary { dst: 3, op: BinaryOp::Add, lhs: 1, rhs: 2, ty: Type::I64 },
            ],
            Terminator::Return(Some(3)),
        )],
    );
    let module = released(module_with(vec![probe, main_returning_zero()]));
    assert!(
        instructions(probe_in(&module)).iter().any(|inst| matches!(inst, Instruction::Binary { .. })),
        "the overflowing addition must survive to code generation"
    );
}

/// `(fn probe () -> i64 (let zero 0) (/ 10 zero))`
#[test]
fn does_not_fold_division_by_zero() {
    let probe = function(
        "probe",
        Vec::new(),
        vec![Type::I64, Type::I64, Type::I64, Type::I64],
        vec![BasicBlock::synthetic(
            vec![
                Instruction::ConstInt { dst: 0, value: 0 },
                Instruction::Assign { dst: 1, src: 0 },
                Instruction::ConstInt { dst: 2, value: 10 },
                Instruction::Binary { dst: 3, op: BinaryOp::Div, lhs: 2, rhs: 1, ty: Type::I64 },
            ],
            Terminator::Return(Some(3)),
        )],
    );
    let module = released(module_with(vec![probe, main_returning_zero()]));
    assert!(
        instructions(probe_in(&module)).iter().any(|inst| matches!(inst, Instruction::Binary { .. })),
        "the trapping division must survive to code generation"
    );
}

/// `(fn probe () -> i64 (if true 1 2))`
fn constant_branch() -> MirFunction {
    function(
        "probe",
        Vec::new(),
        vec![Type::Bool, Type::I64],
        vec![
            BasicBlock::synthetic(
                vec![Instruction::ConstBool { dst: 0, value: true }],
                Terminator::Branch { condition: 0, then_block: 1, else_block: 2 },
            ),
            BasicBlock::synthetic(vec![Instruction::ConstInt { dst: 1, value: 1 }], Terminator::Goto(3)),
            BasicBlock::synthetic(vec![Instruction::ConstInt { dst: 1, value: 2 }], Terminator::Goto(3)),
            BasicBlock::synthetic(Vec::new(), Terminator::Return(Some(1))),
        ],
    )
}

#[test]
fn resolves_a_constant_branch_and_drops_the_dead_arm() {
    let unoptimized = module_with(vec![constant_branch(), main_returning_zero()]);
    let optimized = released(module_with(vec![constant_branch(), main_returning_zero()]));
    let before = probe_in(&unoptimized).blocks.len();
    let after = probe_in(&optimized).blocks.len();
    assert!(after < before, "a constant branch should shrink the CFG: {before} -> {after}");
    assert!(
        !instructions(probe_in(&optimized)).iter().any(|inst| matches!(inst, Instruction::ConstInt { value: 2, .. })),
        "the untaken arm should be gone"
    );
}

/// `(fn probe ((limit i64)) -> i64 (let mut total 0) (while (< total limit) (set total (+ total 1))) total)`
fn counting_loop() -> MirFunction {
    function(
        "probe",
        vec![0],
        vec![Type::I64, Type::I64, Type::Bool, Type::I64, Type::I64],
        vec![
            BasicBlock::synthetic(vec![Instruction::ConstInt { dst: 1, value: 0 }], Terminator::Goto(1)),
            BasicBlock::synthetic(
                vec![Instruction::Binary { dst: 2, op: BinaryOp::Less, lhs: 1, rhs: 0, ty: Type::I64 }],
                Terminator::Branch { condition: 2, then_block: 2, else_block: 3 },
            ),
            BasicBlock::synthetic(
                vec![
                    Instruction::ConstInt { dst: 3, value: 1 },
                    Instruction::Binary { dst: 4, op: BinaryOp::Add, lhs: 1, rhs: 3, ty: Type::I64 },
                    Instruction::Assign { dst: 1, src: 4 },
                ],
                Terminator::Goto(1),
            ),
            BasicBlock::synthetic(Vec::new(), Terminator::Return(Some(1))),
        ],
    )
}

/// `(fn probe ((n i64)) -> i64 (let mut total 0) (while (< total n) (set total (+ total 1))) (if (> total 5) total 0))`
#[test]
fn every_block_stays_terminated_and_reachable_after_simplification() {
    let mut probe = counting_loop();
    probe.locals.extend(
        [Type::I64, Type::Bool, Type::I64]
            .into_iter()
            .map(|ty| MirLocal { ty, name: None, is_param: false }),
    );
    probe.blocks[3] = BasicBlock::synthetic(
        vec![
            Instruction::ConstInt { dst: 5, value: 5 },
            Instruction::Binary { dst: 6, op: BinaryOp::Greater, lhs: 1, rhs: 5, ty: Type::I64 },
        ],
        Terminator::Branch { condition: 6, then_block: 4, else_block: 5 },
    );
    probe.blocks.push(BasicBlock::synthetic(vec![Instruction::Assign { dst: 7, src: 1 }], Terminator::Goto(6)));
    probe.blocks.push(BasicBlock::synthetic(vec![Instruction::ConstInt { dst: 7, value: 0 }], Terminator::Goto(6)));
    probe.blocks.push(BasicBlock::synthetic(Vec::new(), Terminator::Return(Some(7))));
    let module = released(module_with(vec![probe, main_returning_zero()]));
    let probe = probe_in(&module);
    let cfg = Cfg::new(probe);
    for block in 0..probe.blocks.len() {
        assert!(cfg.is_reachable(block), "simplification left bb{block} unreachable");
    }
    assert_eq!(probe.entry, 0, "code generation requires entry at block 0");
}

/// `(extern "sl_rt_show" (show (text (& String))) -> unit)` and
/// `(fn probe () -> i64 (let unused 7) (let text "kept") (show (& text)) 42)`
#[test]
fn dead_pure_instructions_are_removed_but_drops_are_kept() {
    let borrowed = Type::Ref { mutable: false, inner: Box::new(Type::String) };
    let probe = function(
        "probe",
        Vec::new(),
        vec![Type::I64, Type::String, borrowed.clone(), Type::Unit, Type::I64],
        vec![BasicBlock::synthetic(
            vec![
                Instruction::ConstInt { dst: 0, value: 7 },
                Instruction::StringNew { dst: 1, value: b"kept".to_vec() },
                Instruction::AddressOf { dst: 2, src: 1 },
                Instruction::Call {
                    dst: 3,
                    callee: "show".into(),
                    args: vec![2],
                    arg_types: vec![borrowed.clone()],
                    result: Type::Unit,
                },
                Instruction::ConstInt { dst: 4, value: 42 },
                Instruction::Drop { local: 1, ty: Type::String },
            ],
            Terminator::Return(Some(4)),
        )],
    );
    let mut module = module_with(vec![probe, main_returning_zero()]);
    module.externs.push(MirExtern {
        name: "show".into(),
        symbol: "sl_rt_show".into(),
        params: vec![borrowed],
        result: Type::Unit,
    });
    let module = released(module);
    let body = instructions(probe_in(&module));
    assert!(body.iter().any(|inst| matches!(inst, Instruction::Drop { .. })), "the string must still be dropped");
    assert!(
        body.iter().any(|inst| matches!(inst, Instruction::Call { callee, .. } if callee.contains("show"))),
        "the call must survive; it has side effects"
    );
    assert!(
        !body.iter().any(|inst| matches!(inst, Instruction::ConstInt { value: 7, .. })),
        "the unused constant should be gone"
    );
}

/// `(extern "sl_rt_note" (note (value i64)) -> unit)`,
/// `(fn shout () -> i64 (note 1) 0)` and `(fn probe () -> i64 (let ignored (shout)) 5)`
#[test]
fn a_call_is_never_removed_even_when_its_result_is_unused() {
    let shout = function(
        "shout",
        Vec::new(),
        vec![Type::I64, Type::Unit, Type::I64],
        vec![BasicBlock::synthetic(
            vec![
                Instruction::ConstInt { dst: 0, value: 1 },
                Instruction::Call {
                    dst: 1,
                    callee: "note".into(),
                    args: vec![0],
                    arg_types: vec![Type::I64],
                    result: Type::Unit,
                },
                Instruction::ConstInt { dst: 2, value: 0 },
            ],
            Terminator::Return(Some(2)),
        )],
    );
    let probe = function(
        "probe",
        Vec::new(),
        vec![Type::I64, Type::I64],
        vec![BasicBlock::synthetic(
            vec![
                Instruction::Call {
                    dst: 0,
                    callee: "shout".into(),
                    args: Vec::new(),
                    arg_types: Vec::new(),
                    result: Type::I64,
                },
                Instruction::ConstInt { dst: 1, value: 5 },
            ],
            Terminator::Return(Some(1)),
        )],
    );
    let mut module = module_with(vec![shout, probe, main_returning_zero()]);
    module.externs.push(MirExtern {
        name: "note".into(),
        symbol: "sl_rt_note".into(),
        params: vec![Type::I64],
        result: Type::Unit,
    });
    let module = released(module);
    let probe = probe_in(&module);
    assert!(
        instructions(probe).iter().any(|inst| matches!(inst, Instruction::Call { .. })),
        "the callee's side effect must survive, inlined or not: {:#?}",
        instructions(probe)
    );
}

/// `(fn probe ((n i64)) -> i64 (loop (break)) n)`
#[test]
fn unreachable_blocks_are_renumbered_consistently() {
    let probe = function(
        "probe",
        vec![0],
        vec![Type::I64],
        vec![
            BasicBlock::synthetic(Vec::new(), Terminator::Goto(1)),
            BasicBlock::synthetic(Vec::new(), Terminator::Goto(3)),
            BasicBlock::synthetic(Vec::new(), Terminator::Goto(1)),
            BasicBlock::synthetic(Vec::new(), Terminator::Return(Some(0))),
        ],
    );
    let module = released(module_with(vec![probe, main_returning_zero()]));
    let probe = probe_in(&module);
    for block in &probe.blocks {
        for target in successors(&block.terminator) {
            assert!(target < probe.blocks.len(), "a terminator points past the end after renumbering");
        }
        assert!(
            !matches!(block.terminator, Terminator::Unreachable) || block.statements.is_empty(),
            "an unreachable block should not carry statements"
        );
    }
}

#[test]
fn a_lattice_that_has_not_settled_folds_nothing_and_says_so() {
    let mut probe = counting_loop();
    let before = probe.clone();
    let error = propagate_constants_within("test.slp", &mut probe, 1).expect_err("one round cannot settle a loop");
    assert_eq!(error[0].code, "SL0700");
    assert!(error[0].message.contains("did not settle in"), "unexpected message: {}", error[0].message);
    assert_eq!(
        format!("{:?}", instructions(&probe)),
        format!("{:?}", instructions(&before)),
        "a run that did not settle must leave the function alone"
    );
}

#[test]
fn the_same_dataflow_settles_within_its_real_bound() {
    let mut probe = counting_loop();
    propagate_constants("test.slp", &mut probe).expect("the dataflow settles");
}
