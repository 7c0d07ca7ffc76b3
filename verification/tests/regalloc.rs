use slopic_core::ast::Type;
use slopic_core::cfg::{live_intervals, Cfg};
use slopic_core::mir::{BasicBlock, BinaryOp, Instruction, MirFunction, MirLocal, Terminator};
use slopic_core::regalloc::{allocate, Allocation, Location};

fn function(blocks: Vec<BasicBlock>, locals: usize) -> MirFunction {
    MirFunction {
        name: "probe".into(),
        emit: true,
        inline_hint: false,
        params: Vec::new(),
        return_type: Type::I64,
        locals: (0..locals)
            .map(|_| MirLocal {
                ty: Type::I64,
                name: None,
                is_param: false,
            })
            .collect(),
        blocks,
        entry: 0,
        span: Default::default(),
    }
}

/// `count` independent const/use pairs, each dead before the next begins.
fn sequential_pairs(count: usize) -> MirFunction {
    let mut statements = Vec::new();
    for local in 0..count {
        statements.push(Instruction::ConstInt {
            dst: local,
            value: local as i64,
        });
        statements.push(Instruction::Binary {
            dst: count,
            op: BinaryOp::Add,
            lhs: local,
            rhs: local,
            ty: Type::I64,
        });
    }
    function(
        vec![BasicBlock::synthetic(
            statements,
            Terminator::Return(Some(count)),
        )],
        count + 1,
    )
}

fn add(dst: usize, lhs: usize, rhs: usize) -> Instruction {
    Instruction::Binary {
        dst,
        op: BinaryOp::Add,
        lhs,
        rhs,
        ty: Type::I64,
    }
}

#[test]
fn disjoint_intervals_reuse_one_register() {
    let mir = sequential_pairs(8);
    let cfg = Cfg::new(&mir);
    let allocation = allocate(&mir, &cfg, 4, &vec![false; mir.locals.len()]);

    assert!(
        allocation.memory_slots() == 0,
        "eight short-lived locals fit in four registers, got {} slots",
        allocation.memory_slots()
    );
    assert!(allocation.used_registers().len() <= 4);
}

#[test]
fn overlapping_intervals_never_share_a_register() {
    // (fn probe ((a i64) (b i64) (c i64) (d i64) (e i64) (f i64)) -> i64
    //   (let g (+ a b)) (let h (+ c d)) (let i (+ e f))
    //   (+ (+ g h) (+ i (+ a b))))
    let mut probe = function(
        vec![BasicBlock::synthetic(
            vec![
                add(6, 0, 1),
                add(7, 2, 3),
                add(8, 4, 5),
                add(9, 6, 7),
                add(10, 0, 1),
                add(11, 8, 10),
                add(12, 9, 11),
            ],
            Terminator::Return(Some(12)),
        )],
        13,
    );
    probe.params = vec![0, 1, 2, 3, 4, 5];
    let cfg = Cfg::new(&probe);
    let allocation = allocate(&probe, &cfg, 5, &vec![false; probe.locals.len()]);

    for left in live_intervals(&probe, &cfg) {
        for right in live_intervals(&probe, &cfg) {
            if left.local >= right.local {
                continue;
            }
            if left.end < right.start || right.end < left.start {
                continue;
            }
            let (Location::Register(one), Location::Register(other)) = (
                allocation.location(left.local),
                allocation.location(right.local),
            ) else {
                continue;
            };
            assert_ne!(
                one, other,
                "overlapping {left:?} and {right:?} share a register"
            );
        }
    }
}

#[test]
fn more_live_values_than_registers_spill_to_memory() {
    // Every local is live from its definition to the final sum, so no two
    // can share; with one register the rest must land in slots.
    let mut statements = Vec::new();
    for local in 0..6 {
        statements.push(Instruction::ConstInt {
            dst: local,
            value: 1,
        });
    }
    for local in 1..6 {
        statements.push(Instruction::Binary {
            dst: 6,
            op: BinaryOp::Add,
            lhs: 0,
            rhs: local,
            ty: Type::I64,
        });
    }
    let mir = function(
        vec![BasicBlock::synthetic(
            statements,
            Terminator::Return(Some(6)),
        )],
        7,
    );
    let cfg = Cfg::new(&mir);
    let allocation = allocate(&mir, &cfg, 1, &vec![false; mir.locals.len()]);

    assert_eq!(allocation.used_registers(), &[0]);
    assert!(
        allocation.memory_slots() >= 5,
        "only one value can hold the register, got {} slots",
        allocation.memory_slots()
    );
}

#[test]
fn a_pinned_local_stays_in_memory() {
    let mir = sequential_pairs(3);
    let cfg = Cfg::new(&mir);
    let mut pinned = vec![false; mir.locals.len()];
    pinned[1] = true;
    let allocation = allocate(&mir, &cfg, 4, &pinned);

    assert!(matches!(allocation.location(1), Location::Memory(_)));
    assert!(matches!(allocation.location(0), Location::Register(_)));
}

#[test]
fn frame_slots_are_numbered_without_gaps() {
    let mir = sequential_pairs(6);
    let cfg = Cfg::new(&mir);
    let allocation = allocate(&mir, &cfg, 2, &vec![false; mir.locals.len()]);

    let mut slots: Vec<usize> = (0..mir.locals.len())
        .filter_map(|local| match allocation.location(local) {
            Location::Memory(slot) => Some(slot),
            Location::Register(_) => None,
        })
        .collect();
    slots.sort_unstable();
    assert_eq!(slots, (0..allocation.memory_slots()).collect::<Vec<_>>());
}

#[test]
fn allocation_is_a_function_of_the_mir_alone() {
    let mir = sequential_pairs(9);
    let cfg = Cfg::new(&mir);
    let pinned = vec![false; mir.locals.len()];
    let first = allocate(&mir, &cfg, 3, &pinned);
    for _ in 0..8 {
        let again = allocate(&mir, &cfg, 3, &pinned);
        for local in 0..mir.locals.len() {
            assert_eq!(first.location(local), again.location(local));
        }
    }
}

#[test]
fn no_registers_available_leaves_everything_in_memory() {
    let mir = sequential_pairs(4);
    let cfg = Cfg::new(&mir);
    let allocation = allocate(&mir, &cfg, 0, &vec![false; mir.locals.len()]);

    assert_eq!(allocation.memory_slots(), mir.locals.len());
    assert!(allocation.used_registers().is_empty());
}

#[test]
fn stack_only_puts_every_local_in_its_own_slot() {
    let allocation = Allocation::stack_only(3);
    assert_eq!(allocation.memory_slots(), 3);
    assert_eq!(allocation.location(2), Location::Memory(2));
    assert_eq!(allocation.location(7), Location::Memory(7));
    assert!(allocation.used_registers().is_empty());
}

#[test]
fn a_value_carried_round_a_loop_stays_live_through_it() {
    // bb0: _0 = 0; goto bb1
    // bb1: _1 = _0 + _0; branch _2 -> bb1 / bb2   (the loop)
    // bb2: return _1
    let mut mir = function(
        vec![
            BasicBlock::synthetic(
                vec![
                    Instruction::ConstInt { dst: 0, value: 0 },
                    Instruction::ConstBool { dst: 2, value: true },
                ],
                Terminator::Goto(1),
            ),
            BasicBlock::synthetic(
                vec![add(1, 0, 0)],
                Terminator::Branch {
                    condition: 2,
                    then_block: 1,
                    else_block: 2,
                },
            ),
            BasicBlock::synthetic(Vec::new(), Terminator::Return(Some(1))),
        ],
        3,
    );
    mir.locals[2].ty = Type::Bool;
    let cfg = Cfg::new(&mir);
    let intervals = live_intervals(&mir, &cfg);
    let zero = intervals.iter().find(|interval| interval.local == 0).unwrap();
    // _0 is read at the top of the loop, so it lives to the loop's last
    // position, the branch that goes back.
    assert_eq!(zero.start, 0);
    assert_eq!(zero.end, 4);
}
