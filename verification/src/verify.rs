//! Internal consistency checks for lowered MIR.
//!
//! The verifier exists to catch compiler bugs — a lowering mistake, a pass that
//! rewrites a block into an inconsistent state — before code generation turns
//! them into a miscompile that only shows up as wrong output at runtime.
//! Failures are reported as `SL0700` diagnostics rather than panics.
use crate::ast::{integer_type, push_type, same_type, type_spelling, Type};
use crate::cfg::{
    defs, is_path, reaches, spec_defs, spec_successors, spec_terminator_uses, spec_uses,
    successors, terminator_uses, uses, Cfg,
};
use crate::diagnostic::{codes, Diagnostic};
use crate::graph::{adjacency, is_walk, reach, walks_to};
use crate::mir::{BasicBlock, BinaryOp, Instruction, LocalId, MirExtern, MirFunction, MirModule, Terminator};
use crate::text::{decimal, push_str, push_usize};
use vstd::prelude::*;

verus! {

/// One broken invariant, before it is put into words.
#[derive(Debug)]
pub enum Fault {
    NoBlocks,
    EntryOutOfRange { entry: usize, blocks: usize },
    EntryNotZero { entry: usize },
    ParamOutOfRange { index: usize, param: usize, locals: usize },
    ParamNotLeading { index: usize, param: usize },
    ParamNotFlagged { param: usize },
    SuccessorOutOfRange { block: usize, target: usize, blocks: usize },
    OperandOutOfRange { block: usize, position: usize, local: usize, locals: usize },
    TerminatorOperandOutOfRange { block: usize, local: usize, locals: usize },
    CallArity { block: usize, position: usize, callee: String, args: usize, types: usize },
    NonNumeric { block: usize, position: usize, ty: Type },
    /// A read no definition reaches; `position` is `None` for the terminator,
    /// and `strict` says the check wanted a definition on every path.
    ReadUndefined { block: usize, position: Option<usize>, local: usize, strict: bool },
    ExternArity { block: usize, position: usize, callee: String, args: usize, declared: usize },
    ExternArgument {
        block: usize,
        position: usize,
        callee: String,
        argument: usize,
        actual: Type,
        declared: Type,
    },
    ExternNotCrossable { block: usize, position: usize, callee: String, argument: usize, actual: Type },
    ExternResult { block: usize, position: usize, callee: String, actual: Type, declared: Type },
}

/// How predecessor states combine at a join.
#[derive(Clone, Copy, PartialEq, Eq, Structural)]
pub enum Merge {
    /// A local counts as defined if a definition reaches it on some path.
    Any,
    /// A local counts as defined only if one reaches it on every path.
    All,
}

// ------------------------------------------------------------ structure

pub open spec fn one_param_faults(f: MirFunction, i: int) -> Seq<Fault> {
    let p = f.params@[i];
    let locals = f.locals@.len();
    if p >= locals {
        seq![Fault::ParamOutOfRange { index: i as usize, param: p, locals: locals as usize }]
    } else {
        (if p != i {
            seq![Fault::ParamNotLeading { index: i as usize, param: p }]
        } else {
            Seq::empty()
        }) + (if !f.locals@[p as int].is_param {
            seq![Fault::ParamNotFlagged { param: p }]
        } else {
            Seq::empty()
        })
    }
}

/// The faults in the first `count` parameters.
pub open spec fn param_faults(f: MirFunction, count: int) -> Seq<Fault>
    decreases count,
{
    if count <= 0 {
        Seq::empty()
    } else {
        param_faults(f, count - 1) + one_param_faults(f, count - 1)
    }
}

/// The out-of-range targets among the first `count` of `targets`.
pub open spec fn successor_faults(block: int, targets: Seq<usize>, blocks: nat, count: int) -> Seq<Fault>
    decreases count,
{
    if count <= 0 {
        Seq::empty()
    } else {
        successor_faults(block, targets, blocks, count - 1) + if targets[count - 1] >= blocks {
            seq![Fault::SuccessorOutOfRange { block: block as usize, target: targets[count - 1], blocks: blocks as usize }]
        } else {
            Seq::empty()
        }
    }
}

/// The locals an instruction mentions: what it reads, then what it defines.
pub open spec fn mentions(i: Instruction) -> Seq<LocalId> {
    spec_uses(i) + match spec_defs(i) {
        Some(d) => seq![d],
        None => Seq::empty(),
    }
}

/// The out-of-range locals among the first `count` of `mentioned`.
pub open spec fn operand_faults(block: int, position: int, mentioned: Seq<LocalId>, locals: nat, count: int) -> Seq<Fault>
    decreases count,
{
    if count <= 0 {
        Seq::empty()
    } else {
        operand_faults(block, position, mentioned, locals, count - 1) + if mentioned[count - 1] >= locals {
            seq![Fault::OperandOutOfRange { block: block as usize, position: position as usize, local: mentioned[count - 1], locals: locals as usize }]
        } else {
            Seq::empty()
        }
    }
}

/// Whether a type is one arithmetic is done on.
pub open spec fn numeric(t: Type) -> bool {
    t is I8 || t is I16 || t is I32 || t is I64 || t is U8 || t is U16 || t is U32 || t is U64 || t is F64
}

/// Arithmetic is done on the integer types and `f64` and on nothing else.
/// So an instruction with any operator but a comparison, on a type such as
/// `bool`, `()`, a string or a pointer, is reported as a fault of its own,
/// and on an integer type or `f64` it is not.
pub proof fn lemma_arithmetic_needs_numbers(
    block: int,
    position: int,
    dst: LocalId,
    op: BinaryOp,
    lhs: LocalId,
    rhs: LocalId,
    ty: Type,
)
    ensures
        numeric(ty) <==> (integer_type(ty) || ty is F64),
        !numeric(Type::Bool),
        !numeric(Type::Unit),
        !numeric(Type::String),
        !(op is Less || op is Greater || op is LessEqual || op is GreaterEqual || op is Equal
            || op is NotEqual) ==> shape_faults(block, position, Instruction::Binary { dst, op, lhs, rhs, ty })
            == if integer_type(ty) || ty is F64 {
            Seq::empty()
        } else {
            seq![Fault::NonNumeric { block: block as usize, position: position as usize, ty }]
        },
{
}

/// What is wrong with an instruction's shape.
pub open spec fn shape_faults(block: int, position: int, i: Instruction) -> Seq<Fault> {
    match i {
        Instruction::Call { callee, args, arg_types, .. } => if args@.len() != arg_types@.len() {
            seq![Fault::CallArity { block: block as usize, position: position as usize, callee, args: args@.len() as usize, types: arg_types@.len() as usize }]
        } else {
            Seq::empty()
        },
        Instruction::Binary { op, ty, .. } => if !(op is Less || op is Greater || op is LessEqual
            || op is GreaterEqual || op is Equal || op is NotEqual) && !numeric(ty) {
            seq![Fault::NonNumeric { block: block as usize, position: position as usize, ty }]
        } else {
            Seq::empty()
        },
        _ => Seq::empty(),
    }
}

/// The faults in the first `count` instructions of a block.
pub open spec fn instruction_faults(block: int, statements: Seq<crate::mir::Statement>, locals: nat, count: int) -> Seq<Fault>
    decreases count,
{
    if count <= 0 {
        Seq::empty()
    } else {
        let i = statements[count - 1].instruction;
        let m = mentions(i);
        instruction_faults(block, statements, locals, count - 1) + operand_faults(block, count - 1, m, locals, m.len() as int)
            + shape_faults(block, count - 1, i)
    }
}

/// The out-of-range locals among the first `count` a terminator reads.
pub open spec fn terminator_faults(block: int, read: Seq<LocalId>, locals: nat, count: int) -> Seq<Fault>
    decreases count,
{
    if count <= 0 {
        Seq::empty()
    } else {
        terminator_faults(block, read, locals, count - 1) + if read[count - 1] >= locals {
            seq![Fault::TerminatorOperandOutOfRange { block: block as usize, local: read[count - 1], locals: locals as usize }]
        } else {
            Seq::empty()
        }
    }
}

/// Everything wrong with one block's shape.
pub open spec fn block_faults(f: MirFunction, b: int) -> Seq<Fault> {
    let block = f.blocks@[b];
    let targets = spec_successors(block.terminator);
    let read = spec_terminator_uses(block.terminator);
    let locals = f.locals@.len();
    successor_faults(b, targets, f.blocks@.len(), targets.len() as int) + instruction_faults(
        b,
        block.statements@,
        locals,
        block.statements@.len() as int,
    ) + terminator_faults(b, read, locals, read.len() as int)
}

/// Everything wrong with the shape of the first `count` blocks.
pub open spec fn blocks_faults(f: MirFunction, count: int) -> Seq<Fault>
    decreases count,
{
    if count <= 0 {
        Seq::empty()
    } else {
        blocks_faults(f, count - 1) + block_faults(f, count - 1)
    }
}

// ------------------------------------------------------------ definedness

/// Some instruction of `block` defines `l`.
pub open spec fn block_defines(block: BasicBlock, l: LocalId) -> bool {
    exists|i: int|
        0 <= i < block.statements@.len() && spec_defs(block.statements@[i].instruction) == Some(l)
}

/// One of the first `pos` instructions of `block` defines `l`.
pub open spec fn defined_before(block: BasicBlock, pos: int, l: LocalId) -> bool {
    exists|i: int| 0 <= i < pos && spec_defs(block.statements@[i].instruction) == Some(l)
}

/// A block before the last one on `path` defines `l`.
pub open spec fn path_defines(blocks: Seq<BasicBlock>, path: Seq<int>, l: LocalId) -> bool {
    exists|k: int| 0 <= k < path.len() - 1 && block_defines(blocks[path[k]], l)
}

/// `l` arrives defined along `path`: it is a parameter, or a block passed
/// through on the way defines it.
pub open spec fn arrives_defined(f: MirFunction, path: Seq<int>, l: LocalId) -> bool {
    f.params@.contains(l) || path_defines(f.blocks@, path, l)
}

/// Whether `l` counts as defined on entry to block `b` under `merge`: along
/// some path from the entry, or along every one.
pub open spec fn defined_on_entry(f: MirFunction, b: int, l: LocalId, merge: Merge) -> bool {
    match merge {
        Merge::Any => exists|path: Seq<int>|
            is_path(f.blocks@, f.entry as int, path) && path.last() == b && arrives_defined(f, path, l),
        Merge::All => forall|path: Seq<int>|
            is_path(f.blocks@, f.entry as int, path) && path.last() == b ==> arrives_defined(f, path, l),
    }
}

/// Whether `l` counts as defined just before instruction `pos` of block `b`.
pub open spec fn defined_at(f: MirFunction, b: int, pos: int, l: LocalId, merge: Merge) -> bool {
    defined_on_entry(f, b, l, merge) || defined_before(f.blocks@[b], pos, l)
}

/// The undefined reads among the first `count` of `read`.
pub open spec fn read_faults(f: MirFunction, b: int, pos: int, terminator: bool, read: Seq<LocalId>, merge: Merge, count: int) -> Seq<Fault>
    decreases count,
{
    if count <= 0 {
        Seq::empty()
    } else {
        let l = read[count - 1];
        read_faults(f, b, pos, terminator, read, merge, count - 1) + if l < f.locals@.len() && !defined_at(f, b, pos, l, merge) {
            seq![Fault::ReadUndefined { block: b as usize, position: if terminator { None } else { Some(pos as usize) }, local: l, strict: merge == Merge::All }]
        } else {
            Seq::empty()
        }
    }
}

/// The undefined reads among the first `count` instructions of block `b`.
pub open spec fn block_read_faults(f: MirFunction, b: int, merge: Merge, count: int) -> Seq<Fault>
    decreases count,
{
    if count <= 0 {
        Seq::empty()
    } else {
        let read = spec_uses(f.blocks@[b].statements@[count - 1].instruction);
        block_read_faults(f, b, merge, count - 1) + read_faults(f, b, count - 1, false, read, merge, read.len() as int)
    }
}

/// The undefined reads in block `b`, its terminator included, when the entry
/// reaches it; an unreachable block reads nothing.
pub open spec fn reachable_block_read_faults(f: MirFunction, b: int, merge: Merge) -> Seq<Fault> {
    if reaches(f.blocks@, f.entry as int, b) {
        let block = f.blocks@[b];
        let n = block.statements@.len() as int;
        let read = spec_terminator_uses(block.terminator);
        block_read_faults(f, b, merge, n) + read_faults(f, b, n, true, read, merge, read.len() as int)
    } else {
        Seq::empty()
    }
}

/// The undefined reads in the first `count` blocks.
pub open spec fn initialization_faults(f: MirFunction, merge: Merge, count: int) -> Seq<Fault>
    decreases count,
{
    if count <= 0 {
        Seq::empty()
    } else {
        initialization_faults(f, merge, count - 1) + reachable_block_read_faults(f, count - 1, merge)
    }
}

/// Everything wrong with a function, in the order it is reported.
pub open spec fn function_faults(f: MirFunction) -> Seq<Fault> {
    let n = f.blocks@.len();
    if n == 0 {
        seq![Fault::NoBlocks]
    } else if f.entry >= n {
        seq![Fault::EntryOutOfRange { entry: f.entry, blocks: n as usize }]
    } else {
        (if f.entry != 0 {
            seq![Fault::EntryNotZero { entry: f.entry }]
        } else {
            Seq::empty()
        }) + param_faults(f, f.params@.len() as int) + blocks_faults(f, n as int)
            + initialization_faults(f, Merge::Any, n as int)
    }
}


fn append(out: &mut Vec<Fault>, more: Vec<Fault>)
    ensures
        final(out)@ == old(out)@ + more@,
{
    let mut more = more;
    out.append(&mut more);
}

fn check_params(f: &MirFunction) -> (r: Vec<Fault>)
    ensures
        r@ == param_faults(*f, f.params@.len() as int),
{
    let mut r: Vec<Fault> = Vec::new();
    let locals = f.locals.len();
    let mut index: usize = 0;
    while index < f.params.len()
        invariant
            index <= f.params@.len(),
            locals == f.locals@.len(),
            r@ == param_faults(*f, index as int),
        decreases f.params@.len() - index,
    {
        let param = f.params[index];
        let ghost before = r@;
        if param >= locals {
            r.push(Fault::ParamOutOfRange { index, param, locals });
        } else {
            if param != index {
                r.push(Fault::ParamNotLeading { index, param });
            }
            if !f.locals[param].is_param {
                r.push(Fault::ParamNotFlagged { param });
            }
        }
        assert(r@ =~= before + one_param_faults(*f, index as int));
        index += 1;
    }
    r
}

fn check_successors(f: &MirFunction, b: usize) -> (r: Vec<Fault>)
    requires
        b < f.blocks@.len(),
    ensures
        r@ == successor_faults(
            b as int,
            spec_successors(f.blocks@[b as int].terminator),
            f.blocks@.len(),
            spec_successors(f.blocks@[b as int].terminator).len() as int,
        ),
{
    let targets = successors(&f.blocks[b].terminator);
    let blocks = f.blocks.len();
    let mut r: Vec<Fault> = Vec::new();
    let mut i: usize = 0;
    while i < targets.len()
        invariant
            i <= targets@.len(),
            blocks == f.blocks@.len(),
            r@ == successor_faults(b as int, targets@, blocks as nat, i as int),
        decreases targets@.len() - i,
    {
        let ghost before = r@;
        if targets[i] >= blocks {
            r.push(Fault::SuccessorOutOfRange { block: b, target: targets[i], blocks });
        }
        assert(r@ =~= successor_faults(b as int, targets@, blocks as nat, i + 1));
        i += 1;
    }
    r
}

fn clone_string(s: &String) -> (r: String)
    ensures
        r == *s,
{
    s.clone()
}

fn check_instruction(b: usize, position: usize, instruction: &Instruction, locals: usize) -> (r: Vec<Fault>)
    ensures
        r@ == operand_faults(b as int, position as int, mentions(*instruction), locals as nat, mentions(*instruction).len() as int)
            + shape_faults(b as int, position as int, *instruction),
{
    let mut mentioned: Vec<LocalId> = Vec::new();
    uses(instruction, &mut mentioned);
    match defs(instruction) {
        Some(d) => mentioned.push(d),
        None => {},
    }
    assert(mentioned@ =~= mentions(*instruction));
    let mut r: Vec<Fault> = Vec::new();
    let mut i: usize = 0;
    while i < mentioned.len()
        invariant
            i <= mentioned@.len(),
            r@ == operand_faults(b as int, position as int, mentioned@, locals as nat, i as int),
        decreases mentioned@.len() - i,
    {
        let ghost before = r@;
        if mentioned[i] >= locals {
            r.push(Fault::OperandOutOfRange { block: b, position, local: mentioned[i], locals });
        }
        assert(r@ =~= operand_faults(b as int, position as int, mentioned@, locals as nat, i + 1));
        i += 1;
    }
    let ghost operands = r@;
    match instruction {
        Instruction::Call { callee, args, arg_types, .. } => {
            if args.len() != arg_types.len() {
                r.push(Fault::CallArity { block: b, position, callee: clone_string(callee), args: args.len(), types: arg_types.len() });
            }
        },
        Instruction::Binary { op, ty, .. } => {
            if !op.compares() && !is_numeric(ty) {
                r.push(Fault::NonNumeric { block: b, position, ty: ty.clone() });
            }
        },
        _ => {},
    }
    assert(r@ =~= operands + shape_faults(b as int, position as int, *instruction));
    r
}

fn is_numeric(t: &Type) -> (r: bool)
    ensures
        r == numeric(*t),
{
    match t {
        Type::I8 | Type::I16 | Type::I32 | Type::I64 | Type::U8 | Type::U16 | Type::U32 | Type::U64 | Type::F64 => true,
        _ => false,
    }
}

fn check_block(f: &MirFunction, b: usize) -> (r: Vec<Fault>)
    requires
        b < f.blocks@.len(),
    ensures
        r@ == block_faults(*f, b as int),
{
    let mut r = check_successors(f, b);
    let block = &f.blocks[b];
    let locals = f.locals.len();
    let ghost head = r@;
    let mut position: usize = 0;
    while position < block.statements.len()
        invariant
            block == f.blocks@[b as int],
            locals == f.locals@.len(),
            position <= block.statements@.len(),
            r@ == head + instruction_faults(b as int, block.statements@, locals as nat, position as int),
        decreases block.statements@.len() - position,
    {
        let more = check_instruction(b, position, &block.statements[position].instruction, locals);
        append(&mut r, more);
        assert(r@ =~= head + instruction_faults(b as int, block.statements@, locals as nat, position + 1));
        position += 1;
    }
    let read = terminator_uses(&block.terminator);
    let ghost middle = r@;
    let mut i: usize = 0;
    while i < read.len()
        invariant
            i <= read@.len(),
            locals == f.locals@.len(),
            r@ == middle + terminator_faults(b as int, read@, locals as nat, i as int),
        decreases read@.len() - i,
    {
        if read[i] >= locals {
            r.push(Fault::TerminatorOperandOutOfRange { block: b, local: read[i], locals });
        }
        assert(r@ =~= middle + terminator_faults(b as int, read@, locals as nat, i + 1));
        i += 1;
    }
    r
}


// ------------------------------------------------------------ definedness, computed

/// The edges of the graph that walks the control flow while remembering
/// whether `l` has been defined on the way: node `2 * b + d` is block `b`,
/// with `d` one once a definition has been passed.
pub open spec fn track_edge(f: MirFunction, l: LocalId, v: int, w: int) -> bool {
    let n = f.blocks@.len();
    let b = v / 2;
    let passed = v % 2 == 1 || block_defines(f.blocks@[b], l);
    &&& 0 <= w < 2 * n
    &&& spec_successors(f.blocks@[b].terminator).contains((w / 2) as usize)
    &&& (w % 2 == 1) == passed
}

/// `g` is the definition-tracking graph of `f` for `l`.
pub open spec fn tracks(f: MirFunction, l: LocalId, g: Seq<Seq<usize>>) -> bool {
    &&& g.len() == 2 * f.blocks@.len()
    &&& forall|v: int, w: usize|
        0 <= v < g.len() ==> (#[trigger] g[v].contains(w) <==> track_edge(f, l, v, w as int))
}

/// Which locals each block defines.
fn definitions(f: &MirFunction) -> (table: Vec<Vec<bool>>)
    ensures
        table@.len() == f.blocks@.len(),
        forall|b: int| 0 <= b < table@.len() ==> (#[trigger] table@[b])@.len() == f.locals@.len(),
        forall|b: int, l: int|
            0 <= b < table@.len() && 0 <= l < f.locals@.len() ==> (#[trigger] table@[b]@[l]
                <==> block_defines(f.blocks@[b], l as LocalId)),
{
    let locals = f.locals.len();
    let mut table: Vec<Vec<bool>> = Vec::new();
    while table.len() < f.blocks.len()
        invariant
            locals == f.locals@.len(),
            table@.len() <= f.blocks@.len(),
            forall|b: int| 0 <= b < table@.len() ==> (#[trigger] table@[b])@.len() == locals,
            forall|b: int, l: int|
                0 <= b < table@.len() && 0 <= l < locals ==> (#[trigger] table@[b]@[l]
                    <==> block_defines(f.blocks@[b], l as LocalId)),
        decreases f.blocks@.len() - table@.len(),
    {
        let b = table.len();
        let block = &f.blocks[b];
        let mut row: Vec<bool> = Vec::new();
        while row.len() < locals
            invariant
                row@.len() <= locals,
                forall|l: int| 0 <= l < row@.len() ==> !row@[l],
            decreases locals - row@.len(),
        {
            row.push(false);
        }
        let mut position: usize = 0;
        while position < block.statements.len()
            invariant
                locals == f.locals@.len(),
                block == f.blocks@[b as int],
                row@.len() == locals,
                position <= block.statements@.len(),
                forall|l: int| 0 <= l < locals ==> (#[trigger] row@[l] <==> defined_before(*block, position as int, l as LocalId)),
            decreases block.statements@.len() - position,
        {
            match defs(&block.statements[position].instruction) {
                Some(d) => {
                    if d < locals {
                        row.set(d, true);
                    }
                },
                None => {},
            }
            position += 1;
        }
        table.push(row);
    }
    table
}

/// Which locals are parameters.
fn parameters(f: &MirFunction) -> (flags: Vec<bool>)
    ensures
        flags@.len() == f.locals@.len(),
        forall|l: int| 0 <= l < flags@.len() ==> (#[trigger] flags@[l] <==> f.params@.contains(l as LocalId)),
{
    let locals = f.locals.len();
    let mut flags: Vec<bool> = Vec::new();
    while flags.len() < locals
        invariant
            flags@.len() <= locals,
            forall|l: int| 0 <= l < flags@.len() ==> !flags@[l],
        decreases locals - flags@.len(),
    {
        flags.push(false);
    }
    let mut i: usize = 0;
    while i < f.params.len()
        invariant
            locals == f.locals@.len(),
            flags@.len() == locals,
            i <= f.params@.len(),
            forall|l: int| 0 <= l < locals ==> (#[trigger] flags@[l] <==> exists|j: int| 0 <= j < i && f.params@[j] == l),
        decreases f.params@.len() - i,
    {
        if f.params[i] < locals {
            flags.set(f.params[i], true);
        }
        i += 1;
    }
    flags
}

fn tracking_graph(f: &MirFunction, table: &Vec<Vec<bool>>, l: LocalId) -> (adj: Vec<Vec<usize>>)
    requires
        2 * f.blocks@.len() <= usize::MAX,
        l < f.locals@.len(),
        table@.len() == f.blocks@.len(),
        forall|b: int| 0 <= b < table@.len() ==> (#[trigger] table@[b])@.len() == f.locals@.len(),
        forall|b: int, k: int|
            0 <= b < table@.len() && 0 <= k < f.locals@.len() ==> (#[trigger] table@[b]@[k]
                <==> block_defines(f.blocks@[b], k as LocalId)),
    ensures
        tracks(*f, l, adjacency(adj@)),
        adj@.len() == 2 * f.blocks@.len(),
{
    let n = f.blocks.len();
    let mut adj: Vec<Vec<usize>> = Vec::new();
    while adj.len() < 2 * n
        invariant
            n == f.blocks@.len(),
            2 * n <= usize::MAX,
            l < f.locals@.len(),
            table@.len() == n,
            forall|b: int| 0 <= b < table@.len() ==> (#[trigger] table@[b])@.len() == f.locals@.len(),
            forall|b: int, k: int|
                0 <= b < table@.len() && 0 <= k < f.locals@.len() ==> (#[trigger] table@[b]@[k]
                    <==> block_defines(f.blocks@[b], k as LocalId)),
            adj@.len() <= 2 * n,
            forall|v: int, w: usize|
                0 <= v < adj@.len() ==> (#[trigger] adj@[v]@.contains(w) <==> track_edge(*f, l, v, w as int)),
        decreases 2 * n - adj@.len(),
    {
        let v = adj.len();
        let b = v / 2;
        let passed = v % 2 == 1 || table[b][l];
        let bit: usize = if passed { 1 } else { 0 };
        let targets = successors(&f.blocks[b].terminator);
        let mut row: Vec<usize> = Vec::new();
        let mut i: usize = 0;
        while i < targets.len()
            invariant
                n == f.blocks@.len(),
                2 * n <= usize::MAX,
                b < n,
                bit < 2,
                targets@ == spec_successors(f.blocks@[b as int].terminator),
                i <= targets@.len(),
                forall|w: usize|
                    #[trigger] row@.contains(w) <==> (w < 2 * n && w % 2 == bit
                        && exists|j: int| 0 <= j < i && targets@[j] == w / 2),
                forall|k: int| 0 <= k < row@.len() ==> (#[trigger] row@[k]) < 2 * n,
            decreases targets@.len() - i,
        {
            let t = targets[i];
            let ghost before = row@;
            if t < n {
                row.push(2 * t + bit);
            }
            proof {
                assert forall|w: usize|
                    #[trigger] row@.contains(w) <==> (w < 2 * n && w % 2 == bit
                        && exists|j: int| 0 <= j < i + 1 && targets@[j] == w / 2) by {
                    if row@.contains(w) {
                        let k = choose|k: int| 0 <= k < row@.len() && row@[k] == w;
                        if k < before.len() {
                            assert(before[k] == w);
                            assert(before.contains(w));
                        } else {
                            assert(t < n && w == 2 * t + bit);
                            assert(targets@[i as int] == w / 2);
                        }
                    }
                    if w < 2 * n && w % 2 == bit && exists|j: int| 0 <= j < i + 1 && targets@[j] == w / 2 {
                        let j = choose|j: int| 0 <= j < i + 1 && targets@[j] == w / 2;
                        if j < i {
                            assert(before.contains(w));
                            let k = choose|k: int| 0 <= k < before.len() && before[k] == w;
                            assert(row@[k] == w);
                        } else {
                            assert(w == 2 * t + bit);
                            assert(row@[row@.len() - 1] == w);
                        }
                    }
                }
            }
            i += 1;
        }
        proof {
            assert forall|w: usize| #[trigger] row@.contains(w) <==> track_edge(*f, l, v as int, w as int) by {
                if row@.contains(w) {
                    let j = choose|j: int| 0 <= j < targets@.len() && targets@[j] == w / 2;
                    assert(targets@.contains((w / 2) as usize));
                }
                if track_edge(*f, l, v as int, w as int) {
                    let j = choose|j: int| 0 <= j < targets@.len() && targets@[j] == (w / 2) as usize;
                    assert(targets@[j] == w / 2);
                }
            }
        }
        adj.push(row);
    }
    proof {
        let g = adjacency(adj@);
        assert forall|v: int, w: usize| 0 <= v < g.len() implies (#[trigger] g[v].contains(w) <==> track_edge(*f, l, v, w as int)) by {
            assert(g[v] == adj@[v]@);
        }
    }
    adj
}

/// A path through the control flow is a walk in the tracking graph that
/// ends knowing whether the path defined `l`.
proof fn lemma_lift(f: MirFunction, l: LocalId, g: Seq<Seq<usize>>, path: Seq<int>)
    requires
        tracks(f, l, g),
        2 * f.blocks@.len() <= usize::MAX,
        is_path(f.blocks@, f.entry as int, path),
    ensures
        walks_to(g, 2 * f.entry + if f.params@.contains(l) { 1int } else { 0 }, 2 * path.last() + if arrives_defined(f, path, l) { 1int } else { 0 }),
    decreases path.len(),
{
    let start = 2 * f.entry + if f.params@.contains(l) { 1int } else { 0 };
    if path.len() == 1 {
        let walk = seq![start];
        assert(!path_defines(f.blocks@, path, l));
        assert(is_walk(g, start, walk));
        assert(walk.last() == start);
    } else {
        let prefix = path.drop_last();
        assert(is_path(f.blocks@, f.entry as int, prefix));
        lemma_lift(f, l, g, prefix);
        let bit = if arrives_defined(f, prefix, l) { 1int } else { 0 };
        let v = 2 * prefix.last() + bit;
        let walk = choose|walk: Seq<int>| is_walk(g, start, walk) && walk.last() == v;
        let b = prefix.last();
        assert(prefix[prefix.len() - 1] == b);
        assert(path[path.len() - 2] == b);
        assert(spec_successors(f.blocks@[path[path.len() - 2]].terminator).contains(path[path.len() - 1] as usize));
        let nbit = if arrives_defined(f, path, l) { 1int } else { 0 };
        let w = 2 * path.last() + nbit;
        assert(0 <= path.last() < f.blocks@.len()) by {
            assert(0 <= path[path.len() - 1] < f.blocks@.len());
        }
        assert(arrives_defined(f, path, l) == (arrives_defined(f, prefix, l) || block_defines(f.blocks@[b], l))) by {
            if path_defines(f.blocks@, path, l) {
                let k = choose|k: int| 0 <= k < path.len() - 1 && block_defines(f.blocks@[path[k]], l);
                if k < path.len() - 2 {
                    assert(prefix[k] == path[k]);
                    assert(path_defines(f.blocks@, prefix, l));
                }
            }
            if path_defines(f.blocks@, prefix, l) {
                let k = choose|k: int| 0 <= k < prefix.len() - 1 && block_defines(f.blocks@[prefix[k]], l);
                assert(prefix[k] == path[k]);
            }
            if block_defines(f.blocks@[b], l) {
                assert(path[path.len() - 2] == b);
            }
        }
        assert(v / 2 == b);
        assert(w / 2 == path.last());
        assert(track_edge(f, l, v, (w as usize) as int));
        assert(g[v].contains(w as usize));
        let longer = walk.push(w);
        assert(longer[longer.len() - 2] == v);
        assert(is_walk(g, start, longer));
        assert(longer.last() == w);
    }
}

/// A walk in the tracking graph is the lift of a path through the control
/// flow that ends where it does and agrees on whether `l` was defined.
proof fn lemma_project(f: MirFunction, l: LocalId, g: Seq<Seq<usize>>, walk: Seq<int>)
    requires
        tracks(f, l, g),
        2 * f.blocks@.len() <= usize::MAX,
        0 <= f.entry < f.blocks@.len(),
        is_walk(g, 2 * f.entry + if f.params@.contains(l) { 1int } else { 0 }, walk),
    ensures
        exists|path: Seq<int>|
            is_path(f.blocks@, f.entry as int, path) && path.last() == walk.last() / 2
                && arrives_defined(f, path, l) == (walk.last() % 2 == 1),
    decreases walk.len(),
{
    let start = 2 * f.entry + if f.params@.contains(l) { 1int } else { 0 };
    if walk.len() == 1 {
        let path = seq![f.entry as int];
        assert(is_path(f.blocks@, f.entry as int, path));
        assert(!path_defines(f.blocks@, path, l));
        assert(path.last() == walk.last() / 2);
    } else {
        let prefix = walk.drop_last();
        assert(is_walk(g, start, prefix));
        lemma_project(f, l, g, prefix);
        let v = prefix.last();
        let path = choose|path: Seq<int>|
            is_path(f.blocks@, f.entry as int, path) && path.last() == v / 2
                && arrives_defined(f, path, l) == (v % 2 == 1);
        let w = walk.last();
        assert(prefix[prefix.len() - 1] == v);
        assert(walk[walk.len() - 2] == v);
        assert(g[walk[walk.len() - 2]].contains(walk[walk.len() - 1] as usize));
        assert(0 <= v < g.len());
        assert(0 <= w < g.len()) by {
            assert(0 <= walk[walk.len() - 1] < g.len());
        }
        assert(g[v].contains(w as usize));
        assert(track_edge(f, l, v, (w as usize) as int));
        let b = v / 2;
        let longer = path.push(w / 2);
        assert(longer[longer.len() - 2] == b);
        assert(longer[longer.len() - 1] == w / 2);
        assert(spec_successors(f.blocks@[longer[longer.len() - 2]].terminator).contains(longer[longer.len() - 1] as usize));
        assert(0 <= longer[longer.len() - 1] < f.blocks@.len());
        assert(is_path(f.blocks@, f.entry as int, longer));
        assert(arrives_defined(f, longer, l) == (arrives_defined(f, path, l) || block_defines(f.blocks@[b], l))) by {
            if path_defines(f.blocks@, longer, l) {
                let k = choose|k: int| 0 <= k < longer.len() - 1 && block_defines(f.blocks@[longer[k]], l);
                if k < longer.len() - 2 {
                    assert(path[k] == longer[k]);
                    assert(path_defines(f.blocks@, path, l));
                }
            }
            if path_defines(f.blocks@, path, l) {
                let k = choose|k: int| 0 <= k < path.len() - 1 && block_defines(f.blocks@[path[k]], l);
                assert(path[k] == longer[k]);
            }
            if block_defines(f.blocks@[b], l) {
                assert(longer[longer.len() - 2] == b);
            }
        }
        assert(longer.last() == w / 2);
    }
}

/// For a reachable block, what the tracking graph says is what
/// `defined_on_entry` means.
proof fn lemma_entry_state(f: MirFunction, l: LocalId, g: Seq<Seq<usize>>, b: int)
    requires
        tracks(f, l, g),
        2 * f.blocks@.len() <= usize::MAX,
        0 <= f.entry < f.blocks@.len(),
        0 <= b < f.blocks@.len(),
    ensures
        defined_on_entry(f, b, l, Merge::Any) <==> walks_to(g, 2 * f.entry + if f.params@.contains(l) { 1int } else { 0 }, 2 * b + 1),
        defined_on_entry(f, b, l, Merge::All) <==> !walks_to(g, 2 * f.entry + if f.params@.contains(l) { 1int } else { 0 }, 2 * b),
{
    let start = 2 * f.entry + if f.params@.contains(l) { 1int } else { 0 };
    if defined_on_entry(f, b, l, Merge::Any) {
        let path = choose|path: Seq<int>|
            is_path(f.blocks@, f.entry as int, path) && path.last() == b && arrives_defined(f, path, l);
        lemma_lift(f, l, g, path);
    }
    if walks_to(g, start, 2 * b + 1) {
        let walk = choose|walk: Seq<int>| is_walk(g, start, walk) && walk.last() == 2 * b + 1;
        lemma_project(f, l, g, walk);
    }
    if !defined_on_entry(f, b, l, Merge::All) {
        let path = choose|path: Seq<int>|
            !(is_path(f.blocks@, f.entry as int, path) && path.last() == b ==> arrives_defined(f, path, l));
        lemma_lift(f, l, g, path);
    }
    if walks_to(g, start, 2 * b) {
        let walk = choose|walk: Seq<int>| is_walk(g, start, walk) && walk.last() == 2 * b;
        lemma_project(f, l, g, walk);
        let path = choose|path: Seq<int>|
            is_path(f.blocks@, f.entry as int, path) && path.last() == walk.last() / 2
                && arrives_defined(f, path, l) == (walk.last() % 2 == 1);
        assert(!arrives_defined(f, path, l));
    }
}


fn check_reads(
    f: &MirFunction,
    b: usize,
    pos: usize,
    terminator: bool,
    read: &Vec<LocalId>,
    defined: &Vec<bool>,
    merge: Merge,
) -> (r: Vec<Fault>)
    requires
        b < f.blocks@.len(),
        defined@.len() == f.locals@.len(),
        forall|l: int| 0 <= l < defined@.len() ==> (#[trigger] defined@[l] <==> defined_at(*f, b as int, pos as int, l as LocalId, merge)),
    ensures
        r@ == read_faults(*f, b as int, pos as int, terminator, read@, merge, read@.len() as int),
{
    let mut r: Vec<Fault> = Vec::new();
    let mut i: usize = 0;
    while i < read.len()
        invariant
            i <= read@.len(),
            defined@.len() == f.locals@.len(),
            forall|l: int| 0 <= l < defined@.len() ==> (#[trigger] defined@[l] <==> defined_at(*f, b as int, pos as int, l as LocalId, merge)),
            r@ == read_faults(*f, b as int, pos as int, terminator, read@, merge, i as int),
        decreases read@.len() - i,
    {
        let l = read[i];
        if l < defined.len() && !defined[l] {
            let position = if terminator { None } else { Some(pos) };
            let strict = match merge {
                Merge::All => true,
                Merge::Any => false,
            };
            r.push(Fault::ReadUndefined { block: b, position, local: l, strict });
        }
        assert(r@ =~= read_faults(*f, b as int, pos as int, terminator, read@, merge, i + 1));
        i += 1;
    }
    r
}

/// Every read of a local that no definition reaches under `merge`, block by
/// block in index order.
fn check_initialization(f: &MirFunction, merge: Merge) -> (r: Vec<Fault>)
    requires
        f.blocks@.len() > 0,
        f.entry < f.blocks@.len(),
        2 * f.blocks@.len() <= usize::MAX,
    ensures
        r@ == initialization_faults(*f, merge, f.blocks@.len() as int),
{
    let n = f.blocks.len();
    let locals = f.locals.len();
    let table = definitions(f);
    let params = parameters(f);
    let mut arrived: Vec<Vec<bool>> = Vec::new();
    let ghost mut graphs: Seq<Seq<Seq<usize>>> = Seq::empty();
    while arrived.len() < locals
        invariant
            n == f.blocks@.len(),
            locals == f.locals@.len(),
            f.entry < n,
            2 * n <= usize::MAX,
            table@.len() == n,
            forall|b: int| 0 <= b < table@.len() ==> (#[trigger] table@[b])@.len() == locals,
            forall|b: int, k: int|
                0 <= b < table@.len() && 0 <= k < locals ==> (#[trigger] table@[b]@[k]
                    <==> block_defines(f.blocks@[b], k as LocalId)),
            params@.len() == locals,
            forall|k: int| 0 <= k < locals ==> (#[trigger] params@[k] <==> f.params@.contains(k as LocalId)),
            arrived@.len() <= locals,
            graphs.len() == arrived@.len(),
            forall|k: int| 0 <= k < arrived@.len() ==> tracks(*f, k as LocalId, #[trigger] graphs[k]),
            forall|k: int| 0 <= k < arrived@.len() ==> (#[trigger] arrived@[k])@.len() == 2 * n,
            forall|k: int, v: int|
                0 <= k < arrived@.len() && 0 <= v < 2 * n ==> (#[trigger] arrived@[k]@[v] <==> walks_to(
                    graphs[k],
                    2 * f.entry + if f.params@.contains(k as LocalId) { 1int } else { 0 },
                    v,
                )),
        decreases locals - arrived@.len(),
    {
        let l = arrived.len();
        let adj = tracking_graph(f, &table, l);
        let start = 2 * f.entry + if params[l] { 1 } else { 0 };
        let marks = reach(&adj, start);
        proof {
            graphs = graphs.push(adjacency(adj@));
        }
        arrived.push(marks);
    }
    let cfg = Cfg::new(f);
    let mut r: Vec<Fault> = Vec::new();
    let mut b: usize = 0;
    while b < n
        invariant
            n == f.blocks@.len(),
            locals == f.locals@.len(),
            f.entry < n,
            2 * n <= usize::MAX,
            cfg.blocks() == f.blocks@,
            cfg.entry() == f.entry as int,
            cfg.wf(),
            b <= n,
            arrived@.len() == locals,
            graphs.len() == locals,
            forall|k: int| 0 <= k < locals ==> tracks(*f, k as LocalId, #[trigger] graphs[k]),
            forall|k: int| 0 <= k < locals ==> (#[trigger] arrived@[k])@.len() == 2 * n,
            forall|k: int, v: int|
                0 <= k < locals && 0 <= v < 2 * n ==> (#[trigger] arrived@[k]@[v] <==> walks_to(
                    graphs[k],
                    2 * f.entry + if f.params@.contains(k as LocalId) { 1int } else { 0 },
                    v,
                )),
            r@ == initialization_faults(*f, merge, b as int),
        decreases n - b,
    {
        let ghost before = r@;
        if cfg.is_reachable(b) {
            let block = &f.blocks[b];
            let mut defined: Vec<bool> = Vec::new();
            while defined.len() < locals
                invariant
                    n == f.blocks@.len(),
                    locals == f.locals@.len(),
                    b < n,
                    f.entry < n,
                    2 * n <= usize::MAX,
                    defined@.len() <= locals,
                    arrived@.len() == locals,
                    forall|k: int| 0 <= k < locals ==> tracks(*f, k as LocalId, #[trigger] graphs[k]),
                    forall|k: int| 0 <= k < locals ==> (#[trigger] arrived@[k])@.len() == 2 * n,
                    forall|k: int, v: int|
                        0 <= k < locals && 0 <= v < 2 * n ==> (#[trigger] arrived@[k]@[v] <==> walks_to(
                            graphs[k],
                            2 * f.entry + if f.params@.contains(k as LocalId) { 1int } else { 0 },
                            v,
                        )),
                    forall|k: int| 0 <= k < defined@.len() ==> (#[trigger] defined@[k] <==> defined_at(*f, b as int, 0, k as LocalId, merge)),
                decreases locals - defined@.len(),
            {
                let l = defined.len();
                proof {
                    lemma_entry_state(*f, l, graphs[l as int], b as int);
                }
                let on_entry = match merge {
                    Merge::Any => arrived[l][2 * b + 1],
                    Merge::All => !arrived[l][2 * b],
                };
                defined.push(on_entry);
            }
            let mut pos: usize = 0;
            while pos < block.statements.len()
                invariant
                    n == f.blocks@.len(),
                    b < n,
                    block == f.blocks@[b as int],
                    reaches(f.blocks@, f.entry as int, b as int),
                    pos <= block.statements@.len(),
                    defined@.len() == f.locals@.len(),
                    forall|k: int| 0 <= k < defined@.len() ==> (#[trigger] defined@[k] <==> defined_at(*f, b as int, pos as int, k as LocalId, merge)),
                    r@ == before + block_read_faults(*f, b as int, merge, pos as int),
                decreases block.statements@.len() - pos,
            {
                let instruction = &block.statements[pos].instruction;
                let mut read: Vec<LocalId> = Vec::new();
                uses(instruction, &mut read);
                assert(read@ =~= spec_uses(*instruction));
                let more = check_reads(f, b, pos, false, &read, &defined, merge);
                append(&mut r, more);
                assert(r@ =~= before + block_read_faults(*f, b as int, merge, pos + 1));
                match defs(instruction) {
                    Some(d) => {
                        if d < defined.len() {
                            defined.set(d, true);
                        }
                    },
                    None => {},
                }
                proof {
                    assert forall|k: int| 0 <= k < defined@.len() implies (#[trigger] defined@[k] <==> defined_at(*f, b as int, pos + 1, k as LocalId, merge)) by {
                        if defined_before(*block, pos as int, k as LocalId) {
                            let i = choose|i: int| 0 <= i < pos && spec_defs(block.statements@[i].instruction) == Some(k as LocalId);
                            assert(defined_before(*block, pos + 1, k as LocalId));
                        }
                        if defined_before(*block, pos + 1, k as LocalId) && !defined_before(*block, pos as int, k as LocalId) {
                            let i = choose|i: int| 0 <= i < pos + 1 && spec_defs(block.statements@[i].instruction) == Some(k as LocalId);
                            assert(i == pos);
                        }
                    }
                }
                pos += 1;
            }
            let read = terminator_uses(&block.terminator);
            let more = check_reads(f, b, pos, true, &read, &defined, merge);
            append(&mut r, more);
            assert(r@ =~= initialization_faults(*f, merge, b + 1));
        } else {
            assert(r@ =~= initialization_faults(*f, merge, b + 1));
        }
        b += 1;
    }
    r
}

/// Everything wrong with `f`, in the order it is reported.
fn check_function(f: &MirFunction) -> (r: Vec<Fault>)
    requires
        2 * f.blocks@.len() <= usize::MAX,
    ensures
        r@ == function_faults(*f),
{
    let n = f.blocks.len();
    let mut r: Vec<Fault> = Vec::new();
    if n == 0 {
        r.push(Fault::NoBlocks);
        return r;
    }
    if f.entry >= n {
        r.push(Fault::EntryOutOfRange { entry: f.entry, blocks: n });
        return r;
    }
    if f.entry != 0 {
        r.push(Fault::EntryNotZero { entry: f.entry });
    }
    append(&mut r, check_params(f));
    let ghost head = r@;
    let mut b: usize = 0;
    while b < n
        invariant
            n == f.blocks@.len(),
            b <= n,
            r@ == head + blocks_faults(*f, b as int),
        decreases n - b,
    {
        append(&mut r, check_block(f, b));
        assert(r@ =~= head + blocks_faults(*f, b + 1));
        b += 1;
    }
    append(&mut r, check_initialization(f, Merge::Any));
    assert(r@ =~= function_faults(*f));
    r
}


// ------------------------------------------------------------ externs

/// The first extern at or after `from` declared under `name`.
pub open spec fn extern_index(externs: Seq<MirExtern>, name: Seq<char>, from: int) -> Option<int>
    decreases externs.len() - from,
{
    if from < 0 || from >= externs.len() {
        None
    } else if externs[from].name@ == name {
        Some(from)
    } else {
        extern_index(externs, name, from + 1)
    }
}

/// The argument types a call into C may carry: every type that is either
/// `Copy` or already a borrow.
pub open spec fn crossable(t: Type) -> bool {
    match t {
        Type::I32 | Type::I64 | Type::F64 | Type::Bool => true,
        Type::Ref { mutable: false, inner } => (*inner is String) || (*inner is Slice),
        _ => false,
    }
}

/// What is wrong with the first `count` arguments of an extern call.
pub open spec fn extern_argument_faults(b: int, pos: int, callee: String, actual: Seq<Type>, declared: Seq<Type>, count: int) -> Seq<Fault>
    decreases count,
{
    if count <= 0 {
        Seq::empty()
    } else {
        let k = count - 1;
        extern_argument_faults(b, pos, callee, actual, declared, k) + (if !same_type(actual[k], declared[k]) {
            seq![Fault::ExternArgument { block: b as usize, position: pos as usize, callee, argument: k as usize, actual: actual[k], declared: declared[k] }]
        } else {
            Seq::empty()
        }) + (if !crossable(actual[k]) {
            seq![Fault::ExternNotCrossable { block: b as usize, position: pos as usize, callee, argument: k as usize, actual: actual[k] }]
        } else {
            Seq::empty()
        })
    }
}

/// What is wrong with an instruction, if it calls an extern.
pub open spec fn call_extern_faults(externs: Seq<MirExtern>, b: int, pos: int, i: Instruction) -> Seq<Fault> {
    match i {
        Instruction::Call { callee, arg_types, result, .. } => match extern_index(externs, callee@, 0) {
            None => Seq::empty(),
            Some(d) => {
                let declaration = externs[d];
                if arg_types@.len() != declaration.params@.len() {
                    seq![Fault::ExternArity { block: b as usize, position: pos as usize, callee, args: arg_types@.len() as usize, declared: declaration.params@.len() as usize }]
                } else {
                    extern_argument_faults(b, pos, callee, arg_types@, declaration.params@, arg_types@.len() as int) + if !same_type(result, declaration.result) {
                        seq![Fault::ExternResult { block: b as usize, position: pos as usize, callee, actual: result, declared: declaration.result }]
                    } else {
                        Seq::empty()
                    }
                }
            },
        },
        _ => Seq::empty(),
    }
}

/// The extern faults among the first `count` instructions of block `b`.
pub open spec fn block_extern_faults(externs: Seq<MirExtern>, f: MirFunction, b: int, count: int) -> Seq<Fault>
    decreases count,
{
    if count <= 0 {
        Seq::empty()
    } else {
        block_extern_faults(externs, f, b, count - 1) + call_extern_faults(externs, b, count - 1, f.blocks@[b].statements@[count - 1].instruction)
    }
}

/// The extern faults in the first `count` blocks of `f`.
pub open spec fn extern_faults(externs: Seq<MirExtern>, f: MirFunction, count: int) -> Seq<Fault>
    decreases count,
{
    if count <= 0 {
        Seq::empty()
    } else {
        let b = count - 1;
        extern_faults(externs, f, b) + block_extern_faults(externs, f, b, f.blocks@[b].statements@.len() as int)
    }
}

fn is_crossable(t: &Type) -> (r: bool)
    ensures
        r == crossable(*t),
{
    match t {
        Type::I32 | Type::I64 | Type::F64 | Type::Bool => true,
        Type::Ref { mutable: false, inner } => match &**inner {
            Type::String | Type::Slice(_) => true,
            _ => false,
        },
        _ => false,
    }
}

fn find_extern(externs: &Vec<MirExtern>, name: &String) -> (r: Option<usize>)
    ensures
        match r {
            Some(d) => extern_index(externs@, name@, 0) == Some(d as int) && d < externs@.len(),
            None => extern_index(externs@, name@, 0) is None,
        },
{
    let mut i: usize = externs.len();
    let mut found: Option<usize> = None;
    while i > 0
        invariant
            i <= externs@.len(),
            match found {
                Some(d) => extern_index(externs@, name@, i as int) == Some(d as int) && d < externs@.len(),
                None => extern_index(externs@, name@, i as int) is None,
            },
        decreases i,
    {
        i -= 1;
        if externs[i].name.eq(name) {
            found = Some(i);
        }
    }
    found
}

fn check_extern_call(externs: &Vec<MirExtern>, b: usize, pos: usize, i: &Instruction) -> (r: Vec<Fault>)
    ensures
        r@ == call_extern_faults(externs@, b as int, pos as int, *i),
{
    let mut r: Vec<Fault> = Vec::new();
    match i {
        Instruction::Call { callee, arg_types, result, .. } => match find_extern(externs, callee) {
            None => {},
            Some(d) => {
                let declaration = &externs[d];
                if arg_types.len() != declaration.params.len() {
                    r.push(Fault::ExternArity { block: b, position: pos, callee: clone_string(callee), args: arg_types.len(), declared: declaration.params.len() });
                } else {
                    let mut k: usize = 0;
                    while k < arg_types.len()
                        invariant
                            k <= arg_types@.len(),
                            arg_types@.len() == declaration.params@.len(),
                            r@ == extern_argument_faults(b as int, pos as int, *callee, arg_types@, declaration.params@, k as int),
                        decreases arg_types@.len() - k,
                    {
                        let ghost before = r@;
                        if !arg_types[k].same(&declaration.params[k]) {
                            r.push(Fault::ExternArgument { block: b, position: pos, callee: clone_string(callee), argument: k, actual: arg_types[k].clone(), declared: declaration.params[k].clone() });
                        }
                        if !is_crossable(&arg_types[k]) {
                            r.push(Fault::ExternNotCrossable { block: b, position: pos, callee: clone_string(callee), argument: k, actual: arg_types[k].clone() });
                        }
                        assert(r@ =~= extern_argument_faults(b as int, pos as int, *callee, arg_types@, declaration.params@, k + 1));
                        k += 1;
                    }
                    let ghost args = r@;
                    if !result.same(&declaration.result) {
                        r.push(Fault::ExternResult { block: b, position: pos, callee: clone_string(callee), actual: result.clone(), declared: declaration.result.clone() });
                    }
                    assert(r@ =~= call_extern_faults(externs@, b as int, pos as int, *i));
                }
            },
        },
        _ => {},
    }
    r
}

fn check_externs(externs: &Vec<MirExtern>, f: &MirFunction) -> (r: Vec<Fault>)
    ensures
        r@ == extern_faults(externs@, *f, f.blocks@.len() as int),
{
    let mut r: Vec<Fault> = Vec::new();
    let mut b: usize = 0;
    while b < f.blocks.len()
        invariant
            b <= f.blocks@.len(),
            r@ == extern_faults(externs@, *f, b as int),
        decreases f.blocks@.len() - b,
    {
        let ghost head = r@;
        let block = &f.blocks[b];
        let mut pos: usize = 0;
        while pos < block.statements.len()
            invariant
                b < f.blocks@.len(),
                block == f.blocks@[b as int],
                pos <= block.statements@.len(),
                r@ == head + block_extern_faults(externs@, *f, b as int, pos as int),
            decreases block.statements@.len() - pos,
        {
            append(&mut r, check_extern_call(externs, b, pos, &block.statements[pos].instruction));
            assert(r@ =~= head + block_extern_faults(externs@, *f, b as int, pos + 1));
            pos += 1;
        }
        assert(r@ =~= extern_faults(externs@, *f, b + 1));
        b += 1;
    }
    r
}


// ------------------------------------------------------------ wording

/// Where an extern call is, as the messages about it begin.
pub open spec fn call_site(block: usize, position: usize, callee: String) -> Seq<char> {
    "block "@ + decimal(block as nat) + " instruction "@ + decimal(position as nat) + " calls extern `"@ + callee@ + "`"@
}

/// What a fault says.
pub open spec fn fault_text(fault: Fault) -> Seq<char> {
    match fault {
        Fault::NoBlocks => "the function has no blocks"@,
        Fault::EntryOutOfRange { entry, blocks } => "entry block "@ + decimal(entry as nat) + " is out of range ("@ + decimal(blocks as nat) + " blocks)"@,
        Fault::EntryNotZero { entry } => "entry is block "@ + decimal(entry as nat) + "; code generation requires block 0"@,
        Fault::ParamOutOfRange { index, param, locals } => "parameter "@ + decimal(index as nat) + " refers to local "@ + decimal(param as nat) + ", out of range ("@ + decimal(locals as nat) + " locals)"@,
        Fault::ParamNotLeading { index, param } => "parameter "@ + decimal(index as nat) + " is local "@ + decimal(param as nat) + "; parameters must be the leading locals"@,
        Fault::ParamNotFlagged { param } => "local "@ + decimal(param as nat) + " is a parameter but is not flagged"@,
        Fault::SuccessorOutOfRange { block, target, blocks } => "block "@ + decimal(block as nat) + " branches to block "@ + decimal(target as nat) + ", out of range ("@ + decimal(blocks as nat) + " blocks)"@,
        Fault::OperandOutOfRange { block, position, local, locals } => "block "@ + decimal(block as nat) + " instruction "@ + decimal(position as nat) + " refers to local "@ + decimal(local as nat) + ", out of range ("@ + decimal(locals as nat) + " locals)"@,
        Fault::TerminatorOperandOutOfRange { block, local, locals } => "block "@ + decimal(block as nat) + " terminator refers to local "@ + decimal(local as nat) + ", out of range ("@ + decimal(locals as nat) + " locals)"@,
        Fault::CallArity { block, position, callee, args, types } => "block "@ + decimal(block as nat) + " instruction "@ + decimal(position as nat) + " calls `"@ + callee@ + "` with "@ + decimal(args as nat) + " arguments but "@ + decimal(types as nat) + " argument types"@,
        Fault::NonNumeric { block, position, ty } => "block "@ + decimal(block as nat) + " instruction "@ + decimal(position as nat) + " performs arithmetic on non-numeric type `"@ + type_spelling(ty) + "`"@,
        Fault::ReadUndefined { block, position, local, strict } => "block "@ + decimal(block as nat) + match position {
            Some(p) => " instruction "@ + decimal(p as nat),
            None => " terminator"@,
        } + " reads local "@ + decimal(local as nat) + if strict {
            " before it is defined on every path"@
        } else {
            " which is never defined"@
        },
        Fault::ExternArity { block, position, callee, args, declared } => call_site(block, position, callee) + " with "@ + decimal(args as nat) + " arguments but it is declared with "@ + decimal(declared as nat),
        Fault::ExternArgument { block, position, callee, argument, actual, declared } => call_site(block, position, callee) + " passing `"@ + type_spelling(actual) + "` as argument "@ + decimal(argument as nat) + ", declared `"@ + type_spelling(declared) + "`"@,
        Fault::ExternNotCrossable { block, position, callee, argument, actual } => call_site(block, position, callee) + " passing `"@ + type_spelling(actual) + "` as argument "@ + decimal(argument as nat) + ", which the C boundary cannot express, or which would move an owned value into C"@,
        Fault::ExternResult { block, position, callee, actual, declared } => call_site(block, position, callee) + " taking `"@ + type_spelling(actual) + "` as the result, declared `"@ + type_spelling(declared) + "`"@,
    }
}

fn push_call_site(out: &mut String, block: usize, position: usize, callee: &String)
    ensures
        final(out)@ == old(out)@ + call_site(block, position, *callee),
{
    push_str(out, "block ");
    push_usize(out, block);
    push_str(out, " instruction ");
    push_usize(out, position);
    push_str(out, " calls extern `");
    push_str(out, callee.as_str());
    push_str(out, "`");
    assert(final(out)@ =~= old(out)@ + call_site(block, position, *callee));
}

/// Appends what `fault` says to `out`.
#[verifier::spinoff_prover]
#[verifier::rlimit(60)]
fn describe(out: &mut String, fault: &Fault)
    ensures
        final(out)@ == old(out)@ + fault_text(*fault),
{
    match fault {
        Fault::NoBlocks => push_str(out, "the function has no blocks"),
        Fault::EntryOutOfRange { entry, blocks } => {
            push_str(out, "entry block ");
            push_usize(out, *entry);
            push_str(out, " is out of range (");
            push_usize(out, *blocks);
            push_str(out, " blocks)");
        },
        Fault::EntryNotZero { entry } => {
            push_str(out, "entry is block ");
            push_usize(out, *entry);
            push_str(out, "; code generation requires block 0");
        },
        Fault::ParamOutOfRange { index, param, locals } => {
            push_str(out, "parameter ");
            push_usize(out, *index);
            push_str(out, " refers to local ");
            push_usize(out, *param);
            push_str(out, ", out of range (");
            push_usize(out, *locals);
            push_str(out, " locals)");
        },
        Fault::ParamNotLeading { index, param } => {
            push_str(out, "parameter ");
            push_usize(out, *index);
            push_str(out, " is local ");
            push_usize(out, *param);
            push_str(out, "; parameters must be the leading locals");
        },
        Fault::ParamNotFlagged { param } => {
            push_str(out, "local ");
            push_usize(out, *param);
            push_str(out, " is a parameter but is not flagged");
        },
        Fault::SuccessorOutOfRange { block, target, blocks } => {
            push_str(out, "block ");
            push_usize(out, *block);
            push_str(out, " branches to block ");
            push_usize(out, *target);
            push_str(out, ", out of range (");
            push_usize(out, *blocks);
            push_str(out, " blocks)");
        },
        Fault::OperandOutOfRange { block, position, local, locals } => {
            push_str(out, "block ");
            push_usize(out, *block);
            push_str(out, " instruction ");
            push_usize(out, *position);
            push_str(out, " refers to local ");
            push_usize(out, *local);
            push_str(out, ", out of range (");
            push_usize(out, *locals);
            push_str(out, " locals)");
        },
        Fault::TerminatorOperandOutOfRange { block, local, locals } => {
            push_str(out, "block ");
            push_usize(out, *block);
            push_str(out, " terminator refers to local ");
            push_usize(out, *local);
            push_str(out, ", out of range (");
            push_usize(out, *locals);
            push_str(out, " locals)");
        },
        Fault::CallArity { block, position, callee, args, types } => {
            push_str(out, "block ");
            push_usize(out, *block);
            push_str(out, " instruction ");
            push_usize(out, *position);
            push_str(out, " calls `");
            push_str(out, callee.as_str());
            push_str(out, "` with ");
            push_usize(out, *args);
            push_str(out, " arguments but ");
            push_usize(out, *types);
            push_str(out, " argument types");
        },
        Fault::NonNumeric { block, position, ty } => {
            push_str(out, "block ");
            push_usize(out, *block);
            push_str(out, " instruction ");
            push_usize(out, *position);
            push_str(out, " performs arithmetic on non-numeric type `");
            push_type(out, ty);
            push_str(out, "`");
        },
        Fault::ReadUndefined { block, position, local, strict } => {
            push_str(out, "block ");
            push_usize(out, *block);
            match position {
                Some(p) => {
                    push_str(out, " instruction ");
                    push_usize(out, *p);
                },
                None => push_str(out, " terminator"),
            }
            push_str(out, " reads local ");
            push_usize(out, *local);
            if *strict {
                push_str(out, " before it is defined on every path");
            } else {
                push_str(out, " which is never defined");
            }
        },
        Fault::ExternArity { block, position, callee, args, declared } => {
            push_call_site(out, *block, *position, callee);
            push_str(out, " with ");
            push_usize(out, *args);
            push_str(out, " arguments but it is declared with ");
            push_usize(out, *declared);
        },
        Fault::ExternArgument { block, position, callee, argument, actual, declared } => {
            push_call_site(out, *block, *position, callee);
            push_str(out, " passing `");
            push_type(out, actual);
            push_str(out, "` as argument ");
            push_usize(out, *argument);
            push_str(out, ", declared `");
            push_type(out, declared);
            push_str(out, "`");
        },
        Fault::ExternNotCrossable { block, position, callee, argument, actual } => {
            push_call_site(out, *block, *position, callee);
            push_str(out, " passing `");
            push_type(out, actual);
            push_str(out, "` as argument ");
            push_usize(out, *argument);
            push_str(out, ", which the C boundary cannot express, or which would move an owned value into C");
        },
        Fault::ExternResult { block, position, callee, actual, declared } => {
            push_call_site(out, *block, *position, callee);
            push_str(out, " taking `");
            push_type(out, actual);
            push_str(out, "` as the result, declared `");
            push_type(out, declared);
            push_str(out, "`");
        },
    }
    assert(final(out)@ =~= old(out)@ + fault_text(*fault));
}

/// The whole message a fault in function `name` is reported with, naming
/// the pass that ran before the check when there is one.
pub open spec fn report_text(name: Seq<char>, phase: Option<Seq<char>>, fault: Fault) -> Seq<char> {
    "internal compiler error: MIR verification failed"@ + match phase {
        Some(p) => " after "@ + p,
        None => Seq::empty(),
    } + " in `"@ + name + "`: "@ + fault_text(fault) + "; this is a compiler bug"@
}

/// A report made after a pass names that pass: right after its opening
/// sentence, its message reads ` after ` and the pass's name.
pub proof fn lemma_report_names_phase(name: Seq<char>, phase: Seq<char>, fault: Fault)
    ensures
        report_text(name, Some(phase), fault).subrange(48, 55 + phase.len() as int) == " after "@ + phase,
{
    reveal_strlit("internal compiler error: MIR verification failed");
    reveal_strlit(" after ");
    let head = "internal compiler error: MIR verification failed"@;
    let mid = " after "@ + phase;
    let text = report_text(name, Some(phase), fault);
    assert(head.len() == 48);
    assert(mid.len() == 7 + phase.len());
    let rest = " in `"@ + name + "`: "@ + fault_text(fault) + "; this is a compiler bug"@;
    assert(text =~= head + mid + rest);
    assert(text.subrange(48, 55 + phase.len() as int) =~= mid);
}

/// `d` reports `fault`, found in `function`, from `file`.
pub open spec fn reports(d: Diagnostic, file: Seq<char>, phase: Option<Seq<char>>, function: MirFunction, fault: Fault) -> bool {
    &&& d.code@ == codes::INTERNAL@
    &&& d.file@ == file
    &&& d.span == function.span
    &&& d.message@ == report_text(function.name@, phase, fault)
    &&& d.notes@.len() == 0
    &&& d.help is None
    &&& d.suggestions@.len() == 0
}

fn report(file: &str, phase: Option<&str>, function: &MirFunction, fault: &Fault) -> (d: Diagnostic)
    ensures
        reports(d, file@, match phase { Some(p) => Some(p@), None => None }, *function, *fault),
{
    let mut message = String::new();
    push_str(&mut message, "internal compiler error: MIR verification failed");
    match phase {
        Some(p) => {
            push_str(&mut message, " after ");
            push_str(&mut message, p);
        },
        None => {},
    }
    push_str(&mut message, " in `");
    push_str(&mut message, function.name.as_str());
    push_str(&mut message, "`: ");
    describe(&mut message, fault);
    push_str(&mut message, "; this is a compiler bug");
    let ghost ph = match phase { Some(p) => Some(p@), None => None };
    assert(message@ =~= report_text(function.name@, ph, *fault));
    Diagnostic::error(codes::INTERNAL, file, function.span, message)
}

// ------------------------------------------------------------ modules

/// Every function of a module, its tests' functions after its own.
pub open spec fn all_functions(m: MirModule) -> Seq<MirFunction> {
    m.functions@ + m.tests@.map_values(|t: crate::mir::MirTest| t.function)
}

/// Each fault, paired with the function it was found in.
pub open spec fn paired(f: MirFunction, faults: Seq<Fault>) -> Seq<(MirFunction, Fault)> {
    faults.map_values(|x: Fault| (f, x))
}

/// The shape and definedness faults of the first `count` functions.
pub open spec fn shape_reports(fs: Seq<MirFunction>, count: int) -> Seq<(MirFunction, Fault)>
    decreases count,
{
    if count <= 0 {
        Seq::empty()
    } else {
        shape_reports(fs, count - 1) + paired(fs[count - 1], function_faults(fs[count - 1]))
    }
}

/// The extern faults of the first `count` functions.
pub open spec fn extern_reports(externs: Seq<MirExtern>, fs: Seq<MirFunction>, count: int) -> Seq<(MirFunction, Fault)>
    decreases count,
{
    if count <= 0 {
        Seq::empty()
    } else {
        let f = fs[count - 1];
        extern_reports(externs, fs, count - 1) + paired(f, extern_faults(externs, f, f.blocks@.len() as int))
    }
}

/// Everything wrong with a module, each with the function it was found in,
/// in the order it is reported.
pub open spec fn module_reports(m: MirModule) -> Seq<(MirFunction, Fault)> {
    let fs = all_functions(m);
    shape_reports(fs, fs.len() as int) + extern_reports(m.externs@, fs, fs.len() as int)
}

/// A module whose functions are small enough to number their blocks twice
/// over in a machine word.
pub open spec fn addressable(m: MirModule) -> bool {
    &&& all_functions(m).len() <= usize::MAX
    &&& forall|k: int| 0 <= k < all_functions(m).len() ==> 2 * (#[trigger] all_functions(m)[k]).blocks@.len() <= usize::MAX
}

fn function_at(module: &MirModule, k: usize) -> (f: &MirFunction)
    requires
        k < all_functions(*module).len(),
    ensures
        *f == all_functions(*module)[k as int],
{
    if k < module.functions.len() {
        &module.functions[k]
    } else {
        &module.tests[k - module.functions.len()].function
    }
}

fn push_reports(
    out: &mut Vec<Diagnostic>,
    file: &str,
    phase: Option<&str>,
    function: &MirFunction,
    faults: &Vec<Fault>,
    Ghost(pairs): Ghost<Seq<(MirFunction, Fault)>>,
    Ghost(ph): Ghost<Option<Seq<char>>>,
)
    requires
        ph == match phase { Some(p) => Some(p@), None => None },
        old(out)@.len() == pairs.len(),
        forall|i: int| 0 <= i < pairs.len() ==> reports(#[trigger] old(out)@[i], file@, ph, pairs[i].0, pairs[i].1),
    ensures
        final(out)@.len() == (pairs + paired(*function, faults@)).len(),
        forall|i: int| 0 <= i < final(out)@.len() ==> reports(#[trigger] final(out)@[i], file@, ph, (pairs + paired(*function, faults@))[i].0, (pairs + paired(*function, faults@))[i].1),
{
    let mut k: usize = 0;
    while k < faults.len()
        invariant
            k <= faults@.len(),
            ph == match phase { Some(p) => Some(p@), None => None },
            out@.len() == pairs.len() + k,
            forall|i: int| 0 <= i < out@.len() ==> reports(#[trigger] out@[i], file@, ph, (pairs + paired(*function, faults@))[i].0, (pairs + paired(*function, faults@))[i].1),
        decreases faults@.len() - k,
    {
        let d = report(file, phase, function, &faults[k]);
        let ghost all = pairs + paired(*function, faults@);
        assert(all[pairs.len() + k] == (*function, faults@[k as int]));
        let ghost before = out@;
        out.push(d);
        assert forall|i: int| 0 <= i < out@.len() implies reports(#[trigger] out@[i], file@, ph, all[i].0, all[i].1) by {
            if i < before.len() {
                assert(out@[i] == before[i]);
            }
        }
        k += 1;
    }
}

fn verify_module_after(file: &str, module: &MirModule, phase: Option<&str>) -> (errors: Vec<Diagnostic>)
    requires
        addressable(*module),
    ensures
        errors@.len() == module_reports(*module).len(),
        forall|i: int|
            0 <= i < errors@.len() ==> reports(#[trigger] errors@[i], file@, match phase { Some(p) => Some(p@), None => None }, module_reports(*module)[i].0, module_reports(*module)[i].1),
{
    let ghost ph = match phase { Some(p) => Some(p@), None => None };
    let ghost fs = all_functions(*module);
    let count = module.functions.len() + module.tests.len();
    assert(fs.len() == count);
    let mut errors: Vec<Diagnostic> = Vec::new();
    let mut k: usize = 0;
    while k < count
        invariant
            fs == all_functions(*module),
            ph == match phase { Some(p) => Some(p@), None => None },
            count == fs.len(),
            addressable(*module),
            k <= count,
            errors@.len() == shape_reports(fs, k as int).len(),
            forall|i: int| 0 <= i < errors@.len() ==> reports(#[trigger] errors@[i], file@, ph, shape_reports(fs, k as int)[i].0, shape_reports(fs, k as int)[i].1),
        decreases count - k,
    {
        let f = function_at(module, k);
        assert(2 * fs[k as int].blocks@.len() <= usize::MAX);
        let faults = check_function(f);
        push_reports(&mut errors, file, phase, f, &faults, Ghost(shape_reports(fs, k as int)), Ghost(ph));
        assert(shape_reports(fs, k + 1) == shape_reports(fs, k as int) + paired(fs[k as int], function_faults(fs[k as int])));
        k += 1;
    }
    let ghost shapes = shape_reports(fs, count as int);
    let mut k: usize = 0;
    while k < count
        invariant
            fs == all_functions(*module),
            ph == match phase { Some(p) => Some(p@), None => None },
            count == fs.len(),
            shapes == shape_reports(fs, count as int),
            k <= count,
            errors@.len() == (shapes + extern_reports(module.externs@, fs, k as int)).len(),
            forall|i: int| 0 <= i < errors@.len() ==> reports(#[trigger] errors@[i], file@, ph, (shapes + extern_reports(module.externs@, fs, k as int))[i].0, (shapes + extern_reports(module.externs@, fs, k as int))[i].1),
        decreases count - k,
    {
        let f = function_at(module, k);
        let faults = check_externs(&module.externs, f);
        push_reports(&mut errors, file, phase, f, &faults, Ghost(shapes + extern_reports(module.externs@, fs, k as int)), Ghost(ph));
        assert(shapes + extern_reports(module.externs@, fs, k + 1) =~= shapes + extern_reports(module.externs@, fs, k as int) + paired(*f, faults@));
        k += 1;
    }
    errors
}

/// Verifies every function in `module`, returning one diagnostic per
/// failure, in the order `module_reports` lists them. An empty result means
/// the module passed.
pub fn verify_module(file: &str, module: &MirModule) -> (errors: Vec<Diagnostic>)
    requires
        addressable(*module),
    ensures
        errors@.len() == module_reports(*module).len(),
        forall|i: int|
            0 <= i < errors@.len() ==> reports(#[trigger] errors@[i], file@, None, module_reports(*module)[i].0, module_reports(*module)[i].1),
{
    verify_module_after(file, module, None)
}

/// The strict counterpart of the check `verify_module` makes: every read
/// must be preceded by a definition on every path, not merely some path.
/// Each element of the result is what one such read says.
pub fn verify_definite_initialization(function: &MirFunction) -> (errors: Vec<String>)
    requires
        function.entry < function.blocks@.len(),
        2 * function.blocks@.len() <= usize::MAX,
    ensures
        errors@.len() == initialization_faults(*function, Merge::All, function.blocks@.len() as int).len(),
        forall|i: int|
            0 <= i < errors@.len() ==> (#[trigger] errors@[i])@ == fault_text(
                initialization_faults(*function, Merge::All, function.blocks@.len() as int)[i],
            ),
{
    let faults = check_initialization(function, Merge::All);
    let mut errors: Vec<String> = Vec::new();
    let mut k: usize = 0;
    while k < faults.len()
        invariant
            k <= faults@.len(),
            errors@.len() == k,
            forall|i: int| 0 <= i < k ==> (#[trigger] errors@[i])@ == fault_text(faults@[i]),
        decreases faults@.len() - k,
    {
        let mut message = String::new();
        describe(&mut message, &faults[k]);
        errors.push(message);
        k += 1;
    }
    errors
}

/// The pipeline gate: verifies `module`, naming the pass that produced it so
/// a failure points at the right stage. Every failure is returned, not only
/// the first.
pub fn check(file: &str, module: &MirModule, phase: &str) -> (r: Result<(), Vec<Diagnostic>>)
    requires
        addressable(*module),
    ensures
        r is Ok <==> module_reports(*module).len() == 0,
        r matches Err(errors) ==> errors@.len() == module_reports(*module).len()
            && forall|i: int|
            0 <= i < errors@.len() ==> reports(#[trigger] errors@[i], file@, Some(phase@), module_reports(*module)[i].0, module_reports(*module)[i].1),
{
    let errors = verify_module_after(file, module, Some(phase));
    if errors.len() == 0 {
        Ok(())
    } else {
        Err(errors)
    }
}


/// The pipeline gate as a build configures it: with verification off it lets
/// every module through, and with it on it is `check`.
pub fn check_when(enabled: bool, file: &str, module: &MirModule, phase: &str) -> (r: Result<(), Vec<Diagnostic>>)
    requires
        addressable(*module),
    ensures
        !enabled ==> r is Ok,
        enabled ==> (r is Ok <==> module_reports(*module).len() == 0),
        enabled ==> (r matches Err(errors) ==> errors@.len() == module_reports(*module).len()
            && forall|i: int|
            0 <= i < errors@.len() ==> reports(#[trigger] errors@[i], file@, Some(phase@), module_reports(*module)[i].0, module_reports(*module)[i].1)),
{
    if !enabled {
        return Ok(());
    }
    check(file, module, phase)
}

/// Where the first `count` targets raise no fault, each of them is a block.
pub proof fn lemma_successors_clean(block: int, targets: Seq<usize>, blocks: nat, count: int, k: int)
    requires
        successor_faults(block, targets, blocks, count).len() == 0,
        0 <= k < count,
    ensures
        targets[k] < blocks,
    decreases count,
{
    if k < count - 1 {
        lemma_successors_clean(block, targets, blocks, count - 1, k);
    }
}

/// Where the first `count` blocks raise no fault, neither does any one of them.
pub proof fn lemma_blocks_clean(f: MirFunction, count: int, b: int)
    requires
        blocks_faults(f, count).len() == 0,
        0 <= b < count,
    ensures
        block_faults(f, b).len() == 0,
    decreases count,
{
    if b < count - 1 {
        lemma_blocks_clean(f, count - 1, b);
    }
}

/// A function the verifier finds nothing wrong with has blocks, starts at one
/// of them, and jumps only to blocks it has.
pub proof fn lemma_clean_function(f: MirFunction)
    requires
        function_faults(f).len() == 0,
    ensures
        f.blocks@.len() > 0,
        f.entry < f.blocks@.len(),
        forall|b: int, k: int|
            0 <= b < f.blocks@.len() && 0 <= k < spec_successors(f.blocks@[b].terminator).len()
                ==> #[trigger] spec_successors(f.blocks@[b].terminator)[k] < f.blocks@.len(),
{
    let n = f.blocks@.len() as int;
    assert forall|b: int, k: int|
        0 <= b < n && 0 <= k < spec_successors(f.blocks@[b].terminator).len() implies #[trigger] spec_successors(
        f.blocks@[b].terminator,
    )[k] < n by {
        lemma_blocks_clean(f, n, b);
        let targets = spec_successors(f.blocks@[b].terminator);
        lemma_successors_clean(b, targets, n as nat, targets.len() as int, k);
    }
}

/// Where the first `count` functions raise no fault, neither does any one of
/// them.
pub proof fn lemma_shapes_clean(fs: Seq<MirFunction>, count: int, k: int)
    requires
        shape_reports(fs, count).len() == 0,
        0 <= k < count,
    ensures
        function_faults(fs[k]).len() == 0,
    decreases count,
{
    if k < count - 1 {
        lemma_shapes_clean(fs, count - 1, k);
    }
}

} // verus!
