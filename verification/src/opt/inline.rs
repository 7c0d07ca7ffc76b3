//! Bounded inlining of small, non-recursive functions.
//!
//! The pass refuses to cross a module boundary — a caller and callee must
//! share an owner module, the name prefix before the final `:` — because a
//! body-only change to one module must not leave another module's object
//! stale. An `extern` is refused by name: its body is in another language,
//! and nothing here may ever splice across the C boundary.
use crate::ast::Type;
use crate::graph::{adjacency, reach, walks_to};
use crate::mir::{BasicBlock, BlockId, Instruction, LocalId, MirExtern, MirFunction, MirLocal, MirModule, MirTest, Statement, Terminator};
use crate::opt::statement_count;
use vstd::prelude::*;
use crate::lexer::{chars_of, copy_bytes};
use crate::cfg::{spec_successors, spec_terminator_uses};
use crate::diagnostic::Span;
use vstd::pervasive::VecAdditionalExecFns;

verus! {

/// Largest callee body worth inlining, in statements.
pub const MAX_CALLEE_STATEMENTS: usize = 12;

/// Largest callee body worth inlining, in blocks.
pub const MAX_CALLEE_BLOCKS: usize = 3;

/// Ceiling on how much a single caller may grow, in statements.
pub const MAX_CALLER_GROWTH: usize = 96;

/// The owner module of a symbol: everything before its final `:`, or
/// nothing when it has none.
pub open spec fn owner_of(name: Seq<char>) -> Seq<char>
    decreases name.len(),
{
    if name.len() == 0 {
        Seq::empty()
    } else if name.last() == ':' {
        name.drop_last()
    } else {
        owner_of(name.drop_last())
    }
}

/// Where the owner module of the symbol `name` ends.
fn owner_end(name: &Vec<char>) -> (r: usize)
    ensures
        r <= name@.len(),
        owner_of(name@) == name@.subrange(0, r as int),
{
    let n = name.len();
    let mut i = n;
    assert(name@.subrange(0, n as int) =~= name@);
    while i > 0
        invariant
            i <= n,
            n == name@.len(),
            owner_of(name@) == owner_of(name@.subrange(0, i as int)),
        decreases i,
    {
        let ghost prefix = name@.subrange(0, i as int);
        assert(prefix.drop_last() =~= name@.subrange(0, i - 1));
        if name[i - 1] == ':' {
            return i - 1;
        }
        i -= 1;
    }
    assert(name@.subrange(0, 0) =~= Seq::<char>::empty());
    0
}

/// Whether two symbols belong to the same owner module.
pub fn same_owner(a: &str, b: &str) -> (r: bool)
    ensures
        r == (owner_of(a@) == owner_of(b@)),
{
    let ac = chars_of(a);
    let bc = chars_of(b);
    let ea = owner_end(&ac);
    let eb = owner_end(&bc);
    if ea != eb {
        assert(owner_of(a@).len() != owner_of(b@).len());
        return false;
    }
    let mut i: usize = 0;
    while i < ea
        invariant
            ea == eb,
            ac@ == a@,
            bc@ == b@,
            ea <= a@.len(),
            eb <= b@.len(),
            owner_of(a@) == a@.subrange(0, ea as int),
            owner_of(b@) == b@.subrange(0, eb as int),
            i <= ea,
            forall|k: int| 0 <= k < i ==> a@[k] == b@[k],
        decreases ea - i,
    {
        if ac[i] != bc[i] {
            assert(owner_of(a@)[i as int] != owner_of(b@)[i as int]);
            return false;
        }
        i += 1;
    }
    assert(owner_of(a@) =~= owner_of(b@));
    true
}

/// `b` is `a` with every local it names moved up by `base`: same operation,
/// same constants, names and types.
pub open spec fn renamed(a: Instruction, b: Instruction, base: int) -> bool {
    match (a, b) {
        (Instruction::ConstInt { dst, value }, Instruction::ConstInt { dst: d, value: v }) => d == dst + base && v == value,
        (Instruction::ConstFloat { dst, bits }, Instruction::ConstFloat { dst: d, bits: v }) => d == dst + base && v == bits,
        (Instruction::ConstBool { dst, value }, Instruction::ConstBool { dst: d, value: v }) => d == dst + base && v == value,
        (Instruction::StringNew { dst, value }, Instruction::StringNew { dst: d, value: v }) => d == dst + base && v@ == value@,
        (Instruction::Assign { dst, src }, Instruction::Assign { dst: d, src: s }) => d == dst + base && s == src + base,
        (Instruction::AddressOf { dst, src }, Instruction::AddressOf { dst: d, src: s }) => d == dst + base && s == src + base,
        (Instruction::Binary { dst, op, lhs, rhs, ty }, Instruction::Binary { dst: d, op: o, lhs: l, rhs: r, ty: t }) =>
            d == dst + base && o == op && l == lhs + base && r == rhs + base && t == ty,
        (Instruction::Call { dst, callee, args, arg_types, result }, Instruction::Call { dst: d, callee: c, args: a2, arg_types: t2, result: r }) =>
            d == dst + base && c == callee && a2@.len() == args@.len() && (forall|k: int| 0 <= k < args@.len() ==> a2@[k] == args@[k] + base)
                && t2@ == arg_types@ && r == result,
        (Instruction::FnAddr { dst, symbol }, Instruction::FnAddr { dst: d, symbol: s }) => d == dst + base && s == symbol,
        (Instruction::CallValue { dst, callee, args, arg_types, result }, Instruction::CallValue { dst: d, callee: c, args: a2, arg_types: t2, result: r }) =>
            d == dst + base && c == callee + base && a2@.len() == args@.len() && (forall|k: int| 0 <= k < args@.len() ==> a2@[k] == args@[k] + base)
                && t2@ == arg_types@ && r == result,
        (Instruction::Drop { local, ty }, Instruction::Drop { local: l, ty: t }) => l == local + base && t == ty,
        (Instruction::StructNew { dst, name, fields }, Instruction::StructNew { dst: d, name: n, fields: f }) =>
            d == dst + base && n == name && f@.len() == fields@.len() && (forall|k: int| 0 <= k < fields@.len() ==> f@[k] == fields@[k] + base),
        (Instruction::FieldLoad { dst, base: b0, index }, Instruction::FieldLoad { dst: d, base: b1, index: i }) => d == dst + base && b1 == b0 + base && i == index,
        (Instruction::Load { dst, src }, Instruction::Load { dst: d, src: s }) => d == dst + base && s == src + base,
        (Instruction::FieldAddr { dst, base: b0, index }, Instruction::FieldAddr { dst: d, base: b1, index: i }) => d == dst + base && b1 == b0 + base && i == index,
        (Instruction::EnumNew { dst, enum_name, tag, fields }, Instruction::EnumNew { dst: d, enum_name: n, tag: t, fields: f }) =>
            d == dst + base && n == enum_name && t == tag && f@.len() == fields@.len() && (forall|k: int| 0 <= k < fields@.len() ==> f@[k] == fields@[k] + base),
        (Instruction::EnumTag { dst, base: b0 }, Instruction::EnumTag { dst: d, base: b1 }) => d == dst + base && b1 == b0 + base,
        (Instruction::EnumFieldLoad { dst, base: b0, index }, Instruction::EnumFieldLoad { dst: d, base: b1, index: i }) => d == dst + base && b1 == b0 + base && i == index,
        (Instruction::EnumFieldAddr { dst, base: b0, index }, Instruction::EnumFieldAddr { dst: d, base: b1, index: i }) => d == dst + base && b1 == b0 + base && i == index,
        (Instruction::FieldStore { base: b0, index, src }, Instruction::FieldStore { base: b1, index: i, src: s }) => b1 == b0 + base && i == index && s == src + base,
        (Instruction::EnumFieldStore { base: b0, index, src }, Instruction::EnumFieldStore { base: b1, index: i, src: s }) => b1 == b0 + base && i == index && s == src + base,
        (Instruction::Free { local }, Instruction::Free { local: l }) => l == local + base,
        (Instruction::VolatileLoad { dst, addr, ty }, Instruction::VolatileLoad { dst: d, addr: a1, ty: t }) => d == dst + base && a1 == addr + base && t == ty,
        (Instruction::VolatileStore { addr, src, ty }, Instruction::VolatileStore { addr: a1, src: s, ty: t }) => a1 == addr + base && s == src + base && t == ty,
        _ => false,
    }
}

/// Every local `i` names is at most `limit`.
pub open spec fn locals_below(i: Instruction, limit: int) -> bool {
    &&& forall|k: int| 0 <= k < crate::cfg::spec_uses(i).len() ==> #[trigger] crate::cfg::spec_uses(i)[k] <= limit
    &&& match crate::cfg::spec_defs(i) {
        Some(d) => d <= limit,
        None => true,
    }
}

fn shift_all(items: &Vec<LocalId>, base: usize) -> (r: Vec<LocalId>)
    requires
        forall|k: int| 0 <= k < items@.len() ==> items@[k] + base <= usize::MAX,
    ensures
        r@.len() == items@.len(),
        forall|k: int| 0 <= k < items@.len() ==> r@[k] == items@[k] + base,
{
    let mut r: Vec<LocalId> = Vec::new();
    let mut k: usize = 0;
    while k < items.len()
        invariant
            k <= items@.len(),
            r@.len() == k,
            forall|j: int| 0 <= j < items@.len() ==> items@[j] + base <= usize::MAX,
            forall|j: int| 0 <= j < k ==> r@[j] == items@[j] + base,
        decreases items@.len() - k,
    {
        r.push(items[k] + base);
        k += 1;
    }
    r
}

fn copy_types(types: &Vec<Type>) -> (r: Vec<Type>)
    ensures
        r@ == types@,
{
    let mut r: Vec<Type> = Vec::new();
    let mut k: usize = 0;
    while k < types.len()
        invariant
            k <= types@.len(),
            r@ == types@.subrange(0, k as int),
        decreases types@.len() - k,
    {
        r.push(types[k].clone());
        k += 1;
        assert(r@ =~= types@.subrange(0, k as int));
    }
    assert(types@.subrange(0, types@.len() as int) =~= types@);
    r
}

/// `instruction` with every local it names moved up by `base`.
pub fn remap_instruction(instruction: &Instruction, base: usize) -> (r: Instruction)
    requires
        locals_below(*instruction, usize::MAX - base),
    ensures
        renamed(*instruction, r, base as int),
{
    let m = base;
    proof {
        let u = crate::cfg::spec_uses(*instruction);
        assert forall|k: int| 0 <= k < u.len() implies u[k] + base <= usize::MAX by {
            assert(u[k] <= usize::MAX - base);
        }
    }
    match instruction {
        Instruction::ConstInt { dst, value } => Instruction::ConstInt { dst: *dst + m, value: *value },
        Instruction::ConstFloat { dst, bits } => Instruction::ConstFloat { dst: *dst + m, bits: *bits },
        Instruction::ConstBool { dst, value } => Instruction::ConstBool { dst: *dst + m, value: *value },
        Instruction::StringNew { dst, value } => Instruction::StringNew { dst: *dst + m, value: copy_bytes(value) },
        Instruction::Assign { dst, src } => {
            assert(crate::cfg::spec_uses(*instruction)[0] == *src);
            Instruction::Assign { dst: *dst + m, src: *src + m }
        },
        Instruction::AddressOf { dst, src } => {
            assert(crate::cfg::spec_uses(*instruction)[0] == *src);
            Instruction::AddressOf { dst: *dst + m, src: *src + m }
        },
        Instruction::Binary { dst, op, lhs, rhs, ty } => {
            assert(crate::cfg::spec_uses(*instruction)[0] == *lhs);
            assert(crate::cfg::spec_uses(*instruction)[1] == *rhs);
            Instruction::Binary { dst: *dst + m, op: *op, lhs: *lhs + m, rhs: *rhs + m, ty: ty.clone() }
        },
        Instruction::Call { dst, callee, args, arg_types, result } => Instruction::Call {
            dst: *dst + m,
            callee: callee.clone(),
            args: shift_all(args, m),
            arg_types: copy_types(arg_types),
            result: result.clone(),
        },
        Instruction::FnAddr { dst, symbol } => Instruction::FnAddr { dst: *dst + m, symbol: symbol.clone() },
        Instruction::CallValue { dst, callee, args, arg_types, result } => {
            assert(crate::cfg::spec_uses(*instruction)[0] == *callee);
            proof {
                assert forall|k: int| 0 <= k < args@.len() implies args@[k] + base <= usize::MAX by {
                    assert(crate::cfg::spec_uses(*instruction)[k + 1] == args@[k]);
                }
            }
            Instruction::CallValue {
                dst: *dst + m,
                callee: *callee + m,
                args: shift_all(args, m),
                arg_types: copy_types(arg_types),
                result: result.clone(),
            }
        },
        Instruction::Drop { local, ty } => {
            assert(crate::cfg::spec_uses(*instruction)[0] == *local);
            Instruction::Drop { local: *local + m, ty: ty.clone() }
        },
        Instruction::StructNew { dst, name, fields } => Instruction::StructNew { dst: *dst + m, name: name.clone(), fields: shift_all(fields, m) },
        Instruction::FieldLoad { dst, base, index } => {
            assert(crate::cfg::spec_uses(*instruction)[0] == *base);
            Instruction::FieldLoad { dst: *dst + m, base: *base + m, index: *index }
        },
        Instruction::Load { dst, src } => {
            assert(crate::cfg::spec_uses(*instruction)[0] == *src);
            Instruction::Load { dst: *dst + m, src: *src + m }
        },
        Instruction::FieldAddr { dst, base, index } => {
            assert(crate::cfg::spec_uses(*instruction)[0] == *base);
            Instruction::FieldAddr { dst: *dst + m, base: *base + m, index: *index }
        },
        Instruction::EnumNew { dst, enum_name, tag, fields } => Instruction::EnumNew {
            dst: *dst + m,
            enum_name: enum_name.clone(),
            tag: *tag,
            fields: shift_all(fields, m),
        },
        Instruction::EnumTag { dst, base } => {
            assert(crate::cfg::spec_uses(*instruction)[0] == *base);
            Instruction::EnumTag { dst: *dst + m, base: *base + m }
        },
        Instruction::EnumFieldLoad { dst, base, index } => {
            assert(crate::cfg::spec_uses(*instruction)[0] == *base);
            Instruction::EnumFieldLoad { dst: *dst + m, base: *base + m, index: *index }
        },
        Instruction::EnumFieldAddr { dst, base, index } => {
            assert(crate::cfg::spec_uses(*instruction)[0] == *base);
            Instruction::EnumFieldAddr { dst: *dst + m, base: *base + m, index: *index }
        },
        Instruction::FieldStore { base, index, src } => {
            assert(crate::cfg::spec_uses(*instruction)[0] == *base);
            assert(crate::cfg::spec_uses(*instruction)[1] == *src);
            Instruction::FieldStore { base: *base + m, index: *index, src: *src + m }
        },
        Instruction::EnumFieldStore { base, index, src } => {
            assert(crate::cfg::spec_uses(*instruction)[0] == *base);
            assert(crate::cfg::spec_uses(*instruction)[1] == *src);
            Instruction::EnumFieldStore { base: *base + m, index: *index, src: *src + m }
        },
        Instruction::Free { local } => {
            assert(crate::cfg::spec_uses(*instruction)[0] == *local);
            Instruction::Free { local: *local + m }
        },
        Instruction::VolatileLoad { dst, addr, ty } => {
            assert(crate::cfg::spec_uses(*instruction)[0] == *addr);
            Instruction::VolatileLoad { dst: *dst + m, addr: *addr + m, ty: ty.clone() }
        },
        Instruction::VolatileStore { addr, src, ty } => {
            assert(crate::cfg::spec_uses(*instruction)[0] == *addr);
            assert(crate::cfg::spec_uses(*instruction)[1] == *src);
            Instruction::VolatileStore { addr: *addr + m, src: *src + m, ty: ty.clone() }
        },
    }
}


/// Where a callee's terminator sends control once the callee is spliced into
/// a caller whose locals it follows from `locals` on and whose blocks from
/// `blocks` on: a return continues after the call, a jump moves with the
/// blocks.
pub open spec fn moved_terminator(t: Terminator, locals: int, blocks: int, continuation: int) -> Terminator {
    match t {
        Terminator::Return(_) => Terminator::Goto(continuation as usize),
        Terminator::Goto(b) => Terminator::Goto((b + blocks) as usize),
        Terminator::Branch { condition, then_block, else_block } => Terminator::Branch {
            condition: (condition + locals) as usize,
            then_block: (then_block + blocks) as usize,
            else_block: (else_block + blocks) as usize,
        },
        Terminator::Unreachable => Terminator::Unreachable,
    }
}

/// `new` is the callee block `old` moved into the caller: its statements
/// renamed, and, where it returned a value, that value bound to `dst` at the
/// call's `span`.
pub open spec fn moved_block(
    old: BasicBlock,
    new: BasicBlock,
    locals: int,
    blocks: int,
    continuation: int,
    dst: LocalId,
    span: Span,
) -> bool {
    let n = old.statements@.len();
    &&& new.terminator == moved_terminator(old.terminator, locals, blocks, continuation)
    &&& new.terminator_span == old.terminator_span
    &&& forall|i: int|
        0 <= i < n ==> renamed(old.statements@[i].instruction, #[trigger] new.statements@[i].instruction, locals)
            && new.statements@[i].span == old.statements@[i].span
    &&& match old.terminator {
        Terminator::Return(Some(v)) => {
            &&& new.statements@.len() == n + 1
            &&& new.statements@[n as int].instruction == Instruction::Assign { dst, src: (v + locals) as usize }
            &&& new.statements@[n as int].span == span
        },
        _ => new.statements@.len() == n,
    }
}

/// Everything `block` names still fits a machine word once its locals move
/// up by `locals` and its targets by `blocks`.
pub open spec fn fits(block: BasicBlock, locals: int, blocks: int) -> bool {
    &&& forall|i: int|
        0 <= i < block.statements@.len() ==> locals_below(
            (#[trigger] block.statements@[i]).instruction,
            usize::MAX - locals,
        )
    &&& forall|k: int|
        0 <= k < spec_successors(block.terminator).len() ==> #[trigger] spec_successors(block.terminator)[k] + blocks <= usize::MAX
    &&& forall|k: int|
        0 <= k < spec_terminator_uses(block.terminator).len() ==> #[trigger] spec_terminator_uses(block.terminator)[k] + locals <= usize::MAX
}

/// A callee block, moved into a caller (see `moved_block`).
fn move_block(
    block: &BasicBlock,
    locals: usize,
    blocks: usize,
    continuation: usize,
    dst: LocalId,
    span: Span,
) -> (r: BasicBlock)
    requires
        fits(*block, locals as int, blocks as int),
    ensures
        moved_block(*block, r, locals as int, blocks as int, continuation as int, dst, span),
{
    let mut statements: Vec<Statement> = Vec::new();
    let mut i: usize = 0;
    while i < block.statements.len()
        invariant
            i <= block.statements@.len(),
            fits(*block, locals as int, blocks as int),
            statements@.len() == i,
            forall|j: int|
                0 <= j < i ==> renamed(block.statements@[j].instruction, #[trigger] statements@[j].instruction, locals as int)
                    && statements@[j].span == block.statements@[j].span,
        decreases block.statements@.len() - i,
    {
        let statement = &block.statements[i];
        proof {
            assert(locals_below(block.statements@[i as int].instruction, usize::MAX - locals));
        }
        statements.push(Statement { instruction: remap_instruction(&statement.instruction, locals), span: statement.span });
        i += 1;
    }
    let terminator = match block.terminator {
        Terminator::Return(value) => {
            match value {
                Some(v) => {
                    assert(spec_terminator_uses(block.terminator)[0] == v);
                    statements.push(Statement { instruction: Instruction::Assign { dst, src: v + locals }, span });
                },
                None => {},
            }
            Terminator::Goto(continuation)
        },
        Terminator::Goto(target) => {
            assert(spec_successors(block.terminator)[0] == target);
            Terminator::Goto(target + blocks)
        },
        Terminator::Branch { condition, then_block, else_block } => {
            assert(spec_successors(block.terminator)[0] == then_block);
            assert(spec_successors(block.terminator)[1] == else_block);
            assert(spec_terminator_uses(block.terminator)[0] == condition);
            Terminator::Branch {
                condition: condition + locals,
                then_block: then_block + blocks,
                else_block: else_block + blocks,
            }
        },
        Terminator::Unreachable => Terminator::Unreachable,
    };
    BasicBlock { statements, terminator, terminator_span: block.terminator_span }
}

/// What splicing `callee` into `caller` for the call at statement `position`
/// of block `block` needs: the call is there and passes one argument per
/// parameter, and every renumbered local and block still fits a word.
pub open spec fn can_splice(caller: MirFunction, block: int, position: int, callee: MirFunction) -> bool {
    let lb = caller.locals@.len() as int;
    let bb = caller.blocks@.len() as int;
    &&& 0 <= block < bb
    &&& 0 <= position < caller.blocks@[block].statements@.len()
    &&& caller.blocks@[block].statements@[position].instruction matches Instruction::Call { args, .. }
        && args@.len() == callee.params@.len()
    &&& lb + callee.locals@.len() <= usize::MAX
    &&& bb + callee.blocks@.len() + 1 <= usize::MAX
    &&& callee.entry + bb <= usize::MAX
    &&& forall|k: int| 0 <= k < callee.params@.len() ==> #[trigger] callee.params@[k] + lb <= usize::MAX
    &&& forall|j: int| 0 <= j < callee.blocks@.len() ==> fits(#[trigger] callee.blocks@[j], lb, bb)
}

/// `new` is `old` with `callee` spliced in for the call at statement
/// `position` of block `block`.
///
/// The caller block is split at the call: statements before it stay, the
/// arguments are bound to the callee's parameters, and control goes to the
/// callee's entry. The callee's locals and blocks are appended, renumbered,
/// and the statements after the call move to a fresh continuation block that
/// every callee `return` jumps to.
pub open spec fn spliced(old: MirFunction, new: MirFunction, block: int, position: int, callee: MirFunction) -> bool {
    let lb = old.locals@.len() as int;
    let bb = old.blocks@.len() as int;
    let cn = bb + callee.blocks@.len();
    let call = old.blocks@[block].statements@[position];
    let dst = call.instruction->Call_dst;
    let args = call.instruction->Call_args@;
    let first = new.blocks@[block];
    let rest = new.blocks@[cn];
    &&& new.name == old.name
    &&& new.emit == old.emit
    &&& new.inline_hint == old.inline_hint
    &&& new.params == old.params
    &&& new.return_type == old.return_type
    &&& new.entry == old.entry
    &&& new.span == old.span
    &&& new.locals@.len() == lb + callee.locals@.len()
    &&& new.locals@.subrange(0, lb) == old.locals@
    &&& forall|k: int|
        0 <= k < callee.locals@.len() ==> {
            &&& (#[trigger] new.locals@[lb + k]).ty == callee.locals@[k].ty
            &&& new.locals@[lb + k].name is None
            &&& !new.locals@[lb + k].is_param
        }
    &&& new.blocks@.len() == cn + 1
    &&& forall|i: int| 0 <= i < bb && i != block ==> #[trigger] new.blocks@[i] == old.blocks@[i]
    &&& first.statements@.len() == position + args.len()
    &&& first.statements@.subrange(0, position) == old.blocks@[block].statements@.subrange(0, position)
    &&& forall|k: int|
        0 <= k < args.len() ==> {
            &&& (#[trigger] first.statements@[position + k]).instruction == Instruction::Assign {
                dst: (callee.params@[k] + lb) as usize,
                src: args[k],
            }
            &&& first.statements@[position + k].span == call.span
        }
    &&& first.terminator == Terminator::Goto((callee.entry + bb) as usize)
    &&& first.terminator_span == call.span
    &&& forall|j: int|
        0 <= j < callee.blocks@.len() ==> moved_block(callee.blocks@[j], #[trigger] new.blocks@[bb + j], lb, bb, cn, dst, call.span)
    &&& rest.statements@ == old.blocks@[block].statements@.subrange(position + 1, old.blocks@[block].statements@.len() as int)
    &&& rest.terminator == old.blocks@[block].terminator
    &&& rest.terminator_span == old.blocks@[block].terminator_span
}

/// Replaces one call with the callee's body (see `spliced`).
pub fn splice(caller: &mut MirFunction, block: BlockId, position: usize, callee: &MirFunction)
    requires
        can_splice(*old(caller), block as int, position as int, *callee),
    ensures
        spliced(*old(caller), *final(caller), block as int, position as int, *callee),
{
    let ghost old_caller = *caller;
    let (dst, args) = match &caller.blocks[block].statements[position].instruction {
        Instruction::Call { dst, args, .. } => (*dst, shift_all(args, 0)),
        _ => {
            return;
        },
    };
    let span = caller.blocks[block].statements[position].span;
    assert(args@ =~= old_caller.blocks@[block as int].statements@[position as int].instruction->Call_args@);
    // Locals: a fresh copy of every callee local, none of them a parameter.
    let lb = caller.locals.len();
    let mut k: usize = 0;
    while k < callee.locals.len()
        invariant
            k <= callee.locals@.len(),
            lb == old_caller.locals@.len(),
            lb + callee.locals@.len() <= usize::MAX,
            caller.locals@.len() == lb + k,
            caller.locals@.subrange(0, lb as int) == old_caller.locals@,
            forall|j: int|
                0 <= j < k ==> {
                    &&& (#[trigger] caller.locals@[lb + j]).ty == callee.locals@[j].ty
                    &&& caller.locals@[lb + j].name is None
                    &&& !caller.locals@[lb + j].is_param
                },
            caller.blocks == old_caller.blocks,
            caller.name == old_caller.name,
            caller.emit == old_caller.emit,
            caller.inline_hint == old_caller.inline_hint,
            caller.params == old_caller.params,
            caller.return_type == old_caller.return_type,
            caller.entry == old_caller.entry,
            caller.span == old_caller.span,
        decreases callee.locals@.len() - k,
    {
        let ghost before = caller.locals@;
        caller.locals.push(MirLocal { ty: callee.locals[k].ty.clone(), name: None, is_param: false });
        assert(caller.locals@.subrange(0, lb as int) =~= before.subrange(0, lb as int));
        k += 1;
    }
    // Blocks: the callee's, then the continuation.
    let ghost with_locals = *caller;
    assert(caller.locals@.subrange(0, lb as int) == old_caller.locals@);
    let bb = caller.blocks.len();
    let cn = bb + callee.blocks.len();
    let mut j: usize = 0;
    while j < callee.blocks.len()
        invariant
            j <= callee.blocks@.len(),
            bb == old_caller.blocks@.len(),
            cn == bb + callee.blocks@.len(),
            lb == old_caller.locals@.len(),
            can_splice(old_caller, block as int, position as int, *callee),
            caller.blocks@.len() == bb + j,
            forall|i: int| 0 <= i < bb ==> #[trigger] caller.blocks@[i] == old_caller.blocks@[i],
            forall|i: int|
                0 <= i < j ==> moved_block(callee.blocks@[i], #[trigger] caller.blocks@[bb + i], lb as int, bb as int, cn as int, dst, span),
            caller.locals == with_locals.locals,
            caller.name == old_caller.name,
            caller.emit == old_caller.emit,
            caller.inline_hint == old_caller.inline_hint,
            caller.params == old_caller.params,
            caller.return_type == old_caller.return_type,
            caller.entry == old_caller.entry,
            caller.span == old_caller.span,
        decreases callee.blocks@.len() - j,
    {
        proof {
            assert(fits(callee.blocks@[j as int], lb as int, bb as int));
        }
        let moved = move_block(&callee.blocks[j], lb, bb, cn, dst, span);
        caller.blocks.push(moved);
        j += 1;
    }
    let mut target = BasicBlock { statements: Vec::new(), terminator: Terminator::Unreachable, terminator_span: span };
    caller.blocks.set_and_swap(block, &mut target);
    let ghost original = target.statements@;
    assert(target == old_caller.blocks@[block as int]);
    let length = target.statements.len();
    assert(position < length);
    let tail = target.statements.split_off(position + 1);
    caller.blocks.push(BasicBlock { statements: tail, terminator: target.terminator, terminator_span: target.terminator_span });
    target.statements.pop();
    assert(target.statements@ =~= original.subrange(0, position as int));
    let ghost mid = *caller;
    let mut k: usize = 0;
    while k < args.len()
        invariant
            *caller == mid,
            position <= original.len(),
            k <= args@.len() == callee.params@.len(),
            lb == old_caller.locals@.len(),
            forall|i: int| 0 <= i < callee.params@.len() ==> #[trigger] callee.params@[i] + lb <= usize::MAX,
            target.statements@.len() == position + k,
            target.statements@.subrange(0, position as int) == original.subrange(0, position as int),
            forall|i: int|
                0 <= i < k ==> {
                    &&& (#[trigger] target.statements@[position + i]).instruction == Instruction::Assign {
                        dst: (callee.params@[i] + lb) as usize,
                        src: args@[i],
                    }
                    &&& target.statements@[position + i].span == span
                },
        decreases args@.len() - k,
    {
        let ghost before = target.statements@;
        target.statements.push(Statement { instruction: Instruction::Assign { dst: callee.params[k] + lb, src: args[k] }, span });
        assert(target.statements@.subrange(0, position as int) =~= before.subrange(0, position as int));
        k += 1;
    }
    target.terminator = Terminator::Goto(callee.entry + bb);
    target.terminator_span = span;
    caller.blocks.set(block, target);
}


// ------------------------------------------------------------- call graph

/// `i` is a call of the function named `name`.
pub open spec fn calls_named(i: Instruction, name: Seq<char>) -> bool {
    match i {
        Instruction::Call { callee, .. } => callee@ == name,
        _ => false,
    }
}

/// Some statement of function `k` of `fs` calls function `j` by name.
pub open spec fn calls(fs: Seq<MirFunction>, k: int, j: int) -> bool {
    exists|b: int, p: int|
        0 <= b < fs[k].blocks@.len() && 0 <= p < fs[k].blocks@[b].statements@.len()
            && calls_named(#[trigger] fs[k].blocks@[b].statements@[p].instruction, fs[j].name@)
}

/// `path` is a chain of calls through `fs` from function `start`.
pub open spec fn call_chain(fs: Seq<MirFunction>, start: int, path: Seq<int>) -> bool {
    &&& path.len() > 0
    &&& path[0] == start
    &&& forall|k: int| 0 <= k < path.len() ==> 0 <= #[trigger] path[k] < fs.len()
    &&& forall|k: int| 0 <= k < path.len() - 1 ==> calls(fs, #[trigger] path[k], path[k + 1])
}

/// Function `from` reaches function `to` through a chain of calls.
pub open spec fn calls_into(fs: Seq<MirFunction>, from: int, to: int) -> bool {
    exists|path: Seq<int>| #[trigger] call_chain(fs, from, path) && path.last() == to
}

/// Function `k` reaches itself through some chain of calls: it is recursive,
/// directly or through others.
pub open spec fn recursive(fs: Seq<MirFunction>, k: int) -> bool {
    exists|j: int| 0 <= j < fs.len() && #[trigger] calls(fs, k, j) && calls_into(fs, j, k)
}

/// A graph whose edges are exactly the calls between `fs`.
pub open spec fn is_call_graph(fs: Seq<MirFunction>, g: Seq<Seq<usize>>) -> bool {
    &&& g.len() == fs.len()
    &&& forall|a: int, b: int| 0 <= a < fs.len() && 0 <= b < fs.len() ==> (g[a].contains(b as usize) <==> #[trigger] calls(fs, a, b))
    &&& forall|a: int, x: int| 0 <= a < g.len() && 0 <= x < g[a].len() ==> #[trigger] g[a][x] < fs.len()
}

/// Walking the call graph is following chains of calls.
proof fn lemma_walks_are_chains(fs: Seq<MirFunction>, g: Seq<Seq<usize>>, from: int, to: int)
    requires
        is_call_graph(fs, g),
        0 <= from < fs.len(),
    ensures
        walks_to(g, from, to) <==> calls_into(fs, from, to),
{
    if walks_to(g, from, to) {
        let path = choose|path: Seq<int>| crate::graph::is_walk(g, from, path) && path.last() == to;
        assert forall|k: int| 0 <= k < path.len() - 1 implies calls(fs, #[trigger] path[k], path[k + 1]) by {
            assert(g[path[k]].contains(path[k + 1] as usize));
        }
        assert(call_chain(fs, from, path));
    }
    if calls_into(fs, from, to) {
        let path = choose|path: Seq<int>| #[trigger] call_chain(fs, from, path) && path.last() == to;
        assert forall|k: int| 0 <= k < path.len() - 1 implies g[#[trigger] path[k]].contains(path[k + 1] as usize) by {
            assert(calls(fs, path[k], path[k + 1]));
        }
        assert(crate::graph::is_walk(g, from, path));
    }
}

/// Whether some statement of `f` calls a function named `name`.
fn calls_name(f: &MirFunction, name: &str) -> (r: bool)
    ensures
        r == exists|b: int, p: int|
            0 <= b < f.blocks@.len() && 0 <= p < f.blocks@[b].statements@.len()
                && calls_named(#[trigger] f.blocks@[b].statements@[p].instruction, name@),
{
    let mut b: usize = 0;
    while b < f.blocks.len()
        invariant
            b <= f.blocks@.len(),
            forall|b2: int, p: int|
                0 <= b2 < b && 0 <= p < f.blocks@[b2].statements@.len() ==> !calls_named(#[trigger] f.blocks@[b2].statements@[p].instruction, name@),
        decreases f.blocks@.len() - b,
    {
        let block = &f.blocks[b];
        let mut p: usize = 0;
        while p < block.statements.len()
            invariant
                b < f.blocks@.len(),
                *block == f.blocks@[b as int],
                p <= block.statements@.len(),
                forall|q: int|
                    0 <= q < p ==> !calls_named(#[trigger] f.blocks@[b as int].statements@[q].instruction, name@),
            decreases block.statements@.len() - p,
        {
            match &block.statements[p].instruction {
                Instruction::Call { callee, .. } => {
                    if crate::text::same_text(callee.as_str(), name) {
                        return true;
                    }
                },
                _ => {},
            }
            p += 1;
        }
        b += 1;
    }
    false
}

/// The call graph of `fs`: for each function, the functions it calls.
fn call_graph(fs: &Vec<MirFunction>) -> (g: Vec<Vec<usize>>)
    ensures
        is_call_graph(fs@, adjacency(g@)),
{
    let n = fs.len();
    let mut g: Vec<Vec<usize>> = Vec::new();
    let mut k: usize = 0;
    while k < n
        invariant
            k <= n == fs@.len(),
            g@.len() == k,
            forall|a: int, b: int| 0 <= a < k && 0 <= b < n ==> (g@[a]@.contains(b as usize) <==> #[trigger] calls(fs@, a, b)),
            forall|a: int, x: int| 0 <= a < k && 0 <= x < g@[a]@.len() ==> #[trigger] g@[a]@[x] < n,
        decreases n - k,
    {
        let mut targets: Vec<usize> = Vec::new();
        let mut j: usize = 0;
        while j < n
            invariant
                k < n == fs@.len(),
                j <= n,
                forall|b: int| 0 <= b < n ==> (targets@.contains(b as usize) <==> (b < j && #[trigger] calls(fs@, k as int, b))),
                forall|x: int| 0 <= x < targets@.len() ==> #[trigger] targets@[x] < j,
            decreases n - j,
        {
            let hit = calls_name(&fs[k], fs[j].name.as_str());
            let ghost before = targets@;
            if hit {
                targets.push(j);
            }
            proof {
                assert forall|b: int| 0 <= b < n implies (targets@.contains(b as usize) <==> (b < j + 1 && #[trigger] calls(fs@, k as int, b))) by {
                    if targets@.contains(b as usize) && b != j {
                        let x = choose|x: int| 0 <= x < targets@.len() && targets@[x] == b as usize;
                        assert(before[x] == b);
                        assert(before.contains(b as usize));
                    }
                    if b < j && calls(fs@, k as int, b) {
                        let x = choose|x: int| 0 <= x < before.len() && before[x] == b as usize;
                        assert(targets@[x] == b);
                    }
                    if b == j && hit {
                        assert(targets@[targets@.len() - 1] == b);
                    }
                }
            }
            j += 1;
        }
        g.push(targets);
        k += 1;
    }
    proof {
        let ga = adjacency(g@);
        assert forall|a: int, b: int| 0 <= a < n && 0 <= b < n implies (ga[a].contains(b as usize) <==> #[trigger] calls(fs@, a, b)) by {
            assert(ga[a] == g@[a]@);
        }
        assert forall|a: int, x: int| 0 <= a < ga.len() && 0 <= x < ga[a].len() implies #[trigger] ga[a][x] < n by {
            assert(ga[a] == g@[a]@);
        }
    }
    g
}

/// Which functions of `fs` reach themselves through a chain of calls.
///
/// Conservative: a function that reaches itself through any chain of calls is
/// excluded from inlining, so mutual recursion is covered as well as direct.
fn recursive_functions(fs: &Vec<MirFunction>) -> (r: Vec<bool>)
    ensures
        r@.len() == fs@.len(),
        forall|k: int| 0 <= k < fs@.len() ==> (#[trigger] r@[k] <==> recursive(fs@, k)),
{
    let g = call_graph(fs);
    let ghost ga = adjacency(g@);
    let n = fs.len();
    let mut r: Vec<bool> = Vec::new();
    let mut k: usize = 0;
    while k < n
        invariant
            k <= n == fs@.len() == g@.len(),
            ga == adjacency(g@),
            is_call_graph(fs@, ga),
            r@.len() == k,
            forall|a: int| 0 <= a < k ==> (#[trigger] r@[a] <==> recursive(fs@, a)),
        decreases n - k,
    {
        let targets = &g[k];
        assert(targets@ == ga[k as int]);
        let mut found = false;
        let mut x: usize = 0;
        while x < targets.len() && !found
            invariant
                k < n == fs@.len() == g@.len(),
                ga == adjacency(g@),
                is_call_graph(fs@, ga),
                targets@ == ga[k as int],
                x <= targets@.len(),
                found ==> recursive(fs@, k as int),
                !found ==> forall|y: int| 0 <= y < x ==> !calls_into(fs@, #[trigger] targets@[y] as int, k as int),
            decreases targets@.len() - x,
        {
            let j = targets[x];
            assert(ga[k as int][x as int] < n);
            let marked = reach(&g, j);
            proof {
                lemma_walks_are_chains(fs@, ga, j as int, k as int);
                assert(ga[k as int].contains(j));
            }
            if marked[k] {
                proof {
                    assert(walks_to(ga, j as int, k as int));
                    assert(calls(fs@, k as int, j as int));
                    assert(calls_into(fs@, j as int, k as int));
                }
                found = true;
            }
            x += 1;
        }
        proof {
            if !found {
                assert forall|j: int| 0 <= j < fs@.len() && #[trigger] calls(fs@, k as int, j) implies !calls_into(fs@, j, k as int) by {
                    assert(ga[k as int].contains(j as usize));
                    let y = choose|y: int| 0 <= y < targets@.len() && targets@[y] == j as usize;
                }
            }
        }
        r.push(found);
        k += 1;
    }
    r
}


// ------------------------------------------------------------- candidates

/// `g` is a copy of `f`: the same in every part, statement by statement.
pub open spec fn copied(f: MirFunction, g: MirFunction) -> bool {
    &&& g.name == f.name
    &&& g.emit == f.emit
    &&& g.inline_hint == f.inline_hint
    &&& g.params@ == f.params@
    &&& g.return_type == f.return_type
    &&& g.locals@ == f.locals@
    &&& g.entry == f.entry
    &&& g.span == f.span
    &&& g.blocks@.len() == f.blocks@.len()
    &&& forall|b: int|
        0 <= b < f.blocks@.len() ==> {
            &&& (#[trigger] g.blocks@[b]).terminator == f.blocks@[b].terminator
            &&& g.blocks@[b].terminator_span == f.blocks@[b].terminator_span
            &&& g.blocks@[b].statements@.len() == f.blocks@[b].statements@.len()
            &&& forall|i: int|
                0 <= i < f.blocks@[b].statements@.len() ==> renamed(
                    f.blocks@[b].statements@[i].instruction,
                    #[trigger] g.blocks@[b].statements@[i].instruction,
                    0,
                ) && g.blocks@[b].statements@[i].span == f.blocks@[b].statements@[i].span
        }
}

/// Whether an instruction names only locals that fit below `limit`.
proof fn lemma_below_max(i: Instruction)
    ensures
        locals_below(i, usize::MAX as int),
{
}

fn copy_local(l: &MirLocal) -> (r: MirLocal)
    ensures
        r == *l,
{
    let name = match &l.name {
        Some(n) => Some(n.clone()),
        None => None,
    };
    MirLocal { ty: l.ty.clone(), name, is_param: l.is_param }
}

/// A copy of `f`, taken before any function is changed, so that what is
/// inlined is each callee as it was written.
fn copy_function(f: &MirFunction) -> (g: MirFunction)
    ensures
        copied(*f, g),
{
    let mut locals: Vec<MirLocal> = Vec::new();
    let mut k: usize = 0;
    while k < f.locals.len()
        invariant
            k <= f.locals@.len(),
            locals@ == f.locals@.subrange(0, k as int),
        decreases f.locals@.len() - k,
    {
        locals.push(copy_local(&f.locals[k]));
        k += 1;
        assert(locals@ =~= f.locals@.subrange(0, k as int));
    }
    assert(f.locals@.subrange(0, f.locals@.len() as int) =~= f.locals@);
    let mut blocks: Vec<BasicBlock> = Vec::new();
    let mut b: usize = 0;
    while b < f.blocks.len()
        invariant
            b <= f.blocks@.len(),
            blocks@.len() == b,
            forall|c: int|
                0 <= c < b ==> {
                    &&& (#[trigger] blocks@[c]).terminator == f.blocks@[c].terminator
                    &&& blocks@[c].terminator_span == f.blocks@[c].terminator_span
                    &&& blocks@[c].statements@.len() == f.blocks@[c].statements@.len()
                    &&& forall|i: int|
                        0 <= i < f.blocks@[c].statements@.len() ==> renamed(
                            f.blocks@[c].statements@[i].instruction,
                            #[trigger] blocks@[c].statements@[i].instruction,
                            0,
                        ) && blocks@[c].statements@[i].span == f.blocks@[c].statements@[i].span
                },
        decreases f.blocks@.len() - b,
    {
        let block = &f.blocks[b];
        let mut statements: Vec<Statement> = Vec::new();
        let mut i: usize = 0;
        while i < block.statements.len()
            invariant
                *block == f.blocks@[b as int],
                i <= block.statements@.len(),
                statements@.len() == i,
                forall|j: int|
                    0 <= j < i ==> renamed(block.statements@[j].instruction, #[trigger] statements@[j].instruction, 0)
                        && statements@[j].span == block.statements@[j].span,
            decreases block.statements@.len() - i,
        {
            proof {
                lemma_below_max(block.statements@[i as int].instruction);
            }
            statements.push(Statement { instruction: remap_instruction(&block.statements[i].instruction, 0), span: block.statements[i].span });
            i += 1;
        }
        blocks.push(BasicBlock { statements, terminator: block.terminator, terminator_span: block.terminator_span });
        b += 1;
    }
    let mut params: Vec<LocalId> = Vec::new();
    let mut k: usize = 0;
    while k < f.params.len()
        invariant
            k <= f.params@.len(),
            params@ == f.params@.subrange(0, k as int),
        decreases f.params@.len() - k,
    {
        params.push(f.params[k]);
        k += 1;
        assert(params@ =~= f.params@.subrange(0, k as int));
    }
    assert(f.params@.subrange(0, f.params@.len() as int) =~= f.params@);
    MirFunction {
        name: f.name.clone(),
        emit: f.emit,
        inline_hint: f.inline_hint,
        params,
        return_type: f.return_type.clone(),
        locals,
        blocks,
        entry: f.entry,
        span: f.span,
    }
}

/// How many statements a callee may have: `MAX_CALLEE_STATEMENTS`, or, for a
/// function annotated `inline`, as many as a caller may grow by. The
/// annotation moves this one number; everything that makes inlining sound is
/// still the pass's to decide.
pub open spec fn ceiling(f: MirFunction) -> int {
    if f.inline_hint {
        MAX_CALLER_GROWTH as int
    } else {
        MAX_CALLEE_STATEMENTS as int
    }
}

/// A function worth inlining: not recursive, at most `MAX_CALLEE_BLOCKS`
/// blocks and `ceiling` statements, and no block that can fall off the end -
/// such a callee has no single return value to bind.
pub open spec fn inlinable(fs: Seq<MirFunction>, k: int) -> bool {
    &&& !recursive(fs, k)
    &&& fs[k].blocks@.len() <= MAX_CALLEE_BLOCKS
    &&& statement_count(fs[k].blocks@, fs[k].blocks@.len() as int) <= ceiling(fs[k])
    &&& forall|b: int| 0 <= b < fs[k].blocks@.len() ==> !((#[trigger] fs[k].blocks@[b]).terminator is Unreachable)
}

/// Whether `f` has at most `limit` statements.
fn small_body(f: &MirFunction, limit: usize) -> (r: bool)
    ensures
        r == (statement_count(f.blocks@, f.blocks@.len() as int) <= limit),
{
    let mut total: usize = 0;
    let mut b: usize = 0;
    while b < f.blocks.len()
        invariant
            b <= f.blocks@.len(),
            total == statement_count(f.blocks@, b as int),
            total <= limit,
        decreases f.blocks@.len() - b,
    {
        let n = f.blocks[b].statements.len();
        if n > limit - total {
            proof {
                crate::opt::lemma_count_grows(f.blocks@, b + 1, f.blocks@.len() as int);
            }
            return false;
        }
        total = total + n;
        b += 1;
    }
    true
}

/// How many statements `f` has, where that is small.
fn body_size(f: &MirFunction) -> (n: usize)
    requires
        statement_count(f.blocks@, f.blocks@.len() as int) <= MAX_CALLER_GROWTH,
    ensures
        n == statement_count(f.blocks@, f.blocks@.len() as int),
{
    let mut total: usize = 0;
    let mut b: usize = 0;
    while b < f.blocks.len()
        invariant
            b <= f.blocks@.len(),
            total == statement_count(f.blocks@, b as int),
            statement_count(f.blocks@, f.blocks@.len() as int) <= MAX_CALLER_GROWTH,
        decreases f.blocks@.len() - b,
    {
        proof {
            crate::opt::lemma_count_grows(f.blocks@, b + 1, f.blocks@.len() as int);
        }
        total = total + f.blocks[b].statements.len();
        b += 1;
    }
    total
}

/// `cands` are the functions of `fs` worth inlining, each with its index and
/// a copy of it as written, in index order.
pub open spec fn candidates_of(fs: Seq<MirFunction>, cands: Seq<(usize, MirFunction)>) -> bool {
    &&& forall|x: int|
        0 <= x < cands.len() ==> {
            &&& (#[trigger] cands[x]).0 < fs.len()
            &&& inlinable(fs, cands[x].0 as int)
            &&& copied(fs[cands[x].0 as int], cands[x].1)
        }
    &&& forall|x: int, y: int| 0 <= x < y < cands.len() ==> cands[x].0 < cands[y].0
    &&& forall|k: int| 0 <= k < fs.len() && inlinable(fs, k) ==> exists|x: int| 0 <= x < cands.len() && #[trigger] cands[x].0 == k
}

/// The functions of `fs` worth inlining, each with its index and a copy of it
/// as written, in index order.
fn collect_candidates(fs: &Vec<MirFunction>) -> (cands: Vec<(usize, MirFunction)>)
    ensures
        candidates_of(fs@, cands@),
{
    let recursive = recursive_functions(fs);
    let mut cands: Vec<(usize, MirFunction)> = Vec::new();
    let mut k: usize = 0;
    while k < fs.len()
        invariant
            k <= fs@.len(),
            recursive@.len() == fs@.len(),
            forall|j: int| 0 <= j < fs@.len() ==> (#[trigger] recursive@[j] <==> crate::opt::inline::recursive(fs@, j)),
            forall|x: int|
                0 <= x < cands@.len() ==> {
                    &&& (#[trigger] cands@[x]).0 < k
                    &&& inlinable(fs@, cands@[x].0 as int)
                    &&& copied(fs@[cands@[x].0 as int], cands@[x].1)
                },
            forall|x: int, y: int| 0 <= x < y < cands@.len() ==> cands@[x].0 < cands@[y].0,
            forall|j: int| 0 <= j < k && inlinable(fs@, j) ==> exists|x: int| 0 <= x < cands@.len() && #[trigger] cands@[x].0 == j,
        decreases fs@.len() - k,
    {
        let f = &fs[k];
        let mut falls_off = false;
        let mut b: usize = 0;
        while b < f.blocks.len()
            invariant
                b <= f.blocks@.len(),
                falls_off == exists|c: int| 0 <= c < b && (#[trigger] f.blocks@[c]).terminator is Unreachable,
            decreases f.blocks@.len() - b,
        {
            match f.blocks[b].terminator {
                Terminator::Unreachable => {
                    falls_off = true;
                },
                _ => {},
            }
            b += 1;
        }
        let limit = if f.inline_hint {
            MAX_CALLER_GROWTH
        } else {
            MAX_CALLEE_STATEMENTS
        };
        let worth = !recursive[k] && f.blocks.len() <= MAX_CALLEE_BLOCKS && small_body(f, limit) && !falls_off;
        let ghost before = cands@;
        if worth {
            cands.push((k, copy_function(f)));
        }
        proof {
            assert forall|j: int| 0 <= j < k + 1 && inlinable(fs@, j) implies exists|x: int| 0 <= x < cands@.len() && #[trigger] cands@[x].0 == j by {
                if j < k {
                    let x = choose|x: int| 0 <= x < before.len() && #[trigger] before[x].0 == j;
                    assert(cands@[x].0 == j);
                } else {
                    assert(cands@[cands@.len() - 1].0 == j);
                }
            }
        }
        k += 1;
    }
    cands
}


// -------------------------------------------------------------- call sites

/// Some extern of `externs` is named `name`.
pub open spec fn extern_named(externs: Seq<MirExtern>, name: Seq<char>) -> bool {
    exists|e: int| 0 <= e < externs.len() && (#[trigger] externs[e]).name@ == name
}

/// `x` is the first candidate named `name`.
pub open spec fn first_named(cands: Seq<(usize, MirFunction)>, name: Seq<char>, x: int) -> bool {
    &&& 0 <= x < cands.len()
    &&& cands[x].1.name@ == name
    &&& forall|y: int| 0 <= y < x ==> (#[trigger] cands[y]).1.name@ != name
}

/// Statement `p` of block `b` of `caller` is a call that may be inlined, with
/// candidate `x` as the callee: it calls neither the caller itself nor an
/// extern, the callee is in the caller's own module, and it passes one
/// argument per parameter.
pub open spec fn site(caller: MirFunction, cands: Seq<(usize, MirFunction)>, externs: Seq<MirExtern>, b: int, p: int, x: int) -> bool {
    &&& 0 <= b < caller.blocks@.len()
    &&& 0 <= p < caller.blocks@[b].statements@.len()
    &&& match caller.blocks@[b].statements@[p].instruction {
        Instruction::Call { callee, args, .. } => {
            &&& callee@ != caller.name@
            &&& !extern_named(externs, callee@)
            &&& owner_of(callee@) == owner_of(caller.name@)
            &&& first_named(cands, callee@, x)
            &&& cands[x].1.params@.len() == args@.len()
        },
        _ => false,
    }
}

fn is_extern(externs: &Vec<MirExtern>, name: &str) -> (r: bool)
    ensures
        r == extern_named(externs@, name@),
{
    let mut e: usize = 0;
    while e < externs.len()
        invariant
            e <= externs@.len(),
            forall|d: int| 0 <= d < e ==> (#[trigger] externs@[d]).name@ != name@,
        decreases externs@.len() - e,
    {
        if crate::text::same_text(externs[e].name.as_str(), name) {
            return true;
        }
        e += 1;
    }
    false
}

fn candidate_named(cands: &Vec<(usize, MirFunction)>, name: &str) -> (r: Option<usize>)
    ensures
        r matches Some(x) ==> first_named(cands@, name@, x as int),
        r is None ==> forall|y: int| 0 <= y < cands@.len() ==> (#[trigger] cands@[y]).1.name@ != name@,
{
    let mut x: usize = 0;
    while x < cands.len()
        invariant
            x <= cands@.len(),
            forall|y: int| 0 <= y < x ==> (#[trigger] cands@[y]).1.name@ != name@,
        decreases cands@.len() - x,
    {
        if crate::text::same_text(cands[x].1.name.as_str(), name) {
            return Some(x);
        }
        x += 1;
    }
    None
}

/// Whether statement `p` of block `b` is a call that may be inlined, and if so
/// with which candidate.
fn site_at(caller: &MirFunction, cands: &Vec<(usize, MirFunction)>, externs: &Vec<MirExtern>, b: usize, p: usize) -> (r: Option<usize>)
    requires
        b < caller.blocks@.len(),
        p < caller.blocks@[b as int].statements@.len(),
    ensures
        r matches Some(x) ==> site(*caller, cands@, externs@, b as int, p as int, x as int),
        r is None ==> forall|x: int| !site(*caller, cands@, externs@, b as int, p as int, x),
{
    match &caller.blocks[b].statements[p].instruction {
        Instruction::Call { callee, args, .. } => {
            if crate::text::same_text(callee.as_str(), caller.name.as_str()) {
                return None;
            }
            // The body is in C. There is nothing here to splice, and saying so
            // by name does not depend on the candidates staying body-only.
            if is_extern(externs, callee.as_str()) {
                return None;
            }
            if !same_owner(callee.as_str(), caller.name.as_str()) {
                return None;
            }
            match candidate_named(cands, callee.as_str()) {
                Some(x) => {
                    if cands[x].1.params.len() != args.len() {
                        proof {
                            assert forall|y: int| !site(*caller, cands@, externs@, b as int, p as int, y) by {
                                if first_named(cands@, callee@, y) && y != x {
                                    if y < x {
                                        assert(cands@[y].1.name@ != callee@);
                                    } else {
                                        assert(cands@[x as int].1.name@ != callee@);
                                    }
                                }
                            }
                        }
                        return None;
                    }
                    Some(x)
                },
                None => None,
            }
        },
        _ => None,
    }
}

/// The first call site, block by block and statement by statement, that may
/// be inlined, with its callee.
fn find_call_site(caller: &MirFunction, cands: &Vec<(usize, MirFunction)>, externs: &Vec<MirExtern>) -> (r: Option<(usize, usize, usize)>)
    ensures
        r matches Some((b, p, x)) ==> {
            &&& site(*caller, cands@, externs@, b as int, p as int, x as int)
            &&& forall|b2: int, p2: int, y: int|
                (b2 < b || (b2 == b && p2 < p)) ==> !#[trigger] site(*caller, cands@, externs@, b2, p2, y)
        },
        r is None ==> forall|b: int, p: int, x: int| !#[trigger] site(*caller, cands@, externs@, b, p, x),
{
    let mut b: usize = 0;
    while b < caller.blocks.len()
        invariant
            b <= caller.blocks@.len(),
            forall|b2: int, p2: int, y: int| b2 < b ==> !#[trigger] site(*caller, cands@, externs@, b2, p2, y),
        decreases caller.blocks@.len() - b,
    {
        let mut p: usize = 0;
        while p < caller.blocks[b].statements.len()
            invariant
                b < caller.blocks@.len(),
                p <= caller.blocks@[b as int].statements@.len(),
                forall|b2: int, p2: int, y: int| (b2 < b || (b2 == b && p2 < p)) ==> !#[trigger] site(*caller, cands@, externs@, b2, p2, y),
            decreases caller.blocks@[b as int].statements@.len() - p,
        {
            match site_at(caller, cands, externs, b, p) {
                Some(x) => {
                    return Some((b, p, x));
                },
                None => {},
            }
            p += 1;
        }
        b += 1;
    }
    None
}


// ---------------------------------------------------------------- splicing

/// A copy has as many statements as what it copies.
proof fn lemma_copied_count(f: MirFunction, g: MirFunction, count: int)
    requires
        copied(f, g),
        0 <= count <= f.blocks@.len(),
    ensures
        statement_count(g.blocks@, count) == statement_count(f.blocks@, count),
    decreases count,
{
    if count > 0 {
        lemma_copied_count(f, g, count - 1);
        assert(g.blocks@[count - 1].statements@.len() == f.blocks@[count - 1].statements@.len());
    }
}

/// Whether every local `i` names is at most `limit`.
fn instruction_fits(i: &Instruction, limit: usize) -> (r: bool)
    ensures
        r == locals_below(*i, limit as int),
{
    let mut read: Vec<LocalId> = Vec::new();
    crate::cfg::uses(i, &mut read);
    let mut k: usize = 0;
    while k < read.len()
        invariant
            k <= read@.len(),
            read@ == crate::cfg::spec_uses(*i),
            forall|j: int| 0 <= j < k ==> #[trigger] read@[j] <= limit,
        decreases read@.len() - k,
    {
        if read[k] > limit {
            assert(crate::cfg::spec_uses(*i)[k as int] > limit);
            return false;
        }
        k += 1;
    }
    match crate::cfg::defs(i) {
        Some(d) => d <= limit,
        None => true,
    }
}

/// Whether `block` still fits a word once its locals move up by `locals` and
/// its targets by `blocks`.
fn block_fits(block: &BasicBlock, locals: usize, blocks: usize) -> (r: bool)
    ensures
        r == fits(*block, locals as int, blocks as int),
{
    let mut i: usize = 0;
    while i < block.statements.len()
        invariant
            i <= block.statements@.len(),
            forall|j: int| 0 <= j < i ==> locals_below((#[trigger] block.statements@[j]).instruction, usize::MAX - locals),
        decreases block.statements@.len() - i,
    {
        if !instruction_fits(&block.statements[i].instruction, usize::MAX - locals) {
            assert(!locals_below(block.statements@[i as int].instruction, usize::MAX - locals));
            return false;
        }
        i += 1;
    }
    let targets = crate::cfg::successors(&block.terminator);
    let mut k: usize = 0;
    while k < targets.len()
        invariant
            k <= targets@.len(),
            targets@ == spec_successors(block.terminator),
            forall|j: int| 0 <= j < k ==> #[trigger] targets@[j] + blocks <= usize::MAX,
        decreases targets@.len() - k,
    {
        if targets[k] > usize::MAX - blocks {
            assert(spec_successors(block.terminator)[k as int] + blocks > usize::MAX);
            return false;
        }
        k += 1;
    }
    let read = crate::cfg::terminator_uses(&block.terminator);
    let mut k: usize = 0;
    while k < read.len()
        invariant
            k <= read@.len(),
            read@ == spec_terminator_uses(block.terminator),
            forall|j: int| 0 <= j < k ==> #[trigger] read@[j] + locals <= usize::MAX,
        decreases read@.len() - k,
    {
        if read[k] > usize::MAX - locals {
            assert(spec_terminator_uses(block.terminator)[k as int] + locals > usize::MAX);
            return false;
        }
        k += 1;
    }
    true
}

/// Whether `callee` can be spliced in at the call site `(block, position)`
/// with every renumbered local and block still in a word, and the caller's
/// blocks still few enough to number twice over.
fn splice_fits(caller: &MirFunction, block: usize, position: usize, callee: &MirFunction) -> (r: bool)
    requires
        block < caller.blocks@.len(),
        position < caller.blocks@[block as int].statements@.len(),
        caller.blocks@[block as int].statements@[position as int].instruction matches Instruction::Call { args, .. }
            && args@.len() == callee.params@.len(),
    ensures
        r == (can_splice(*caller, block as int, position as int, *callee) && 2 * (caller.blocks@.len()
            + callee.blocks@.len() + 1) <= usize::MAX),
{
    let lb = caller.locals.len();
    let bb = caller.blocks.len();
    if callee.locals.len() > usize::MAX - lb {
        return false;
    }
    if callee.blocks.len() > usize::MAX / 2 - 1 || bb > usize::MAX / 2 - 1 - callee.blocks.len() {
        return false;
    }
    if callee.entry > usize::MAX - bb {
        return false;
    }
    let mut k: usize = 0;
    while k < callee.params.len()
        invariant
            k <= callee.params@.len(),
            forall|j: int| 0 <= j < k ==> #[trigger] callee.params@[j] + lb <= usize::MAX,
            lb == caller.locals@.len(),
            bb == caller.blocks@.len(),
        decreases callee.params@.len() - k,
    {
        if callee.params[k] > usize::MAX - lb {
            assert(callee.params@[k as int] + lb > usize::MAX);
            return false;
        }
        k += 1;
    }
    let mut j: usize = 0;
    while j < callee.blocks.len()
        invariant
            j <= callee.blocks@.len(),
            forall|i: int| 0 <= i < j ==> fits(#[trigger] callee.blocks@[i], lb as int, bb as int),
            lb == caller.locals@.len(),
            bb == caller.blocks@.len(),
        decreases callee.blocks@.len() - j,
    {
        if !block_fits(&callee.blocks[j], lb, bb) {
            assert(!fits(callee.blocks@[j as int], lb as int, bb as int));
            return false;
        }
        j += 1;
    }
    true
}

/// What inlining leaves of a function as it was: its name, signature, entry
/// and location.
pub open spec fn same_signature(old: MirFunction, new: MirFunction) -> bool {
    &&& new.name == old.name
    &&& new.emit == old.emit
    &&& new.inline_hint == old.inline_hint
    &&& new.params == old.params
    &&& new.return_type == old.return_type
    &&& new.entry == old.entry
    &&& new.span == old.span
}

/// How many statements the body of `f` has.
pub open spec fn body_statements(f: MirFunction) -> int {
    statement_count(f.blocks@, f.blocks@.len() as int) as int
}

/// `g` is `f` with candidate `x` spliced in for the call at statement `p` of
/// block `b`, the first call site of `f`, block by block and statement by
/// statement, that may be inlined.
pub open spec fn inlined_at(
    f: MirFunction,
    g: MirFunction,
    cands: Seq<(usize, MirFunction)>,
    externs: Seq<MirExtern>,
    b: int,
    p: int,
    x: int,
) -> bool {
    &&& site(f, cands, externs, b, p, x)
    &&& forall|b2: int, p2: int, y: int|
        (b2 < b || (b2 == b && p2 < p)) ==> !#[trigger] site(f, cands, externs, b2, p2, y)
    &&& spliced(f, g, b, p, cands[x].1)
}

/// `steps` are the states of a function through a run of inlining sweeps:
/// the sweep from `steps[i]` to `steps[i + 1]` inlines at the site `sites[i]`
/// (block, statement, candidate).
pub open spec fn inlining(
    steps: Seq<MirFunction>,
    sites: Seq<(int, int, int)>,
    cands: Seq<(usize, MirFunction)>,
    externs: Seq<MirExtern>,
) -> bool {
    &&& steps.len() == sites.len() + 1
    &&& forall|i: int|
        #![trigger sites[i]]
        0 <= i < sites.len() ==> inlined_at(steps[i], steps[i + 1], cands, externs, sites[i].0, sites[i].1, sites[i].2)
}

/// How many statements the callees inlined at `sites` bring with them.
pub open spec fn growth_of(sites: Seq<(int, int, int)>, cands: Seq<(usize, MirFunction)>) -> int
    decreases sites.len(),
{
    if sites.len() == 0 {
        0
    } else {
        growth_of(sites.drop_last(), cands) + body_statements(cands[sites.last().2].1)
    }
}

/// `new` is what inlining sweeps make of `old`, one first call site at a
/// time, with callees of `MAX_CALLER_GROWTH` statements at most in all.
pub open spec fn inlined(
    old: MirFunction,
    new: MirFunction,
    cands: Seq<(usize, MirFunction)>,
    externs: Seq<MirExtern>,
) -> bool {
    exists|steps: Seq<MirFunction>, sites: Seq<(int, int, int)>|
        {
            &&& #[trigger] inlining(steps, sites, cands, externs)
            &&& steps[0] == old
            &&& steps.last() == new
            &&& growth_of(sites, cands) <= MAX_CALLER_GROWTH
        }
}

/// Inlines call sites of `caller`, first to last, one per sweep, until none
/// is left or the caller would grow by more than `MAX_CALLER_GROWTH`
/// statements.
fn inline_into(caller: &mut MirFunction, cands: &Vec<(usize, MirFunction)>, externs: &Vec<MirExtern>) -> (changed: bool)
    requires
        forall|x: int|
            0 <= x < cands@.len() ==> statement_count((#[trigger] cands@[x]).1.blocks@, cands@[x].1.blocks@.len() as int)
                <= MAX_CALLER_GROWTH,
    ensures
        same_signature(*old(caller), *final(caller)),
        2 * old(caller).blocks@.len() <= usize::MAX ==> 2 * final(caller).blocks@.len() <= usize::MAX,
        !changed ==> *final(caller) == *old(caller),
        exists|steps: Seq<MirFunction>, sites: Seq<(int, int, int)>|
            {
                &&& #[trigger] inlining(steps, sites, cands@, externs@)
                &&& steps[0] == *old(caller)
                &&& steps.last() == *final(caller)
                &&& growth_of(sites, cands@) <= MAX_CALLER_GROWTH
                &&& (changed <==> sites.len() > 0)
            },
{
    let mut changed = false;
    let mut growth: usize = 0;
    // One call site per sweep: splicing renumbers nothing but does append
    // blocks, so re-scanning keeps the logic simple. Each sweep either grows
    // the caller or takes away a call, so this many sweeps always suffice.
    let mut statements: usize = 0;
    let mut b: usize = 0;
    while b < caller.blocks.len()
        invariant
            b <= caller.blocks@.len(),
        decreases caller.blocks@.len() - b,
    {
        statements = crate::text::saturating_add(statements, caller.blocks[b].statements.len());
        b += 1;
    }
    let mut sweeps = crate::text::saturating_add(crate::text::saturating_add(statements, 2 * MAX_CALLER_GROWTH), 1);
    let ghost mut steps: Seq<MirFunction> = seq![*caller];
    let ghost mut sites: Seq<(int, int, int)> = Seq::empty();
    while sweeps > 0
        invariant
            forall|x: int|
                0 <= x < cands@.len() ==> statement_count((#[trigger] cands@[x]).1.blocks@, cands@[x].1.blocks@.len() as int)
                    <= MAX_CALLER_GROWTH,
            same_signature(*old(caller), *caller),
            2 * old(caller).blocks@.len() <= usize::MAX ==> 2 * caller.blocks@.len() <= usize::MAX,
            !changed ==> *caller == *old(caller),
            growth <= MAX_CALLER_GROWTH,
            inlining(steps, sites, cands@, externs@),
            steps[0] == *old(caller),
            steps.last() == *caller,
            growth == growth_of(sites, cands@),
            changed <==> sites.len() > 0,
        decreases sweeps,
    {
        sweeps -= 1;
        let found = find_call_site(caller, cands, externs);
        let (b, p, x) = match found {
            Some(site) => site,
            None => {
                return changed;
            },
        };
        let callee = &cands[x].1;
        let size = body_size(callee);
        if size > MAX_CALLER_GROWTH - growth {
            return changed;
        }
        if !splice_fits(caller, b, p, callee) {
            return changed;
        }
        growth = growth + size;
        let ghost before = *caller;
        splice(caller, b, p, callee);
        proof {
            let next_steps = steps.push(*caller);
            let next_sites = sites.push((b as int, p as int, x as int));
            assert(inlined_at(before, *caller, cands@, externs@, b as int, p as int, x as int));
            assert forall|i: int|
                #![trigger next_sites[i]]
                0 <= i < next_sites.len() implies inlined_at(
                    next_steps[i],
                    next_steps[i + 1],
                    cands@,
                    externs@,
                    next_sites[i].0,
                    next_sites[i].1,
                    next_sites[i].2,
                ) by {
                if i < sites.len() {
                    assert(next_sites[i] == sites[i]);
                    assert(next_steps[i] == steps[i]);
                    assert(next_steps[i + 1] == steps[i + 1]);
                }
            }
            assert(next_sites.drop_last() =~= sites);
            steps = next_steps;
            sites = next_sites;
        }
        changed = true;
    }
    changed
}

fn placeholder() -> (f: MirFunction)
    ensures
        f.name@.len() == 0,
        !f.emit,
        !f.inline_hint,
        f.params@.len() == 0,
        f.return_type == Type::Unit,
        f.locals@.len() == 0,
        f.blocks@.len() == 1,
        f.blocks@[0].statements@.len() == 0,
        f.blocks@[0].terminator == Terminator::Unreachable,
        f.blocks@[0].terminator_span == (Span { start: 0, end: 0, line: 0, column: 0 }),
        f.entry == 0,
        f.span == (Span { start: 0, end: 0, line: 0, column: 0 }),
{
    let mut blocks: Vec<BasicBlock> = Vec::new();
    blocks.push(BasicBlock { statements: Vec::new(), terminator: Terminator::Unreachable, terminator_span: Span::none() });
    MirFunction {
        name: String::new(),
        emit: false,
        inline_hint: false,
        params: Vec::new(),
        return_type: Type::Unit,
        locals: Vec::new(),
        blocks,
        entry: 0,
        span: Span::none(),
    }
}

/// `new` is what inlining makes of `old`: the same functions, tests, externs
/// and types, each function and test run through `inlined` with the
/// candidates of `old`.
pub open spec fn inlined_module(old: MirModule, new: MirModule) -> bool {
    &&& new.functions@.len() == old.functions@.len()
    &&& new.tests@.len() == old.tests@.len()
    &&& new.externs == old.externs
    &&& new.structs == old.structs
    &&& new.enums == old.enums
    &&& forall|k: int|
        0 <= k < old.functions@.len() ==> same_signature(old.functions@[k], #[trigger] new.functions@[k])
    &&& forall|k: int|
        0 <= k < old.tests@.len() ==> {
            &&& (#[trigger] new.tests@[k]).name == old.tests@[k].name
            &&& new.tests@[k].emit == old.tests@[k].emit
            &&& same_signature(old.tests@[k].function, new.tests@[k].function)
        }
    &&& crate::verify::addressable(old) ==> crate::verify::addressable(new)
    &&& exists|cands: Seq<(usize, MirFunction)>|
        {
            &&& #[trigger] candidates_of(old.functions@, cands)
            &&& forall|k: int|
                0 <= k < old.functions@.len() ==> inlined(old.functions@[k], #[trigger] new.functions@[k], cands, old.externs@)
            &&& forall|k: int|
                0 <= k < old.tests@.len() ==> inlined(
                    old.tests@[k].function,
                    #[trigger] new.tests@[k].function,
                    cands,
                    old.externs@,
                )
        }
}

/// Inlines small, non-recursive callees into every function and test of
/// `module`, within one module only and never across the C boundary.
///
/// Every callee is inlined as it was written, before this pass changed any
/// function. No function changes its name, signature or entry, and the
/// module keeps its functions, tests, externs and types.
pub fn run(module: &mut MirModule) -> (changed: bool)
    ensures
        final(module).functions@.len() == old(module).functions@.len(),
        final(module).tests@.len() == old(module).tests@.len(),
        final(module).externs == old(module).externs,
        final(module).structs == old(module).structs,
        final(module).enums == old(module).enums,
        forall|k: int|
            0 <= k < old(module).functions@.len() ==> same_signature(old(module).functions@[k], #[trigger] final(module).functions@[k]),
        forall|k: int|
            0 <= k < old(module).tests@.len() ==> {
                &&& (#[trigger] final(module).tests@[k]).name == old(module).tests@[k].name
                &&& final(module).tests@[k].emit == old(module).tests@[k].emit
                &&& same_signature(old(module).tests@[k].function, final(module).tests@[k].function)
            },
        crate::verify::addressable(*old(module)) ==> crate::verify::addressable(*final(module)),
        !changed ==> final(module).functions@ == old(module).functions@ && final(module).tests@
            == old(module).tests@,
        inlined_module(*old(module), *final(module)),
        exists|cands: Seq<(usize, MirFunction)>|
            {
                &&& #[trigger] candidates_of(old(module).functions@, cands)
                &&& forall|k: int|
                    0 <= k < old(module).functions@.len() ==> inlined(
                        old(module).functions@[k],
                        #[trigger] final(module).functions@[k],
                        cands,
                        old(module).externs@,
                    )
                &&& forall|k: int|
                    0 <= k < old(module).tests@.len() ==> inlined(
                        old(module).tests@[k].function,
                        #[trigger] final(module).tests@[k].function,
                        cands,
                        old(module).externs@,
                    )
            },
{
    let cands = collect_candidates(&module.functions);
    if cands.len() == 0 {
        proof {
            assert forall|k: int| 0 <= k < module.functions@.len() implies inlined(
                module.functions@[k],
                #[trigger] module.functions@[k],
                cands@,
                module.externs@,
            ) by {
                assert(inlining(seq![module.functions@[k]], Seq::empty(), cands@, module.externs@));
            }
            assert forall|k: int| 0 <= k < module.tests@.len() implies inlined(
                module.tests@[k].function,
                #[trigger] module.tests@[k].function,
                cands@,
                module.externs@,
            ) by {
                assert(inlining(seq![module.tests@[k].function], Seq::empty(), cands@, module.externs@));
            }
        }
        return false;
    }
    proof {
        assert forall|x: int| 0 <= x < cands@.len() implies statement_count((#[trigger] cands@[x]).1.blocks@, cands@[x].1.blocks@.len() as int)
            <= MAX_CALLER_GROWTH by {
            let f = old(module).functions@[cands@[x].0 as int];
            lemma_copied_count(f, cands@[x].1, f.blocks@.len() as int);
        }
    }
    let ghost start = *module;
    let mut changed = false;
    let mut k: usize = 0;
    while k < module.functions.len()
        invariant
            k <= module.functions@.len() == start.functions@.len(),
            module.tests == start.tests,
            module.externs == start.externs,
            module.structs == start.structs,
            module.enums == start.enums,
            forall|x: int|
                0 <= x < cands@.len() ==> statement_count((#[trigger] cands@[x]).1.blocks@, cands@[x].1.blocks@.len() as int)
                    <= MAX_CALLER_GROWTH,
            forall|j: int| 0 <= j < k ==> same_signature(start.functions@[j], #[trigger] module.functions@[j]),
            forall|j: int|
                0 <= j < k ==> (2 * start.functions@[j].blocks@.len() <= usize::MAX ==> 2 * (#[trigger] module.functions@[j]).blocks@.len() <= usize::MAX),
            forall|j: int| k <= j < module.functions@.len() ==> #[trigger] module.functions@[j] == start.functions@[j],
            !changed ==> module.functions@ == start.functions@,
            candidates_of(start.functions@, cands@),
            forall|j: int| 0 <= j < k ==> inlined(start.functions@[j], #[trigger] module.functions@[j], cands@, start.externs@),
        decreases module.functions@.len() - k,
    {
        let ghost before = module.functions@;
        let mut function = placeholder();
        module.functions.set_and_swap(k, &mut function);
        let ghost taken = function;
        let did = inline_into(&mut function, &cands, &module.externs);
        module.functions.set(k, function);
        if did {
            changed = true;
        } else {
            proof {
                assert(module.functions@ =~= before);
            }
        }
        k += 1;
    }
    let mut k: usize = 0;
    while k < module.tests.len()
        invariant
            k <= module.tests@.len() == start.tests@.len(),
            module.functions@.len() == start.functions@.len(),
            module.externs == start.externs,
            module.structs == start.structs,
            module.enums == start.enums,
            forall|x: int|
                0 <= x < cands@.len() ==> statement_count((#[trigger] cands@[x]).1.blocks@, cands@[x].1.blocks@.len() as int)
                    <= MAX_CALLER_GROWTH,
            forall|j: int| 0 <= j < module.functions@.len() ==> same_signature(start.functions@[j], #[trigger] module.functions@[j]),
            forall|j: int|
                0 <= j < module.functions@.len() ==> (2 * start.functions@[j].blocks@.len() <= usize::MAX ==> 2 * (#[trigger] module.functions@[j]).blocks@.len() <= usize::MAX),
            forall|j: int|
                0 <= j < k ==> {
                    &&& (#[trigger] module.tests@[j]).name == start.tests@[j].name
                    &&& module.tests@[j].emit == start.tests@[j].emit
                    &&& same_signature(start.tests@[j].function, module.tests@[j].function)
                    &&& (2 * start.tests@[j].function.blocks@.len() <= usize::MAX ==> 2 * module.tests@[j].function.blocks@.len() <= usize::MAX)
                },
            forall|j: int| k <= j < module.tests@.len() ==> #[trigger] module.tests@[j] == start.tests@[j],
            !changed ==> module.functions@ == start.functions@ && module.tests@ == start.tests@,
            candidates_of(start.functions@, cands@),
            forall|j: int| 0 <= j < module.functions@.len() ==> inlined(start.functions@[j], #[trigger] module.functions@[j], cands@, start.externs@),
            forall|j: int| 0 <= j < k ==> inlined(start.tests@[j].function, #[trigger] module.tests@[j].function, cands@, start.externs@),
        decreases module.tests@.len() - k,
    {
        let ghost before = module.tests@;
        let mut test = MirTest { name: String::new(), function: placeholder(), emit: false };
        module.tests.set_and_swap(k, &mut test);
        let ghost taken = test;
        let MirTest { name, function, emit } = test;
        let mut function = function;
        let did = inline_into(&mut function, &cands, &module.externs);
        module.tests.set(k, MirTest { name, function, emit });
        if did {
            changed = true;
        } else {
            proof {
                assert(module.tests@ =~= before);
            }
        }
        k += 1;
    }
    proof {
        if crate::verify::addressable(start) {
            assert forall|k: int| 0 <= k < crate::verify::all_functions(*module).len() implies 2 * (#[trigger] crate::verify::all_functions(
                *module,
            )[k]).blocks@.len() <= usize::MAX by {
                crate::opt::lemma_all_functions_index(start, k);
                crate::opt::lemma_all_functions_index(*module, k);
            }
        }
    }
    changed
}

} // verus!
