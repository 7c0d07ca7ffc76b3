//! Release-profile MIR optimization passes.
//!
//! Correctness rests on three things: every pass preserves observable
//! behaviour, the MIR verifier runs after each one, and the fixture suite
//! compares program output byte for byte.
//!
//! **Drops are observable.** `Drop` and `Free` are how memory gets released;
//! they are never dead, and moving one across a branch changes when memory is
//! freed.
//!
//! **Arithmetic can trap.** `Binary` panics on overflow and on division by
//! zero, so a `Binary` is never removed as dead and never folded unless the
//! fold is known not to trap — [`fold_binary`] returns `None` rather than
//! wrapping.
use crate::ast::{integer_type, Type};
use crate::cfg::{defs, reaches, spec_defs, spec_successors, spec_terminator_uses, spec_uses, successors, terminator_uses, uses, Cfg};
use crate::diagnostic::{codes, CompileResult, Diagnostic};
use crate::mir::{BasicBlock, BinaryOp, BlockId, Instruction, LocalId, MirFunction, MirModule, Statement, Terminator};
use crate::verify;
use crate::verify::{addressable, all_functions, module_reports};
use vstd::prelude::*;

pub mod inline;

verus! {

/// Upper bound on pipeline iterations.
pub const MAX_ROUNDS: usize = 8;

/// A compile-time value.
#[derive(Clone, Copy, Debug, PartialEq, Eq, Structural)]
pub enum Constant {
    Int(i64),
    Bool(bool),
    /// The bits of an `f64`.
    Float(u64),
}

/// The instruction that puts `c` in `dst`.
pub open spec fn constant_instruction(c: Constant, dst: LocalId) -> Instruction {
    match c {
        Constant::Int(value) => Instruction::ConstInt { dst, value },
        Constant::Bool(value) => Instruction::ConstBool { dst, value },
        Constant::Float(bits) => Instruction::ConstFloat { dst, bits },
    }
}

impl Constant {
    /// The instruction that puts this constant in `dst`.
    pub fn instruction(self, dst: LocalId) -> (i: Instruction)
        ensures
            i == constant_instruction(self, dst),
    {
        match self {
            Constant::Int(value) => Instruction::ConstInt { dst, value },
            Constant::Bool(value) => Instruction::ConstBool { dst, value },
            Constant::Float(bits) => Instruction::ConstFloat { dst, bits },
        }
    }
}

/// How the backends compute on an integer type: its width, and whether it
/// is signed. Narrow types are computed at 64 bits and put back.
#[derive(Clone, Copy, Debug, PartialEq, Eq, Structural)]
pub struct Regime {
    pub bits: u32,
    pub signed: bool,
}

/// The regime of `ty`: its own width and signedness for an integer type, a
/// byte for `bool`, and a signed word for everything else.
pub open spec fn regime_of(ty: Type) -> Regime {
    match ty {
        Type::I8 => Regime { bits: 8, signed: true },
        Type::I16 => Regime { bits: 16, signed: true },
        Type::I32 => Regime { bits: 32, signed: true },
        Type::U8 => Regime { bits: 8, signed: false },
        Type::U16 => Regime { bits: 16, signed: false },
        Type::U32 => Regime { bits: 32, signed: false },
        Type::U64 => Regime { bits: 64, signed: false },
        Type::Bool => Regime { bits: 8, signed: false },
        _ => Regime { bits: 64, signed: true },
    }
}

/// The regime the backends compute `ty` in.
pub fn regime(ty: &Type) -> (r: Regime)
    ensures
        r == regime_of(*ty),
{
    match ty {
        Type::I8 => Regime { bits: 8, signed: true },
        Type::I16 => Regime { bits: 16, signed: true },
        Type::I32 => Regime { bits: 32, signed: true },
        Type::U8 => Regime { bits: 8, signed: false },
        Type::U16 => Regime { bits: 16, signed: false },
        Type::U32 => Regime { bits: 32, signed: false },
        Type::U64 => Regime { bits: 64, signed: false },
        Type::Bool => Regime { bits: 8, signed: false },
        _ => Regime { bits: 64, signed: true },
    }
}

/// `value` put back into the width of `kind`: sign-extended from its low
/// bits when signed, zero-extended when not.
pub open spec fn canonical(kind: Regime, value: i64) -> i64 {
    if kind.bits >= 64 || kind.bits == 0 {
        value
    } else if kind.signed {
        value.wrapping_shl((64 - kind.bits) as u32) >> ((64 - kind.bits) as u32)
    } else {
        ((value as u64) & (u64::MAX >> ((64 - kind.bits) as u32))) as i64
    }
}

impl Regime {
    /// `value` put back into this width.
    pub fn canonicalize(self, value: i64) -> (r: i64)
        ensures
            r == canonical(self, value),
    {
        if self.bits >= 64 || self.bits == 0 {
            value
        } else if self.signed {
            value.wrapping_shl(64 - self.bits) >> (64 - self.bits)
        } else {
            ((value as u64) & (u64::MAX >> (64 - self.bits))) as i64
        }
    }

    /// Whether this regime is a whole machine word.
    pub fn is_full_width(self) -> (r: bool)
        ensures
            r == (self.bits >= 64),
    {
        self.bits >= 64
    }
}

/// A constant as the integer word the backends hold it in.
pub open spec fn as_word(c: Constant) -> Option<i64> {
    match c {
        Constant::Int(v) => Some(v),
        Constant::Bool(b) => Some(if b { 1i64 } else { 0i64 }),
        Constant::Float(_) => None,
    }
}

/// A word result, kept only when the operation would not have trapped.
pub open spec fn fold_word(op: BinaryOp, kind: Regime, lhs: i64, rhs: i64) -> Option<Constant> {
    if op is Shl || op is Shr {
        if 0 <= rhs < kind.bits {
            let amount = rhs as u32;
            let shifted = if op is Shl {
                lhs.wrapping_shl(amount)
            } else if kind.signed {
                lhs >> amount
            } else {
                ((lhs as u64) >> amount) as i64
            };
            Some(Constant::Int(canonical(kind, shifted)))
        } else {
            None
        }
    } else if !kind.signed && kind.bits >= 64 {
        let left = lhs as u64;
        let right = rhs as u64;
        match op {
            BinaryOp::Add => match left.checked_add(right) { Some(v) => Some(Constant::Int(v as i64)), None => None },
            BinaryOp::Sub => match left.checked_sub(right) { Some(v) => Some(Constant::Int(v as i64)), None => None },
            BinaryOp::Mul => match left.checked_mul(right) { Some(v) => Some(Constant::Int(v as i64)), None => None },
            BinaryOp::Div => match left.checked_div(right) { Some(v) => Some(Constant::Int(v as i64)), None => None },
            BinaryOp::Rem => match left.checked_rem(right) { Some(v) => Some(Constant::Int(v as i64)), None => None },
            BinaryOp::Less => Some(Constant::Bool(left < right)),
            BinaryOp::Greater => Some(Constant::Bool(left > right)),
            BinaryOp::LessEqual => Some(Constant::Bool(left <= right)),
            BinaryOp::GreaterEqual => Some(Constant::Bool(left >= right)),
            BinaryOp::Equal => Some(Constant::Bool(left == right)),
            BinaryOp::NotEqual => Some(Constant::Bool(left != right)),
            BinaryOp::BitAnd => Some(Constant::Int((left & right) as i64)),
            BinaryOp::BitOr => Some(Constant::Int((left | right) as i64)),
            BinaryOp::BitXor => Some(Constant::Int((left ^ right) as i64)),
            _ => None,
        }
    } else {
        let value = match op {
            BinaryOp::Add => match lhs.checked_add(rhs) { Some(v) => Some(Constant::Int(v)), None => None },
            BinaryOp::Sub => match lhs.checked_sub(rhs) { Some(v) => Some(Constant::Int(v)), None => None },
            BinaryOp::Mul => match lhs.checked_mul(rhs) { Some(v) => Some(Constant::Int(v)), None => None },
            BinaryOp::Div => match lhs.checked_div(rhs) { Some(v) => Some(Constant::Int(v)), None => None },
            BinaryOp::Rem => match lhs.checked_rem(rhs) { Some(v) => Some(Constant::Int(v)), None => None },
            BinaryOp::Less => Some(Constant::Bool(lhs < rhs)),
            BinaryOp::Greater => Some(Constant::Bool(lhs > rhs)),
            BinaryOp::LessEqual => Some(Constant::Bool(lhs <= rhs)),
            BinaryOp::GreaterEqual => Some(Constant::Bool(lhs >= rhs)),
            BinaryOp::Equal => Some(Constant::Bool(lhs == rhs)),
            BinaryOp::NotEqual => Some(Constant::Bool(lhs != rhs)),
            BinaryOp::BitAnd => Some(Constant::Int(lhs & rhs)),
            BinaryOp::BitOr => Some(Constant::Int(lhs | rhs)),
            BinaryOp::BitXor => Some(Constant::Int(lhs ^ rhs)),
            _ => None,
        };
        match value {
            Some(Constant::Int(v)) => if canonical(kind, v) != v { None } else { Some(Constant::Int(v)) },
            other => other,
        }
    }
}

/// What a binary operation on two constants of type `ty` folds to, or
/// `None` when the result is not a compile-time constant: anything that would
/// trap at runtime (overflow in the type's own width, division by zero, a
/// shift count out of range) and anything on an `f64`.
pub open spec fn spec_fold(op: BinaryOp, ty: Type, lhs: Constant, rhs: Constant) -> Option<Constant> {
    if ty is F64 {
        None
    } else {
        match (as_word(lhs), as_word(rhs)) {
            (Some(l), Some(r)) => fold_word(op, regime_of(ty), l, r),
            _ => None,
        }
    }
}

fn word(c: Constant) -> (r: Option<i64>)
    ensures
        r == as_word(c),
{
    match c {
        Constant::Int(v) => Some(v),
        Constant::Bool(b) => Some(if b { 1i64 } else { 0i64 }),
        Constant::Float(_) => None,
    }
}

fn fold_word_exec(op: BinaryOp, kind: Regime, lhs: i64, rhs: i64) -> (r: Option<Constant>)
    requires
        kind.bits <= 64,
    ensures
        r == fold_word(op, kind, lhs, rhs),
{
    if op.shifts() {
        if 0 <= rhs && rhs < kind.bits as i64 {
            let amount = rhs as u32;
            let shifted = match op {
                BinaryOp::Shl => lhs.wrapping_shl(amount),
                _ => if kind.signed {
                    lhs >> amount
                } else {
                    ((lhs as u64) >> amount) as i64
                },
            };
            Some(Constant::Int(kind.canonicalize(shifted)))
        } else {
            None
        }
    } else if !kind.signed && kind.is_full_width() {
        let left = lhs as u64;
        let right = rhs as u64;
        match op {
            BinaryOp::Add => match left.checked_add(right) { Some(v) => Some(Constant::Int(v as i64)), None => None },
            BinaryOp::Sub => match left.checked_sub(right) { Some(v) => Some(Constant::Int(v as i64)), None => None },
            BinaryOp::Mul => match left.checked_mul(right) { Some(v) => Some(Constant::Int(v as i64)), None => None },
            BinaryOp::Div => match left.checked_div(right) { Some(v) => Some(Constant::Int(v as i64)), None => None },
            BinaryOp::Rem => match left.checked_rem(right) { Some(v) => Some(Constant::Int(v as i64)), None => None },
            BinaryOp::Less => Some(Constant::Bool(left < right)),
            BinaryOp::Greater => Some(Constant::Bool(left > right)),
            BinaryOp::LessEqual => Some(Constant::Bool(left <= right)),
            BinaryOp::GreaterEqual => Some(Constant::Bool(left >= right)),
            BinaryOp::Equal => Some(Constant::Bool(left == right)),
            BinaryOp::NotEqual => Some(Constant::Bool(left != right)),
            BinaryOp::BitAnd => Some(Constant::Int((left & right) as i64)),
            BinaryOp::BitOr => Some(Constant::Int((left | right) as i64)),
            BinaryOp::BitXor => Some(Constant::Int((left ^ right) as i64)),
            _ => None,
        }
    } else {
        let value = match op {
            BinaryOp::Add => match lhs.checked_add(rhs) { Some(v) => Some(Constant::Int(v)), None => None },
            BinaryOp::Sub => match lhs.checked_sub(rhs) { Some(v) => Some(Constant::Int(v)), None => None },
            BinaryOp::Mul => match lhs.checked_mul(rhs) { Some(v) => Some(Constant::Int(v)), None => None },
            BinaryOp::Div => match lhs.checked_div(rhs) { Some(v) => Some(Constant::Int(v)), None => None },
            BinaryOp::Rem => match lhs.checked_rem(rhs) { Some(v) => Some(Constant::Int(v)), None => None },
            BinaryOp::Less => Some(Constant::Bool(lhs < rhs)),
            BinaryOp::Greater => Some(Constant::Bool(lhs > rhs)),
            BinaryOp::LessEqual => Some(Constant::Bool(lhs <= rhs)),
            BinaryOp::GreaterEqual => Some(Constant::Bool(lhs >= rhs)),
            BinaryOp::Equal => Some(Constant::Bool(lhs == rhs)),
            BinaryOp::NotEqual => Some(Constant::Bool(lhs != rhs)),
            BinaryOp::BitAnd => Some(Constant::Int(lhs & rhs)),
            BinaryOp::BitOr => Some(Constant::Int(lhs | rhs)),
            BinaryOp::BitXor => Some(Constant::Int(lhs ^ rhs)),
            _ => None,
        };
        match value {
            Some(Constant::Int(v)) => if kind.canonicalize(v) != v { None } else { Some(Constant::Int(v)) },
            other => other,
        }
    }
}

/// Folds a binary operation, or returns `None` when the result is not a
/// compile-time constant.
///
/// Returns `None` for anything that would trap at runtime, so the operation
/// survives to code generation and panics exactly as it would have.
pub fn fold_binary(op: BinaryOp, ty: &Type, lhs: Constant, rhs: Constant) -> (r: Option<Constant>)
    ensures
        r == spec_fold(op, *ty, lhs, rhs),
{
    if ty.is_f64() {
        return None;
    }
    match (word(lhs), word(rhs)) {
        (Some(l), Some(r)) => fold_word_exec(op, regime(ty), l, r),
        _ => None,
    }
}


/// The least and the greatest value of an integer type, as mathematical
/// integers.
pub open spec fn type_range(ty: Type) -> (int, int) {
    match ty {
        Type::I8 => (-128, 127),
        Type::I16 => (-32768, 32767),
        Type::I32 => (-2147483648, 2147483647),
        Type::U8 => (0, 255),
        Type::U16 => (0, 65535),
        Type::U32 => (0, 4294967295),
        _ => (-9223372036854775808, 9223372036854775807),
    }
}

/// Whether the mathematical integer `v` is a value of `ty`.
pub open spec fn fits(ty: Type, v: int) -> bool {
    type_range(ty).0 <= v <= type_range(ty).1
}

proof fn lemma_narrow_words_kept(v: i64)
    by (bit_vector)
    ensures
        -128 <= v < 128 ==> (v << 56u32) >> 56u32 == v,
        -32768 <= v < 32768 ==> (v << 48u32) >> 48u32 == v,
        -2147483648 <= v < 2147483648 ==> (v << 32u32) >> 32u32 == v,
        0 <= v < 256 ==> ((v as u64) & (u64::MAX >> 56u32)) as i64 == v,
        0 <= v < 65536 ==> ((v as u64) & (u64::MAX >> 48u32)) as i64 == v,
        0 <= v < 4294967296 ==> ((v as u64) & (u64::MAX >> 32u32)) as i64 == v,
{
}

/// A word that is a value of the integer type `ty` is left as it is when put
/// back into the width of `ty`.
proof fn lemma_canonical_keeps_fitting(ty: Type, v: i64)
    requires
        integer_type(ty),
        !(ty is U64),
        fits(ty, v as int),
    ensures
        canonical(regime_of(ty), v) == v,
{
    lemma_narrow_words_kept(v);
    let kind = regime_of(ty);
    if kind.bits < 64 {
        assert(v.wrapping_shl((64 - kind.bits) as u32) == v << ((64 - kind.bits) as u32));
    }
}

/// Folding is arithmetic. On two integer constants of an integer type other
/// than `u64`, `+`, `-` and `*` fold to the exact sum, difference and product
/// of the left operand with the right one, taken as mathematical integers,
/// whenever that value is one of the type.
pub proof fn lemma_fold_arithmetic(ty: Type, lhs: i64, rhs: i64)
    requires
        integer_type(ty),
        !(ty is U64),
    ensures
        fits(ty, lhs + rhs) ==> spec_fold(BinaryOp::Add, ty, Constant::Int(lhs), Constant::Int(rhs))
            == Some(Constant::Int((lhs + rhs) as i64)),
        fits(ty, lhs - rhs) ==> spec_fold(BinaryOp::Sub, ty, Constant::Int(lhs), Constant::Int(rhs))
            == Some(Constant::Int((lhs - rhs) as i64)),
        fits(ty, lhs * rhs) ==> spec_fold(BinaryOp::Mul, ty, Constant::Int(lhs), Constant::Int(rhs))
            == Some(Constant::Int((lhs * rhs) as i64)),
{
    if fits(ty, lhs + rhs) {
        lemma_canonical_keeps_fitting(ty, (lhs + rhs) as i64);
    }
    if fits(ty, lhs - rhs) {
        lemma_canonical_keeps_fitting(ty, (lhs - rhs) as i64);
    }
    if fits(ty, lhs * rhs) {
        lemma_canonical_keeps_fitting(ty, (lhs * rhs) as i64);
    }
}

// ---------------------------------------------------------------- lattice

/// What constant propagation knows of a local at a program point.
///
/// `Unknown` is the top element: no information yet, and the identity for
/// the meet. `Varying` is the bottom: different values on different paths.
#[derive(Clone, Copy, Debug, PartialEq, Eq, Structural)]
pub enum Value {
    Unknown,
    Known(Constant),
    Varying,
}

/// The meet of two lattice elements.
pub open spec fn spec_meet(a: Value, b: Value) -> Value {
    match (a, b) {
        (Value::Unknown, v) => v,
        (v, Value::Unknown) => v,
        (Value::Known(x), Value::Known(y)) => if x == y { Value::Known(x) } else { Value::Varying },
        _ => Value::Varying,
    }
}

impl Value {
    /// The meet of `self` and `other`.
    pub fn meet(self, other: Value) -> (r: Value)
        ensures
            r == spec_meet(self, other),
    {
        match (self, other) {
            (Value::Unknown, value) => value,
            (value, Value::Unknown) => value,
            (Value::Known(a), Value::Known(b)) => if a == b { Value::Known(a) } else { Value::Varying },
            _ => Value::Varying,
        }
    }
}

/// Meets `from` into `into`, element by element, and says whether anything
/// changed.
pub fn meet_states(into: &mut Vec<Value>, from: &Vec<Value>) -> (changed: bool)
    ensures
        final(into)@.len() == old(into)@.len(),
        forall|k: int|
            0 <= k < old(into)@.len() ==> #[trigger] final(into)@[k] == if k < from@.len() {
                spec_meet(old(into)@[k], from@[k])
            } else {
                old(into)@[k]
            },
        changed <==> final(into)@ != old(into)@,
{
    let mut changed = false;
    let limit = if into.len() < from.len() { into.len() } else { from.len() };
    let mut k: usize = 0;
    while k < limit
        invariant
            limit <= into@.len(),
            limit <= from@.len(),
            limit == into@.len() || limit == from@.len(),
            into@.len() == old(into)@.len(),
            k <= limit,
            forall|j: int| 0 <= j < k ==> #[trigger] into@[j] == spec_meet(old(into)@[j], from@[j]),
            forall|j: int| k <= j < into@.len() ==> #[trigger] into@[j] == old(into)@[j],
            changed <==> exists|j: int| 0 <= j < k && into@[j] != old(into)@[j],
        decreases into@.len() - k,
    {
        let merged = into[k].meet(from[k]);
        if merged != into[k] {
            into.set(k, merged);
            changed = true;
        }
        k += 1;
    }
    proof {
        assert forall|j: int| 0 <= j < old(into)@.len() implies #[trigger] into@[j] == if j < from@.len() {
            spec_meet(old(into)@[j], from@[j])
        } else {
            old(into)@[j]
        } by {
            if j < k {
            } else {
                assert(into@[j] == old(into)@[j]);
            }
        }
        if changed {
            let j = choose|j: int| 0 <= j < k && into@[j] != old(into)@[j];
            assert(into@[j] != old(into)@[j]);
        } else {
            assert(into@ =~= old(into)@);
        }
    }
    changed
}

/// What is known of a local in `state`; a local past the end varies.
pub open spec fn spec_get(state: Seq<Value>, l: LocalId) -> Value {
    if l < state.len() { state[l as int] } else { Value::Varying }
}

/// `state` with what is known of `l` replaced by `v`.
pub open spec fn spec_set(state: Seq<Value>, l: LocalId, v: Value) -> Seq<Value> {
    if l < state.len() { state.update(l as int, v) } else { state }
}

/// What running `i` does to what is known of each local.
pub open spec fn spec_apply(i: Instruction, state: Seq<Value>) -> Seq<Value> {
    match i {
        Instruction::ConstInt { dst, value } => spec_set(state, dst, Value::Known(Constant::Int(value))),
        Instruction::ConstBool { dst, value } => spec_set(state, dst, Value::Known(Constant::Bool(value))),
        Instruction::ConstFloat { dst, bits } => spec_set(state, dst, Value::Known(Constant::Float(bits))),
        Instruction::Assign { dst, src } => spec_set(state, dst, spec_get(state, src)),
        Instruction::Binary { dst, op, lhs, rhs, ty } => spec_set(state, dst, match (spec_get(state, lhs), spec_get(state, rhs)) {
            (Value::Known(l), Value::Known(r)) => match spec_fold(op, ty, l, r) {
                Some(c) => Value::Known(c),
                None => Value::Varying,
            },
            _ => Value::Varying,
        }),
        // Taking a local's address ends what can be said of the local itself:
        // something this pass does not model may write through the borrow.
        Instruction::AddressOf { dst, src } => spec_set(spec_set(state, src, Value::Varying), dst, Value::Varying),
        Instruction::Drop { .. } | Instruction::Free { .. } | Instruction::FieldStore { .. }
        | Instruction::EnumFieldStore { .. } | Instruction::VolatileStore { .. } => state,
        _ => match spec_defs(i) {
            Some(d) => spec_set(state, d, Value::Varying),
            None => state,
        },
    }
}

fn get(state: &Vec<Value>, l: LocalId) -> (v: Value)
    ensures
        v == spec_get(state@, l),
{
    if l < state.len() { state[l] } else { Value::Varying }
}

fn set(state: &mut Vec<Value>, l: LocalId, v: Value)
    ensures
        final(state)@ == spec_set(old(state)@, l, v),
{
    if l < state.len() {
        state.set(l, v);
    }
}

/// Runs `instruction` over `state`.
pub fn apply(instruction: &Instruction, state: &mut Vec<Value>)
    ensures
        final(state)@ == spec_apply(*instruction, old(state)@),
{
    match instruction {
        Instruction::ConstInt { dst, value } => set(state, *dst, Value::Known(Constant::Int(*value))),
        Instruction::ConstBool { dst, value } => set(state, *dst, Value::Known(Constant::Bool(*value))),
        Instruction::ConstFloat { dst, bits } => set(state, *dst, Value::Known(Constant::Float(*bits))),
        Instruction::Assign { dst, src } => {
            let value = get(state, *src);
            set(state, *dst, value);
        },
        Instruction::Binary { dst, op, lhs, rhs, ty } => {
            let folded = match (get(state, *lhs), get(state, *rhs)) {
                (Value::Known(l), Value::Known(r)) => match fold_binary(*op, ty, l, r) {
                    Some(c) => Value::Known(c),
                    None => Value::Varying,
                },
                _ => Value::Varying,
            };
            set(state, *dst, folded);
        },
        Instruction::AddressOf { dst, src } => {
            set(state, *src, Value::Varying);
            set(state, *dst, Value::Varying);
        },
        Instruction::Drop { .. } | Instruction::Free { .. } | Instruction::FieldStore { .. }
        | Instruction::EnumFieldStore { .. } | Instruction::VolatileStore { .. } => {},
        _ => match defs(instruction) {
            Some(d) => set(state, d, Value::Varying),
            None => {},
        },
    }
}

/// What running the first `count` statements does to `state`.
pub open spec fn spec_transfer(statements: Seq<Statement>, state: Seq<Value>, count: int) -> Seq<Value>
    decreases count,
{
    if count <= 0 {
        state
    } else {
        spec_apply(statements[count - 1].instruction, spec_transfer(statements, state, count - 1))
    }
}

/// Runs a block's statements over `state`, returning the state at its exit.
pub fn transfer(function: &MirFunction, block: BlockId, state: Vec<Value>) -> (r: Vec<Value>)
    requires
        block < function.blocks@.len(),
    ensures
        r@ == spec_transfer(function.blocks@[block as int].statements@, state@, function.blocks@[block as int].statements@.len() as int),
{
    let statements = &function.blocks[block].statements;
    let mut state = state;
    let ghost initial = state@;
    let mut k: usize = 0;
    while k < statements.len()
        invariant
            k <= statements@.len(),
            statements == function.blocks@[block as int].statements,
            state@ == spec_transfer(statements@, initial, k as int),
        decreases statements@.len() - k,
    {
        apply(&statements[k].instruction, &mut state);
        k += 1;
    }
    state
}

/// The constant `state` knows `local` holds, if any.
pub open spec fn spec_value_of(state: Seq<Value>, local: LocalId) -> Option<Constant> {
    match spec_get(state, local) {
        Value::Known(c) => if local < state.len() { Some(c) } else { None },
        _ => None,
    }
}

/// The constant `state` knows `local` holds, if any.
pub fn value_of(state: &Vec<Value>, local: LocalId) -> (r: Option<Constant>)
    ensures
        r == spec_value_of(state@, local),
{
    if local < state.len() {
        match state[local] {
            Value::Known(c) => Some(c),
            _ => None,
        }
    } else {
        None
    }
}

// ------------------------------------------------------------ rewriting

/// An instruction that writes a constant into `dst`.
pub open spec fn constant_into(i: Instruction, dst: LocalId) -> bool {
    exists|c: Constant| i == constant_instruction(c, dst)
}

/// `t` is `s`, or `s` is an operation `t` replaced by the constant it
/// computes into the same destination, from the same source.
pub open spec fn folds_to(s: Statement, t: Statement) -> bool {
    ||| t == s
    ||| match s.instruction {
        Instruction::Binary { dst, .. } => t.span == s.span && constant_into(t.instruction, dst),
        _ => false,
    }
}

/// `_x = _x`: no information and no effect.
pub open spec fn self_assign(i: Instruction) -> bool {
    match i {
        Instruction::Assign { dst, src } => dst == src,
        _ => false,
    }
}

/// `new` is `old` with some operations replaced by their constants and some
/// self-assignments dropped, nothing else changed and nothing reordered.
pub open spec fn folded(old: Seq<Statement>, new: Seq<Statement>) -> bool
    decreases old.len(),
{
    if old.len() == 0 {
        new.len() == 0
    } else {
        let s = old.last();
        ||| self_assign(s.instruction) && folded(old.drop_last(), new)
        ||| new.len() > 0 && folds_to(s, new.last()) && folded(old.drop_last(), new.drop_last())
    }
}

/// `new` is `old`, or a branch `old` made on a known condition, as a jump to
/// the side it takes.
pub open spec fn resolves_to(old: Terminator, new: Terminator) -> bool {
    ||| new == old
    ||| match old {
        Terminator::Branch { then_block, else_block, .. } => new == Terminator::Goto(then_block)
            || new == Terminator::Goto(else_block),
        _ => false,
    }
}

/// `new` is `old` after constant propagation: only statements and
/// terminators changed, each as `folded` and `resolves_to` allow.
pub open spec fn propagated(old: MirFunction, new: MirFunction) -> bool {
    &&& new.name == old.name
    &&& new.emit == old.emit
    &&& new.inline_hint == old.inline_hint
    &&& new.params == old.params
    &&& new.return_type == old.return_type
    &&& new.locals == old.locals
    &&& new.entry == old.entry
    &&& new.span == old.span
    &&& new.blocks@.len() == old.blocks@.len()
    &&& forall|b: int|
        0 <= b < old.blocks@.len() ==> {
            &&& folded(old.blocks@[b].statements@, (#[trigger] new.blocks@[b]).statements@)
            &&& resolves_to(old.blocks@[b].terminator, new.blocks@[b].terminator)
            &&& new.blocks@[b].terminator_span == old.blocks@[b].terminator_span
        }
}

/// The blocks of `new` hold the statements and terminators of `old`.
pub open spec fn unchanged_blocks(old: Seq<BasicBlock>, new: Seq<BasicBlock>) -> bool {
    &&& new.len() == old.len()
    &&& forall|b: int|
        0 <= b < old.len() ==> (#[trigger] new[b]).statements@ == old[b].statements@ && new[b].terminator
            == old[b].terminator && new[b].terminator_span == old[b].terminator_span
}

proof fn lemma_folded_refl(s: Seq<Statement>)
    ensures
        folded(s, s),
    decreases s.len(),
{
    if s.len() > 0 {
        lemma_folded_refl(s.drop_last());
    }
}

/// What `state` makes of instruction `i`: a binary operation on two known
/// constants that fold becomes the constant.
pub open spec fn rewrite_instruction(i: Instruction, state: Seq<Value>) -> Instruction {
    match i {
        Instruction::Binary { dst, op, lhs, rhs, ty } => match (spec_value_of(state, lhs), spec_value_of(state, rhs)) {
            (Some(l), Some(r)) => match spec_fold(op, ty, l, r) {
                Some(c) => constant_instruction(c, dst),
                None => i,
            },
            _ => i,
        },
        _ => i,
    }
}

/// The first `k` statements rewritten from `state` on, with self-assignments
/// dropped, and the state after them.
pub open spec fn rewrite_statements(s: Seq<Statement>, state: Seq<Value>, k: int) -> (Seq<Statement>, Seq<Value>)
    decreases k,
{
    if k <= 0 {
        (Seq::empty(), state)
    } else {
        let prior = rewrite_statements(s, state, k - 1);
        let i = rewrite_instruction(s[k - 1].instruction, prior.1);
        let after = spec_apply(i, prior.1);
        if i matches Instruction::Assign { dst, src } && dst == src {
            (prior.0, after)
        } else {
            (prior.0.push(Statement { instruction: i, span: s[k - 1].span }), after)
        }
    }
}

/// A branch on a condition `state` knows, as a jump to the side it takes.
pub open spec fn rewrite_terminator(t: Terminator, state: Seq<Value>) -> Terminator {
    match t {
        Terminator::Branch { condition, then_block, else_block } => match spec_value_of(state, condition) {
            Some(Constant::Bool(taken)) => Terminator::Goto(if taken { then_block } else { else_block }),
            _ => t,
        },
        _ => t,
    }
}

/// `new` is `block` rewritten with what `state` knows at its entry.
pub open spec fn rewrites(block: BasicBlock, state: Seq<Value>, new: BasicBlock) -> bool {
    let r = rewrite_statements(block.statements@, state, block.statements@.len() as int);
    &&& new.statements@ == r.0
    &&& new.terminator == rewrite_terminator(block.terminator, r.1)
    &&& new.terminator_span == block.terminator_span
}

/// `new` is `old` with each block that has a state in `states` rewritten by
/// it, and the others as they were.
pub open spec fn rewritten_with(old: MirFunction, new: MirFunction, states: Seq<Option<Seq<Value>>>) -> bool {
    &&& propagated(old, new)
    &&& forall|b: int|
        0 <= b < old.blocks@.len() ==> match (if b < states.len() { states[b] } else { None }) {
            Some(state) => rewrites(old.blocks@[b], state, #[trigger] new.blocks@[b]),
            None => new.blocks@[b] == old.blocks@[b],
        }
}

/// Rewrites one block's statements with what `state` knows at its entry.
#[verifier::spinoff_prover]
fn rewrite_block(block: BasicBlock, state: Vec<Value>) -> (r: (BasicBlock, bool))
    ensures
        folded(block.statements@, r.0.statements@),
        resolves_to(block.terminator, r.0.terminator),
        r.0.terminator_span == block.terminator_span,
        !r.1 ==> r.0.statements@ == block.statements@ && r.0.terminator == block.terminator,
        rewrites(block, state@, r.0),
{
    let BasicBlock { statements, terminator, terminator_span } = block;
    let ghost old_statements = statements@;
    let mut rest = crate::mir::reversed(statements);
    let ghost initial = state@;
    let mut state = state;
    let mut out: Vec<Statement> = Vec::new();
    let mut changed = false;
    let ghost mut k: int = 0;
    while rest.len() > 0
        invariant
            0 <= k,
            k + rest@.len() == old_statements.len(),
            rest@.reverse() =~= old_statements.subrange(k as int, old_statements.len() as int),
            folded(old_statements.subrange(0, k as int), out@),
            !changed ==> out@ == old_statements.subrange(0, k as int),
            rewrite_statements(old_statements, initial, k) == (out@, state@),
        decreases rest.len(),
    {
        let ghost before = rest@;
        let statement = rest.pop().unwrap();
        proof {
            assert(before.reverse() =~= seq![statement] + rest@.reverse());
            assert(before.reverse()[0] == statement);
            assert(statement == old_statements[k as int]);
            assert(rest@.reverse() =~= before.reverse().subrange(1, before.len() as int));
            assert(rest@.reverse() =~= old_statements.subrange(k + 1, old_statements.len() as int));
        }
        let Statement { instruction, span } = statement;
        let rewritten = match &instruction {
            Instruction::Binary { dst, op, lhs, rhs, ty } => match (value_of(&state, *lhs), value_of(&state, *rhs)) {
                (Some(l), Some(r)) => match fold_binary(*op, ty, l, r) {
                    Some(folded) => Some(folded.instruction(*dst)),
                    None => None,
                },
                _ => None,
            },
            _ => None,
        };
        let instruction = match rewritten {
            Some(i) => {
                changed = true;
                i
            },
            None => instruction,
        };
        assert(instruction == rewrite_instruction(statement.instruction, rewrite_statements(old_statements, initial, k).1));
        apply(&instruction, &mut state);
        let drop_it = match &instruction {
            Instruction::Assign { dst, src } => *dst == *src,
            _ => false,
        };
        let ghost prefix = old_statements.subrange(0, k as int);
        let ghost next = old_statements.subrange(0, k + 1);
        assert(next.drop_last() =~= prefix);
        assert(next.last() == statement);
        if drop_it {
            changed = true;
            assert(self_assign(statement.instruction));
            assert(folded(next, out@));
        } else {
            let ghost before_out = out@;
            out.push(Statement { instruction, span });
            assert(out@.drop_last() =~= before_out);
            assert(folds_to(statement, out@.last()));
            assert(folded(next, out@));
            if !changed {
                assert(out@ =~= next);
            }
        }
        proof {
            k = k + 1;
        }
    }
    assert(old_statements.subrange(0, old_statements.len() as int) =~= old_statements);
    assert(k == old_statements.len());
    let mut new_terminator = terminator;
    match terminator {
        Terminator::Branch { condition, then_block, else_block } => match value_of(&state, condition) {
            Some(Constant::Bool(taken)) => {
                new_terminator = Terminator::Goto(if taken { then_block } else { else_block });
                changed = true;
            },
            _ => {},
        },
        _ => {},
    }
    (BasicBlock { statements: out, terminator: new_terminator, terminator_span }, changed)
}

fn placeholder_block() -> (b: BasicBlock)
    ensures
        b.statements@.len() == 0,
        b.terminator == Terminator::Unreachable,
{
    BasicBlock { statements: Vec::new(), terminator: Terminator::Unreachable, terminator_span: crate::diagnostic::Span::none() }
}

/// Rewrites each block using the entry states the analysis settled on.
fn rewrite_with_constants(function: &mut MirFunction, entry: &Vec<Option<Vec<Value>>>) -> (changed: bool)
    ensures
        propagated(*old(function), *final(function)),
        rewritten_with(*old(function), *final(function), entry_views(entry@)),
        !changed ==> unchanged_blocks(old(function).blocks@, final(function).blocks@),
{
    let mut changed = false;
    let mut b: usize = 0;
    let ghost original = function.blocks@;
    proof {
        assert forall|c: int| 0 <= c < original.len() implies folded(original[c].statements@, original[c].statements@) by {
            lemma_folded_refl(original[c].statements@);
        }
    }
    while b < function.blocks.len()
        invariant
            function.blocks@.len() == original.len(),
            original == old(function).blocks@,
            function.name == old(function).name,
            function.emit == old(function).emit,
            function.inline_hint == old(function).inline_hint,
            function.params == old(function).params,
            function.return_type == old(function).return_type,
            function.locals == old(function).locals,
            function.entry == old(function).entry,
            function.span == old(function).span,
            b <= original.len(),
            forall|c: int|
                0 <= c < original.len() ==> {
                    &&& folded(original[c].statements@, (#[trigger] function.blocks@[c]).statements@)
                    &&& resolves_to(original[c].terminator, function.blocks@[c].terminator)
                    &&& function.blocks@[c].terminator_span == original[c].terminator_span
                },
            forall|c: int| b <= c < original.len() ==> function.blocks@[c] == original[c],
            !changed ==> unchanged_blocks(original, function.blocks@),
            forall|c: int|
                0 <= c < b ==> match (if c < entry_views(entry@).len() { entry_views(entry@)[c] } else { None }) {
                    Some(state) => rewrites(original[c], state, #[trigger] function.blocks@[c]),
                    None => function.blocks@[c] == original[c],
                },
        decreases original.len() - b,
    {
        let ghost pre = function.blocks@;
        if b < entry.len() {
            match &entry[b] {
                Some(incoming) => {
                    let state = copy_state(incoming);
                    let mut block = placeholder_block();
                    function.blocks.set_and_swap(b, &mut block);
                    let (rewritten, block_changed) = rewrite_block(block, state);
                    let mut rewritten = rewritten;
                    function.blocks.set_and_swap(b, &mut rewritten);
                    if block_changed {
                        changed = true;
                    } else {
                        assert(function.blocks@[b as int].statements@ == original[b as int].statements@);
                    }
                    assert(entry_views(entry@)[b as int] == Some(incoming@));
                    assert forall|c: int| 0 <= c < b implies function.blocks@[c] == pre[c] by {}
                },
                None => {
                    assert(entry_views(entry@)[b as int] is None);
                },
            }
        }
        b += 1;
    }
    changed
}

/// A copy of a state.
pub fn copy_state(state: &Vec<Value>) -> (r: Vec<Value>)
    ensures
        r@ == state@,
{
    let mut r: Vec<Value> = Vec::new();
    let mut k: usize = 0;
    while k < state.len()
        invariant
            k <= state@.len(),
            r@ == state@.subrange(0, k as int),
        decreases state@.len() - k,
    {
        r.push(state[k]);
        k += 1;
        assert(r@ =~= state@.subrange(0, k as int));
    }
    assert(state@.subrange(0, state@.len() as int) =~= state@);
    r
}


/// The message a dataflow that ran out of rounds ends the compilation with.
pub open spec fn unsettled_text(rounds: usize) -> Seq<char> {
    "internal compiler error: constant propagation did not settle in "@ + crate::text::decimal(rounds as nat) + " rounds; this is a compiler bug"@
}

/// The states of a dataflow run, as values.
pub open spec fn entry_views(entry: Seq<Option<Vec<Value>>>) -> Seq<Option<Seq<Value>>> {
    entry.map_values(|o: Option<Vec<Value>>| match o {
        Some(v) => Some(v@),
        None => None,
    })
}

/// `into` met with `from`, element by element where both have one.
pub open spec fn meet_seq(into: Seq<Value>, from: Seq<Value>) -> Seq<Value> {
    Seq::new(into.len(), |k: int| if k < from.len() { spec_meet(into[k], from[k]) } else { into[k] })
}

/// `out` flows into each target from the `j`th on; the flag says whether a
/// state changed.
pub open spec fn update_targets(
    st: Seq<Option<Seq<Value>>>,
    out: Seq<Value>,
    targets: Seq<BlockId>,
    j: int,
    changed: bool,
) -> (Seq<Option<Seq<Value>>>, bool)
    decreases targets.len() - j,
{
    if j < 0 || j >= targets.len() {
        (st, changed)
    } else {
        let t = targets[j] as int;
        if t < st.len() {
            match st[t] {
                Some(existing) => if meet_seq(existing, out) != existing {
                    update_targets(st.update(t, Some(meet_seq(existing, out))), out, targets, j + 1, true)
                } else {
                    update_targets(st, out, targets, j + 1, changed)
                },
                None => update_targets(st.update(t, Some(out)), out, targets, j + 1, true),
            }
        } else {
            update_targets(st, out, targets, j + 1, changed)
        }
    }
}

/// One sweep over the blocks in `order` from the `i`th on.
pub open spec fn sweep_from(
    f: MirFunction,
    order: Seq<BlockId>,
    i: int,
    st: Seq<Option<Seq<Value>>>,
    changed: bool,
) -> (Seq<Option<Seq<Value>>>, bool)
    decreases order.len() - i,
{
    if i < 0 || i >= order.len() {
        (st, changed)
    } else {
        let b = order[i] as int;
        match st[b] {
            Some(state) => {
                let out = spec_transfer(f.blocks@[b].statements@, state, f.blocks@[b].statements@.len() as int);
                let r = update_targets(st, out, spec_successors(f.blocks@[b].terminator), 0, changed);
                sweep_from(f, order, i + 1, r.0, r.1)
            },
            None => sweep_from(f, order, i + 1, st, changed),
        }
    }
}

/// The states the dataflow settles on after sweep `count`, or `None` where
/// it is still changing when the `rounds` sweeps are used up.
pub open spec fn settle(
    f: MirFunction,
    order: Seq<BlockId>,
    st: Seq<Option<Seq<Value>>>,
    count: int,
    rounds: int,
) -> Option<Seq<Option<Seq<Value>>>>
    decreases rounds - count,
{
    let r = sweep_from(f, order, 0, st, false);
    if !r.1 {
        Some(r.0)
    } else if count + 1 >= rounds {
        None
    } else {
        settle(f, order, r.0, count + 1, rounds)
    }
}

/// Every local unknown but the first `p` parameters, which vary.
pub open spec fn initial_state(f: MirFunction, p: int) -> Seq<Value>
    decreases p,
{
    if p <= 0 {
        Seq::new(f.locals@.len(), |_k: int| Value::Unknown)
    } else {
        spec_set(initial_state(f, p - 1), f.params@[p - 1], Value::Varying)
    }
}

/// Where the dataflow starts: only the entry block has a state.
pub open spec fn start_states(f: MirFunction) -> Seq<Option<Seq<Value>>> {
    Seq::new(f.blocks@.len(), |_b: int| None::<Seq<Value>>).update(
        f.entry as int,
        Some(initial_state(f, f.params@.len() as int)),
    )
}

/// `new` is `old` rewritten by the states its dataflow settles on, under an
/// order its CFG visits it in, within the bound the pipeline allows.
pub open spec fn settled_rewrite(old: MirFunction, new: MirFunction) -> bool {
    exists|order: Seq<BlockId>|
        #[trigger] visit_order_of(old, order) && settles(old, order, (MAX_ROUNDS * 4) as int) && rewritten_with(
            old,
            new,
            settle(old, order, start_states(old), 0, (MAX_ROUNDS * 4) as int)->Some_0,
        )
}

/// Under an order its CFG visits it in, the dataflow over `f` does not
/// settle within the bound the pipeline allows.
pub open spec fn fails_to_settle(f: MirFunction) -> bool {
    exists|order: Seq<BlockId>| #[trigger] visit_order_of(f, order) && !settles(f, order, (MAX_ROUNDS * 4) as int)
}

/// `order` is an order the CFG of `f` visits its reachable blocks in.
pub open spec fn visit_order_of(f: MirFunction, order: Seq<BlockId>) -> bool {
    exists|cfg: Cfg|
        #![trigger cfg.visit_order()]
        cfg.wf() && cfg.blocks() == f.blocks@ && cfg.entry() == f.entry as int && cfg.visit_order() == order
}

/// Under the visit order `order`, the dataflow over `f` settles within
/// `rounds` sweeps.
pub open spec fn settles(f: MirFunction, order: Seq<BlockId>, rounds: int) -> bool {
    settle(f, order, start_states(f), 0, rounds) is Some
}

/// Cross-block constant propagation, allowed `rounds` sweeps to settle.
///
/// A forward dataflow over the CFG: constants flow through assignments and
/// foldable operations, and meet at joins. States are too optimistic until
/// the sweep settles, so a run that has not settled within `rounds` folds
/// nothing, leaves `function` as it was, and says so.
pub fn propagate_constants_within(file: &str, function: &mut MirFunction, rounds: usize) -> (r: CompileResult<bool>)
    requires
        old(function).entry < old(function).blocks@.len(),
    ensures
        r is Err ==> *final(function) == *old(function),
        r matches Err(errors) ==> errors@.len() == 1 && errors@[0].code@ == codes::INTERNAL@
            && errors@[0].span == old(function).span && errors@[0].message@ == unsettled_text(rounds),
        r matches Ok(changed) ==> propagated(*old(function), *final(function))
            && (!changed ==> unchanged_blocks(old(function).blocks@, final(function).blocks@)),
        exists|order: Seq<BlockId>|
            #[trigger] visit_order_of(*old(function), order) && (r is Err <==> !settles(*old(function), order, rounds as int))
                && (r is Ok ==> rewritten_with(
                *old(function),
                *final(function),
                settle(*old(function), order, start_states(*old(function)), 0, rounds as int)->Some_0,
            )),
{
    let cfg = Cfg::new(function);
    let n = function.blocks.len();
    let locals = function.locals.len();
    let ghost f = *function;
    let mut entry: Vec<Option<Vec<Value>>> = Vec::new();
    while entry.len() < n
        invariant
            entry@.len() <= n,
            forall|b: int| 0 <= b < entry@.len() ==> (#[trigger] entry@[b]) is None,
        decreases n - entry@.len(),
    {
        entry.push(None);
    }
    let mut initial: Vec<Value> = Vec::new();
    while initial.len() < locals
        invariant
            initial@.len() <= locals,
            forall|k: int| 0 <= k < initial@.len() ==> #[trigger] initial@[k] == Value::Unknown,
        decreases locals - initial@.len(),
    {
        initial.push(Value::Unknown);
    }
    assert(initial@ =~= initial_state(f, 0));
    let mut p: usize = 0;
    while p < function.params.len()
        invariant
            p <= function.params@.len(),
            f == *function,
            initial@ == initial_state(f, p as int),
        decreases function.params@.len() - p,
    {
        set(&mut initial, function.params[p], Value::Varying);
        p += 1;
    }
    let ghost init = initial@;
    entry.set(function.entry, Some(initial));
    assert(entry_views(entry@) =~= start_states(f));
    let order = cfg.order();
    assert(visit_order_of(f, order@));
    let mut count: usize = 0;
    loop
        invariant_except_break
            count < rounds || count == 0,
            settle(f, order@, start_states(f), 0, rounds as int) == settle(
                f,
                order@,
                entry_views(entry@),
                count as int,
                rounds as int,
            ),
        invariant
            entry@.len() == n,
            n == function.blocks@.len(),
            cfg.blocks() == function.blocks@,
            cfg.wf(),
            order@ == cfg.visit_order(),
            *function == *old(function),
            f == *function,
            visit_order_of(f, order@),
        ensures
            settles(f, order@, rounds as int),
            settle(f, order@, start_states(f), 0, rounds as int) == Some(entry_views(entry@)),
        decreases rounds + 1 - count,
    {
        let ghost st0 = entry_views(entry@);
        let ghost c0 = count as int;
        let mut changed = false;
        let mut i: usize = 0;
        while i < order.len()
            invariant
                entry@.len() == n,
                n == function.blocks@.len(),
                cfg.blocks() == function.blocks@,
                cfg.wf(),
                order@ == cfg.visit_order(),
                i <= order@.len(),
                f == *function,
                sweep_from(f, order@, 0, st0, false) == sweep_from(f, order@, i as int, entry_views(entry@), changed),
            decreases order@.len() - i,
        {
            let b = order[i];
            assert(b < n) by {
                assert(cfg.visit_order()[i as int] < cfg.blocks().len());
            }
            let ghost sti = entry_views(entry@);
            let ghost ci = changed;
            match &entry[b] {
                Some(state) => {
                    let out = transfer(function, b, copy_state(state));
                    let targets = successors(&function.blocks[b].terminator);
                    assert(sti[b as int] == Some(state@));
                    let mut j: usize = 0;
                    while j < targets.len()
                        invariant
                            entry@.len() == n,
                            j <= targets@.len(),
                            update_targets(sti, out@, targets@, 0, ci) == update_targets(
                                entry_views(entry@),
                                out@,
                                targets@,
                                j as int,
                                changed,
                            ),
                        decreases targets@.len() - j,
                    {
                        let t = targets[j];
                        let ghost stj = entry_views(entry@);
                        if t < n {
                            match &entry[t] {
                                Some(existing) => {
                                    let ghost ex = existing@;
                                    assert(stj[t as int] == Some(ex));
                                    let mut merged = copy_state(existing);
                                    if meet_states(&mut merged, &out) {
                                        assert(merged@ =~= meet_seq(ex, out@));
                                        entry.set(t, Some(merged));
                                        assert(entry_views(entry@) =~= stj.update(t as int, Some(meet_seq(ex, out@))));
                                        changed = true;
                                    } else {
                                        assert(merged@ =~= meet_seq(ex, out@));
                                    }
                                },
                                None => {
                                    assert(stj[t as int] is None);
                                    entry.set(t, Some(copy_state(&out)));
                                    assert(entry_views(entry@) =~= stj.update(t as int, Some(out@)));
                                    changed = true;
                                },
                            }
                        }
                        j += 1;
                    }
                    assert(targets@ == spec_successors(f.blocks@[b as int].terminator));
                },
                None => {
                    assert(sti[b as int] is None);
                },
            }
            i += 1;
        }
        assert(sweep_from(f, order@, 0, st0, false) == (entry_views(entry@), changed));
        count += 1;
        if !changed {
            break;
        }
        if count >= rounds {
            assert(settle(f, order@, st0, c0, rounds as int) is None);
            let mut message = String::new();
            crate::text::push_str(&mut message, "internal compiler error: constant propagation did not settle in ");
            crate::text::push_usize(&mut message, rounds);
            crate::text::push_str(&mut message, " rounds; this is a compiler bug");
            let d = Diagnostic::error(codes::INTERNAL, file, function.span, message);
            let mut errors: Vec<Diagnostic> = Vec::new();
            errors.push(d);
            return Err(errors);
        }
    }
    let changed = rewrite_with_constants(function, &entry);
    Ok(changed)
}

/// Cross-block constant propagation with the bound the pipeline uses.
pub fn propagate_constants(file: &str, function: &mut MirFunction) -> (r: CompileResult<bool>)
    requires
        old(function).entry < old(function).blocks@.len(),
    ensures
        r is Err ==> *final(function) == *old(function),
        r matches Err(errors) ==> errors@.len() == 1 && errors@[0].code@ == codes::INTERNAL@
            && errors@[0].span == old(function).span && errors@[0].message@ == unsettled_text((MAX_ROUNDS * 4) as usize),
        r matches Ok(changed) ==> propagated(*old(function), *final(function))
            && (!changed ==> unchanged_blocks(old(function).blocks@, final(function).blocks@)),
        volatile_count(*final(function)) == volatile_count(*old(function)),
        exists|order: Seq<BlockId>|
            #[trigger] visit_order_of(*old(function), order) && (r is Err <==> !settles(
                *old(function),
                order,
                (MAX_ROUNDS * 4) as int,
            )) && (r is Ok ==> rewritten_with(
                *old(function),
                *final(function),
                settle(*old(function), order, start_states(*old(function)), 0, (MAX_ROUNDS * 4) as int)->Some_0,
            )),
        r is Err ==> fails_to_settle(*old(function)),
        r is Ok ==> settled_rewrite(*old(function), *final(function)),
{
    let ghost before = *function;
    let r = propagate_constants_within(file, function, MAX_ROUNDS * 4);
    proof {
        if r is Ok {
            lemma_propagation_keeps_volatiles(before, *function);
        }
    }
    r
}


// --------------------------------------------------------------------- DCE

/// Whether an instruction's only effect is to define its destination.
pub open spec fn spec_is_pure(i: Instruction) -> bool {
    match i {
        Instruction::ConstInt { .. } | Instruction::ConstFloat { .. } | Instruction::ConstBool { .. }
        | Instruction::Assign { .. } | Instruction::AddressOf { .. } | Instruction::FieldLoad { .. }
        | Instruction::FieldAddr { .. } | Instruction::EnumTag { .. } | Instruction::EnumFieldLoad { .. }
        | Instruction::EnumFieldAddr { .. } | Instruction::Load { .. } | Instruction::FnAddr { .. }
        | Instruction::StringNew { .. } | Instruction::StructNew { .. } | Instruction::EnumNew { .. } => true,
        _ => false,
    }
}

/// Whether an instruction's only effect is to define its destination.
///
/// Not removable: `Drop` and `Free` (releasing memory is the effect), calls
/// (arbitrary effects), `Binary` (it traps on overflow), volatile accesses
/// (their happening is the point) and field stores (their effect is on
/// memory, which nothing here models).
pub fn is_pure(instruction: &Instruction) -> (r: bool)
    ensures
        r == spec_is_pure(*instruction),
{
    match instruction {
        Instruction::ConstInt { .. } | Instruction::ConstFloat { .. } | Instruction::ConstBool { .. }
        | Instruction::Assign { .. } | Instruction::AddressOf { .. } | Instruction::FieldLoad { .. }
        | Instruction::FieldAddr { .. } | Instruction::EnumTag { .. } | Instruction::EnumFieldLoad { .. }
        | Instruction::EnumFieldAddr { .. } | Instruction::Load { .. } | Instruction::FnAddr { .. }
        | Instruction::StringNew { .. } | Instruction::StructNew { .. } | Instruction::EnumNew { .. } => true,
        _ => false,
    }
}

/// Some instruction or terminator of `f` reads `l`, or `l` is a parameter.
pub open spec fn local_used(f: MirFunction, l: LocalId) -> bool {
    ||| f.params@.contains(l)
    ||| exists|b: int, i: int|
        0 <= b < f.blocks@.len() && 0 <= i < f.blocks@[b].statements@.len()
            && spec_uses(f.blocks@[b].statements@[i].instruction).contains(l)
    ||| exists|b: int| 0 <= b < f.blocks@.len() && spec_terminator_uses(f.blocks@[b].terminator).contains(l)
}

/// A statement elimination may remove from `f`: pure, and defining a local
/// that nothing reads.
pub open spec fn dead(f: MirFunction, s: Statement) -> bool {
    &&& spec_is_pure(s.instruction)
    &&& match spec_defs(s.instruction) {
        Some(d) => d < f.locals@.len() && !local_used(f, d),
        None => false,
    }
}

/// `new` is `old` with some pure, defining statements removed, nothing else
/// changed and nothing reordered.
pub open spec fn pruned(old: Seq<Statement>, new: Seq<Statement>) -> bool
    decreases old.len(),
{
    if old.len() == 0 {
        new.len() == 0
    } else {
        let s = old.last();
        ||| spec_is_pure(s.instruction) && spec_defs(s.instruction) is Some && pruned(old.drop_last(), new)
        ||| new.len() > 0 && new.last() == s && pruned(old.drop_last(), new.drop_last())
    }
}

/// `new` is `old` after dead code elimination.
pub open spec fn eliminated(old: MirFunction, new: MirFunction) -> bool {
    &&& new.name == old.name
    &&& new.emit == old.emit
    &&& new.inline_hint == old.inline_hint
    &&& new.params == old.params
    &&& new.return_type == old.return_type
    &&& new.locals == old.locals
    &&& new.entry == old.entry
    &&& new.span == old.span
    &&& new.blocks@.len() == old.blocks@.len()
    &&& forall|b: int|
        0 <= b < old.blocks@.len() ==> {
            &&& pruned(old.blocks@[b].statements@, (#[trigger] new.blocks@[b]).statements@)
            &&& new.blocks@[b].terminator == old.blocks@[b].terminator
            &&& new.blocks@[b].terminator_span == old.blocks@[b].terminator_span
        }
}

/// Nothing in `f` is dead.
pub open spec fn no_dead_code(f: MirFunction) -> bool {
    forall|b: int, i: int|
        0 <= b < f.blocks@.len() && 0 <= i < f.blocks@[b].statements@.len() ==> !dead(
            f,
            #[trigger] f.blocks@[b].statements@[i],
        )
}

/// How many statements the first `count` blocks hold.
pub open spec fn statement_count(blocks: Seq<BasicBlock>, count: int) -> nat
    decreases count,
{
    if count <= 0 {
        0
    } else {
        statement_count(blocks, count - 1) + blocks[count - 1].statements@.len()
    }
}

proof fn lemma_pruned_refl(s: Seq<Statement>)
    ensures
        pruned(s, s),
    decreases s.len(),
{
    if s.len() > 0 {
        lemma_pruned_refl(s.drop_last());
    }
}

proof fn lemma_pruned_trans(a: Seq<Statement>, b: Seq<Statement>, c: Seq<Statement>)
    requires
        pruned(a, b),
        pruned(b, c),
    ensures
        pruned(a, c),
    decreases a.len(),
{
    if a.len() > 0 {
        let s = a.last();
        if spec_is_pure(s.instruction) && spec_defs(s.instruction) is Some && pruned(a.drop_last(), b) {
            lemma_pruned_trans(a.drop_last(), b, c);
        } else {
            assert(b.len() > 0 && b.last() == s && pruned(a.drop_last(), b.drop_last()));
            if spec_is_pure(b.last().instruction) && spec_defs(b.last().instruction) is Some && pruned(b.drop_last(), c) {
                lemma_pruned_trans(a.drop_last(), b.drop_last(), c);
            } else {
                lemma_pruned_trans(a.drop_last(), b.drop_last(), c.drop_last());
            }
        }
    }
}

proof fn lemma_pruned_len(a: Seq<Statement>, b: Seq<Statement>)
    requires
        pruned(a, b),
    ensures
        b.len() <= a.len(),
    decreases a.len(),
{
    if a.len() > 0 {
        let s = a.last();
        if spec_is_pure(s.instruction) && spec_defs(s.instruction) is Some && pruned(a.drop_last(), b) {
            lemma_pruned_len(a.drop_last(), b);
        } else {
            lemma_pruned_len(a.drop_last(), b.drop_last());
        }
    }
}

proof fn lemma_count_shrinks(old: Seq<BasicBlock>, new: Seq<BasicBlock>, count: int)
    requires
        0 <= count <= old.len(),
        new.len() == old.len(),
        forall|b: int| 0 <= b < old.len() ==> (#[trigger] new[b]).statements@.len() <= old[b].statements@.len(),
    ensures
        statement_count(new, count) <= statement_count(old, count),
        statement_count(new, count) == statement_count(old, count) ==> forall|b: int|
            0 <= b < count ==> (#[trigger] new[b]).statements@.len() == old[b].statements@.len(),
    decreases count,
{
    if count > 0 {
        lemma_count_shrinks(old, new, count - 1);
    }
}

/// Which locals `f` reads anywhere, its parameters included.
fn used_locals(f: &MirFunction) -> (used: Vec<bool>)
    ensures
        used@.len() == f.locals@.len(),
        forall|l: int| 0 <= l < used@.len() ==> (#[trigger] used@[l] <==> local_used(*f, l as LocalId)),
{
    let locals = f.locals.len();
    let mut used: Vec<bool> = Vec::new();
    while used.len() < locals
        invariant
            used@.len() <= locals,
            forall|l: int| 0 <= l < used@.len() ==> !used@[l],
        decreases locals - used@.len(),
    {
        used.push(false);
    }
    let mut b: usize = 0;
    while b < f.blocks.len()
        invariant
            locals == f.locals@.len(),
            used@.len() == locals,
            b <= f.blocks@.len(),
            forall|l: int| 0 <= l < locals ==> (#[trigger] used@[l] <==> (
                (exists|c: int, i: int| 0 <= c < b && 0 <= i < f.blocks@[c].statements@.len()
                    && spec_uses(f.blocks@[c].statements@[i].instruction).contains(l as LocalId))
                || (exists|c: int| 0 <= c < b && spec_terminator_uses(f.blocks@[c].terminator).contains(l as LocalId)))),
        decreases f.blocks@.len() - b,
    {
        let block = &f.blocks[b];
        let mut i: usize = 0;
        while i < block.statements.len()
            invariant
                locals == f.locals@.len(),
                used@.len() == locals,
                b < f.blocks@.len(),
                block == f.blocks@[b as int],
                i <= block.statements@.len(),
                forall|l: int| 0 <= l < locals ==> (#[trigger] used@[l] <==> (
                    (exists|c: int, j: int| 0 <= c < b && 0 <= j < f.blocks@[c].statements@.len()
                        && spec_uses(f.blocks@[c].statements@[j].instruction).contains(l as LocalId))
                    || (exists|c: int| 0 <= c < b && spec_terminator_uses(f.blocks@[c].terminator).contains(l as LocalId))
                    || (exists|j: int| 0 <= j < i && spec_uses(block.statements@[j].instruction).contains(l as LocalId)))),
            decreases block.statements@.len() - i,
        {
            let mut read: Vec<LocalId> = Vec::new();
            uses(&block.statements[i].instruction, &mut read);
            let ghost before = used@;
            mark_all(&mut used, &read);
            proof {
                assert forall|l: int| 0 <= l < locals implies (#[trigger] used@[l] <==> (
                    (exists|c: int, j: int| 0 <= c < b && 0 <= j < f.blocks@[c].statements@.len()
                        && spec_uses(f.blocks@[c].statements@[j].instruction).contains(l as LocalId))
                    || (exists|c: int| 0 <= c < b && spec_terminator_uses(f.blocks@[c].terminator).contains(l as LocalId))
                    || (exists|j: int| 0 <= j < i + 1 && spec_uses(block.statements@[j].instruction).contains(l as LocalId)))) by {
                    if read@.contains(l as LocalId) {
                        assert(spec_uses(block.statements@[i as int].instruction).contains(l as LocalId));
                    }
                }
            }
            i += 1;
        }
        let read = terminator_uses(&block.terminator);
        mark_all(&mut used, &read);
        proof {
            assert forall|l: int| 0 <= l < locals implies (#[trigger] used@[l] <==> (
                (exists|c: int, j: int| 0 <= c < b + 1 && 0 <= j < f.blocks@[c].statements@.len()
                    && spec_uses(f.blocks@[c].statements@[j].instruction).contains(l as LocalId))
                || (exists|c: int| 0 <= c < b + 1 && spec_terminator_uses(f.blocks@[c].terminator).contains(l as LocalId)))) by {
                if exists|j: int| 0 <= j < block.statements@.len() && spec_uses(block.statements@[j].instruction).contains(l as LocalId) {
                    let j = choose|j: int| 0 <= j < block.statements@.len() && spec_uses(block.statements@[j].instruction).contains(l as LocalId);
                    assert(f.blocks@[b as int].statements@[j] == block.statements@[j]);
                }
                if exists|c: int, j: int| 0 <= c < b + 1 && 0 <= j < f.blocks@[c].statements@.len()
                    && spec_uses(f.blocks@[c].statements@[j].instruction).contains(l as LocalId) {
                    let (c, j) = choose|c: int, j: int| 0 <= c < b + 1 && 0 <= j < f.blocks@[c].statements@.len()
                        && spec_uses(f.blocks@[c].statements@[j].instruction).contains(l as LocalId);
                    if c == b {
                        assert(spec_uses(block.statements@[j].instruction).contains(l as LocalId));
                    }
                }
            }
        }
        b += 1;
    }
    let mut p: usize = 0;
    while p < f.params.len()
        invariant
            locals == f.locals@.len(),
            used@.len() == locals,
            p <= f.params@.len(),
            forall|l: int| 0 <= l < locals ==> (#[trigger] used@[l] <==> (
                (exists|c: int, i: int| 0 <= c < f.blocks@.len() && 0 <= i < f.blocks@[c].statements@.len()
                    && spec_uses(f.blocks@[c].statements@[i].instruction).contains(l as LocalId))
                || (exists|c: int| 0 <= c < f.blocks@.len() && spec_terminator_uses(f.blocks@[c].terminator).contains(l as LocalId))
                || (exists|j: int| 0 <= j < p && f.params@[j] == l))),
        decreases f.params@.len() - p,
    {
        if f.params[p] < locals {
            used.set(f.params[p], true);
        }
        p += 1;
    }
    used
}

fn mark_all(used: &mut Vec<bool>, read: &Vec<LocalId>)
    ensures
        final(used)@.len() == old(used)@.len(),
        forall|l: int| 0 <= l < old(used)@.len() ==> (#[trigger] final(used)@[l] <==> (old(used)@[l] || read@.contains(l as LocalId))),
{
    let total = used.len();
    let mut k: usize = 0;
    while k < read.len()
        invariant
            total == used@.len(),
            used@.len() == old(used)@.len(),
            k <= read@.len(),
            forall|l: int| 0 <= l < used@.len() ==> (#[trigger] used@[l] <==> (old(used)@[l] || exists|j: int| 0 <= j < k && read@[j] == l)),
        decreases read@.len() - k,
    {
        if read[k] < used.len() {
            used.set(read[k], true);
        }
        k += 1;
    }
    proof {
        assert forall|l: int| 0 <= l < old(used)@.len() implies (#[trigger] used@[l] <==> (old(used)@[l] || read@.contains(l as LocalId))) by {
            if read@.contains(l as LocalId) {
                let j = choose|j: int| 0 <= j < read@.len() && read@[j] == l as LocalId;
                assert(read@[j] == l);
            }
        }
    }
}

/// Removes, from one block, the pure statements defining a local `used` says
/// nothing reads.
fn prune_block(block: BasicBlock, used: &Vec<bool>, Ghost(f): Ghost<MirFunction>) -> (r: (BasicBlock, bool))
    requires
        used@.len() == f.locals@.len(),
        forall|l: int| 0 <= l < used@.len() ==> (#[trigger] used@[l] <==> local_used(f, l as LocalId)),
    ensures
        pruned(block.statements@, r.0.statements@),
        r.0.terminator == block.terminator,
        r.0.terminator_span == block.terminator_span,
        r.1 <==> r.0.statements@.len() < block.statements@.len(),
        !r.1 ==> r.0.statements@ == block.statements@,
        !r.1 ==> forall|i: int| 0 <= i < block.statements@.len() ==> !dead(f, #[trigger] block.statements@[i]),
{
    let BasicBlock { statements, terminator, terminator_span } = block;
    let ghost old_statements = statements@;
    let mut rest = crate::mir::reversed(statements);
    let mut out: Vec<Statement> = Vec::new();
    let mut removed = false;
    let ghost mut k: int = 0;
    while rest.len() > 0
        invariant
            0 <= k,
            k + rest@.len() == old_statements.len(),
            used@.len() == f.locals@.len(),
            forall|l: int| 0 <= l < used@.len() ==> (#[trigger] used@[l] <==> local_used(f, l as LocalId)),
            rest@.reverse() =~= old_statements.subrange(k, old_statements.len() as int),
            pruned(old_statements.subrange(0, k), out@),
            out@.len() <= k,
            removed <==> out@.len() < k,
            !removed ==> out@ == old_statements.subrange(0, k),
            !removed ==> forall|i: int| 0 <= i < k ==> !dead(f, #[trigger] old_statements[i]),
        decreases rest.len(),
    {
        let ghost before = rest@;
        let statement = rest.pop().unwrap();
        proof {
            assert(before.reverse() =~= seq![statement] + rest@.reverse());
            assert(before.reverse()[0] == statement);
            assert(statement == old_statements[k]);
            assert(rest@.reverse() =~= before.reverse().subrange(1, before.len() as int));
            assert(rest@.reverse() =~= old_statements.subrange(k + 1, old_statements.len() as int));
        }
        let ghost next = old_statements.subrange(0, k + 1);
        assert(next.drop_last() =~= old_statements.subrange(0, k));
        let keep = if is_pure(&statement.instruction) {
            match defs(&statement.instruction) {
                Some(d) => d >= used.len() || used[d],
                None => true,
            }
        } else {
            true
        };
        if keep {
            let ghost before_out = out@;
            out.push(statement);
            assert(out@.drop_last() =~= before_out);
            assert(pruned(next, out@));
            if !removed {
                assert(out@ =~= next);
            }
        } else {
            removed = true;
            assert(pruned(next, out@));
        }
        proof {
            k = k + 1;
        }
    }
    assert(old_statements.subrange(0, old_statements.len() as int) =~= old_statements);
    (BasicBlock { statements: out, terminator, terminator_span }, removed)
}

/// Removes instructions whose result is never read, until nothing is left
/// to remove.
///
/// `Drop` counts as a use of its operand, so an owned value that is dropped
/// is never dead and its allocation is never removed out from under its
/// release.
pub fn eliminate_dead_code(function: &mut MirFunction) -> (changed: bool)
    ensures
        eliminated(*old(function), *final(function)),
        no_dead_code(*final(function)),
        !changed ==> unchanged_blocks(old(function).blocks@, final(function).blocks@),
        changed ==> statement_count(final(function).blocks@, final(function).blocks@.len() as int) < statement_count(
            old(function).blocks@,
            old(function).blocks@.len() as int,
        ),
        volatile_count(*final(function)) == volatile_count(*old(function)),
{
    let mut changed = false;
    let ghost original = *function;
    proof {
        assert forall|c: int| 0 <= c < original.blocks@.len() implies pruned(original.blocks@[c].statements@, original.blocks@[c].statements@) by {
            lemma_pruned_refl(original.blocks@[c].statements@);
        }
    }
    loop
        invariant
            eliminated(original, *function),
            original == *old(function),
            !changed ==> unchanged_blocks(original.blocks@, function.blocks@),
            statement_count(function.blocks@, function.blocks@.len() as int) <= statement_count(
                original.blocks@,
                original.blocks@.len() as int,
            ),
            changed ==> statement_count(function.blocks@, function.blocks@.len() as int) < statement_count(
                original.blocks@,
                original.blocks@.len() as int,
            ),
        decreases statement_count(function.blocks@, function.blocks@.len() as int),
    {
        let used = used_locals(function);
        let ghost current = *function;
        proof {
            assert forall|c: int| 0 <= c < current.blocks@.len() implies pruned(current.blocks@[c].statements@, current.blocks@[c].statements@) by {
                lemma_pruned_refl(current.blocks@[c].statements@);
            }
        }
        let mut removed = false;
        let mut b: usize = 0;
        while b < function.blocks.len()
            invariant
                eliminated(current, *function),
                eliminated(original, current),
                used@.len() == current.locals@.len(),
                forall|l: int| 0 <= l < used@.len() ==> (#[trigger] used@[l] <==> local_used(current, l as LocalId)),
                b <= function.blocks@.len(),
                forall|c: int| b <= c < function.blocks@.len() ==> #[trigger] function.blocks@[c] == current.blocks@[c],
                forall|c: int| 0 <= c < function.blocks@.len() ==> (#[trigger] function.blocks@[c]).statements@.len() <= current.blocks@[c].statements@.len(),
                !removed ==> unchanged_blocks(current.blocks@, function.blocks@),
                !removed ==> forall|c: int, i: int| 0 <= c < b && 0 <= i < current.blocks@[c].statements@.len() ==> !dead(current, #[trigger] current.blocks@[c].statements@[i]),
                removed ==> exists|c: int| 0 <= c < b && (#[trigger] function.blocks@[c]).statements@.len() < current.blocks@[c].statements@.len(),
            decreases current.blocks@.len() - b,
        {
            let ghost before_blocks = function.blocks@;
            let mut block = placeholder_block();
            function.blocks.set_and_swap(b, &mut block);
            let (pruned_block, block_removed) = prune_block(block, &used, Ghost(current));
            let mut pruned_block = pruned_block;
            function.blocks.set_and_swap(b, &mut pruned_block);
            proof {
                if removed && !block_removed {
                    let c = choose|c: int| 0 <= c < b && (#[trigger] before_blocks[c]).statements@.len() < current.blocks@[c].statements@.len();
                    assert(function.blocks@[c] == before_blocks[c]);
                }
                if block_removed {
                    assert(function.blocks@[b as int].statements@.len() < current.blocks@[b as int].statements@.len());
                }
            }
            if block_removed {
                removed = true;
            }
            b += 1;
        }
        proof {
            assert forall|c: int| 0 <= c < original.blocks@.len() implies pruned(original.blocks@[c].statements@, (#[trigger] function.blocks@[c]).statements@) by {
                lemma_pruned_trans(original.blocks@[c].statements@, current.blocks@[c].statements@, function.blocks@[c].statements@);
            }
            lemma_count_shrinks(current.blocks@, function.blocks@, function.blocks@.len() as int);
            lemma_elimination_keeps_volatiles(original, *function);
        }
        if !removed {
            proof {
                assert forall|c: int, i: int|
                    0 <= c < function.blocks@.len() && 0 <= i < function.blocks@[c].statements@.len() implies !dead(
                    *function,
                    #[trigger] function.blocks@[c].statements@[i],
                ) by {
                    assert(function.blocks@[c].statements@ == current.blocks@[c].statements@);
                    assert(!dead(current, current.blocks@[c].statements@[i]));
                    lemma_same_uses(current, *function);
                }
            }
            return changed;
        }
        proof {
            let c = choose|c: int| 0 <= c < current.blocks@.len() && (#[trigger] function.blocks@[c]).statements@.len() < current.blocks@[c].statements@.len();
            lemma_count_strict(current.blocks@, function.blocks@, function.blocks@.len() as int, c);
        }
        changed = true;
    }
}

// --------------------------------------------------------- volatile accesses

/// Whether an instruction is a volatile access, one whose happening is the
/// point.
pub open spec fn is_volatile(i: Instruction) -> bool {
    i is VolatileLoad || i is VolatileStore
}

/// How many volatile accesses a run of statements performs.
pub open spec fn volatiles(s: Seq<Statement>) -> nat
    decreases s.len(),
{
    if s.len() == 0 {
        0
    } else {
        volatiles(s.drop_last()) + if is_volatile(s.last().instruction) { 1nat } else { 0nat }
    }
}

/// How many volatile accesses the first `count` blocks hold.
pub open spec fn volatile_total(blocks: Seq<BasicBlock>, count: int) -> nat
    decreases count,
{
    if count <= 0 {
        0
    } else {
        volatile_total(blocks, count - 1) + volatiles(blocks[count - 1].statements@)
    }
}

/// How many volatile accesses a function's blocks hold.
pub open spec fn volatile_count(f: MirFunction) -> nat {
    volatile_total(f.blocks@, f.blocks@.len() as int)
}

proof fn lemma_volatiles_concat(a: Seq<Statement>, b: Seq<Statement>)
    ensures
        volatiles(a + b) == volatiles(a) + volatiles(b),
    decreases b.len(),
{
    if b.len() > 0 {
        assert((a + b).drop_last() =~= a + b.drop_last());
        lemma_volatiles_concat(a, b.drop_last());
    } else {
        assert(a + b =~= a);
    }
}

proof fn lemma_folded_volatiles(old: Seq<Statement>, new: Seq<Statement>)
    requires
        folded(old, new),
    ensures
        volatiles(new) == volatiles(old),
    decreases old.len(),
{
    if old.len() > 0 {
        let s = old.last();
        if self_assign(s.instruction) && folded(old.drop_last(), new) {
            lemma_folded_volatiles(old.drop_last(), new);
        } else {
            lemma_folded_volatiles(old.drop_last(), new.drop_last());
            if new.last() != s {
                let c = choose|c: Constant| new.last().instruction == constant_instruction(c, s.instruction->Binary_dst);
                assert(!is_volatile(constant_instruction(c, s.instruction->Binary_dst)));
            }
        }
    }
}

proof fn lemma_pruned_volatiles(old: Seq<Statement>, new: Seq<Statement>)
    requires
        pruned(old, new),
    ensures
        volatiles(new) == volatiles(old),
    decreases old.len(),
{
    if old.len() > 0 {
        let s = old.last();
        if spec_is_pure(s.instruction) && spec_defs(s.instruction) is Some && pruned(old.drop_last(), new) {
            lemma_pruned_volatiles(old.drop_last(), new);
        } else {
            lemma_pruned_volatiles(old.drop_last(), new.drop_last());
        }
    }
}

proof fn lemma_totals_agree(old: Seq<BasicBlock>, new: Seq<BasicBlock>, count: int)
    requires
        0 <= count <= old.len(),
        count <= new.len(),
        forall|b: int| 0 <= b < count ==> volatiles((#[trigger] new[b]).statements@) == volatiles(old[b].statements@),
    ensures
        volatile_total(new, count) == volatile_total(old, count),
    decreases count,
{
    if count > 0 {
        lemma_totals_agree(old, new, count - 1);
    }
}

/// Constant propagation neither adds nor removes a volatile access: folding
/// touches only arithmetic, and a dropped statement only ever copies a local
/// to itself.
pub proof fn lemma_propagation_keeps_volatiles(old: MirFunction, new: MirFunction)
    requires
        propagated(old, new),
    ensures
        volatile_count(new) == volatile_count(old),
{
    assert forall|b: int| 0 <= b < old.blocks@.len() implies volatiles((#[trigger] new.blocks@[b]).statements@)
        == volatiles(old.blocks@[b].statements@) by {
        lemma_folded_volatiles(old.blocks@[b].statements@, new.blocks@[b].statements@);
    }
    lemma_totals_agree(old.blocks@, new.blocks@, old.blocks@.len() as int);
}

/// Dead code elimination neither adds nor removes a volatile access: it only
/// removes pure instructions, and no volatile access is pure.
pub proof fn lemma_elimination_keeps_volatiles(old: MirFunction, new: MirFunction)
    requires
        eliminated(old, new),
    ensures
        volatile_count(new) == volatile_count(old),
{
    assert forall|b: int| 0 <= b < old.blocks@.len() implies volatiles((#[trigger] new.blocks@[b]).statements@)
        == volatiles(old.blocks@[b].statements@) by {
        lemma_pruned_volatiles(old.blocks@[b].statements@, new.blocks@[b].statements@);
    }
    lemma_totals_agree(old.blocks@, new.blocks@, old.blocks@.len() as int);
}

proof fn lemma_same_uses(a: MirFunction, b: MirFunction)
    requires
        eliminated(a, b),
        unchanged_blocks(a.blocks@, b.blocks@),
    ensures
        forall|l: LocalId| local_used(a, l) <==> local_used(b, l),
{
    assert forall|l: LocalId| local_used(a, l) <==> local_used(b, l) by {
        if local_used(a, l) {
            if exists|c: int, i: int| 0 <= c < a.blocks@.len() && 0 <= i < a.blocks@[c].statements@.len()
                && spec_uses(a.blocks@[c].statements@[i].instruction).contains(l) {
                let (c, i) = choose|c: int, i: int| 0 <= c < a.blocks@.len() && 0 <= i < a.blocks@[c].statements@.len()
                    && spec_uses(a.blocks@[c].statements@[i].instruction).contains(l);
                assert(b.blocks@[c].statements@[i] == a.blocks@[c].statements@[i]);
            }
            if exists|c: int| 0 <= c < a.blocks@.len() && spec_terminator_uses(a.blocks@[c].terminator).contains(l) {
                let c = choose|c: int| 0 <= c < a.blocks@.len() && spec_terminator_uses(a.blocks@[c].terminator).contains(l);
                assert(b.blocks@[c].terminator == a.blocks@[c].terminator);
            }
        }
        if local_used(b, l) {
            if exists|c: int, i: int| 0 <= c < b.blocks@.len() && 0 <= i < b.blocks@[c].statements@.len()
                && spec_uses(b.blocks@[c].statements@[i].instruction).contains(l) {
                let (c, i) = choose|c: int, i: int| 0 <= c < b.blocks@.len() && 0 <= i < b.blocks@[c].statements@.len()
                    && spec_uses(b.blocks@[c].statements@[i].instruction).contains(l);
                assert(b.blocks@[c].statements@[i] == a.blocks@[c].statements@[i]);
            }
            if exists|c: int| 0 <= c < b.blocks@.len() && spec_terminator_uses(b.blocks@[c].terminator).contains(l) {
                let c = choose|c: int| 0 <= c < b.blocks@.len() && spec_terminator_uses(b.blocks@[c].terminator).contains(l);
                assert(b.blocks@[c].terminator == a.blocks@[c].terminator);
            }
        }
    }
}

proof fn lemma_count_strict(old: Seq<BasicBlock>, new: Seq<BasicBlock>, count: int, c: int)
    requires
        0 <= c < count <= old.len(),
        new.len() == old.len(),
        forall|b: int| 0 <= b < old.len() ==> (#[trigger] new[b]).statements@.len() <= old[b].statements@.len(),
        new[c].statements@.len() < old[c].statements@.len(),
    ensures
        statement_count(new, count) < statement_count(old, count),
    decreases count,
{
    lemma_count_shrinks(old, new, count - 1);
    if c < count - 1 {
        lemma_count_strict(old, new, count - 1, c);
    }
}


// -------------------------------------------------------------------- CFG

/// Every terminator of `blocks` targets a block that exists.
pub open spec fn targets_in_range(blocks: Seq<BasicBlock>) -> bool {
    forall|b: int, k: int|
        0 <= b < blocks.len() && 0 <= k < spec_successors(blocks[b].terminator).len()
            ==> #[trigger] spec_successors(blocks[b].terminator)[k] < blocks.len()
}

/// Where a jump to `target` ends up once it follows `goto`s through blocks
/// that hold no statements, at most `fuel` of them.
pub open spec fn resolve(blocks: Seq<BasicBlock>, target: int, fuel: nat) -> int
    decreases fuel,
{
    if fuel == 0 || !(0 <= target < blocks.len()) {
        target
    } else {
        let block = blocks[target];
        match block.terminator {
            Terminator::Goto(next) => if block.statements@.len() == 0 && next != target {
                resolve(blocks, next as int, (fuel - 1) as nat)
            } else {
                target
            },
            _ => target,
        }
    }
}

/// A terminator with its jumps threaded through empty blocks.
pub open spec fn threaded(blocks: Seq<BasicBlock>, t: Terminator) -> Terminator {
    let fuel = blocks.len();
    match t {
        Terminator::Goto(target) => Terminator::Goto(resolve(blocks, target as int, fuel) as usize),
        Terminator::Branch { condition, then_block, else_block } => Terminator::Branch {
            condition,
            then_block: resolve(blocks, then_block as int, fuel) as usize,
            else_block: resolve(blocks, else_block as int, fuel) as usize,
        },
        other => other,
    }
}

proof fn lemma_resolve_in_range(blocks: Seq<BasicBlock>, target: int, fuel: nat)
    requires
        targets_in_range(blocks),
        0 <= target < blocks.len(),
    ensures
        0 <= resolve(blocks, target, fuel) < blocks.len(),
    decreases fuel,
{
    if fuel > 0 {
        match blocks[target].terminator {
            Terminator::Goto(next) => {
                assert(spec_successors(blocks[target].terminator)[0] == next);
                lemma_resolve_in_range(blocks, next as int, (fuel - 1) as nat);
            },
            _ => {},
        }
    }
}

fn resolve_target(blocks: &Vec<BasicBlock>, target: BlockId) -> (r: BlockId)
    requires
        targets_in_range(blocks@),
        target < blocks@.len(),
    ensures
        r as int == resolve(blocks@, target as int, blocks@.len()),
        r < blocks@.len(),
{
    let mut current = target;
    let mut steps: usize = 0;
    let n = blocks.len();
    while steps < n
        invariant
            n == blocks@.len(),
            targets_in_range(blocks@),
            steps <= n,
            current < n,
            resolve(blocks@, current as int, (n - steps) as nat) == resolve(blocks@, target as int, n as nat),
        decreases n - steps,
    {
        let block = &blocks[current];
        match block.terminator {
            Terminator::Goto(next) => {
                if block.statements.len() == 0 && next != current {
                    assert(spec_successors(blocks@[current as int].terminator)[0] == next);
                    current = next;
                } else {
                    proof {
                        lemma_resolve_in_range(blocks@, target as int, n as nat);
                    }
                    return current;
                }
            },
            _ => {
                return current;
            },
        }
        steps += 1;
    }
    current
}

/// Follows `Goto` edges through blocks that contain no statements.
/// `new` is `old` with every jump threaded past the empty blocks it lands on
/// (see `thread_gotos`).
pub open spec fn thread_pass(old: MirFunction, new: MirFunction, changed: bool) -> bool {
    &&& new.blocks@.len() == old.blocks@.len()
    &&& forall|b: int|
        0 <= b < old.blocks@.len() ==> {
            &&& (#[trigger] new.blocks@[b]).statements == old.blocks@[b].statements
            &&& new.blocks@[b].terminator == threaded(old.blocks@, old.blocks@[b].terminator)
            &&& new.blocks@[b].terminator_span == old.blocks@[b].terminator_span
        }
    &&& same_frame(old, new)
    &&& (changed <==> exists|b: int| 0 <= b < old.blocks@.len() && new.blocks@[b].terminator != old.blocks@[b].terminator)
}

/// `new` is `old` after merges, first pair first, until no pair may merge
/// (see `merge_linear_chains`).
pub open spec fn merge_pass(old: MirFunction, new: MirFunction, changed: bool) -> bool {
    &&& same_frame(old, new)
    &&& exists|steps: Seq<Seq<BasicBlock>>, sites: Seq<(int, int)>|
        {
            &&& #[trigger] merging(steps, sites, old.entry as int)
            &&& steps[0] == old.blocks@
            &&& steps.last() == new.blocks@
            &&& (changed <==> sites.len() > 0)
        }
    &&& forall|b: int, t: int| !#[trigger] merge_pair(new.blocks@, new.entry as int, b, t)
}

/// `new` is `old` with the blocks its entry does not reach taken out and the
/// rest renumbered in order (see `remove_unreachable_blocks`).
pub open spec fn prune_pass(old: MirFunction, new: MirFunction, changed: bool) -> bool {
    let blocks = old.blocks@;
    let entry = old.entry as int;
    let n = blocks.len() as int;
    &&& new.blocks@.len() == rank(blocks, entry, n)
    &&& forall|b: int| 0 <= b < n && reaches(blocks, entry, b) ==> {
        let i = #[trigger] rank(blocks, entry, b) as int;
        &&& new.blocks@[i].statements == blocks[b].statements
        &&& new.blocks@[i].terminator == renumbered(blocks, entry, blocks[b].terminator)
        &&& new.blocks@[i].terminator_span == blocks[b].terminator_span
    }
    &&& new.entry as int == rank(blocks, entry, entry)
    &&& (changed <==> exists|b: int| 0 <= b < n && !reaches(blocks, entry, b))
    &&& new.name == old.name
    &&& new.emit == old.emit
    &&& new.inline_hint == old.inline_hint
    &&& new.params == old.params
    &&& new.return_type == old.return_type
    &&& new.locals == old.locals
    &&& new.span == old.span
}

pub fn thread_gotos(function: &mut MirFunction) -> (changed: bool)
    requires
        targets_in_range(old(function).blocks@),
    ensures
        final(function).blocks@.len() == old(function).blocks@.len(),
        forall|b: int|
            0 <= b < old(function).blocks@.len() ==> {
                &&& (#[trigger] final(function).blocks@[b]).statements == old(function).blocks@[b].statements
                &&& final(function).blocks@[b].terminator == threaded(old(function).blocks@, old(function).blocks@[b].terminator)
                &&& final(function).blocks@[b].terminator_span == old(function).blocks@[b].terminator_span
            },
        targets_in_range(final(function).blocks@),
        same_frame(*old(function), *final(function)),
        changed <==> exists|b: int|
            0 <= b < old(function).blocks@.len() && final(function).blocks@[b].terminator != old(function).blocks@[b].terminator,
        thread_pass(*old(function), *final(function), changed),
{
    let n = function.blocks.len();
    let ghost original = function.blocks@;
    let mut rewritten: Vec<Terminator> = Vec::new();
    let mut b: usize = 0;
    while b < n
        invariant
            n == function.blocks@.len(),
            original == function.blocks@,
            targets_in_range(original),
            b <= n,
            rewritten@.len() == b,
            forall|c: int| 0 <= c < b ==> #[trigger] rewritten@[c] == threaded(original, original[c].terminator),
        decreases n - b,
    {
        let t = match function.blocks[b].terminator {
            Terminator::Goto(target) => {
                assert(spec_successors(original[b as int].terminator)[0] == target);
                Terminator::Goto(resolve_target(&function.blocks, target))
            },
            Terminator::Branch { condition, then_block, else_block } => {
                assert(spec_successors(original[b as int].terminator)[0] == then_block);
                assert(spec_successors(original[b as int].terminator)[1] == else_block);
                Terminator::Branch {
                    condition,
                    then_block: resolve_target(&function.blocks, then_block),
                    else_block: resolve_target(&function.blocks, else_block),
                }
            },
            other => other,
        };
        rewritten.push(t);
        b += 1;
    }
    let mut changed = false;
    let mut b: usize = 0;
    while b < n
        invariant
            n == function.blocks@.len(),
            n == original.len(),
            targets_in_range(original),
            same_frame(*old(function), *function),
            original == old(function).blocks@,
            b <= n,
            rewritten@.len() == n,
            forall|c: int| 0 <= c < n ==> #[trigger] rewritten@[c] == threaded(original, original[c].terminator),
            forall|c: int|
                0 <= c < n ==> {
                    &&& (#[trigger] function.blocks@[c]).statements == original[c].statements
                    &&& function.blocks@[c].terminator_span == original[c].terminator_span
                    &&& function.blocks@[c].terminator == if c < b { rewritten@[c] } else { original[c].terminator }
                },
            changed <==> exists|c: int| 0 <= c < b && rewritten@[c] != original[c].terminator,
        decreases n - b,
    {
        if rewritten[b] != function.blocks[b].terminator {
            changed = true;
        }
        function.blocks[b].terminator = rewritten[b];
        b += 1;
    }
    proof {
        assert forall|c: int, k: int|
            0 <= c < n && 0 <= k < spec_successors(function.blocks@[c].terminator).len()
                implies #[trigger] spec_successors(function.blocks@[c].terminator)[k] < n by {
            match original[c].terminator {
                Terminator::Goto(target) => {
                    assert(spec_successors(original[c].terminator)[0] == target);
                    lemma_resolve_in_range(original, target as int, n as nat);
                },
                Terminator::Branch { then_block, else_block, .. } => {
                    assert(spec_successors(original[c].terminator)[0] == then_block);
                    assert(spec_successors(original[c].terminator)[1] == else_block);
                    lemma_resolve_in_range(original, then_block as int, n as nat);
                    lemma_resolve_in_range(original, else_block as int, n as nat);
                },
                _ => {},
            }
        }
    }
    changed
}

/// `new` has the name, signature, locals, entry and span of `old`.
pub open spec fn same_frame(old: MirFunction, new: MirFunction) -> bool {
    &&& new.name == old.name
    &&& new.emit == old.emit
    &&& new.inline_hint == old.inline_hint
    &&& new.params == old.params
    &&& new.return_type == old.return_type
    &&& new.locals == old.locals
    &&& new.entry == old.entry
    &&& new.span == old.span
}


/// How many of the first `count` blocks end in a `Goto`.
pub open spec fn goto_count(blocks: Seq<BasicBlock>, count: int) -> nat
    decreases count,
{
    if count <= 0 {
        0
    } else {
        goto_count(blocks, count - 1) + if blocks[count - 1].terminator is Goto { 1nat } else { 0nat }
    }
}

proof fn lemma_two_updates(old: Seq<BasicBlock>, new: Seq<BasicBlock>, i: int, j: int, count: int)
    requires
        0 <= i < old.len(),
        0 <= j < old.len(),
        i != j,
        0 <= count <= old.len(),
        new.len() == old.len(),
        forall|k: int| 0 <= k < old.len() && k != i && k != j ==> #[trigger] new[k] == old[k],
    ensures
        goto_count(new, count) + (if i < count && old[i].terminator is Goto { 1nat } else { 0nat })
            + (if j < count && old[j].terminator is Goto { 1nat } else { 0nat })
            == goto_count(old, count) + (if i < count && new[i].terminator is Goto { 1nat } else { 0nat })
            + (if j < count && new[j].terminator is Goto { 1nat } else { 0nat }),
        statement_count(new, count) + (if i < count { old[i].statements@.len() } else { 0 })
            + (if j < count { old[j].statements@.len() } else { 0 })
            == statement_count(old, count) + (if i < count { new[i].statements@.len() } else { 0 })
            + (if j < count { new[j].statements@.len() } else { 0 }),
        volatile_total(new, count) + (if i < count { volatiles(old[i].statements@) } else { 0 })
            + (if j < count { volatiles(old[j].statements@) } else { 0 })
            == volatile_total(old, count) + (if i < count { volatiles(new[i].statements@) } else { 0 })
            + (if j < count { volatiles(new[j].statements@) } else { 0 }),
    decreases count,
{
    if count > 0 {
        lemma_two_updates(old, new, i, j, count - 1);
    }
}

/// `b` is reachable and jumps to `target`, a block other than itself and the
/// entry whose only reachable predecessor it is.
pub open spec fn mergeable(blocks: Seq<BasicBlock>, entry: int, b: int, target: int) -> bool {
    &&& 0 <= b < blocks.len()
    &&& reaches(blocks, entry, b)
    &&& blocks[b].terminator == Terminator::Goto(target as usize)
    &&& target != b
    &&& target != entry
}

/// `b` is the one reachable block that `t` follows.
pub open spec fn sole_pred(blocks: Seq<BasicBlock>, entry: int, t: int, b: int) -> bool {
    forall|p: int|
        0 <= p < blocks.len() && reaches(blocks, entry, p) && #[trigger] spec_successors(blocks[p].terminator).contains(
            t as BlockId,
        ) <==> p == b
}

/// Block `b` may take in block `t`: it jumps there, and nothing else that
/// runs does.
pub open spec fn merge_pair(blocks: Seq<BasicBlock>, entry: int, b: int, t: int) -> bool {
    &&& mergeable(blocks, entry, b, t)
    &&& 0 <= t < blocks.len()
    &&& sole_pred(blocks, entry, t, b)
}

/// `(b, t)` is the pair with the lowest `b` that may merge.
pub open spec fn first_merge(blocks: Seq<BasicBlock>, entry: int, b: int, t: int) -> bool {
    &&& merge_pair(blocks, entry, b, t)
    &&& forall|b2: int, t2: int| 0 <= b2 < b ==> !#[trigger] merge_pair(blocks, entry, b2, t2)
}

/// The predecessor list of a reachable target is `[b]` exactly when `b` is
/// its one reachable predecessor.
proof fn lemma_sole_pred(cfg: &Cfg, t: int, b: int)
    requires
        cfg.wf(),
        0 <= t < cfg.blocks().len(),
        0 <= b < cfg.blocks().len(),
        cfg.blocks().len() <= usize::MAX,
        reaches(cfg.blocks(), cfg.entry(), b),
        spec_successors(cfg.blocks()[b].terminator).contains(t as BlockId),
    ensures
        (cfg.preds(t) == seq![b as BlockId]) <==> sole_pred(cfg.blocks(), cfg.entry(), t, b),
{
    let blocks = cfg.blocks();
    let entry = cfg.entry();
    let ps = cfg.preds(t);
    assert(ps.contains(b as BlockId));
    if ps == seq![b as BlockId] {
        assert forall|p: int|
            0 <= p < blocks.len() && reaches(blocks, entry, p) && #[trigger] spec_successors(
                blocks[p].terminator,
            ).contains(t as BlockId) implies p == b by {
            assert(ps.contains(p as BlockId));
            let k = choose|k: int| 0 <= k < ps.len() && ps[k] == p as BlockId;
            assert(k == 0);
        }
    }
    if sole_pred(blocks, entry, t, b) {
        assert forall|k: int| 0 <= k < ps.len() implies ps[k] == b by {
            let p = ps[k] as int;
            assert(spec_successors(blocks[p].terminator).contains(t as BlockId));
        }
        if ps.len() > 1 {
            assert(ps[0] < ps[1]);
        }
        assert(ps =~= seq![b as BlockId]);
    }
}

fn find_merge(function: &MirFunction, cfg: &Cfg) -> (r: Option<(BlockId, BlockId)>)
    requires
        cfg.wf(),
        cfg.blocks() == function.blocks@,
        cfg.entry() == function.entry as int,
        targets_in_range(function.blocks@),
    ensures
        r matches Some((b, t)) ==> first_merge(function.blocks@, function.entry as int, b as int, t as int)
            && t < function.blocks@.len() && cfg.preds(t as int) == seq![b],
        r is None ==> forall|b: int, t: int| !#[trigger] merge_pair(function.blocks@, function.entry as int, b, t),
{
    let ghost blocks = function.blocks@;
    let ghost entry = function.entry as int;
    let mut b: usize = 0;
    while b < function.blocks.len()
        invariant
            b <= function.blocks@.len(),
            cfg.wf(),
            cfg.blocks() == function.blocks@,
            cfg.entry() == function.entry as int,
            targets_in_range(function.blocks@),
            blocks == function.blocks@,
            entry == function.entry as int,
            forall|b2: int, t2: int| 0 <= b2 < b ==> !#[trigger] merge_pair(blocks, entry, b2, t2),
        decreases function.blocks@.len() - b,
    {
        let ghost here = b as int;
        if cfg.is_reachable(b) {
            match function.blocks[b].terminator {
                Terminator::Goto(target) => {
                    assert(spec_successors(function.blocks@[b as int].terminator)[0] == target);
                    assert(spec_successors(blocks[here].terminator).contains(target));
                    if target != b && target != function.entry {
                        proof {
                            lemma_sole_pred(cfg, target as int, here);
                        }
                        let preds = cfg.predecessors(target);
                        if preds.len() == 1 && preds[0] == b {
                            assert(preds@ =~= seq![b]);
                            return Some((b, target));
                        }
                        assert(preds@ != seq![b]);
                    }
                    assert forall|t2: int| !#[trigger] merge_pair(blocks, entry, here, t2) by {
                        if merge_pair(blocks, entry, here, t2) {
                            assert(t2 == target as int);
                        }
                    }
                },
                _ => {},
            }
        }
        b += 1;
    }
    None
}

/// `after` is `before` with block `t` moved onto the end of block `b`, and
/// left empty and unreachable in its place.
pub open spec fn merged(before: Seq<BasicBlock>, after: Seq<BasicBlock>, b: int, t: int) -> bool {
    &&& after.len() == before.len()
    &&& after[b].statements@ == before[b].statements@ + before[t].statements@
    &&& after[b].terminator == before[t].terminator
    &&& after[b].terminator_span == before[t].terminator_span
    &&& after[t].statements@.len() == 0
    &&& after[t].terminator == Terminator::Unreachable
    &&& after[t].terminator_span == before[t].terminator_span
    &&& forall|k: int| 0 <= k < before.len() && k != b && k != t ==> #[trigger] after[k] == before[k]
}

/// `steps` are the blocks of a function through a run of merges, the one
/// from `steps[i]` to `steps[i + 1]` merging the first pair that may merge,
/// `sites[i]`.
pub open spec fn merging(steps: Seq<Seq<BasicBlock>>, sites: Seq<(int, int)>, entry: int) -> bool {
    &&& steps.len() == sites.len() + 1
    &&& forall|i: int|
        #![trigger sites[i]]
        0 <= i < sites.len() ==> first_merge(steps[i], entry, sites[i].0, sites[i].1) && merged(
            steps[i],
            steps[i + 1],
            sites[i].0,
            sites[i].1,
        )
}

/// Merges `a -> b` when `a` ends in `Goto(b)` and `b` has no other
/// predecessor.
///
/// Statements are concatenated in order, so drop placement is preserved
/// exactly; only the block boundary disappears, and the emptied block is
/// left unreachable for the next pass to remove.
pub fn merge_linear_chains(function: &mut MirFunction) -> (changed: bool)
    requires
        targets_in_range(old(function).blocks@),
        old(function).entry < old(function).blocks@.len(),
    ensures
        same_frame(*old(function), *final(function)),
        final(function).blocks@.len() == old(function).blocks@.len(),
        targets_in_range(final(function).blocks@),
        statement_count(final(function).blocks@, final(function).blocks@.len() as int)
            == statement_count(old(function).blocks@, old(function).blocks@.len() as int),
        volatile_count(*final(function)) == volatile_count(*old(function)),
        !changed ==> final(function).blocks@ == old(function).blocks@,
        exists|steps: Seq<Seq<BasicBlock>>, sites: Seq<(int, int)>|
            {
                &&& #[trigger] merging(steps, sites, old(function).entry as int)
                &&& steps[0] == old(function).blocks@
                &&& steps.last() == final(function).blocks@
                &&& (changed <==> sites.len() > 0)
            },
        forall|b: int, t: int| !#[trigger] merge_pair(final(function).blocks@, final(function).entry as int, b, t),
        merge_pass(*old(function), *final(function), changed),
{
    let mut changed = false;
    let n = function.blocks.len();
    let ghost mut steps: Seq<Seq<BasicBlock>> = seq![function.blocks@];
    let ghost mut sites: Seq<(int, int)> = Seq::empty();
    loop
        invariant
            n == function.blocks@.len(),
            n == old(function).blocks@.len(),
            same_frame(*old(function), *function),
            function.entry < n,
            targets_in_range(function.blocks@),
            statement_count(function.blocks@, n as int) == statement_count(old(function).blocks@, n as int),
            volatile_total(function.blocks@, n as int) == volatile_total(old(function).blocks@, n as int),
            !changed ==> function.blocks@ == old(function).blocks@,
            merging(steps, sites, old(function).entry as int),
            steps[0] == old(function).blocks@,
            steps.last() == function.blocks@,
            changed <==> sites.len() > 0,
        decreases goto_count(function.blocks@, n as int),
    {
        let cfg = Cfg::new(function);
        let Some((block, target)) = find_merge(function, &cfg) else {
            return changed;
        };
        let ghost before = function.blocks@;
        let mut moved = placeholder_block();
        function.blocks.set_and_swap(target, &mut moved);
        function.blocks[target].terminator_span = moved.terminator_span;
        let mut host = placeholder_block();
        function.blocks.set_and_swap(block, &mut host);
        let BasicBlock { statements: moved_statements, terminator: moved_terminator, terminator_span: moved_span } = moved;
        let BasicBlock { statements: host_statements, .. } = host;
        let mut merged_statements = host_statements;
        let mut tail = moved_statements;
        merged_statements.append(&mut tail);
        let mut joined = BasicBlock { statements: merged_statements, terminator: moved_terminator, terminator_span: moved_span };
        function.blocks.set_and_swap(block, &mut joined);
        proof {
            assert(function.blocks@[target as int].statements@.len() == 0);
            assert(function.blocks@[block as int].terminator == before[target as int].terminator);
            lemma_volatiles_concat(before[block as int].statements@, before[target as int].statements@);
            assert(volatiles(function.blocks@[target as int].statements@) == 0);
            lemma_two_updates(before, function.blocks@, block as int, target as int, n as int);
            assert forall|c: int, k: int|
                0 <= c < n && 0 <= k < spec_successors(function.blocks@[c].terminator).len()
                    implies #[trigger] spec_successors(function.blocks@[c].terminator)[k] < n by {
                if c == block as int {
                    assert(spec_successors(before[target as int].terminator)[k] < n);
                } else if c != target as int {
                    assert(function.blocks@[c] == before[c]);
                }
            }
            assert(merged(before, function.blocks@, block as int, target as int));
            let next_steps = steps.push(function.blocks@);
            let next_sites = sites.push((block as int, target as int));
            assert forall|i: int|
                #![trigger next_sites[i]]
                0 <= i < next_sites.len() implies first_merge(
                    next_steps[i],
                    old(function).entry as int,
                    next_sites[i].0,
                    next_sites[i].1,
                ) && merged(next_steps[i], next_steps[i + 1], next_sites[i].0, next_sites[i].1) by {
                if i < sites.len() {
                    assert(next_sites[i] == sites[i]);
                    assert(next_steps[i] == steps[i]);
                    assert(next_steps[i + 1] == steps[i + 1]);
                }
            }
            steps = next_steps;
            sites = next_sites;
        }
        changed = true;
    }
}

/// How many of the blocks before `b` the entry reaches: the index block `b`
/// gets once the unreachable ones are gone.
pub open spec fn rank(blocks: Seq<BasicBlock>, entry: int, b: int) -> nat
    decreases b,
{
    if b <= 0 {
        0
    } else {
        rank(blocks, entry, b - 1) + if reaches(blocks, entry, b - 1) { 1nat } else { 0nat }
    }
}

/// A terminator with its targets renumbered by `rank`.
pub open spec fn renumbered(blocks: Seq<BasicBlock>, entry: int, t: Terminator) -> Terminator {
    match t {
        Terminator::Goto(target) => Terminator::Goto(rank(blocks, entry, target as int) as usize),
        Terminator::Branch { condition, then_block, else_block } => Terminator::Branch {
            condition,
            then_block: rank(blocks, entry, then_block as int) as usize,
            else_block: rank(blocks, entry, else_block as int) as usize,
        },
        other => other,
    }
}

proof fn lemma_rank_monotone(blocks: Seq<BasicBlock>, entry: int, a: int, b: int)
    requires
        0 <= a <= b,
    ensures
        rank(blocks, entry, a) <= rank(blocks, entry, b),
        a < b && reaches(blocks, entry, a) ==> rank(blocks, entry, a) < rank(blocks, entry, b),
        rank(blocks, entry, b) <= b,
    decreases b,
{
    if b > 0 {
        lemma_rank_monotone(blocks, entry, if a == b { b - 1 } else { a }, b - 1);
        if a < b {
            lemma_rank_monotone(blocks, entry, a, b - 1);
        }
    }
}

proof fn lemma_step_reaches(blocks: Seq<BasicBlock>, entry: int, b: int, t: int)
    requires
        reaches(blocks, entry, b),
        0 <= b < blocks.len(),
        0 <= t < blocks.len(),
        spec_successors(blocks[b].terminator).contains(t as BlockId),
    ensures
        reaches(blocks, entry, t),
{
    let path = choose|path: Seq<int>| crate::cfg::is_path(blocks, entry, path) && path.last() == b;
    let longer = path.push(t);
    assert(longer[longer.len() - 2] == b);
    assert(crate::cfg::is_path(blocks, entry, longer));
    assert(longer.last() == t);
}

fn renumber(terminator: Terminator, mapping: &Vec<Option<BlockId>>, Ghost(blocks): Ghost<Seq<BasicBlock>>, Ghost(entry): Ghost<int>) -> (r: Terminator)
    requires
        mapping@.len() == blocks.len(),
        forall|c: int| 0 <= c < blocks.len() && reaches(blocks, entry, c) ==> #[trigger] mapping@[c] == Some(rank(blocks, entry, c) as BlockId),
        forall|k: int| 0 <= k < spec_successors(terminator).len() ==> {
            let t = #[trigger] spec_successors(terminator)[k] as int;
            0 <= t < blocks.len() && reaches(blocks, entry, t)
        },
    ensures
        r == renumbered(blocks, entry, terminator),
{
    match terminator {
        Terminator::Goto(target) => {
            assert(spec_successors(terminator)[0] == target);
            Terminator::Goto(mapping[target].unwrap())
        },
        Terminator::Branch { condition, then_block, else_block } => {
            assert(spec_successors(terminator)[0] == then_block);
            assert(spec_successors(terminator)[1] == else_block);
            Terminator::Branch { condition, then_block: mapping[then_block].unwrap(), else_block: mapping[else_block].unwrap() }
        },
        other => other,
    }
}

/// Deletes blocks not reachable from the entry and renumbers the rest,
/// keeping their order.
#[verifier::rlimit(40)]
pub fn remove_unreachable_blocks(function: &mut MirFunction) -> (changed: bool)
    requires
        targets_in_range(old(function).blocks@),
        old(function).entry < old(function).blocks@.len(),
    ensures
        ({
            let blocks = old(function).blocks@;
            let entry = old(function).entry as int;
            let n = blocks.len() as int;
            &&& final(function).blocks@.len() == rank(blocks, entry, n)
            &&& forall|b: int| 0 <= b < n && reaches(blocks, entry, b) ==> {
                let i = #[trigger] rank(blocks, entry, b) as int;
                &&& final(function).blocks@[i].statements == blocks[b].statements
                &&& final(function).blocks@[i].terminator == renumbered(blocks, entry, blocks[b].terminator)
                &&& final(function).blocks@[i].terminator_span == blocks[b].terminator_span
            }
            &&& forall|i: int| 0 <= i < final(function).blocks@.len() ==> #[trigger] rank_taken(blocks, entry, n, i)
            &&& final(function).entry as int == rank(blocks, entry, entry)
            &&& changed <==> exists|b: int| 0 <= b < n && !reaches(blocks, entry, b)
            &&& !changed ==> *final(function) == *old(function)
        }),
        targets_in_range(final(function).blocks@),
        final(function).entry < final(function).blocks@.len(),
        final(function).name == old(function).name,
        final(function).emit == old(function).emit,
        final(function).inline_hint == old(function).inline_hint,
        final(function).params == old(function).params,
        final(function).return_type == old(function).return_type,
        final(function).locals == old(function).locals,
        final(function).span == old(function).span,
        prune_pass(*old(function), *final(function), changed),
{
    let cfg = Cfg::new(function);
    let n = function.blocks.len();
    let ghost blocks = function.blocks@;
    let ghost entry = function.entry as int;
    let mut all = true;
    let mut b: usize = 0;
    while b < n
        invariant
            n == blocks.len(),
            cfg.wf(),
            cfg.blocks() == blocks,
            cfg.entry() == entry,
            b <= n,
            all <==> forall|c: int| 0 <= c < b ==> reaches(blocks, entry, c),
        decreases n - b,
    {
        if !cfg.is_reachable(b) {
            all = false;
        }
        b += 1;
    }
    proof {
        assert(reaches(blocks, entry, entry)) by {
            let path = seq![entry];
            assert(crate::cfg::is_path(blocks, entry, path));
            assert(path.last() == entry);
        }
    }
    if all {
        proof {
            lemma_nothing_to_remove(blocks, entry);
        }
        return false;
    }
    let mut mapping: Vec<Option<BlockId>> = Vec::new();
    let mut next: usize = 0;
    let mut b: usize = 0;
    while b < n
        invariant
            n == blocks.len(),
            cfg.wf(),
            cfg.blocks() == blocks,
            cfg.entry() == entry,
            b <= n,
            mapping@.len() == b,
            next == rank(blocks, entry, b as int),
            forall|c: int| 0 <= c < b ==> #[trigger] mapping@[c] == if reaches(blocks, entry, c) {
                Some(rank(blocks, entry, c) as BlockId)
            } else {
                None::<BlockId>
            },
        decreases n - b,
    {
        proof {
            lemma_rank_monotone(blocks, entry, b as int, b as int);
        }
        if cfg.is_reachable(b) {
            mapping.push(Some(next));
            next += 1;
        } else {
            mapping.push(None);
        }
        b += 1;
    }
    let mut kept: Vec<BasicBlock> = Vec::new();
    let mut b: usize = 0;
    while b < n
        invariant
            n == blocks.len(),
            n == function.blocks@.len(),
            targets_in_range(blocks),
            same_frame(*old(function), *function),
            blocks == old(function).blocks@,
            entry == old(function).entry as int,
            b <= n,
            mapping@.len() == n,
            forall|c: int| 0 <= c < n ==> #[trigger] mapping@[c] == if reaches(blocks, entry, c) {
                Some(rank(blocks, entry, c) as BlockId)
            } else {
                None::<BlockId>
            },
            forall|c: int| b <= c < n ==> #[trigger] function.blocks@[c] == blocks[c],
            kept@.len() == rank(blocks, entry, b as int),
            forall|c: int| 0 <= c < b && reaches(blocks, entry, c) ==> {
                let i = #[trigger] rank(blocks, entry, c) as int;
                &&& kept@[i].statements == blocks[c].statements
                &&& kept@[i].terminator == renumbered(blocks, entry, blocks[c].terminator)
                &&& kept@[i].terminator_span == blocks[c].terminator_span
            },
            forall|i: int| 0 <= i < kept@.len() ==> #[trigger] rank_taken(blocks, entry, b as int, i),
        decreases n - b,
    {
        if mapping[b].is_some() {
            let mut basic = placeholder_block();
            function.blocks.set_and_swap(b, &mut basic);
            proof {
                assert forall|k: int| 0 <= k < spec_successors(basic.terminator).len() implies {
                    let t = #[trigger] spec_successors(basic.terminator)[k] as int;
                    0 <= t < blocks.len() && reaches(blocks, entry, t)
                } by {
                    let t = spec_successors(basic.terminator)[k] as int;
                    assert(spec_successors(blocks[b as int].terminator)[k] < n);
                    assert(spec_successors(blocks[b as int].terminator).contains(t as BlockId));
                    lemma_step_reaches(blocks, entry, b as int, t);
                }
            }
            let terminator = renumber(basic.terminator, &mapping, Ghost(blocks), Ghost(entry));
            let BasicBlock { statements, terminator_span, .. } = basic;
            let ghost before = kept@;
            kept.push(BasicBlock { statements, terminator, terminator_span });
            proof {
                assert forall|c: int| 0 <= c < b + 1 && reaches(blocks, entry, c) implies {
                    let i = #[trigger] rank(blocks, entry, c) as int;
                    &&& kept@[i].statements == blocks[c].statements
                    &&& kept@[i].terminator == renumbered(blocks, entry, blocks[c].terminator)
                    &&& kept@[i].terminator_span == blocks[c].terminator_span
                } by {
                    if c < b {
                        lemma_rank_monotone(blocks, entry, c, b as int);
                        assert(kept@[rank(blocks, entry, c) as int] == before[rank(blocks, entry, c) as int]);
                    }
                }
                assert forall|i: int| 0 <= i < kept@.len() implies #[trigger] rank_taken(blocks, entry, b + 1, i) by {
                    if i < before.len() {
                        assert(rank_taken(blocks, entry, b as int, i));
                        let c = choose|c: int| 0 <= c < b && reaches(blocks, entry, c) && rank(blocks, entry, c) == i;
                        assert(rank(blocks, entry, c) == i);
                    } else {
                        assert(rank(blocks, entry, b as int) == i);
                    }
                }
            }
        } else {
            proof {
                assert forall|i: int| 0 <= i < kept@.len() implies #[trigger] rank_taken(blocks, entry, b + 1, i) by {
                    assert(rank_taken(blocks, entry, b as int, i));
                    let c = choose|c: int| 0 <= c < b && reaches(blocks, entry, c) && rank(blocks, entry, c) == i;
                    assert(rank(blocks, entry, c) == i);
                }
            }
        }
        b += 1;
    }
    let new_entry = mapping[function.entry].unwrap();
    function.entry = new_entry;
    function.blocks = kept;
    proof {
        lemma_rank_monotone(blocks, entry, entry, n as int);
        lemma_renumbered_in_range(blocks, entry, function.blocks@);
    }
    true
}

/// Some reachable block among the first `limit` gets index `i`.
pub open spec fn rank_taken(blocks: Seq<BasicBlock>, entry: int, limit: int, i: int) -> bool {
    exists|b: int| 0 <= b < limit && reaches(blocks, entry, b) && rank(blocks, entry, b) == i
}

proof fn lemma_kept_volatiles(blocks: Seq<BasicBlock>, entry: int, kept: Seq<BasicBlock>, count: int)
    requires
        0 <= count <= blocks.len(),
        kept.len() == rank(blocks, entry, blocks.len() as int),
        forall|b: int| 0 <= b < blocks.len() && reaches(blocks, entry, b) ==> {
            let i = #[trigger] rank(blocks, entry, b) as int;
            kept[i].statements == blocks[b].statements
        },
    ensures
        volatile_total(kept, rank(blocks, entry, count) as int) <= volatile_total(blocks, count),
    decreases count,
{
    if count > 0 {
        lemma_kept_volatiles(blocks, entry, kept, count - 1);
        if reaches(blocks, entry, count - 1) {
            lemma_rank_monotone(blocks, entry, count, blocks.len() as int);
            let i = rank(blocks, entry, count - 1) as int;
            assert(kept[i].statements == blocks[count - 1].statements);
        }
    }
}

#[verifier::spinoff_prover]
#[verifier::rlimit(40)]
proof fn lemma_renumbered_in_range(blocks: Seq<BasicBlock>, entry: int, kept: Seq<BasicBlock>)
    requires
        targets_in_range(blocks),
        kept.len() == rank(blocks, entry, blocks.len() as int),
        forall|b: int| 0 <= b < blocks.len() && reaches(blocks, entry, b) ==> {
            let i = #[trigger] rank(blocks, entry, b) as int;
            kept[i].terminator == renumbered(blocks, entry, blocks[b].terminator)
        },
        forall|i: int| 0 <= i < kept.len() ==> #[trigger] rank_taken(blocks, entry, blocks.len() as int, i),
    ensures
        targets_in_range(kept),
{
    let n = blocks.len() as int;
    assert forall|c: int, k: int|
        0 <= c < kept.len() && 0 <= k < spec_successors(kept[c].terminator).len()
            implies #[trigger] spec_successors(kept[c].terminator)[k] < kept.len() by {
        assert(rank_taken(blocks, entry, n, c));
        let b = choose|b: int| 0 <= b < n && reaches(blocks, entry, b) && rank(blocks, entry, b) == c;
        let t = spec_successors(blocks[b].terminator)[k] as int;
        match blocks[b].terminator {
            Terminator::Goto(x) => {
                assert(spec_successors(blocks[b].terminator)[0] == x);
            },
            Terminator::Branch { then_block, else_block, .. } => {
                assert(spec_successors(blocks[b].terminator)[0] == then_block);
                assert(spec_successors(blocks[b].terminator)[1] == else_block);
            },
            _ => {},
        }
        assert(spec_successors(blocks[b].terminator)[k] < n);
        assert(spec_successors(blocks[b].terminator).contains(t as BlockId));
        lemma_step_reaches(blocks, entry, b, t);
        lemma_rank_monotone(blocks, entry, t, n);
    }
}

proof fn lemma_nothing_to_remove(blocks: Seq<BasicBlock>, entry: int)
    requires
        forall|c: int| 0 <= c < blocks.len() ==> reaches(blocks, entry, c),
        0 <= entry < blocks.len(),
        targets_in_range(blocks),
    ensures
        rank(blocks, entry, blocks.len() as int) == blocks.len(),
        forall|i: int| 0 <= i < blocks.len() ==> #[trigger] rank_taken(blocks, entry, blocks.len() as int, i),
        forall|b: int| 0 <= b < blocks.len() ==> #[trigger] rank(blocks, entry, b) == b
            && renumbered(blocks, entry, blocks[b].terminator) == blocks[b].terminator,
        rank(blocks, entry, entry) == entry,
{
    let n = blocks.len() as int;
    lemma_rank_identity(blocks, entry, n);
    assert forall|i: int| 0 <= i < n implies #[trigger] rank_taken(blocks, entry, n, i) by {
        lemma_rank_identity(blocks, entry, i);
        assert(rank(blocks, entry, i) == i);
    }
    assert forall|b: int| 0 <= b < n implies #[trigger] rank(blocks, entry, b) == b
        && renumbered(blocks, entry, blocks[b].terminator) == blocks[b].terminator by {
        lemma_rank_identity(blocks, entry, b);
        match blocks[b].terminator {
            Terminator::Goto(t) => {
                assert(spec_successors(blocks[b].terminator)[0] == t);
                lemma_rank_identity(blocks, entry, t as int);
            },
            Terminator::Branch { then_block, else_block, .. } => {
                assert(spec_successors(blocks[b].terminator)[0] == then_block);
                assert(spec_successors(blocks[b].terminator)[1] == else_block);
                lemma_rank_identity(blocks, entry, then_block as int);
                lemma_rank_identity(blocks, entry, else_block as int);
            },
            _ => {},
        }
    }
    lemma_rank_identity(blocks, entry, entry);
}

proof fn lemma_rank_identity(blocks: Seq<BasicBlock>, entry: int, b: int)
    requires
        0 <= b <= blocks.len(),
        forall|c: int| 0 <= c < blocks.len() ==> reaches(blocks, entry, c),
    ensures
        rank(blocks, entry, b) == b,
    decreases b,
{
    if b > 0 {
        lemma_rank_identity(blocks, entry, b - 1);
    }
}


// --------------------------------------------------------------- pipeline

/// At most `b` of the first `b` blocks are reachable.
proof fn lemma_rank_bounded(blocks: Seq<BasicBlock>, entry: int, b: int)
    requires
        0 <= b,
    ensures
        rank(blocks, entry, b) <= b,
    decreases b,
{
    if b > 0 {
        lemma_rank_bounded(blocks, entry, b - 1);
    }
}

/// Simplifies control flow without moving any statement across a branch:
/// a `goto` through an empty block goes straight to where that block goes,
/// a block with one predecessor that jumps to it is merged into that
/// predecessor, and blocks nothing reaches are removed and the rest
/// renumbered. No volatile access is added; one is lost only with a block
/// nothing reaches, where it was never going to happen.
pub fn simplify_cfg(function: &mut MirFunction) -> (changed: bool)
    requires
        targets_in_range(old(function).blocks@),
        old(function).entry < old(function).blocks@.len(),
    ensures
        targets_in_range(final(function).blocks@),
        final(function).entry < final(function).blocks@.len(),
        final(function).blocks@.len() <= old(function).blocks@.len(),
        final(function).name == old(function).name,
        final(function).params == old(function).params,
        final(function).locals == old(function).locals,
        !changed ==> final(function).blocks@.len() == old(function).blocks@.len(),
        volatile_count(*final(function)) <= volatile_count(*old(function)),
        simplified(*old(function), *final(function), changed),
{
    let ghost original = *function;
    let threaded = thread_gotos(function);
    proof {
        lemma_totals_agree(original.blocks@, function.blocks@, original.blocks@.len() as int);
    }
    let ghost after_threading = *function;
    let merged = merge_linear_chains(function);
    let ghost before = *function;
    let removed = remove_unreachable_blocks(function);
    assert(thread_pass(original, after_threading, threaded));
    proof {
        lemma_rank_bounded(before.blocks@, before.entry as int, before.blocks@.len() as int);
        lemma_kept_volatiles(before.blocks@, before.entry as int, function.blocks@, before.blocks@.len() as int);
    }
    threaded || merged || removed
}

/// `new` is what `simplify_cfg` makes of `old`: jumps threaded, chains
/// merged, unreachable blocks removed, and `changed` when any of the three
/// changed something.
pub open spec fn simplified(old: MirFunction, new: MirFunction, changed: bool) -> bool {
    exists|threaded_fn: MirFunction, merged_fn: MirFunction, t: bool, m: bool, r: bool|
        {
            &&& #[trigger] thread_pass(old, threaded_fn, t)
            &&& #[trigger] merge_pass(threaded_fn, merged_fn, m)
            &&& #[trigger] prune_pass(merged_fn, new, r)
            &&& changed == (t || m || r)
        }
}

/// What dead code elimination makes of one function (see
/// `eliminate_dead_code`).
pub open spec fn dce_pass(old: MirFunction, new: MirFunction, changed: bool) -> bool {
    &&& eliminated(old, new)
    &&& no_dead_code(new)
    &&& (!changed ==> unchanged_blocks(old.blocks@, new.blocks@))
    &&& volatile_count(new) == volatile_count(old)
}

/// What constant propagation makes of one function that it finishes (see
/// `propagate_constants`).
pub open spec fn propagation_pass(old: MirFunction, new: MirFunction, changed: bool) -> bool {
    &&& propagated(old, new)
    &&& settled_rewrite(old, new)
    &&& (!changed ==> unchanged_blocks(old.blocks@, new.blocks@))
    &&& volatile_count(new) == volatile_count(old)
}

/// `new` has the functions and tests of `old` in the same places, under the
/// same names, and the same externs and types.
pub open spec fn module_frame(old: MirModule, new: MirModule) -> bool {
    &&& new.functions@.len() == old.functions@.len()
    &&& new.tests@.len() == old.tests@.len()
    &&& new.externs == old.externs
    &&& new.structs == old.structs
    &&& new.enums == old.enums
    &&& forall|k: int|
        0 <= k < old.tests@.len() ==> (#[trigger] new.tests@[k]).name == old.tests@[k].name && new.tests@[k].emit
            == old.tests@[k].emit
}

/// Each function of `new` is `step` applied to the one of `old` in its place,
/// with `fc` (functions) and `tc` (tests) saying which of them changed.
pub open spec fn stepped(
    old: MirModule,
    new: MirModule,
    fc: Seq<bool>,
    tc: Seq<bool>,
    step: spec_fn(MirFunction, MirFunction, bool) -> bool,
) -> bool {
    &&& module_frame(old, new)
    &&& fc.len() == old.functions@.len()
    &&& tc.len() == old.tests@.len()
    &&& forall|k: int| 0 <= k < old.functions@.len() ==> step(old.functions@[k], #[trigger] new.functions@[k], fc[k])
    &&& forall|k: int|
        0 <= k < old.tests@.len() ==> step(old.tests@[k].function, #[trigger] new.tests@[k].function, tc[k])
}

/// Each function of `new` is `simplify_cfg` applied to the one of `old`.
#[verifier::opaque]
pub open spec fn module_simplified(old: MirModule, new: MirModule, fc: Seq<bool>, tc: Seq<bool>) -> bool {
    stepped(old, new, fc, tc, |a: MirFunction, b: MirFunction, c: bool| simplified(a, b, c))
}

/// Each function of `new` is `eliminate_dead_code` applied to the one of
/// `old`.
#[verifier::opaque]
pub open spec fn module_eliminated(old: MirModule, new: MirModule, fc: Seq<bool>, tc: Seq<bool>) -> bool {
    stepped(old, new, fc, tc, |a: MirFunction, b: MirFunction, c: bool| dce_pass(a, b, c))
}

/// Each function of `new` is `propagate_constants` applied to the one of
/// `old`.
#[verifier::opaque]
pub open spec fn module_propagated(old: MirModule, new: MirModule, fc: Seq<bool>, tc: Seq<bool>) -> bool {
    stepped(old, new, fc, tc, |a: MirFunction, b: MirFunction, c: bool| propagation_pass(a, b, c))
}

/// Every function of `m` starts at a block it has and jumps only to blocks
/// it has.
pub open spec fn runnable(m: MirModule) -> bool {
    forall|k: int|
        0 <= k < all_functions(m).len() ==> {
            &&& (#[trigger] all_functions(m)[k]).entry < all_functions(m)[k].blocks@.len()
            &&& targets_in_range(all_functions(m)[k].blocks@)
        }
}

/// A module the verifier finds nothing wrong with can be run through every
/// pass.
pub proof fn lemma_clean_module_runnable(m: MirModule)
    requires
        module_reports(m).len() == 0,
    ensures
        runnable(m),
{
    let fs = all_functions(m);
    let n = fs.len() as int;
    assert(verify::shape_reports(fs, n).len() == 0);
    assert forall|k: int| 0 <= k < n implies {
        &&& (#[trigger] all_functions(m)[k]).entry < all_functions(m)[k].blocks@.len()
        &&& targets_in_range(all_functions(m)[k].blocks@)
    } by {
        verify::lemma_shapes_clean(fs, n, k);
        verify::lemma_clean_function(fs[k]);
    }
}

/// `b` has the functions of `a`, none of them with more blocks.
pub open spec fn no_larger(a: MirModule, b: MirModule) -> bool {
    &&& b.functions@.len() == a.functions@.len()
    &&& b.tests@.len() == a.tests@.len()
    &&& forall|k: int|
        0 <= k < a.functions@.len() ==> (#[trigger] b.functions@[k]).blocks@.len()
            <= a.functions@[k].blocks@.len()
    &&& forall|k: int|
        0 <= k < a.tests@.len() ==> (#[trigger] b.tests@[k]).function.blocks@.len()
            <= a.tests@[k].function.blocks@.len()
}

/// Where the functions are `functions` followed by the tests' functions.
pub proof fn lemma_all_functions_index(m: MirModule, k: int)
    requires
        0 <= k < all_functions(m).len(),
    ensures
        all_functions(m).len() == m.functions@.len() + m.tests@.len(),
        k < m.functions@.len() ==> all_functions(m)[k] == m.functions@[k],
        k >= m.functions@.len() ==> all_functions(m)[k] == m.tests@[k - m.functions@.len()].function,
{
}

/// A module no larger than one that fits in a machine word fits too.
proof fn lemma_no_larger_addressable(a: MirModule, b: MirModule)
    requires
        addressable(a),
        no_larger(a, b),
    ensures
        addressable(b),
{
    assert(all_functions(b).len() == all_functions(a).len());
    assert forall|k: int| 0 <= k < all_functions(b).len() implies 2 * (#[trigger] all_functions(
        b,
    )[k]).blocks@.len() <= usize::MAX by {
        lemma_all_functions_index(a, k);
        lemma_all_functions_index(b, k);
    }
}

/// Constant propagation over every function and test.
fn propagate_module(file: &str, module: &mut MirModule) -> (r: CompileResult<bool>)
    requires
        runnable(*old(module)),
    ensures
        no_larger(*old(module), *final(module)),
        final(module).externs == old(module).externs,
        module_frame(*old(module), *final(module)),
        r matches Ok(changed) ==> exists|fc: Seq<bool>, tc: Seq<bool>|
            {
                &&& #[trigger] module_propagated(*old(module), *final(module), fc, tc)
                &&& (changed <==> (fc.contains(true) || tc.contains(true)))
            },
        r matches Err(errors) ==> {
            &&& errors@.len() == 1
            &&& errors@[0].code@ == codes::INTERNAL@
            &&& errors@[0].message@ == unsettled_text((MAX_ROUNDS * 4) as usize)
            &&& exists|k: int|
                0 <= k < all_functions(*old(module)).len() && errors@[0].span == (#[trigger] all_functions(
                    *old(module),
                )[k]).span && fails_to_settle(all_functions(*old(module))[k])
        },
{
    let ghost mut fc: Seq<bool> = Seq::empty();
    let ghost mut tc: Seq<bool> = Seq::empty();
    let mut changed = false;
    let mut k: usize = 0;
    while k < module.functions.len()
        invariant
            k <= module.functions@.len(),
            runnable(*old(module)),
            no_larger(*old(module), *module),
            module.externs == old(module).externs,
            module.structs == old(module).structs,
            module.enums == old(module).enums,
            module.tests == old(module).tests,
            module.functions@.len() == old(module).functions@.len(),
            forall|j: int| k <= j < module.functions@.len() ==> module.functions@[j] == old(module).functions@[j],
            fc.len() == k,
            forall|j: int|
                0 <= j < k ==> propagation_pass(old(module).functions@[j], #[trigger] module.functions@[j], fc[j]),
            changed <==> fc.contains(true),
        decreases module.functions@.len() - k,
    {
        proof {
            lemma_all_functions_index(*old(module), k as int);
            assert(all_functions(*old(module))[k as int] == old(module).functions@[k as int]);
        }
        match propagate_constants(file, &mut module.functions[k]) {
            Ok(c) => {
                proof {
                    let next = fc.push(c);
                    if c {
                        assert(next[k as int] == true);
                    } else {
                        assert(next.drop_last() =~= fc);
                        assert(next.contains(true) ==> fc.contains(true));
                    }
                    fc = next;
                }
                changed = changed || c;
            },
            Err(e) => {
                return Err(e);
            },
        }
        k += 1;
    }
    let mut k: usize = 0;
    while k < module.tests.len()
        invariant
            k <= module.tests@.len(),
            runnable(*old(module)),
            no_larger(*old(module), *module),
            module.externs == old(module).externs,
            module.structs == old(module).structs,
            module.enums == old(module).enums,
            module.functions@.len() == old(module).functions@.len(),
            module.tests@.len() == old(module).tests@.len(),
            forall|j: int| k <= j < module.tests@.len() ==> module.tests@[j] == old(module).tests@[j],
            forall|j: int|
                0 <= j < k ==> (#[trigger] module.tests@[j]).name == old(module).tests@[j].name && module.tests@[j].emit
                    == old(module).tests@[j].emit,
            fc.len() == module.functions@.len(),
            forall|j: int|
                0 <= j < module.functions@.len() ==> propagation_pass(old(module).functions@[j], #[trigger] module.functions@[j], fc[j]),
            tc.len() == k,
            forall|j: int|
                0 <= j < k ==> propagation_pass(old(module).tests@[j].function, #[trigger] module.tests@[j].function, tc[j]),
            changed <==> (fc.contains(true) || tc.contains(true)),
        decreases module.tests@.len() - k,
    {
        proof {
            let at = old(module).functions@.len() + k;
            lemma_all_functions_index(*old(module), at);
            assert(all_functions(*old(module))[at] == old(module).tests@[k as int].function);
        }
        match propagate_constants(file, &mut module.tests[k].function) {
            Ok(c) => {
                proof {
                    let next = tc.push(c);
                    if c {
                        assert(next[k as int] == true);
                    } else {
                        assert(next.drop_last() =~= tc);
                        assert(next.contains(true) ==> tc.contains(true));
                    }
                    tc = next;
                }
                changed = changed || c;
            },
            Err(e) => {
                return Err(e);
            },
        }
        k += 1;
    }
    assert(module_propagated(*old(module), *module, fc, tc)) by {
        reveal(module_propagated);
    }
    Ok(changed)
}

/// CFG simplification over every function and test.
fn simplify_module(module: &mut MirModule) -> (changed: bool)
    requires
        runnable(*old(module)),
    ensures
        no_larger(*old(module), *final(module)),
        final(module).externs == old(module).externs,
        exists|fc: Seq<bool>, tc: Seq<bool>|
            {
                &&& #[trigger] module_simplified(*old(module), *final(module), fc, tc)
                &&& (changed <==> (fc.contains(true) || tc.contains(true)))
            },
{
    let ghost start = *module;
    let ghost mut fc: Seq<bool> = Seq::empty();
    let ghost mut tc: Seq<bool> = Seq::empty();
    let mut changed = false;
    let mut k: usize = 0;
    while k < module.functions.len()
        invariant
            k <= module.functions@.len(),
            start == *old(module),
            runnable(*old(module)),
            no_larger(*old(module), *module),
            module.externs == old(module).externs,
            module.structs == old(module).structs,
            module.enums == old(module).enums,
            module.tests == old(module).tests,
            module.functions@.len() == old(module).functions@.len(),
            forall|j: int| k <= j < module.functions@.len() ==> module.functions@[j] == old(module).functions@[j],
            fc.len() == k,
            forall|j: int| 0 <= j < k ==> simplified(old(module).functions@[j], #[trigger] module.functions@[j], fc[j]),
            changed <==> fc.contains(true),
        decreases module.functions@.len() - k,
    {
        proof {
            lemma_all_functions_index(*old(module), k as int);
            assert(all_functions(*old(module))[k as int] == old(module).functions@[k as int]);
        }
        let c = simplify_cfg(&mut module.functions[k]);
        proof {
            let next = fc.push(c);
            if c {
                assert(next[k as int] == true);
            } else {
                assert(next.drop_last() =~= fc);
                assert(next.contains(true) ==> fc.contains(true));
            }
            fc = next;
        }
        changed = changed || c;
        k += 1;
    }
    let mut k: usize = 0;
    while k < module.tests.len()
        invariant
            k <= module.tests@.len(),
            start == *old(module),
            runnable(*old(module)),
            no_larger(*old(module), *module),
            module.externs == old(module).externs,
            module.structs == old(module).structs,
            module.enums == old(module).enums,
            module.functions@.len() == old(module).functions@.len(),
            module.tests@.len() == old(module).tests@.len(),
            forall|j: int| k <= j < module.tests@.len() ==> module.tests@[j] == old(module).tests@[j],
            forall|j: int|
                0 <= j < k ==> (#[trigger] module.tests@[j]).name == old(module).tests@[j].name && module.tests@[j].emit
                    == old(module).tests@[j].emit,
            fc.len() == module.functions@.len(),
            forall|j: int| 0 <= j < module.functions@.len() ==> simplified(old(module).functions@[j], #[trigger] module.functions@[j], fc[j]),
            tc.len() == k,
            forall|j: int| 0 <= j < k ==> simplified(old(module).tests@[j].function, #[trigger] module.tests@[j].function, tc[j]),
            changed <==> (fc.contains(true) || tc.contains(true)),
        decreases module.tests@.len() - k,
    {
        proof {
            let at = old(module).functions@.len() + k;
            lemma_all_functions_index(*old(module), at);
            assert(all_functions(*old(module))[at] == old(module).tests@[k as int].function);
        }
        let c = simplify_cfg(&mut module.tests[k].function);
        proof {
            let next = tc.push(c);
            if c {
                assert(next[k as int] == true);
            } else {
                assert(next.drop_last() =~= tc);
                assert(next.contains(true) ==> tc.contains(true));
            }
            tc = next;
        }
        changed = changed || c;
        k += 1;
    }
    assert(module_simplified(*old(module), *module, fc, tc)) by {
        reveal(module_simplified);
    }
    changed
}

/// Dead code elimination over every function and test.
fn eliminate_module(module: &mut MirModule) -> (changed: bool)
    ensures
        no_larger(*old(module), *final(module)),
        final(module).externs == old(module).externs,
        exists|fc: Seq<bool>, tc: Seq<bool>|
            {
                &&& #[trigger] module_eliminated(*old(module), *final(module), fc, tc)
                &&& (changed <==> (fc.contains(true) || tc.contains(true)))
            },
{
    let ghost start = *module;
    let ghost mut fc: Seq<bool> = Seq::empty();
    let ghost mut tc: Seq<bool> = Seq::empty();
    let mut changed = false;
    let mut k: usize = 0;
    while k < module.functions.len()
        invariant
            k <= module.functions@.len(),
            start == *old(module),
            no_larger(*old(module), *module),
            module.externs == old(module).externs,
            module.structs == old(module).structs,
            module.enums == old(module).enums,
            module.tests == old(module).tests,
            module.functions@.len() == old(module).functions@.len(),
            forall|j: int| k <= j < module.functions@.len() ==> module.functions@[j] == old(module).functions@[j],
            fc.len() == k,
            forall|j: int| 0 <= j < k ==> dce_pass(old(module).functions@[j], #[trigger] module.functions@[j], fc[j]),
            changed <==> fc.contains(true),
        decreases module.functions@.len() - k,
    {
        let c = eliminate_dead_code(&mut module.functions[k]);
        proof {
            let next = fc.push(c);
            if c {
                assert(next[k as int] == true);
            } else {
                assert(next.drop_last() =~= fc);
                assert(next.contains(true) ==> fc.contains(true));
            }
            fc = next;
        }
        changed = changed || c;
        k += 1;
    }
    let mut k: usize = 0;
    while k < module.tests.len()
        invariant
            k <= module.tests@.len(),
            start == *old(module),
            no_larger(*old(module), *module),
            module.externs == old(module).externs,
            module.structs == old(module).structs,
            module.enums == old(module).enums,
            module.functions@.len() == old(module).functions@.len(),
            module.tests@.len() == old(module).tests@.len(),
            forall|j: int| k <= j < module.tests@.len() ==> module.tests@[j] == old(module).tests@[j],
            forall|j: int|
                0 <= j < k ==> (#[trigger] module.tests@[j]).name == old(module).tests@[j].name && module.tests@[j].emit
                    == old(module).tests@[j].emit,
            fc.len() == module.functions@.len(),
            forall|j: int| 0 <= j < module.functions@.len() ==> dce_pass(old(module).functions@[j], #[trigger] module.functions@[j], fc[j]),
            tc.len() == k,
            forall|j: int| 0 <= j < k ==> dce_pass(old(module).tests@[j].function, #[trigger] module.tests@[j].function, tc[j]),
            changed <==> (fc.contains(true) || tc.contains(true)),
        decreases module.tests@.len() - k,
    {
        let c = eliminate_dead_code(&mut module.tests[k].function);
        proof {
            let next = tc.push(c);
            if c {
                assert(next[k as int] == true);
            } else {
                assert(next.drop_last() =~= tc);
                assert(next.contains(true) ==> tc.contains(true));
            }
            tc = next;
        }
        changed = changed || c;
        k += 1;
    }
    assert(module_eliminated(*old(module), *module, fc, tc)) by {
        reveal(module_eliminated);
    }
    changed
}

/// `errors` are what the verifier says of `m` after the pass `phase`, and it
/// says something.
pub open spec fn refused(file: Seq<char>, m: MirModule, phase: Seq<char>, errors: Seq<Diagnostic>) -> bool {
    &&& module_reports(m).len() > 0
    &&& errors.len() == module_reports(m).len()
    &&& forall|i: int|
        0 <= i < errors.len() ==> verify::reports(
            #[trigger] errors[i],
            file,
            Some(phase),
            module_reports(m)[i].0,
            module_reports(m)[i].1,
        )
}

/// `errors` is the one diagnostic of constant propagation left unsettled in
/// some function of `m`.
pub open spec fn unsettled(m: MirModule, errors: Seq<Diagnostic>) -> bool {
    &&& errors.len() == 1
    &&& errors[0].code@ == codes::INTERNAL@
    &&& errors[0].message@ == unsettled_text((MAX_ROUNDS * 4) as usize)
    &&& exists|k: int|
        0 <= k < all_functions(m).len() && errors[0].span == (#[trigger] all_functions(m)[k]).span && fails_to_settle(
            all_functions(m)[k],
        )
}

/// One round of the pipeline takes `a` to `b`, the verifier accepting what
/// each pass leaves, and `changed` says whether a pass changed something.
#[verifier::opaque]
pub open spec fn optimization_round(a: MirModule, b: MirModule, changed: bool) -> bool {
    exists|
        m1: MirModule,
        m2: MirModule,
        f1: Seq<bool>,
        t1: Seq<bool>,
        f2: Seq<bool>,
        t2: Seq<bool>,
        f3: Seq<bool>,
        t3: Seq<bool>,
    |
        #![trigger module_propagated(a, m1, f1, t1), module_simplified(m1, m2, f2, t2), module_eliminated(m2, b, f3, t3)]
        {
            &&& module_propagated(a, m1, f1, t1)
            &&& module_reports(m1).len() == 0
            &&& module_simplified(m1, m2, f2, t2)
            &&& module_reports(m2).len() == 0
            &&& module_eliminated(m2, b, f3, t3)
            &&& module_reports(b).len() == 0
            &&& changed == (f1.contains(true) || t1.contains(true) || f2.contains(true) || t2.contains(true)
                || f3.contains(true) || t3.contains(true))
        }
}

/// A round that starts from `a` ends in `errors`, leaving `b`: propagation
/// does not settle (and `b` has the functions of `a` in their places), or the
/// verifier refuses what a pass leaves, and `b` is that.
#[verifier::opaque]
pub open spec fn round_failed(file: Seq<char>, a: MirModule, b: MirModule, errors: Seq<Diagnostic>) -> bool {
    ||| unsettled(a, errors) && module_frame(a, b)
    ||| exists|m1: MirModule, f1: Seq<bool>, t1: Seq<bool>|
        #[trigger] module_propagated(a, m1, f1, t1) && refused(file, m1, "constant propagation"@, errors) && b == m1
    ||| exists|m1: MirModule, m2: MirModule, f1: Seq<bool>, t1: Seq<bool>, f2: Seq<bool>, t2: Seq<bool>|
        #![trigger module_propagated(a, m1, f1, t1), module_simplified(m1, m2, f2, t2)]
        {
            &&& module_propagated(a, m1, f1, t1)
            &&& module_reports(m1).len() == 0
            &&& module_simplified(m1, m2, f2, t2)
            &&& refused(file, m2, "CFG simplification"@, errors)
            &&& b == m2
        }
    ||| exists|
        m1: MirModule,
        m2: MirModule,
        m3: MirModule,
        f1: Seq<bool>,
        t1: Seq<bool>,
        f2: Seq<bool>,
        t2: Seq<bool>,
        f3: Seq<bool>,
        t3: Seq<bool>,
    |
        #![trigger module_propagated(a, m1, f1, t1), module_simplified(m1, m2, f2, t2), module_eliminated(m2, m3, f3, t3)]
        {
            &&& module_propagated(a, m1, f1, t1)
            &&& module_reports(m1).len() == 0
            &&& module_simplified(m1, m2, f2, t2)
            &&& module_reports(m2).len() == 0
            &&& module_eliminated(m2, m3, f3, t3)
            &&& refused(file, m3, "dead code elimination"@, errors)
            &&& b == m3
        }
}

/// Three passes that the verifier accepts make a round.
proof fn lemma_round(
    a: MirModule,
    m1: MirModule,
    m2: MirModule,
    b: MirModule,
    f1: Seq<bool>,
    t1: Seq<bool>,
    f2: Seq<bool>,
    t2: Seq<bool>,
    f3: Seq<bool>,
    t3: Seq<bool>,
    changed: bool,
)
    requires
        module_propagated(a, m1, f1, t1),
        module_reports(m1).len() == 0,
        module_simplified(m1, m2, f2, t2),
        module_reports(m2).len() == 0,
        module_eliminated(m2, b, f3, t3),
        module_reports(b).len() == 0,
        changed == (f1.contains(true) || t1.contains(true) || f2.contains(true) || t2.contains(true)
            || f3.contains(true) || t3.contains(true)),
    ensures
        optimization_round(a, b, changed),
{
    reveal(optimization_round);
}

/// Each way a round can end in errors is a failed round.
proof fn lemma_round_failed(
    file: Seq<char>,
    a: MirModule,
    m1: MirModule,
    m2: MirModule,
    m3: MirModule,
    f1: Seq<bool>,
    t1: Seq<bool>,
    f2: Seq<bool>,
    t2: Seq<bool>,
    f3: Seq<bool>,
    t3: Seq<bool>,
    stage: int,
    errors: Seq<Diagnostic>,
    b: MirModule,
)
    requires
        stage == 0 ==> unsettled(a, errors) && module_frame(a, b),
        stage == 1 ==> b == m1,
        stage == 2 ==> b == m2,
        stage == 3 ==> b == m3,
        stage >= 1 ==> module_propagated(a, m1, f1, t1),
        stage == 1 ==> refused(file, m1, "constant propagation"@, errors),
        stage >= 2 ==> module_reports(m1).len() == 0 && module_simplified(m1, m2, f2, t2),
        stage == 2 ==> refused(file, m2, "CFG simplification"@, errors),
        stage >= 3 ==> module_reports(m2).len() == 0 && module_eliminated(m2, m3, f3, t3),
        stage == 3 ==> refused(file, m3, "dead code elimination"@, errors),
        0 <= stage <= 3,
    ensures
        round_failed(file, a, b, errors),
{
    reveal(round_failed);
}

/// `ms` are the modules after each round, `cs` whether each round changed
/// something; a round follows only one that did.
pub open spec fn rounds_run(ms: Seq<MirModule>, cs: Seq<bool>) -> bool {
    &&& ms.len() == cs.len() + 1
    &&& forall|i: int|
        #![trigger cs[i]]
        0 <= i < cs.len() ==> optimization_round(ms[i], ms[i + 1], cs[i]) && (i < cs.len() - 1 ==> cs[i])
}

/// What the pipeline does with `old` in at most `rounds` rounds: it inlines,
/// then runs rounds while they change something, and ends `Ok` with the last
/// module, or with the first refusal.
pub open spec fn optimized(file: Seq<char>, old: MirModule, new: MirModule, rounds: int, r: CompileResult<()>) -> bool {
    match r {
        Ok(()) => exists|ms: Seq<MirModule>, cs: Seq<bool>|
            {
                &&& #[trigger] rounds_run(ms, cs)
                &&& inline::inlined_module(old, ms[0])
                &&& module_reports(ms[0]).len() == 0
                &&& ms.last() == new
                &&& cs.len() <= rounds
                &&& (cs.len() == rounds || (cs.len() > 0 && !cs.last()))
            },
        Err(errors) => {
            ||| inline::inlined_module(old, new) && refused(file, new, "inlining"@, errors@)
            ||| exists|ms: Seq<MirModule>, cs: Seq<bool>|
                {
                    &&& #[trigger] rounds_run(ms, cs)
                    &&& inline::inlined_module(old, ms[0])
                    &&& module_reports(ms[0]).len() == 0
                    &&& cs.len() < rounds
                    &&& (cs.len() == 0 || cs.last())
                    &&& round_failed(file, ms.last(), new, errors@)
                }
        },
    }
}

/// Runs the release pipeline for at most `rounds` rounds: inlining once,
/// then constant propagation, CFG simplification and dead code elimination
/// until a round changes nothing.
///
/// The MIR verifier runs after every pass, and the first pass whose output it
/// refuses ends the pipeline with the verifier's diagnostics, naming that
/// pass. Running out of rounds is not an error: every pass preserves what the
/// program does, so what the bound costs is optimization. Whatever comes back
/// `Ok` is a module the verifier accepts.
#[verifier::spinoff_prover]
pub fn optimize_within(file: &str, module: &mut MirModule, rounds: usize) -> (r: CompileResult<()>)
    requires
        addressable(*old(module)),
    ensures
        r is Ok ==> module_reports(*final(module)).len() == 0,
        optimized(file@, *old(module), *final(module), rounds as int, r),
{
    // Inlining runs first and once: it enlarges function bodies, and the
    // per-function passes are what clean up the result.
    inline::run(module);
    match verify::check(file, module, "inlining") {
        Ok(()) => {},
        Err(e) => {
            assert(refused(file@, *module, "inlining"@, e@));
            return Err(e);
        },
    }
    let ghost mut ms: Seq<MirModule> = seq![*module];
    let ghost mut cs: Seq<bool> = Seq::empty();
    let mut round: usize = 0;
    while round < rounds
        invariant
            addressable(*module),
            module_reports(*module).len() == 0,
            rounds_run(ms, cs),
            inline::inlined_module(*old(module), ms[0]),
            module_reports(ms[0]).len() == 0,
            ms.last() == *module,
            cs.len() == round,
            round <= rounds,
            cs.len() == 0 || cs.last(),
        decreases rounds - round,
    {
        let ghost start = *module;
        proof {
            lemma_clean_module_runnable(*module);
        }
        let ghost before = *module;
        let mut changed = match propagate_module(file, module) {
            Ok(c) => c,
            Err(e) => {
                proof {
                    assert(unsettled(start, e@));
                    lemma_round_failed(file@, start, start, start, start, Seq::<bool>::empty(), Seq::<bool>::empty(), Seq::<bool>::empty(), Seq::<bool>::empty(), Seq::<bool>::empty(), Seq::<bool>::empty(), 0, e@, *module);
                }
                return Err(e);
            },
        };
        let ghost m1 = *module;
        let ghost (f1, t1) = choose|fc: Seq<bool>, tc: Seq<bool>|
            module_propagated(start, m1, fc, tc) && (changed <==> (fc.contains(true) || tc.contains(true)));
        proof {
            lemma_no_larger_addressable(before, *module);
        }
        match verify::check(file, module, "constant propagation") {
            Ok(()) => {},
            Err(e) => {
                proof {
                    assert(refused(file@, m1, "constant propagation"@, e@));
                    lemma_round_failed(file@, start, m1, m1, m1, f1, t1, f1, t1, f1, t1, 1, e@, *module);
                }
                return Err(e);
            },
        }
        proof {
            lemma_clean_module_runnable(*module);
        }
        let ghost before = *module;
        let simplified = simplify_module(module);
        let ghost m2 = *module;
        let ghost (f2, t2) = choose|fc: Seq<bool>, tc: Seq<bool>|
            module_simplified(m1, m2, fc, tc) && (simplified <==> (fc.contains(true) || tc.contains(true)));
        changed = changed || simplified;
        proof {
            lemma_no_larger_addressable(before, *module);
        }
        match verify::check(file, module, "CFG simplification") {
            Ok(()) => {},
            Err(e) => {
                proof {
                    assert(refused(file@, m2, "CFG simplification"@, e@));
                    lemma_round_failed(file@, start, m1, m2, m2, f1, t1, f2, t2, f2, t2, 2, e@, *module);
                }
                return Err(e);
            },
        }
        let ghost before = *module;
        let eliminated = eliminate_module(module);
        let ghost m3 = *module;
        let ghost (f3, t3) = choose|fc: Seq<bool>, tc: Seq<bool>|
            module_eliminated(m2, m3, fc, tc) && (eliminated <==> (fc.contains(true) || tc.contains(true)));
        changed = changed || eliminated;
        proof {
            lemma_no_larger_addressable(before, *module);
        }
        match verify::check(file, module, "dead code elimination") {
            Ok(()) => {},
            Err(e) => {
                proof {
                    assert(refused(file@, m3, "dead code elimination"@, e@));
                    lemma_round_failed(file@, start, m1, m2, m3, f1, t1, f2, t2, f3, t3, 3, e@, *module);
                }
                return Err(e);
            },
        }
        proof {
            lemma_round(start, m1, m2, m3, f1, t1, f2, t2, f3, t3, changed);
            let next_ms = ms.push(m3);
            let next_cs = cs.push(changed);
            assert forall|i: int|
                #![trigger next_cs[i]]
                0 <= i < next_cs.len() implies optimization_round(next_ms[i], next_ms[i + 1], next_cs[i]) && (i
                    < next_cs.len() - 1 ==> next_cs[i]) by {
                if i < cs.len() {
                    assert(next_cs[i] == cs[i]);
                    assert(next_ms[i] == ms[i]);
                    assert(next_ms[i + 1] == ms[i + 1]);
                }
            }
            ms = next_ms;
            cs = next_cs;
        }
        round += 1;
        if !changed {
            assert(rounds_run(ms, cs));
            return Ok(());
        }
    }
    assert(rounds_run(ms, cs));
    Ok(())
}

/// Runs the release optimization pipeline (see [`optimize_within`]) with the
/// standard bound of `MAX_ROUNDS` rounds.
pub fn optimize(file: &str, module: &mut MirModule) -> (r: CompileResult<()>)
    requires
        addressable(*old(module)),
    ensures
        r is Ok ==> module_reports(*final(module)).len() == 0,
        optimized(file@, *old(module), *final(module), MAX_ROUNDS as int, r),
{
    optimize_within(file, module, MAX_ROUNDS)
}

// ------------------------------------------------------------------ stats

/// How big a module is: its functions (tests included), their blocks, and
/// the statements in those blocks.
#[derive(Clone, Copy, Debug, PartialEq, Eq, Structural)]
pub struct Stats {
    pub functions: usize,
    pub blocks: usize,
    pub statements: usize,
}

impl Default for Stats {
    fn default() -> (s: Stats)
        ensures
            s == (Stats { functions: 0, blocks: 0, statements: 0 }),
    {
        Stats { functions: 0, blocks: 0, statements: 0 }
    }
}

/// The blocks of the first `count` functions.
pub open spec fn block_total(fs: Seq<MirFunction>, count: int) -> nat
    decreases count,
{
    if count <= 0 {
        0
    } else {
        block_total(fs, count - 1) + fs[count - 1].blocks@.len()
    }
}

/// The statements of the first `count` functions.
pub open spec fn statement_total(fs: Seq<MirFunction>, count: int) -> nat
    decreases count,
{
    if count <= 0 {
        0
    } else {
        statement_total(fs, count - 1) + statement_count(fs[count - 1].blocks@, fs[count - 1].blocks@.len() as int)
    }
}

/// Counting statements over more blocks counts no fewer.
pub proof fn lemma_count_grows(blocks: Seq<BasicBlock>, i: int, j: int)
    requires
        0 <= i <= j,
    ensures
        statement_count(blocks, i) <= statement_count(blocks, j),
    decreases j,
{
    if i < j {
        lemma_count_grows(blocks, i, j - 1);
    }
}

proof fn lemma_totals_grow(fs: Seq<MirFunction>, i: int, j: int)
    requires
        0 <= i <= j,
    ensures
        block_total(fs, i) <= block_total(fs, j),
        statement_total(fs, i) <= statement_total(fs, j),
    decreases j,
{
    if i < j {
        lemma_totals_grow(fs, i, j - 1);
    }
}

/// Adds the size of `function` to `stats`.
fn tally(stats: &mut Stats, function: &MirFunction, Ghost(fs): Ghost<Seq<MirFunction>>, Ghost(k): Ghost<int>)
    requires
        0 <= k < fs.len(),
        fs[k] == *function,
        old(stats).functions == k,
        old(stats).blocks == block_total(fs, k),
        old(stats).statements == statement_total(fs, k),
        block_total(fs, fs.len() as int) <= usize::MAX,
        statement_total(fs, fs.len() as int) <= usize::MAX,
        fs.len() <= usize::MAX,
    ensures
        final(stats).functions == k + 1,
        final(stats).blocks == block_total(fs, k + 1),
        final(stats).statements == statement_total(fs, k + 1),
{
    proof {
        lemma_totals_grow(fs, k + 1, fs.len() as int);
    }
    stats.functions = stats.functions + 1;
    stats.blocks = stats.blocks + function.blocks.len();
    let mut b: usize = 0;
    while b < function.blocks.len()
        invariant
            b <= function.blocks@.len(),
            stats.functions == k + 1,
            stats.blocks == block_total(fs, k + 1),
            fs[k] == *function,
            stats.statements == statement_total(fs, k) + statement_count(function.blocks@, b as int),
            statement_total(fs, k + 1) <= usize::MAX,
            statement_total(fs, k + 1) == statement_total(fs, k) + statement_count(
                function.blocks@,
                function.blocks@.len() as int,
            ),
        decreases function.blocks@.len() - b,
    {
        proof {
            lemma_count_grows(function.blocks@, b + 1, function.blocks@.len() as int);
        }
        stats.statements = stats.statements + function.blocks[b].statements.len();
        b += 1;
    }
}

/// The size of `module`: how many functions (tests included), blocks and
/// statements it has.
pub fn stats(module: &MirModule) -> (s: Stats)
    requires
        all_functions(*module).len() <= usize::MAX,
        block_total(all_functions(*module), all_functions(*module).len() as int) <= usize::MAX,
        statement_total(all_functions(*module), all_functions(*module).len() as int) <= usize::MAX,
    ensures
        s.functions == all_functions(*module).len(),
        s.blocks == block_total(all_functions(*module), all_functions(*module).len() as int),
        s.statements == statement_total(all_functions(*module), all_functions(*module).len() as int),
{
    let ghost fs = all_functions(*module);
    let mut s = Stats::default();
    let mut k: usize = 0;
    while k < module.functions.len()
        invariant
            fs == all_functions(*module),
            k <= module.functions@.len(),
            s.functions == k,
            s.blocks == block_total(fs, k as int),
            s.statements == statement_total(fs, k as int),
            fs.len() <= usize::MAX,
            block_total(fs, fs.len() as int) <= usize::MAX,
            statement_total(fs, fs.len() as int) <= usize::MAX,
        decreases module.functions@.len() - k,
    {
        proof {
            lemma_all_functions_index(*module, k as int);
        }
        tally(&mut s, &module.functions[k], Ghost(fs), Ghost(k as int));
        k += 1;
    }
    let mut t: usize = 0;
    while t < module.tests.len()
        invariant
            fs == all_functions(*module),
            fs.len() == module.functions@.len() + module.tests@.len(),
            t <= module.tests@.len(),
            s.functions == module.functions@.len() + t,
            s.blocks == block_total(fs, module.functions@.len() + t),
            s.statements == statement_total(fs, module.functions@.len() + t),
            fs.len() <= usize::MAX,
            block_total(fs, fs.len() as int) <= usize::MAX,
            statement_total(fs, fs.len() as int) <= usize::MAX,
        decreases module.tests@.len() - t,
    {
        proof {
            lemma_all_functions_index(*module, module.functions@.len() + t);
        }
        tally(&mut s, &module.tests[t].function, Ghost(fs), Ghost(module.functions@.len() + t));
        t += 1;
    }
    s
}

} // verus!
