//! The mid-level IR: functions as control-flow graphs of basic blocks over
//! numbered locals.
use crate::ast::Type;
use crate::diagnostic::{no_span, Span};
use crate::text::push_char;
use vstd::prelude::*;

verus! {

pub type LocalId = usize;

pub type BlockId = usize;

#[derive(Clone, Debug)]
pub struct MirModule {
    pub functions: Vec<MirFunction>,
    /// The C functions this module calls. A call to one is an ordinary
    /// `Instruction::Call`; what this table decides is that the symbol is not
    /// mangled and the arguments are expanded rather than passed whole.
    pub externs: Vec<MirExtern>,
    pub tests: Vec<MirTest>,
    pub structs: Vec<MirStruct>,
    pub enums: Vec<MirEnum>,
}

#[derive(Clone, Debug)]
pub struct MirExtern {
    pub name: String,
    pub symbol: String,
    pub params: Vec<Type>,
    pub result: Type,
}

#[derive(Clone, Debug)]
pub struct MirStruct {
    pub name: String,
    pub fields: Vec<(String, Type)>,
    pub emit: bool,
}

#[derive(Clone, Debug)]
pub struct MirEnum {
    pub name: String,
    pub variants: Vec<MirVariant>,
    pub emit: bool,
}

#[derive(Clone, Debug)]
pub struct MirVariant {
    pub name: String,
    pub tag: usize,
    pub fields: Vec<(String, Type)>,
}

#[derive(Clone, Debug)]
pub struct MirTest {
    pub name: String,
    pub function: MirFunction,
    pub emit: bool,
}

#[derive(Clone, Debug)]
pub struct MirFunction {
    pub name: String,
    pub emit: bool,
    /// The `inline` annotation, carried to the optimizer and nowhere else.
    pub inline_hint: bool,
    pub params: Vec<LocalId>,
    pub return_type: Type,
    pub locals: Vec<MirLocal>,
    pub blocks: Vec<BasicBlock>,
    pub entry: BlockId,
    pub span: Span,
}

#[derive(Clone, Debug)]
pub struct MirLocal {
    pub ty: Type,
    pub name: Option<String>,
    pub is_param: bool,
}

#[derive(Clone, Debug)]
pub struct BasicBlock {
    pub statements: Vec<Statement>,
    pub terminator: Terminator,
    /// Source location of the construct that produced the terminator.
    pub terminator_span: Span,
}

/// One instruction together with the source it came from.
#[derive(Clone, Debug)]
pub struct Statement {
    pub instruction: Instruction,
    pub span: Span,
}

#[derive(Clone, Debug)]
pub enum Instruction {
    ConstInt { dst: LocalId, value: i64 },
    ConstFloat { dst: LocalId, bits: u64 },
    ConstBool { dst: LocalId, value: bool },
    /// The literal's bytes: any byte, because a `String` is a length and a
    /// buffer.
    StringNew { dst: LocalId, value: Vec<u8> },
    Assign { dst: LocalId, src: LocalId },
    AddressOf { dst: LocalId, src: LocalId },
    Binary { dst: LocalId, op: BinaryOp, lhs: LocalId, rhs: LocalId, ty: Type },
    Call {
        dst: LocalId,
        callee: String,
        args: Vec<LocalId>,
        arg_types: Vec<Type>,
        result: Type,
    },
    /// The address of a top-level function, as a value.
    FnAddr { dst: LocalId, symbol: String },
    /// A call through a local holding a function address.
    CallValue {
        dst: LocalId,
        callee: LocalId,
        args: Vec<LocalId>,
        arg_types: Vec<Type>,
        result: Type,
    },
    Drop { local: LocalId, ty: Type },
    StructNew { dst: LocalId, name: String, fields: Vec<LocalId> },
    FieldLoad { dst: LocalId, base: LocalId, index: usize },
    /// `dst = *src`, one machine word.
    Load { dst: LocalId, src: LocalId },
    /// `dst = base + index * 8`, the address of a struct field.
    FieldAddr { dst: LocalId, base: LocalId, index: usize },
    EnumNew { dst: LocalId, enum_name: String, tag: usize, fields: Vec<LocalId> },
    EnumTag { dst: LocalId, base: LocalId },
    EnumFieldLoad { dst: LocalId, base: LocalId, index: usize },
    /// `dst = base + (index + 1) * 8`, the address of an enum payload slot.
    EnumFieldAddr { dst: LocalId, base: LocalId, index: usize },
    /// `base.index = src`, one machine word into a struct field.
    FieldStore { base: LocalId, index: usize, src: LocalId },
    /// `base.(index + 1) = src`, one machine word into an enum payload slot.
    EnumFieldStore { base: LocalId, index: usize, src: LocalId },
    Free { local: LocalId },
    /// `dst = *(ty *) addr`, one volatile access of `ty`'s width.
    VolatileLoad { dst: LocalId, addr: LocalId, ty: Type },
    /// `*(ty *) addr = src`, one volatile access of `ty`'s width.
    VolatileStore { addr: LocalId, src: LocalId, ty: Type },
}

/// What `Instruction::Binary` does to its two operands.
#[derive(Clone, Copy, Debug, PartialEq, Eq, Structural)]
pub enum BinaryOp {
    Add,
    Sub,
    Mul,
    Div,
    /// Remainder, truncated so that `a = (a / b) * b + (a % b)`.
    Rem,
    Less,
    Greater,
    LessEqual,
    GreaterEqual,
    Equal,
    NotEqual,
    BitAnd,
    BitOr,
    BitXor,
    /// Left shift; bits leaving the top are lost, and only the count is
    /// checked.
    Shl,
    /// Right shift, arithmetic on a signed type and logical on an unsigned
    /// one.
    Shr,
}

#[derive(Clone, Copy, Debug, PartialEq, Eq, Structural)]
pub enum Terminator {
    Return(Option<LocalId>),
    Goto(BlockId),
    Branch { condition: LocalId, then_block: BlockId, else_block: BlockId },
    /// Control flow cannot reach the end of this block.
    Unreachable,
}

/// The instructions of a sequence of statements, without their locations.
pub open spec fn instructions_of(statements: Seq<Statement>) -> Seq<Instruction> {
    statements.map_values(|s: Statement| s.instruction)
}

impl BasicBlock {
    /// A block whose instructions have no source location.
    ///
    /// For passes and tests that synthesise blocks; lowering attaches real
    /// spans.
    pub fn synthetic(instructions: Vec<Instruction>, terminator: Terminator) -> (b: BasicBlock)
        ensures
            instructions_of(b.statements@) == instructions@,
            forall|i: int|
                0 <= i < b.statements@.len() ==> (#[trigger] b.statements@[i]).span == no_span(),
            b.terminator == terminator,
            b.terminator_span == no_span(),
    {
        let ghost original = instructions@;
        let mut rest = instructions;
        let mut reversed: Vec<Instruction> = Vec::new();
        while rest.len() > 0
            invariant
                original =~= rest@ + reversed@.reverse(),
            decreases rest.len(),
        {
            let ghost before = reversed@;
            let instruction = rest.pop().unwrap();
            reversed.push(instruction);
            assert(reversed@.reverse() =~= seq![instruction] + before.reverse());
        }
        let mut statements: Vec<Statement> = Vec::new();
        while reversed.len() > 0
            invariant
                original =~= instructions_of(statements@) + reversed@.reverse(),
                forall|i: int|
                    0 <= i < statements@.len() ==> (#[trigger] statements@[i]).span == no_span(),
            decreases reversed.len(),
        {
            let ghost before = reversed@;
            let instruction = reversed.pop().unwrap();
            assert(before.reverse() =~= seq![instruction] + reversed@.reverse());
            statements.push(Statement { instruction, span: Span::none() });
            assert(instructions_of(statements@) =~= instructions_of(
                statements@.drop_last(),
            ).push(instruction));
        }
        BasicBlock { statements, terminator, terminator_span: Span::none() }
    }

    /// The instructions in this block, without their source locations.
    pub fn instructions(&self) -> (r: Vec<&Instruction>)
        ensures
            r@.len() == self.statements@.len(),
            forall|i: int|
                0 <= i < r@.len() ==> *(#[trigger] r@[i]) == self.statements@[i].instruction,
    {
        let mut r: Vec<&Instruction> = Vec::new();
        let mut i: usize = 0;
        while i < self.statements.len()
            invariant
                i <= self.statements@.len(),
                r@.len() == i,
                forall|j: int| 0 <= j < i ==> *(#[trigger] r@[j]) == self.statements@[j].instruction,
            decreases self.statements@.len() - i,
        {
            r.push(&self.statements[i].instruction);
            i += 1;
        }
        r
    }
}

/// `v`, back to front.
pub fn reversed<T>(v: Vec<T>) -> (r: Vec<T>)
    ensures
        r@ == v@.reverse(),
{
    let ghost original = v@;
    let mut rest = v;
    let mut out: Vec<T> = Vec::new();
    while rest.len() > 0
        invariant
            original =~= rest@ + out@.reverse(),
        decreases rest.len(),
    {
        let ghost before = out@;
        let x = rest.pop().unwrap();
        out.push(x);
        assert(out@.reverse() =~= seq![x] + before.reverse());
    }
    assert(out@ =~= original.reverse()) by {
        assert(out@.reverse().reverse() =~= out@);
    }
    out
}

/// The text a byte stands for inside a literal, spelled as the source would
/// spell it.
pub open spec fn escape_byte(byte: u8) -> Seq<char> {
    if byte == 10 {
        seq!['\\', 'n']
    } else if byte == 13 {
        seq!['\\', 'r']
    } else if byte == 9 {
        seq!['\\', 't']
    } else if byte == 34 {
        seq!['\\', '"']
    } else if byte == 92 {
        seq!['\\', '\\']
    } else if 0x20 <= byte <= 0x7e {
        seq![byte as char]
    } else {
        seq!['\\', 'x', hex_digit(byte / 16), hex_digit(byte % 16)]
    }
}

/// The lower-case hexadecimal digit for `d`, which is below sixteen.
pub open spec fn hex_digit(d: u8) -> char {
    if d < 10 {
        (d + 48) as char
    } else {
        (d + 87) as char
    }
}

/// A literal's bytes, escaped, one after another.
pub open spec fn escape_seq(bytes: Seq<u8>) -> Seq<char>
    decreases bytes.len(),
{
    if bytes.len() == 0 {
        Seq::empty()
    } else {
        escape_seq(bytes.drop_last()) + escape_byte(bytes.last())
    }
}

fn hex(d: u8) -> (c: char)
    requires
        d < 16,
    ensures
        c == hex_digit(d),
{
    if d < 10 {
        (d + 48) as char
    } else {
        (d + 87) as char
    }
}

/// A literal's bytes, spelled the way the source would spell them.
pub fn escape_bytes(bytes: &[u8]) -> (text: String)
    ensures
        text@ == escape_seq(bytes@),
{
    let mut text = String::new();
    let mut i: usize = 0;
    while i < bytes.len()
        invariant
            i <= bytes@.len(),
            text@ == escape_seq(bytes@.subrange(0, i as int)),
        decreases bytes@.len() - i,
    {
        let byte = bytes[i];
        assert(bytes@.subrange(0, i + 1).drop_last() =~= bytes@.subrange(0, i as int));
        if byte == 10 {
            push_char(&mut text, '\\');
            push_char(&mut text, 'n');
        } else if byte == 13 {
            push_char(&mut text, '\\');
            push_char(&mut text, 'r');
        } else if byte == 9 {
            push_char(&mut text, '\\');
            push_char(&mut text, 't');
        } else if byte == 34 {
            push_char(&mut text, '\\');
            push_char(&mut text, '"');
        } else if byte == 92 {
            push_char(&mut text, '\\');
            push_char(&mut text, '\\');
        } else if 0x20 <= byte && byte <= 0x7e {
            push_char(&mut text, byte as char);
        } else {
            push_char(&mut text, '\\');
            push_char(&mut text, 'x');
            push_char(&mut text, hex(byte / 16));
            push_char(&mut text, hex(byte % 16));
        }
        i += 1;
    }
    assert(bytes@.subrange(0, bytes@.len() as int) =~= bytes@);
    text
}

/// `c` is a printable ASCII character, from the space to the tilde.
pub open spec fn printable(c: char) -> bool {
    0x20 <= (c as u32) <= 0x7e
}

/// A byte that stands for itself in a literal: printable, and neither a
/// quote nor a backslash.
pub open spec fn plain_byte(b: u8) -> bool {
    0x20 <= b <= 0x7e && b != 34 && b != 92
}

/// Escaping two runs of bytes one after the other gives their escapes one
/// after the other.
pub proof fn lemma_escape_concat(a: Seq<u8>, b: Seq<u8>)
    ensures
        escape_seq(a + b) == escape_seq(a) + escape_seq(b),
    decreases b.len(),
{
    if b.len() == 0 {
        assert(a + b =~= a);
        assert(escape_seq(a) + escape_seq(b) =~= escape_seq(a));
    } else {
        lemma_escape_concat(a, b.drop_last());
        assert((a + b).drop_last() =~= a + b.drop_last());
        assert((a + b).last() == b.last());
        assert(escape_seq(a) + escape_seq(b) =~= escape_seq(a) + escape_seq(b.drop_last()) + escape_byte(b.last()));
    }
}

/// Every character of an escaped literal is printable ASCII.
pub proof fn lemma_escape_printable(a: Seq<u8>)
    ensures
        forall|i: int| 0 <= i < escape_seq(a).len() ==> printable(#[trigger] escape_seq(a)[i]),
    decreases a.len(),
{
    if a.len() > 0 {
        lemma_escape_printable(a.drop_last());
        let e = escape_byte(a.last());
        let b = a.last();
        assert forall|i: int| 0 <= i < e.len() implies printable(#[trigger] e[i]) by {
            if !(b == 10 || b == 13 || b == 9 || b == 34 || b == 92 || (0x20 <= b <= 0x7e)) {
                assert(b / 16 < 16 && b % 16 < 16);
            }
        }
        let p = escape_seq(a.drop_last());
        assert forall|i: int| 0 <= i < escape_seq(a).len() implies printable(#[trigger] escape_seq(a)[i]) by {
            if i < p.len() {
                assert(escape_seq(a)[i] == p[i]);
            } else {
                assert(escape_seq(a)[i] == e[i - p.len()]);
            }
        }
    }
}

/// A literal whose bytes are all plain is its own escape.
pub proof fn lemma_escape_plain(a: Seq<u8>)
    requires
        forall|i: int| 0 <= i < a.len() ==> plain_byte(#[trigger] a[i]),
    ensures
        escape_seq(a) == a.map_values(|b: u8| b as char),
    decreases a.len(),
{
    if a.len() > 0 {
        lemma_escape_plain(a.drop_last());
        assert(plain_byte(a[a.len() - 1]));
        assert(a.map_values(|b: u8| b as char) =~= a.drop_last().map_values(|b: u8| b as char) + seq![a.last() as char]);
    }
}

/// No byte escapes to nothing.
proof fn lemma_escape_byte_shape(b: u8)
    ensures
        escape_byte(b).len() >= 1,
        escape_byte(b).len() == 1 <==> plain_byte(b),
        escape_byte(b).len() == 1 ==> escape_byte(b)[0] != '\\',
        escape_byte(b).len() > 1 ==> escape_byte(b)[0] == '\\',
        escape_byte(b).len() == 2 ==> escape_byte(b)[1] != 'x',
        escape_byte(b).len() > 2 ==> escape_byte(b).len() == 4 && escape_byte(b)[1] == 'x',
{
    if plain_byte(b) {
        assert((b as char) != '\\');
    }
}

/// Two escapes that begin two equal texts are the same escape, of the same
/// byte: no escape begins another.
proof fn lemma_escape_byte_prefix(x: u8, y: u8, s: Seq<char>, t: Seq<char>)
    requires
        escape_byte(x) + s == escape_byte(y) + t,
    ensures
        x == y,
        s == t,
{
    let ex = escape_byte(x);
    let ey = escape_byte(y);
    lemma_escape_byte_shape(x);
    lemma_escape_byte_shape(y);
    assert((ex + s)[0] == ex[0]);
    assert((ey + t)[0] == ey[0]);
    if ex.len() > 1 && ey.len() > 1 {
        assert((ex + s)[1] == ex[1]);
        assert((ey + t)[1] == ey[1]);
    }
    assert(ex.len() == ey.len());
    assert((ex + s).len() == (ey + t).len());
    assert(s.len() == t.len());
    assert forall|i: int| 0 <= i < ex.len() implies ex[i] == ey[i] by {
        assert((ex + s)[i] == ex[i]);
        assert((ey + t)[i] == ey[i]);
    }
    assert(ex =~= ey);
    if !(x == 10 || x == 13 || x == 9 || x == 34 || x == 92 || (0x20 <= x <= 0x7e)) {
        assert(x / 16 < 16 && x % 16 < 16);
        assert(y / 16 < 16 && y % 16 < 16);
        assert(x / 16 == y / 16 && x % 16 == y % 16);
    }
    assert forall|i: int| 0 <= i < s.len() implies s[i] == t[i] by {
        assert((ex + s)[ex.len() + i] == s[i]);
        assert((ey + t)[ey.len() + i] == t[i]);
    }
    assert(s =~= t);
}

/// An escape is the escape of its first byte followed by the escape of the
/// rest.
proof fn lemma_escape_first(a: Seq<u8>)
    requires
        a.len() > 0,
    ensures
        escape_seq(a) == escape_byte(a[0]) + escape_seq(a.skip(1)),
{
    let one = seq![a[0]];
    lemma_escape_concat(one, a.skip(1));
    assert(one + a.skip(1) =~= a);
    assert(one.drop_last() =~= Seq::<u8>::empty());
    assert(one.last() == a[0]);
    assert(escape_seq(one) == escape_seq(one.drop_last()) + escape_byte(one.last()));
    assert(escape_seq(one.drop_last()) == Seq::<char>::empty());
    assert(escape_seq(one) =~= escape_byte(a[0]));
}

/// Different literals have different escapes.
pub proof fn lemma_escape_injective(a: Seq<u8>, b: Seq<u8>)
    requires
        escape_seq(a) == escape_seq(b),
    ensures
        a == b,
    decreases a.len(),
{
    if a.len() == 0 || b.len() == 0 {
        if a.len() > 0 {
            lemma_escape_first(a);
            lemma_escape_byte_shape(a[0]);
        }
        if b.len() > 0 {
            lemma_escape_first(b);
            lemma_escape_byte_shape(b[0]);
        }
        assert(a =~= b);
    } else {
        lemma_escape_first(a);
        lemma_escape_first(b);
        lemma_escape_byte_prefix(a[0], b[0], escape_seq(a.skip(1)), escape_seq(b.skip(1)));
        lemma_escape_injective(a.skip(1), b.skip(1));
        assert(a =~= seq![a[0]] + a.skip(1));
        assert(b =~= seq![b[0]] + b.skip(1));
    }
}


impl BinaryOp {
    /// Whether this operation compares and therefore produces a `bool`.
    pub fn compares(self) -> (r: bool)
        ensures
            r == (self is Less || self is Greater || self is LessEqual || self is GreaterEqual
                || self is Equal || self is NotEqual),
    {
        match self {
            BinaryOp::Less | BinaryOp::Greater | BinaryOp::LessEqual | BinaryOp::GreaterEqual
            | BinaryOp::Equal | BinaryOp::NotEqual => true,
            _ => false,
        }
    }

    /// Whether this operation shifts, and so must check its count before it
    /// commits.
    pub fn shifts(self) -> (r: bool)
        ensures
            r == (self is Shl || self is Shr),
    {
        match self {
            BinaryOp::Shl | BinaryOp::Shr => true,
            _ => false,
        }
    }

    /// Whether this operation is bitwise, the set that has no meaning on an
    /// `f64` and never traps.
    pub fn bitwise(self) -> (r: bool)
        ensures
            r == (self is BitAnd || self is BitOr || self is BitXor),
    {
        match self {
            BinaryOp::BitAnd | BinaryOp::BitOr | BinaryOp::BitXor => true,
            _ => false,
        }
    }
}

} // verus!
