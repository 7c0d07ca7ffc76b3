//! Human-readable MIR rendering.
//!
//! The JSON form of a module is for machines; this one is for a person trying
//! to see why a pass did something. Each statement carries the source line it
//! came from, and the output is a function of the module alone: everything is
//! driven off ordered vectors.
use crate::ast::{push_type, type_spelling, Type};
use crate::diagnostic::Span;
use crate::mir::{
    escape_bytes, escape_seq, hex_digit, BasicBlock, BinaryOp, Instruction, MirEnum,
    MirFunction, MirLocal, MirModule, MirStruct, MirTest, MirVariant, Statement, Terminator,
};
use crate::text::{decimal, push_char, push_i64, push_str, push_usize, signed_decimal, spaces};
use vstd::prelude::*;

verus! {

/// Column at which the `// line:column` provenance comment starts.
pub const COMMENT_COLUMN: usize = 48;

/// The pieces, one after another.
pub open spec fn concat(parts: Seq<Seq<char>>) -> Seq<char>
    decreases parts.len(),
{
    if parts.len() == 0 {
        Seq::empty()
    } else {
        concat(parts.drop_last()) + parts.last()
    }
}

/// The pieces, with `sep` between each two of them.
pub open spec fn joined(parts: Seq<Seq<char>>, sep: Seq<char>) -> Seq<char>
    decreases parts.len(),
{
    if parts.len() == 0 {
        Seq::empty()
    } else if parts.len() == 1 {
        parts[0]
    } else {
        joined(parts.drop_last(), sep) + sep + parts.last()
    }
}

proof fn lemma_concat_step(parts: Seq<Seq<char>>, i: int)
    requires
        0 <= i < parts.len(),
    ensures
        concat(parts.subrange(0, i + 1)) == concat(parts.subrange(0, i)) + parts[i],
{
    assert(parts.subrange(0, i + 1).drop_last() =~= parts.subrange(0, i));
}

pub proof fn lemma_joined_step(parts: Seq<Seq<char>>, sep: Seq<char>, i: int)
    requires
        0 <= i < parts.len(),
    ensures
        i == 0 ==> joined(parts.subrange(0, i + 1), sep) == parts[0],
        i > 0 ==> joined(parts.subrange(0, i + 1), sep) == joined(parts.subrange(0, i), sep)
            + sep + parts[i],
{
    assert(parts.subrange(0, i + 1).drop_last() =~= parts.subrange(0, i));
}

/// How a local is named in the listing: `_` and its number.
pub open spec fn local_text(id: nat) -> Seq<char> {
    seq!['_'] + decimal(id)
}

/// Locals named one after another, with `, ` between them.
pub open spec fn locals_text(ids: Seq<usize>) -> Seq<char> {
    joined(ids.map_values(|id: usize| local_text(id as nat)), ", "@)
}

/// The lower-case hexadecimal numeral of the low `count` digits of `v`,
/// leading zeros kept.
pub open spec fn hex_digits(v: nat, count: nat) -> Seq<char>
    decreases count,
{
    if count == 0 {
        Seq::empty()
    } else {
        hex_digits(v / 16, (count - 1) as nat).push(hex_digit((v % 16) as u8))
    }
}

/// How an operator is written between its operands.
pub open spec fn operator_text(op: BinaryOp) -> Seq<char> {
    match op {
        BinaryOp::Add => "+"@,
        BinaryOp::Sub => "-"@,
        BinaryOp::Mul => "*"@,
        BinaryOp::Div => "/"@,
        BinaryOp::Rem => "%"@,
        BinaryOp::Less => "<"@,
        BinaryOp::Greater => ">"@,
        BinaryOp::LessEqual => "<="@,
        BinaryOp::GreaterEqual => ">="@,
        BinaryOp::Equal => "=="@,
        BinaryOp::NotEqual => "!="@,
        BinaryOp::BitAnd => "&"@,
        BinaryOp::BitOr => "|"@,
        BinaryOp::BitXor => "^"@,
        BinaryOp::Shl => "<<"@,
        BinaryOp::Shr => ">>"@,
    }
}

/// Each operator is listed as its usual symbol, character by character, and
/// no two operators are listed alike, so a listing names its operation
/// exactly.
pub proof fn lemma_operator_symbols(a: BinaryOp, b: BinaryOp)
    ensures
        operator_text(BinaryOp::Add) == seq!['+'],
        operator_text(BinaryOp::Sub) == seq!['-'],
        operator_text(BinaryOp::Mul) == seq!['*'],
        operator_text(BinaryOp::Div) == seq!['/'],
        operator_text(BinaryOp::Rem) == seq!['%'],
        operator_text(BinaryOp::Less) == seq!['<'],
        operator_text(BinaryOp::Greater) == seq!['>'],
        operator_text(BinaryOp::LessEqual) == seq!['<', '='],
        operator_text(BinaryOp::GreaterEqual) == seq!['>', '='],
        operator_text(BinaryOp::Equal) == seq!['=', '='],
        operator_text(BinaryOp::NotEqual) == seq!['!', '='],
        operator_text(BinaryOp::BitAnd) == seq!['&'],
        operator_text(BinaryOp::BitOr) == seq!['|'],
        operator_text(BinaryOp::BitXor) == seq!['^'],
        operator_text(BinaryOp::Shl) == seq!['<', '<'],
        operator_text(BinaryOp::Shr) == seq!['>', '>'],
        operator_text(a) == operator_text(b) ==> a == b,
{
    reveal_strlit("+");
    reveal_strlit("-");
    reveal_strlit("*");
    reveal_strlit("/");
    reveal_strlit("%");
    reveal_strlit("<");
    reveal_strlit(">");
    reveal_strlit("<=");
    reveal_strlit(">=");
    reveal_strlit("==");
    reveal_strlit("!=");
    reveal_strlit("&");
    reveal_strlit("|");
    reveal_strlit("^");
    reveal_strlit("<<");
    reveal_strlit(">>");
    assert(operator_text(BinaryOp::Add) =~= seq!['+']);
    assert(operator_text(BinaryOp::Sub) =~= seq!['-']);
    assert(operator_text(BinaryOp::Mul) =~= seq!['*']);
    assert(operator_text(BinaryOp::Div) =~= seq!['/']);
    assert(operator_text(BinaryOp::Rem) =~= seq!['%']);
    assert(operator_text(BinaryOp::Less) =~= seq!['<']);
    assert(operator_text(BinaryOp::Greater) =~= seq!['>']);
    assert(operator_text(BinaryOp::LessEqual) =~= seq!['<', '=']);
    assert(operator_text(BinaryOp::GreaterEqual) =~= seq!['>', '=']);
    assert(operator_text(BinaryOp::Equal) =~= seq!['=', '=']);
    assert(operator_text(BinaryOp::NotEqual) =~= seq!['!', '=']);
    assert(operator_text(BinaryOp::BitAnd) =~= seq!['&']);
    assert(operator_text(BinaryOp::BitOr) =~= seq!['|']);
    assert(operator_text(BinaryOp::BitXor) =~= seq!['^']);
    assert(operator_text(BinaryOp::Shl) =~= seq!['<', '<']);
    assert(operator_text(BinaryOp::Shr) =~= seq!['>', '>']);
    if operator_text(a) == operator_text(b) {
        assert(operator_text(a).len() == operator_text(b).len());
        assert(operator_text(a)[0] == operator_text(b)[0]);
        if operator_text(a).len() == 2 {
            assert(operator_text(a)[1] == operator_text(b)[1]);
        }
    }
}

/// `_dst = ` for an instruction that writes `dst`.
pub open spec fn writes(dst: usize) -> Seq<char> {
    local_text(dst as nat) + " = "@
}

/// The first `n` bytes, in decimal, with `, ` between them.
pub open spec fn byte_items(bytes: Seq<u8>, n: int) -> Seq<char>
    decreases n,
{
    if n <= 0 {
        Seq::empty()
    } else if n == 1 {
        decimal(bytes[0] as nat)
    } else {
        byte_items(bytes, n - 1) + ", "@ + decimal(bytes[n - 1] as nat)
    }
}

/// A byte vector as a list, `[104, 105]`.
pub open spec fn byte_list(bytes: Seq<u8>) -> Seq<char> {
    "["@ + byte_items(bytes, bytes.len() as int) + "]"@
}

/// Writes `bytes` as a list.
fn push_byte_list(out: &mut String, bytes: &Vec<u8>)
    ensures
        final(out)@ == old(out)@ + byte_list(bytes@),
{
    let ghost start = out@;
    push_str(out, "[");
    let mut k: usize = 0;
    while k < bytes.len()
        invariant
            k <= bytes@.len(),
            out@ == start + "["@ + byte_items(bytes@, k as int),
        decreases bytes@.len() - k,
    {
        if k > 0 {
            push_str(out, ", ");
        }
        crate::text::push_u64(out, bytes[k] as u64);
        k += 1;
        assert(out@ =~= start + "["@ + byte_items(bytes@, k as int));
    }
    push_str(out, "]");
    assert(out@ =~= start + byte_list(bytes@));
}

/// How a float constant with the bits `bits` is written: the text `floats`
/// gives for those bits, where it gives one (the first such entry), and
/// otherwise `f64 0x` and the bits in hexadecimal, which name the value
/// exactly.
pub open spec fn float_text(floats: Seq<(u64, String)>, bits: u64) -> Seq<char>
    decreases floats.len(),
{
    if floats.len() == 0 {
        "f64 0x"@ + hex_digits(bits as nat, 16)
    } else if floats[0].0 == bits {
        floats[0].1@
    } else {
        float_text(floats.skip(1), bits)
    }
}

fn push_float(out: &mut String, floats: &Vec<(u64, String)>, bits: u64)
    ensures
        final(out)@ == old(out)@ + float_text(floats@, bits),
{
    let mut i: usize = 0;
    assert(floats@.skip(0) =~= floats@);
    while i < floats.len()
        invariant
            i <= floats@.len(),
            out@ == old(out)@,
            float_text(floats@, bits) == float_text(floats@.skip(i as int), bits),
        decreases floats@.len() - i,
    {
        assert(floats@.skip(i as int)[0] == floats@[i as int]);
        assert(floats@.skip(i as int).skip(1) =~= floats@.skip(i + 1));
        if floats[i].0 == bits {
            push_str(out, floats[i].1.as_str());
            return;
        }
        i += 1;
    }
    push_str(out, "f64 0x");
    push_hex(out, bits, 16);
    assert(floats@.skip(i as int).len() == 0);
    assert(final(out)@ =~= old(out)@ + float_text(floats@, bits));
}

/// One instruction, as the listing shows it, floats written as `floats`
/// says.
pub open spec fn instruction_text(instruction: Instruction, floats: Seq<(u64, String)>) -> Seq<char> {
    match instruction {
        Instruction::ConstInt { dst, value } => writes(dst) + "const "@ + signed_decimal(
            value as int,
        ) + ";"@,
        Instruction::ConstFloat { dst, bits } => writes(dst) + "const "@ + float_text(floats, bits) + ";"@,
        Instruction::ConstBool { dst, value } => writes(dst) + "const "@ + (if value {
            "true"@
        } else {
            "false"@
        }) + ";"@,
        Instruction::StringNew { dst, value } => writes(dst) + "const "@ + byte_list(value@) + ";"@,
        Instruction::Assign { dst, src } => writes(dst) + local_text(src as nat) + ";"@,
        Instruction::AddressOf { dst, src } => writes(dst) + "&"@ + local_text(src as nat)
            + ";"@,
        Instruction::Binary { dst, op, lhs, rhs, ty } => writes(dst) + local_text(lhs as nat)
            + " "@ + operator_text(op) + " "@ + local_text(rhs as nat) + ": "@ + type_spelling(
            ty,
        ) + ";"@,
        Instruction::Call { dst, callee, args, result, .. } => writes(dst) + callee@ + "("@
            + locals_text(args@) + ") -> "@ + type_spelling(result) + ";"@,
        Instruction::FnAddr { dst, symbol } => writes(dst) + "fn "@ + symbol@ + ";"@,
        Instruction::CallValue { dst, callee, args, result, .. } => writes(dst) + "(*"@
            + local_text(callee as nat) + ")("@ + locals_text(args@) + ") -> "@ + type_spelling(
            result,
        ) + ";"@,
        Instruction::Drop { local, ty } => "drop("@ + local_text(local as nat) + ": "@
            + type_spelling(ty) + ");"@,
        Instruction::StructNew { dst, name, fields } => writes(dst) + name@ + " { "@
            + locals_text(fields@) + " };"@,
        Instruction::FieldLoad { dst, base, index } => writes(dst) + local_text(base as nat)
            + "."@ + decimal(index as nat) + ";"@,
        Instruction::Load { dst, src } => writes(dst) + "*"@ + local_text(src as nat) + ";"@,
        Instruction::FieldAddr { dst, base, index } => writes(dst) + "&"@ + local_text(
            base as nat,
        ) + "."@ + decimal(index as nat) + ";"@,
        Instruction::EnumNew { dst, enum_name, tag, fields } => writes(dst) + enum_name@ + "#"@
            + decimal(tag as nat) + "("@ + locals_text(fields@) + ");"@,
        Instruction::EnumTag { dst, base } => writes(dst) + "tag("@ + local_text(base as nat)
            + ");"@,
        Instruction::EnumFieldLoad { dst, base, index } => writes(dst) + "payload("@
            + local_text(base as nat) + ", "@ + decimal(index as nat) + ");"@,
        Instruction::EnumFieldAddr { dst, base, index } => writes(dst) + "&payload("@
            + local_text(base as nat) + ", "@ + decimal(index as nat) + ");"@,
        Instruction::FieldStore { base, index, src } => local_text(base as nat) + "."@
            + decimal(index as nat) + " = "@ + local_text(src as nat) + ";"@,
        Instruction::EnumFieldStore { base, index, src } => "payload("@ + local_text(
            base as nat,
        ) + ", "@ + decimal(index as nat) + ") = "@ + local_text(src as nat) + ";"@,
        Instruction::Free { local } => "free("@ + local_text(local as nat) + ");"@,
        Instruction::VolatileLoad { dst, addr, ty } => writes(dst) + "volatile_load("@
            + local_text(addr as nat) + ": "@ + type_spelling(ty) + ");"@,
        Instruction::VolatileStore { addr, src, ty } => "volatile_store("@ + local_text(
            addr as nat,
        ) + ", "@ + local_text(src as nat) + ": "@ + type_spelling(ty) + ");"@,
    }
}

/// A block's terminator, as the listing shows it.
pub open spec fn terminator_text(terminator: Terminator) -> Seq<char> {
    match terminator {
        Terminator::Return(Some(local)) => "return "@ + local_text(local as nat) + ";"@,
        Terminator::Return(None) => "return;"@,
        Terminator::Goto(target) => "goto -> bb"@ + decimal(target as nat) + ";"@,
        Terminator::Branch { condition, then_block, else_block } => "branch "@ + local_text(
            condition as nat,
        ) + " -> [true: bb"@ + decimal(then_block as nat) + ", false: bb"@ + decimal(
            else_block as nat,
        ) + "];"@,
        Terminator::Unreachable => "unreachable;"@,
    }
}

fn push_local(out: &mut String, id: usize)
    ensures
        final(out)@ == old(out)@ + local_text(id as nat),
{
    push_char(out, '_');
    push_usize(out, id);
    assert(final(out)@ =~= old(out)@ + local_text(id as nat));
}

fn push_writes(out: &mut String, dst: usize)
    ensures
        final(out)@ == old(out)@ + writes(dst),
{
    push_local(out, dst);
    push_str(out, " = ");
    assert(final(out)@ =~= old(out)@ + writes(dst));
}

fn push_locals(out: &mut String, ids: &Vec<usize>)
    ensures
        final(out)@ == old(out)@ + locals_text(ids@),
{
    let ghost start = out@;
    let ghost parts = ids@.map_values(|id: usize| local_text(id as nat));
    let mut i: usize = 0;
    while i < ids.len()
        invariant
            i <= ids@.len(),
            parts == ids@.map_values(|id: usize| local_text(id as nat)),
            out@ == start + joined(parts.subrange(0, i as int), ", "@),
        decreases ids@.len() - i,
    {
        proof {
            lemma_joined_step(parts, ", "@, i as int);
        }
        if i > 0 {
            push_str(out, ", ");
        }
        push_local(out, ids[i]);
        i += 1;
        assert(out@ =~= start + joined(parts.subrange(0, i as int), ", "@));
    }
    assert(parts.subrange(0, ids@.len() as int) =~= parts);
}

fn push_hex(out: &mut String, v: u64, count: usize)
    ensures
        final(out)@ == old(out)@ + hex_digits(v as nat, count as nat),
    decreases count,
{
    if count > 0 {
        push_hex(out, v / 16, count - 1);
        let d: u8 = (v % 16) as u8;
        push_char(out, if d < 10 { (d + 48) as char } else { (d + 87) as char });
        assert(final(out)@ =~= old(out)@ + hex_digits(v as nat, count as nat));
    }
}

fn operator(op: BinaryOp) -> (s: &'static str)
    ensures
        s@ == operator_text(op),
{
    match op {
        BinaryOp::Add => "+",
        BinaryOp::Sub => "-",
        BinaryOp::Mul => "*",
        BinaryOp::Div => "/",
        BinaryOp::Rem => "%",
        BinaryOp::Less => "<",
        BinaryOp::Greater => ">",
        BinaryOp::LessEqual => "<=",
        BinaryOp::GreaterEqual => ">=",
        BinaryOp::Equal => "==",
        BinaryOp::NotEqual => "!=",
        BinaryOp::BitAnd => "&",
        BinaryOp::BitOr => "|",
        BinaryOp::BitXor => "^",
        BinaryOp::Shl => "<<",
        BinaryOp::Shr => ">>",
    }
}

fn render_instruction(instruction: &Instruction, floats: &Vec<(u64, String)>) -> (s: String)
    ensures
        s@ == instruction_text(*instruction, floats@),
{
    let mut out = String::new();
    match instruction {
        Instruction::ConstInt { dst, value } => {
            push_writes(&mut out, *dst);
            push_str(&mut out, "const ");
            push_i64(&mut out, *value);
            push_str(&mut out, ";");
        },
        Instruction::ConstFloat { dst, bits } => {
            push_writes(&mut out, *dst);
            push_str(&mut out, "const ");
            push_float(&mut out, floats, *bits);
            push_str(&mut out, ";");
        },
        Instruction::ConstBool { dst, value } => {
            push_writes(&mut out, *dst);
            push_str(&mut out, "const ");
            if *value {
                push_str(&mut out, "true");
            } else {
                push_str(&mut out, "false");
            }
            push_str(&mut out, ";");
        },
        Instruction::StringNew { dst, value } => {
            push_writes(&mut out, *dst);
            push_str(&mut out, "const ");
            push_byte_list(&mut out, value);
            push_str(&mut out, ";");
        },
        Instruction::Assign { dst, src } => {
            push_writes(&mut out, *dst);
            push_local(&mut out, *src);
            push_str(&mut out, ";");
        },
        Instruction::AddressOf { dst, src } => {
            push_writes(&mut out, *dst);
            push_str(&mut out, "&");
            push_local(&mut out, *src);
            push_str(&mut out, ";");
        },
        Instruction::Binary { dst, op, lhs, rhs, ty } => {
            push_writes(&mut out, *dst);
            push_local(&mut out, *lhs);
            push_str(&mut out, " ");
            push_str(&mut out, operator(*op));
            push_str(&mut out, " ");
            push_local(&mut out, *rhs);
            push_str(&mut out, ": ");
            push_type(&mut out, ty);
            push_str(&mut out, ";");
        },
        Instruction::Call { dst, callee, args, result, .. } => {
            push_writes(&mut out, *dst);
            push_str(&mut out, callee.as_str());
            push_str(&mut out, "(");
            push_locals(&mut out, args);
            push_str(&mut out, ") -> ");
            push_type(&mut out, result);
            push_str(&mut out, ";");
        },
        Instruction::FnAddr { dst, symbol } => {
            push_writes(&mut out, *dst);
            push_str(&mut out, "fn ");
            push_str(&mut out, symbol.as_str());
            push_str(&mut out, ";");
        },
        Instruction::CallValue { dst, callee, args, result, .. } => {
            push_writes(&mut out, *dst);
            push_str(&mut out, "(*");
            push_local(&mut out, *callee);
            push_str(&mut out, ")(");
            push_locals(&mut out, args);
            push_str(&mut out, ") -> ");
            push_type(&mut out, result);
            push_str(&mut out, ";");
        },
        Instruction::Drop { local, ty } => {
            push_str(&mut out, "drop(");
            push_local(&mut out, *local);
            push_str(&mut out, ": ");
            push_type(&mut out, ty);
            push_str(&mut out, ");");
        },
        Instruction::StructNew { dst, name, fields } => {
            push_writes(&mut out, *dst);
            push_str(&mut out, name.as_str());
            push_str(&mut out, " { ");
            push_locals(&mut out, fields);
            push_str(&mut out, " };");
        },
        Instruction::FieldLoad { dst, base, index } => {
            push_writes(&mut out, *dst);
            push_local(&mut out, *base);
            push_str(&mut out, ".");
            push_usize(&mut out, *index);
            push_str(&mut out, ";");
        },
        Instruction::Load { dst, src } => {
            push_writes(&mut out, *dst);
            push_str(&mut out, "*");
            push_local(&mut out, *src);
            push_str(&mut out, ";");
        },
        Instruction::FieldAddr { dst, base, index } => {
            push_writes(&mut out, *dst);
            push_str(&mut out, "&");
            push_local(&mut out, *base);
            push_str(&mut out, ".");
            push_usize(&mut out, *index);
            push_str(&mut out, ";");
        },
        Instruction::EnumNew { dst, enum_name, tag, fields } => {
            push_writes(&mut out, *dst);
            push_str(&mut out, enum_name.as_str());
            push_str(&mut out, "#");
            push_usize(&mut out, *tag);
            push_str(&mut out, "(");
            push_locals(&mut out, fields);
            push_str(&mut out, ");");
        },
        Instruction::EnumTag { dst, base } => {
            push_writes(&mut out, *dst);
            push_str(&mut out, "tag(");
            push_local(&mut out, *base);
            push_str(&mut out, ");");
        },
        Instruction::EnumFieldLoad { dst, base, index } => {
            push_writes(&mut out, *dst);
            push_str(&mut out, "payload(");
            push_local(&mut out, *base);
            push_str(&mut out, ", ");
            push_usize(&mut out, *index);
            push_str(&mut out, ");");
        },
        Instruction::EnumFieldAddr { dst, base, index } => {
            push_writes(&mut out, *dst);
            push_str(&mut out, "&payload(");
            push_local(&mut out, *base);
            push_str(&mut out, ", ");
            push_usize(&mut out, *index);
            push_str(&mut out, ");");
        },
        Instruction::FieldStore { base, index, src } => {
            push_local(&mut out, *base);
            push_str(&mut out, ".");
            push_usize(&mut out, *index);
            push_str(&mut out, " = ");
            push_local(&mut out, *src);
            push_str(&mut out, ";");
        },
        Instruction::EnumFieldStore { base, index, src } => {
            push_str(&mut out, "payload(");
            push_local(&mut out, *base);
            push_str(&mut out, ", ");
            push_usize(&mut out, *index);
            push_str(&mut out, ") = ");
            push_local(&mut out, *src);
            push_str(&mut out, ";");
        },
        Instruction::Free { local } => {
            push_str(&mut out, "free(");
            push_local(&mut out, *local);
            push_str(&mut out, ");");
        },
        Instruction::VolatileLoad { dst, addr, ty } => {
            push_writes(&mut out, *dst);
            push_str(&mut out, "volatile_load(");
            push_local(&mut out, *addr);
            push_str(&mut out, ": ");
            push_type(&mut out, ty);
            push_str(&mut out, ");");
        },
        Instruction::VolatileStore { addr, src, ty } => {
            push_str(&mut out, "volatile_store(");
            push_local(&mut out, *addr);
            push_str(&mut out, ", ");
            push_local(&mut out, *src);
            push_str(&mut out, ": ");
            push_type(&mut out, ty);
            push_str(&mut out, ");");
        },
    }
    assert(out@ =~= instruction_text(*instruction, floats@));
    out
}

fn render_terminator(terminator: &Terminator) -> (s: String)
    ensures
        s@ == terminator_text(*terminator),
{
    let mut out = String::new();
    match terminator {
        Terminator::Return(Some(local)) => {
            push_str(&mut out, "return ");
            push_local(&mut out, *local);
            push_str(&mut out, ";");
        },
        Terminator::Return(None) => push_str(&mut out, "return;"),
        Terminator::Goto(target) => {
            push_str(&mut out, "goto -> bb");
            push_usize(&mut out, *target);
            push_str(&mut out, ";");
        },
        Terminator::Branch { condition, then_block, else_block } => {
            push_str(&mut out, "branch ");
            push_local(&mut out, *condition);
            push_str(&mut out, " -> [true: bb");
            push_usize(&mut out, *then_block);
            push_str(&mut out, ", false: bb");
            push_usize(&mut out, *else_block);
            push_str(&mut out, "];");
        },
        Terminator::Unreachable => push_str(&mut out, "unreachable;"),
    }
    assert(out@ =~= terminator_text(*terminator));
    out
}

/// Whether a span points at source text, so that its line is worth showing.
pub open spec fn located(span: Span) -> bool {
    span.start != 0 || span.line > 1
}

/// `n` spaces.
pub open spec fn blanks(n: nat) -> Seq<char> {
    Seq::new(n, |_i: int| ' ')
}

/// One line of a block: indented, then, when the span points at source,
/// padded out to `COMMENT_COLUMN` and followed by `// line:column`.
pub open spec fn line_text(text: Seq<char>, span: Span) -> Seq<char> {
    if located(span) {
        "    "@ + text + blanks(
            if text.len() + 4 < COMMENT_COLUMN {
                (COMMENT_COLUMN - 4 - text.len()) as nat
            } else {
                0
            },
        ) + "// "@ + decimal(span.line as nat) + ":"@ + decimal(span.column as nat) + "\n"@
    } else {
        "    "@ + text + "\n"@
    }
}

/// A block's statements, then its terminator, a line each.
#[verifier::opaque]
pub open spec fn block_text(block: BasicBlock, floats: Seq<(u64, String)>) -> Seq<char> {
    concat(
        block.statements@.map_values(
            |s: Statement| line_text(instruction_text(s.instruction, floats), s.span),
        ),
    ) + line_text(terminator_text(block.terminator), block.terminator_span)
}

fn push_line(out: &mut String, text: &String, span: Span)
    ensures
        final(out)@ == old(out)@ + line_text(text@, span),
{
    push_str(out, "    ");
    push_str(out, text.as_str());
    if span.start != 0 || span.line > 1 {
        let width = crate::text::width_of(text.as_str());
        let padding: usize = if width < COMMENT_COLUMN - 4 {
            COMMENT_COLUMN - 4 - width
        } else {
            0
        };
        let blank = spaces(padding);
        push_str(out, blank.as_str());
        push_str(out, "// ");
        push_usize(out, span.line);
        push_str(out, ":");
        push_usize(out, span.column);
    }
    push_str(out, "\n");
    assert(final(out)@ =~= old(out)@ + line_text(text@, span));
}

fn push_block(out: &mut String, block: &BasicBlock, floats: &Vec<(u64, String)>)
    ensures
        final(out)@ == old(out)@ + block_text(*block, floats@),
{
    let ghost start = out@;
    let ghost parts = block.statements@.map_values(
        |s: Statement| line_text(instruction_text(s.instruction, floats@), s.span),
    );
    let mut i: usize = 0;
    while i < block.statements.len()
        invariant
            i <= block.statements@.len(),
            parts == block.statements@.map_values(
                |s: Statement| line_text(instruction_text(s.instruction, floats@), s.span),
            ),
            out@ == start + concat(parts.subrange(0, i as int)),
        decreases block.statements@.len() - i,
    {
        proof {
            lemma_concat_step(parts, i as int);
        }
        let statement = &block.statements[i];
        let text = render_instruction(&statement.instruction, floats);
        push_line(out, &text, statement.span);
        i += 1;
        assert(out@ =~= start + concat(parts.subrange(0, i as int)));
    }
    assert(parts.subrange(0, block.statements@.len() as int) =~= parts);
    let text = render_terminator(&block.terminator);
    push_line(out, &text, block.terminator_span);
    proof {
        reveal(block_text);
    }
    assert(out@ =~= start + block_text(*block, floats@));
}

/// What follows a header when the item is left out of code generation.
pub open spec fn not_emitted(emit: bool) -> Seq<char> {
    if emit {
        Seq::empty()
    } else {
        "  // not emitted"@
    }
}

fn push_not_emitted(out: &mut String, emit: bool)
    ensures
        final(out)@ == old(out)@ + not_emitted(emit),
{
    if !emit {
        push_str(out, "  // not emitted");
    }
    assert(final(out)@ =~= old(out)@ + not_emitted(emit));
}

/// How a parameter is listed: its local and that local's type, or `?` when
/// the function has no such local.
pub open spec fn param_text(locals: Seq<MirLocal>, param: usize) -> Seq<char> {
    local_text(param as nat) + ": "@ + if param < locals.len() {
        type_spelling(locals[param as int].ty)
    } else {
        "?"@
    }
}

/// The line that declares a local that is not a parameter, with its source
/// name when it has one; nothing for a parameter.
pub open spec fn declaration_text(index: int, local: MirLocal) -> Seq<char> {
    if local.is_param {
        Seq::empty()
    } else {
        "    let "@ + local_text(index as nat) + ": "@ + type_spelling(local.ty) + ";"@ + match local.name {
            Some(name) => "  // "@ + name@,
            None => Seq::empty(),
        } + "\n"@
    }
}

/// Whether a function has a local that is not a parameter.
pub open spec fn declares_locals(locals: Seq<MirLocal>) -> bool {
    exists|i: int| 0 <= i < locals.len() && !(#[trigger] locals[i]).is_param
}

/// A block's label line: `bbN:`, marked when it is the entry.
pub open spec fn label_text(id: int, entry: usize) -> Seq<char> {
    "  bb"@ + decimal(id as nat) + ":"@ + if id == entry {
        "  // entry"@
    } else {
        Seq::empty()
    } + "\n"@
}

/// Block `i` under its label, followed by a blank line unless it is the
/// last.
pub open spec fn block_part(blocks: Seq<BasicBlock>, entry: usize, i: int, floats: Seq<(u64, String)>) -> Seq<char> {
    label_text(i, entry) + block_text(blocks[i], floats) + if i + 1 != blocks.len() {
        "\n"@
    } else {
        Seq::empty()
    }
}

/// The blocks, each under its label, with a blank line between two blocks.
pub open spec fn blocks_text(blocks: Seq<BasicBlock>, entry: usize, floats: Seq<(u64, String)>) -> Seq<char> {
    concat(Seq::new(blocks.len(), |i: int| block_part(blocks, entry, i, floats)))
}

/// A character of a name as a debug-quoted string shows it.
pub open spec fn quoted_char(c: char) -> Seq<char> {
    if c == '"' {
        seq!['\\', '"']
    } else if c == '\\' {
        seq!['\\', '\\']
    } else if c == '\n' {
        seq!['\\', 'n']
    } else if c == '\r' {
        seq!['\\', 'r']
    } else if c == '\t' {
        seq!['\\', 't']
    } else if c == '\0' {
        seq!['\\', '0']
    } else {
        seq![c]
    }
}

/// A name in double quotes, its quotes, backslashes and control characters
/// escaped.
pub open spec fn quoted(name: Seq<char>) -> Seq<char> {
    seq!['"'] + concat(name.map_values(|c: char| quoted_char(c))) + seq!['"']
}

/// The line that names the test a function stands for, if it stands for one.
pub open spec fn test_line(test_name: Option<Seq<char>>) -> Seq<char> {
    match test_name {
        Some(name) => "// test "@ + quoted(name) + "\n"@,
        None => Seq::empty(),
    }
}

/// A function's parameters, each with its type, with `, ` between them.
pub open spec fn params_text(function: MirFunction) -> Seq<char> {
    joined(function.params@.map_values(|p: usize| param_text(function.locals@, p)), ", "@)
}

/// A function's first line: its name, parameters and return type.
pub open spec fn signature_text(function: MirFunction) -> Seq<char> {
    "fn "@ + function.name@ + "("@ + params_text(function) + ") -> "@ + type_spelling(
        function.return_type,
    ) + " {"@ + not_emitted(function.emit) + "\n"@
}

/// The declarations of a function's locals, then a blank line if there was
/// one.
pub open spec fn declarations_text(locals: Seq<MirLocal>) -> Seq<char> {
    concat(Seq::new(locals.len(), |i: int| declaration_text(i, locals[i]))) + if declares_locals(
        locals,
    ) {
        "\n"@
    } else {
        Seq::empty()
    }
}

/// A function: the test it stands for, if any; its header; its locals; its
/// blocks.
pub open spec fn function_text(function: MirFunction, test_name: Option<Seq<char>>, floats: Seq<(u64, String)>) -> Seq<
    char,
> {
    test_line(test_name) + signature_text(function) + declarations_text(function.locals@)
        + blocks_text(function.blocks@, function.entry, floats) + "}\n\n"@
}

fn push_quoted(out: &mut String, name: &str)
    ensures
        final(out)@ == old(out)@ + quoted(name@),
{
    let chars = crate::lexer::chars_of(name);
    let ghost parts = name@.map_values(|c: char| quoted_char(c));
    push_char(out, '"');
    let ghost start = out@;
    let mut i: usize = 0;
    while i < chars.len()
        invariant
            i <= chars@.len(),
            chars@ == name@,
            parts == name@.map_values(|c: char| quoted_char(c)),
            out@ == start + concat(parts.subrange(0, i as int)),
        decreases chars@.len() - i,
    {
        proof {
            lemma_concat_step(parts, i as int);
        }
        let c = chars[i];
        if c == '"' || c == '\\' {
            push_char(out, '\\');
            push_char(out, c);
        } else if c == '\n' {
            push_str(out, "\\n");
        } else if c == '\r' {
            push_str(out, "\\r");
        } else if c == '\t' {
            push_str(out, "\\t");
        } else if c == '\0' {
            push_str(out, "\\0");
        } else {
            push_char(out, c);
        }
        proof {
            reveal_strlit("\\n");
            reveal_strlit("\\r");
            reveal_strlit("\\t");
            reveal_strlit("\\0");
        }
        i += 1;
        assert(out@ =~= start + concat(parts.subrange(0, i as int)));
    }
    assert(parts.subrange(0, chars@.len() as int) =~= parts);
    push_char(out, '"');
    assert(final(out)@ =~= old(out)@ + quoted(name@));
}

fn push_params(out: &mut String, function: &MirFunction)
    ensures
        final(out)@ == old(out)@ + params_text(*function),
{
    let ghost start = out@;
    let ghost parts = function.params@.map_values(|p: usize| param_text(function.locals@, p));
    let mut i: usize = 0;
    while i < function.params.len()
        invariant
            i <= function.params@.len(),
            parts == function.params@.map_values(|p: usize| param_text(function.locals@, p)),
            out@ == start + joined(parts.subrange(0, i as int), ", "@),
        decreases function.params@.len() - i,
    {
        proof {
            lemma_joined_step(parts, ", "@, i as int);
        }
        if i > 0 {
            push_str(out, ", ");
        }
        let param = function.params[i];
        push_local(out, param);
        push_str(out, ": ");
        if param < function.locals.len() {
            push_type(out, &function.locals[param].ty);
        } else {
            push_str(out, "?");
        }
        i += 1;
        assert(out@ =~= start + joined(parts.subrange(0, i as int), ", "@));
    }
    assert(parts.subrange(0, function.params@.len() as int) =~= parts);
}

#[verifier::spinoff_prover]
#[verifier::rlimit(40)]
fn push_declarations(out: &mut String, locals: &Vec<MirLocal>)
    ensures
        final(out)@ == old(out)@ + declarations_text(locals@),
{
    let ghost start = out@;
    let ghost parts = Seq::new(locals@.len(), |i: int| declaration_text(i, locals@[i]));
    let mut declared = false;
    let mut i: usize = 0;
    while i < locals.len()
        invariant
            i <= locals@.len(),
            parts == Seq::new(locals@.len(), |i: int| declaration_text(i, locals@[i])),
            out@ == start + concat(parts.subrange(0, i as int)),
            declared == exists|j: int| 0 <= j < i && !(#[trigger] locals@[j]).is_param,
        decreases locals@.len() - i,
    {
        proof {
            lemma_concat_step(parts, i as int);
        }
        let local = &locals[i];
        if !local.is_param {
            declared = true;
            push_str(out, "    let ");
            push_local(out, i);
            push_str(out, ": ");
            push_type(out, &local.ty);
            push_str(out, ";");
            match &local.name {
                Some(name) => {
                    push_str(out, "  // ");
                    push_str(out, name.as_str());
                },
                None => {},
            }
            push_str(out, "\n");
        }
        i += 1;
        assert(out@ =~= start + concat(parts.subrange(0, i as int)));
    }
    assert(parts.subrange(0, locals@.len() as int) =~= parts);
    if declared {
        push_str(out, "\n");
    }
    assert(out@ =~= start + declarations_text(locals@));
}

#[verifier::spinoff_prover]
#[verifier::rlimit(40)]
fn push_blocks(out: &mut String, blocks: &Vec<BasicBlock>, entry: usize, floats: &Vec<(u64, String)>)
    ensures
        final(out)@ == old(out)@ + blocks_text(blocks@, entry, floats@),
{
    let ghost start = out@;
    let ghost parts = Seq::new(blocks@.len(), |i: int| block_part(blocks@, entry, i, floats@));
    let mut i: usize = 0;
    while i < blocks.len()
        invariant
            i <= blocks@.len(),
            parts == Seq::new(blocks@.len(), |i: int| block_part(blocks@, entry, i, floats@)),
            out@ == start + concat(parts.subrange(0, i as int)),
        decreases blocks@.len() - i,
    {
        proof {
            lemma_concat_step(parts, i as int);
        }
        push_str(out, "  bb");
        push_usize(out, i);
        push_str(out, ":");
        if i == entry {
            push_str(out, "  // entry");
        }
        push_str(out, "\n");
        push_block(out, &blocks[i], floats);
        if i + 1 != blocks.len() {
            push_str(out, "\n");
        }
        assert(parts[i as int] == block_part(blocks@, entry, i as int, floats@));
        i += 1;
        assert(out@ =~= start + concat(parts.subrange(0, i as int)));
    }
    assert(parts.subrange(0, blocks@.len() as int) =~= parts);
}

#[verifier::spinoff_prover]
#[verifier::rlimit(40)]
fn push_function(out: &mut String, function: &MirFunction, test_name: Option<&str>, floats: &Vec<(u64, String)>)
    ensures
        final(out)@ == old(out)@ + function_text(
            *function,
            match test_name {
                Some(name) => Some(name@),
                None => None,
            },
            floats@,
        ),
{
    let ghost start = out@;
    let ghost test = match test_name {
        Some(name) => Some(name@),
        None => None,
    };
    match test_name {
        Some(name) => {
            push_str(out, "// test ");
            push_quoted(out, name);
            push_str(out, "\n");
        },
        None => {},
    }
    assert(out@ =~= start + test_line(test));
    let ghost after_test = out@;
    push_str(out, "fn ");
    push_str(out, function.name.as_str());
    push_str(out, "(");
    push_params(out, function);
    push_str(out, ") -> ");
    push_type(out, &function.return_type);
    push_str(out, " {");
    push_not_emitted(out, function.emit);
    push_str(out, "\n");
    assert(out@ =~= after_test + signature_text(*function));
    let ghost after_signature = out@;
    push_declarations(out, &function.locals);
    let ghost after_declarations = out@;
    push_blocks(out, &function.blocks, function.entry, floats);
    let ghost after_blocks = out@;
    push_str(out, "}\n\n");
    assert(after_blocks == start + test_line(test) + signature_text(*function) + declarations_text(
        function.locals@,
    ) + blocks_text(function.blocks@, function.entry, floats@));
    assert(out@ =~= start + test_line(test) + signature_text(*function) + declarations_text(
        function.locals@,
    ) + blocks_text(function.blocks@, function.entry, floats@) + "}\n\n"@);
}

/// One function, as the listing shows it, each float constant written as
/// `floats` gives the text for its bits.
pub fn render_function(function: &MirFunction, floats: &Vec<(u64, String)>) -> (text: String)
    ensures
        text@ == function_text(*function, None, floats@),
{
    let mut out = String::new();
    push_function(&mut out, function, None, floats);
    assert(out@ =~= function_text(*function, None, floats@));
    out
}

/// A named, typed field: `name: type`.
pub open spec fn field_text(field: (String, Type)) -> Seq<char> {
    field.0@ + ": "@ + type_spelling(field.1)
}

/// A struct: its header, a line per field, and a blank line after it.
pub open spec fn struct_text(structure: MirStruct) -> Seq<char> {
    "struct "@ + structure.name@ + " {"@ + not_emitted(structure.emit) + "\n"@ + concat(
        structure.fields@.map_values(|f: (String, Type)| "    "@ + field_text(f) + ",\n"@),
    ) + "}\n\n"@
}

/// One variant of an enum: its name, its tag and its fields.
pub open spec fn variant_text(variant: MirVariant) -> Seq<char> {
    "    "@ + variant.name@ + " = "@ + decimal(variant.tag as nat) + " ("@ + joined(
        variant.fields@.map_values(|f: (String, Type)| field_text(f)),
        ", "@,
    ) + "),\n"@
}

/// An enum: its header, a line per variant, and a blank line after it.
pub open spec fn enum_text(enumeration: MirEnum) -> Seq<char> {
    "enum "@ + enumeration.name@ + " {"@ + not_emitted(enumeration.emit) + "\n"@ + concat(
        enumeration.variants@.map_values(|v: MirVariant| variant_text(v)),
    ) + "}\n\n"@
}

/// Structs, one after another.
pub open spec fn structs_text(structs: Seq<MirStruct>) -> Seq<char> {
    concat(structs.map_values(|s: MirStruct| struct_text(s)))
}

/// Enums, one after another.
pub open spec fn enums_text(enums: Seq<MirEnum>) -> Seq<char> {
    concat(enums.map_values(|e: MirEnum| enum_text(e)))
}

/// Functions, one after another.
pub open spec fn functions_text(functions: Seq<MirFunction>, floats: Seq<(u64, String)>) -> Seq<char> {
    concat(functions.map_values(|f: MirFunction| function_text(f, None, floats)))
}

/// Tests, each as the function it runs under the test's name.
pub open spec fn tests_text(tests: Seq<MirTest>, floats: Seq<(u64, String)>) -> Seq<char> {
    concat(tests.map_values(|t: MirTest| function_text(t.function, Some(t.name@), floats)))
}

/// A whole module: its structs, its enums, its functions, and then its tests.
pub open spec fn module_text(module: MirModule, floats: Seq<(u64, String)>) -> Seq<char> {
    structs_text(module.structs@) + enums_text(module.enums@) + functions_text(
        module.functions@,
        floats,
    ) + tests_text(module.tests@, floats)
}

fn push_field(out: &mut String, field: &(String, Type))
    ensures
        final(out)@ == old(out)@ + field_text(*field),
{
    push_str(out, field.0.as_str());
    push_str(out, ": ");
    push_type(out, &field.1);
    assert(final(out)@ =~= old(out)@ + field_text(*field));
}

fn push_struct(out: &mut String, structure: &MirStruct)
    ensures
        final(out)@ == old(out)@ + struct_text(*structure),
{
    let ghost start = out@;
    push_str(out, "struct ");
    push_str(out, structure.name.as_str());
    push_str(out, " {");
    push_not_emitted(out, structure.emit);
    push_str(out, "\n");
    let ghost head = out@;
    let ghost parts = structure.fields@.map_values(
        |f: (String, Type)| "    "@ + field_text(f) + ",\n"@,
    );
    let mut i: usize = 0;
    while i < structure.fields.len()
        invariant
            i <= structure.fields@.len(),
            parts == structure.fields@.map_values(
                |f: (String, Type)| "    "@ + field_text(f) + ",\n"@,
            ),
            out@ == head + concat(parts.subrange(0, i as int)),
        decreases structure.fields@.len() - i,
    {
        proof {
            lemma_concat_step(parts, i as int);
        }
        push_str(out, "    ");
        push_field(out, &structure.fields[i]);
        push_str(out, ",\n");
        i += 1;
        assert(out@ =~= head + concat(parts.subrange(0, i as int)));
    }
    assert(parts.subrange(0, structure.fields@.len() as int) =~= parts);
    push_str(out, "}\n\n");
    assert(out@ =~= start + struct_text(*structure));
}

fn push_variant(out: &mut String, variant: &MirVariant)
    ensures
        final(out)@ == old(out)@ + variant_text(*variant),
{
    let ghost start = out@;
    push_str(out, "    ");
    push_str(out, variant.name.as_str());
    push_str(out, " = ");
    push_usize(out, variant.tag);
    push_str(out, " (");
    let ghost head = out@;
    let ghost parts = variant.fields@.map_values(|f: (String, Type)| field_text(f));
    let mut i: usize = 0;
    while i < variant.fields.len()
        invariant
            i <= variant.fields@.len(),
            parts == variant.fields@.map_values(|f: (String, Type)| field_text(f)),
            out@ == head + joined(parts.subrange(0, i as int), ", "@),
        decreases variant.fields@.len() - i,
    {
        proof {
            lemma_joined_step(parts, ", "@, i as int);
        }
        if i > 0 {
            push_str(out, ", ");
        }
        push_field(out, &variant.fields[i]);
        i += 1;
        assert(out@ =~= head + joined(parts.subrange(0, i as int), ", "@));
    }
    assert(parts.subrange(0, variant.fields@.len() as int) =~= parts);
    push_str(out, "),\n");
    assert(out@ =~= start + variant_text(*variant));
}

fn push_enum(out: &mut String, enumeration: &MirEnum)
    ensures
        final(out)@ == old(out)@ + enum_text(*enumeration),
{
    let ghost start = out@;
    push_str(out, "enum ");
    push_str(out, enumeration.name.as_str());
    push_str(out, " {");
    push_not_emitted(out, enumeration.emit);
    push_str(out, "\n");
    let ghost head = out@;
    let ghost parts = enumeration.variants@.map_values(|v: MirVariant| variant_text(v));
    let mut i: usize = 0;
    while i < enumeration.variants.len()
        invariant
            i <= enumeration.variants@.len(),
            parts == enumeration.variants@.map_values(|v: MirVariant| variant_text(v)),
            out@ == head + concat(parts.subrange(0, i as int)),
        decreases enumeration.variants@.len() - i,
    {
        proof {
            lemma_concat_step(parts, i as int);
        }
        push_variant(out, &enumeration.variants[i]);
        i += 1;
        assert(out@ =~= head + concat(parts.subrange(0, i as int)));
    }
    assert(parts.subrange(0, enumeration.variants@.len() as int) =~= parts);
    push_str(out, "}\n\n");
    assert(out@ =~= start + enum_text(*enumeration));
}

fn push_structs(out: &mut String, structs: &Vec<MirStruct>)
    ensures
        final(out)@ == old(out)@ + structs_text(structs@),
{
    let ghost start = out@;
    let ghost parts = structs@.map_values(|s: MirStruct| struct_text(s));
    let mut i: usize = 0;
    while i < structs.len()
        invariant
            i <= structs@.len(),
            parts == structs@.map_values(|s: MirStruct| struct_text(s)),
            out@ == start + concat(parts.subrange(0, i as int)),
        decreases structs@.len() - i,
    {
        proof {
            lemma_concat_step(parts, i as int);
        }
        push_struct(out, &structs[i]);
        i += 1;
        assert(out@ =~= start + concat(parts.subrange(0, i as int)));
    }
    assert(parts.subrange(0, structs@.len() as int) =~= parts);
}

fn push_enums(out: &mut String, enums: &Vec<MirEnum>)
    ensures
        final(out)@ == old(out)@ + enums_text(enums@),
{
    let ghost start = out@;
    let ghost parts = enums@.map_values(|e: MirEnum| enum_text(e));
    let mut i: usize = 0;
    while i < enums.len()
        invariant
            i <= enums@.len(),
            parts == enums@.map_values(|e: MirEnum| enum_text(e)),
            out@ == start + concat(parts.subrange(0, i as int)),
        decreases enums@.len() - i,
    {
        proof {
            lemma_concat_step(parts, i as int);
        }
        push_enum(out, &enums[i]);
        i += 1;
        assert(out@ =~= start + concat(parts.subrange(0, i as int)));
    }
    assert(parts.subrange(0, enums@.len() as int) =~= parts);
}

fn push_functions(out: &mut String, functions: &Vec<MirFunction>, floats: &Vec<(u64, String)>)
    ensures
        final(out)@ == old(out)@ + functions_text(functions@, floats@),
{
    let ghost start = out@;
    let ghost parts = functions@.map_values(|f: MirFunction| function_text(f, None, floats@));
    let mut i: usize = 0;
    while i < functions.len()
        invariant
            i <= functions@.len(),
            parts == functions@.map_values(|f: MirFunction| function_text(f, None, floats@)),
            out@ == start + concat(parts.subrange(0, i as int)),
        decreases functions@.len() - i,
    {
        proof {
            lemma_concat_step(parts, i as int);
        }
        push_function(out, &functions[i], None, floats);
        i += 1;
        assert(out@ =~= start + concat(parts.subrange(0, i as int)));
    }
    assert(parts.subrange(0, functions@.len() as int) =~= parts);
}

fn push_tests(out: &mut String, tests: &Vec<MirTest>, floats: &Vec<(u64, String)>)
    ensures
        final(out)@ == old(out)@ + tests_text(tests@, floats@),
{
    let ghost start = out@;
    let ghost parts = tests@.map_values(|t: MirTest| function_text(t.function, Some(t.name@), floats@));
    let mut i: usize = 0;
    while i < tests.len()
        invariant
            i <= tests@.len(),
            parts == tests@.map_values(|t: MirTest| function_text(t.function, Some(t.name@), floats@)),
            out@ == start + concat(parts.subrange(0, i as int)),
        decreases tests@.len() - i,
    {
        proof {
            lemma_concat_step(parts, i as int);
        }
        let test = &tests[i];
        push_function(out, &test.function, Some(test.name.as_str()), floats);
        i += 1;
        assert(out@ =~= start + concat(parts.subrange(0, i as int)));
    }
    assert(parts.subrange(0, tests@.len() as int) =~= parts);
}

/// A whole module, as the listing shows it, each float constant written as
/// `floats` gives the text for its bits.
pub fn render_module(module: &MirModule, floats: &Vec<(u64, String)>) -> (text: String)
    ensures
        text@ == module_text(*module, floats@),
{
    let mut out = String::new();
    push_structs(&mut out, &module.structs);
    push_enums(&mut out, &module.enums);
    push_functions(&mut out, &module.functions, floats);
    push_tests(&mut out, &module.tests, floats);
    assert(out@ =~= module_text(*module, floats@));
    out
}

} // verus!
