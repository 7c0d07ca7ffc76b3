//! Moving a module's spans by where its file starts in the package.
use crate::ast::{
    Capture, ConstDecl, EnumDecl, Expr, ExprKind, Extern, Field, Function, MatchArm, Param, Pattern,
    PatternField, PatternKind, Program, StructDecl, Test, Variant,
};
use crate::diagnostic::Span;
use vstd::prelude::*;

verus! {

/// `s` moved on by `base` bytes; its line and column stay.
pub open spec fn moved(s: Span, base: int) -> Span {
    Span { start: (s.start + base) as usize, end: (s.end + base) as usize, line: s.line, column: s.column }
}

/// `s` can be moved on by `base` within a word.
pub open spec fn fits(s: Span, base: int) -> bool {
    s.start + base <= usize::MAX && s.end + base <= usize::MAX
}

fn shift_span(s: Span, base: usize) -> (r: Span)
    requires
        fits(s, base as int),
    ensures
        r == moved(s, base as int),
{
    Span { start: s.start + base, end: s.end + base, line: s.line, column: s.column }
}

/// Patterns.
pub open spec fn fits_pattern(p: Pattern, base: int) -> bool
    decreases p, 0int,
{
    &&& fits(p.span, base)
    &&& match p.kind {
        PatternKind::Enum { fields, .. } => fits_patterns(fields@, base),
        PatternKind::Struct { fields, .. } => fits_field_patterns(fields@, base),
        _ => true,
    }
}

pub open spec fn shifted_pattern(old: Pattern, new: Pattern, base: int) -> bool
    decreases old, 0int,
{
    &&& new.span == moved(old.span, base)
    &&& match old.kind {
        PatternKind::Enum { path, fields } => new.kind matches PatternKind::Enum { path: p2, fields: f2 } && p2 == path
            && shifted_patterns(fields@, f2@, base),
        PatternKind::Struct { path, fields } => new.kind matches PatternKind::Struct { path: p2, fields: f2 } && p2
            == path && shifted_field_patterns(fields@, f2@, base),
        _ => new.kind == old.kind,
    }
}

pub open spec fn fits_field_pattern(f: PatternField, base: int) -> bool
    decreases f, 0int,
{
    fits(f.span, base) && fits_pattern(f.pattern, base)
}

pub open spec fn shifted_field_pattern(old: PatternField, new: PatternField, base: int) -> bool
    decreases old, 0int,
{
    &&& new.name == old.name
    &&& new.span == moved(old.span, base)
    &&& shifted_pattern(old.pattern, new.pattern, base)
}

pub open spec fn fits_patterns(xs: Seq<Pattern>, base: int) -> bool
    decreases xs, 1int,
{
    xs.len() == 0 || (fits_patterns(xs.drop_last(), base) && fits_pattern(xs.last(), base))
}

pub open spec fn shifted_patterns(olds: Seq<Pattern>, news: Seq<Pattern>, base: int) -> bool
    decreases olds, 1int,
{
    &&& olds.len() == news.len()
    &&& (olds.len() == 0 || (shifted_patterns(olds.drop_last(), news.drop_last(), base) && shifted_pattern(olds.last(), news.last(), base)))
}

pub open spec fn fits_field_patterns(xs: Seq<PatternField>, base: int) -> bool
    decreases xs, 1int,
{
    xs.len() == 0 || (fits_field_patterns(xs.drop_last(), base) && fits_field_pattern(xs.last(), base))
}

pub open spec fn shifted_field_patterns(olds: Seq<PatternField>, news: Seq<PatternField>, base: int) -> bool
    decreases olds, 1int,
{
    &&& olds.len() == news.len()
    &&& (olds.len() == 0 || (shifted_field_patterns(olds.drop_last(), news.drop_last(), base) && shifted_field_pattern(olds.last(), news.last(), base)))
}

/// Parameters and captures: each moves its span and keeps the rest.
pub open spec fn fits_param(p: Param, base: int) -> bool {
    fits(p.span, base)
}

pub open spec fn shifted_param(old: Param, new: Param, base: int) -> bool {
    new.name == old.name && new.ty == old.ty && new.span == moved(old.span, base)
}

pub open spec fn fits_capture(c: Capture, base: int) -> bool {
    fits(c.span, base)
}

pub open spec fn shifted_capture(old: Capture, new: Capture, base: int) -> bool {
    new.name == old.name && new.span == moved(old.span, base)
}

pub open spec fn fits_field(f: Field, base: int) -> bool {
    fits(f.span, base)
}

pub open spec fn shifted_field(old: Field, new: Field, base: int) -> bool {
    new.name == old.name && new.ty == old.ty && new.span == moved(old.span, base)
}

pub open spec fn fits_params(xs: Seq<Param>, base: int) -> bool
    decreases xs.len(),
{
    xs.len() == 0 || (fits_params(xs.drop_last(), base) && fits_param(xs.last(), base))
}

pub open spec fn shifted_params(olds: Seq<Param>, news: Seq<Param>, base: int) -> bool
    decreases olds.len(),
{
    &&& olds.len() == news.len()
    &&& (olds.len() == 0 || (shifted_params(olds.drop_last(), news.drop_last(), base) && shifted_param(olds.last(), news.last(), base)))
}

pub open spec fn fits_captures(xs: Seq<Capture>, base: int) -> bool
    decreases xs.len(),
{
    xs.len() == 0 || (fits_captures(xs.drop_last(), base) && fits_capture(xs.last(), base))
}

pub open spec fn shifted_captures(olds: Seq<Capture>, news: Seq<Capture>, base: int) -> bool
    decreases olds.len(),
{
    &&& olds.len() == news.len()
    &&& (olds.len() == 0 || (shifted_captures(olds.drop_last(), news.drop_last(), base) && shifted_capture(olds.last(), news.last(), base)))
}

pub open spec fn fits_fields(xs: Seq<Field>, base: int) -> bool
    decreases xs.len(),
{
    xs.len() == 0 || (fits_fields(xs.drop_last(), base) && fits_field(xs.last(), base))
}

pub open spec fn shifted_fields(olds: Seq<Field>, news: Seq<Field>, base: int) -> bool
    decreases olds.len(),
{
    &&& olds.len() == news.len()
    &&& (olds.len() == 0 || (shifted_fields(olds.drop_last(), news.drop_last(), base) && shifted_field(olds.last(), news.last(), base)))
}

/// Expressions: every span inside moves, with two exceptions kept as they
/// are, a `defer`'s body and a composition's operands.
pub open spec fn fits_expr(e: Expr, base: int) -> bool
    decreases e, 0int,
{
    &&& fits(e.span, base)
    &&& match e.kind {
        ExprKind::Let { value, .. } => fits_expr(*value, base),
        ExprKind::Assign { value, .. } => fits_expr(*value, base),
        ExprKind::Do(items) => fits_exprs(items@, base),
        ExprKind::Unsafe(items) => fits_exprs(items@, base),
        ExprKind::If { condition, then_expr, else_expr } => fits_expr(*condition, base) && fits_expr(*then_expr, base)
            && fits_expr(*else_expr, base),
        ExprKind::Loop { body } => fits_expr(*body, base),
        ExprKind::While { condition, body } => fits_expr(*condition, base) && fits_expr(*body, base),
        ExprKind::Match { value, arms } => fits_expr(*value, base) && fits_arms(arms@, base),
        ExprKind::Break(Some(value)) => fits_expr(*value, base),
        ExprKind::Borrow { value, .. } => fits_expr(*value, base),
        ExprKind::Try(value) => fits_expr(*value, base),
        ExprKind::Convert { value, .. } => fits_expr(*value, base),
        ExprKind::Call { args, .. } => fits_exprs(args@, base),
        ExprKind::Logical { operands, .. } => fits_exprs(operands@, base),
        ExprKind::Lambda { captures, params, body, .. } => fits_captures(captures@, base) && fits_params(params@, base)
            && fits_expr(*body, base),
        _ => true,
    }
}

pub open spec fn shifted_expr(old: Expr, new: Expr, base: int) -> bool
    decreases old, 0int,
{
    &&& new.span == moved(old.span, base)
    &&& match old.kind {
        ExprKind::Let { name, mutable, ty, value } => new.kind matches ExprKind::Let {
            name: n2,
            mutable: m2,
            ty: t2,
            value: v2,
        } && n2 == name && m2 == mutable && t2 == ty && shifted_expr(*value, *v2, base),
        ExprKind::Assign { name, value } => new.kind matches ExprKind::Assign { name: n2, value: v2 } && n2 == name
            && shifted_expr(*value, *v2, base),
        ExprKind::Do(items) => new.kind matches ExprKind::Do(i2) && shifted_exprs(items@, i2@, base),
        ExprKind::Unsafe(items) => new.kind matches ExprKind::Unsafe(i2) && shifted_exprs(items@, i2@, base),
        ExprKind::If { condition, then_expr, else_expr } => new.kind matches ExprKind::If {
            condition: c2,
            then_expr: t2,
            else_expr: e2,
        } && shifted_expr(*condition, *c2, base) && shifted_expr(*then_expr, *t2, base) && shifted_expr(
            *else_expr,
            *e2,
            base,
        ),
        ExprKind::Loop { body } => new.kind matches ExprKind::Loop { body: b2 } && shifted_expr(*body, *b2, base),
        ExprKind::While { condition, body } => new.kind matches ExprKind::While { condition: c2, body: b2 }
            && shifted_expr(*condition, *c2, base) && shifted_expr(*body, *b2, base),
        ExprKind::Match { value, arms } => new.kind matches ExprKind::Match { value: v2, arms: a2 } && shifted_expr(
            *value,
            *v2,
            base,
        ) && shifted_arms(arms@, a2@, base),
        ExprKind::Break(Some(value)) => new.kind matches ExprKind::Break(Some(v2)) && shifted_expr(*value, *v2, base),
        ExprKind::Borrow { mutable, value } => new.kind matches ExprKind::Borrow { mutable: m2, value: v2 } && m2
            == mutable && shifted_expr(*value, *v2, base),
        ExprKind::Try(value) => new.kind matches ExprKind::Try(v2) && shifted_expr(*value, *v2, base),
        ExprKind::Convert { target, value } => new.kind matches ExprKind::Convert { target: t2, value: v2 } && t2
            == target && shifted_expr(*value, *v2, base),
        ExprKind::Call { callee, args } => new.kind matches ExprKind::Call { callee: c2, args: a2 } && c2 == callee
            && shifted_exprs(args@, a2@, base),
        ExprKind::Logical { op, operands } => new.kind matches ExprKind::Logical { op: o2, operands: p2 } && o2 == op
            && shifted_exprs(operands@, p2@, base),
        ExprKind::Lambda { captures, params, result, body } => new.kind matches ExprKind::Lambda {
            captures: c2,
            params: p2,
            result: r2,
            body: b2,
        } && shifted_captures(captures@, c2@, base) && shifted_params(params@, p2@, base) && r2 == result
            && shifted_expr(*body, *b2, base),
        _ => new.kind == old.kind,
    }
}

/// A `match` arm: its span, pattern, guard and body all move.
pub open spec fn fits_arm(a: MatchArm, base: int) -> bool
    decreases a, 0int,
{
    &&& fits(a.span, base)
    &&& fits_pattern(a.pattern, base)
    &&& match a.guard {
        Some(g) => fits_expr(g, base),
        None => true,
    }
    &&& fits_expr(a.body, base)
}

pub open spec fn shifted_arm(old: MatchArm, new: MatchArm, base: int) -> bool
    decreases old, 0int,
{
    &&& new.span == moved(old.span, base)
    &&& shifted_pattern(old.pattern, new.pattern, base)
    &&& match old.guard {
        Some(g) => new.guard matches Some(g2) && shifted_expr(g, g2, base),
        None => new.guard is None,
    }
    &&& shifted_expr(old.body, new.body, base)
}

pub open spec fn fits_exprs(xs: Seq<Expr>, base: int) -> bool
    decreases xs, 1int,
{
    xs.len() == 0 || (fits_exprs(xs.drop_last(), base) && fits_expr(xs.last(), base))
}

pub open spec fn shifted_exprs(olds: Seq<Expr>, news: Seq<Expr>, base: int) -> bool
    decreases olds, 1int,
{
    &&& olds.len() == news.len()
    &&& (olds.len() == 0 || (shifted_exprs(olds.drop_last(), news.drop_last(), base) && shifted_expr(olds.last(), news.last(), base)))
}

pub open spec fn fits_arms(xs: Seq<MatchArm>, base: int) -> bool
    decreases xs, 1int,
{
    xs.len() == 0 || (fits_arms(xs.drop_last(), base) && fits_arm(xs.last(), base))
}

pub open spec fn shifted_arms(olds: Seq<MatchArm>, news: Seq<MatchArm>, base: int) -> bool
    decreases olds, 1int,
{
    &&& olds.len() == news.len()
    &&& (olds.len() == 0 || (shifted_arms(olds.drop_last(), news.drop_last(), base) && shifted_arm(olds.last(), news.last(), base)))
}

/// Declarations.
pub open spec fn fits_function(f: Function, base: int) -> bool {
    fits(f.span, base) && fits_params(f.params@, base) && fits_expr(f.body, base)
}

pub open spec fn shifted_function(old: Function, new: Function, base: int) -> bool {
    &&& new.name == old.name
    &&& new.inline == old.inline
    &&& new.type_params == old.type_params
    &&& new.return_type == old.return_type
    &&& new.span == moved(old.span, base)
    &&& shifted_params(old.params@, new.params@, base)
    &&& shifted_expr(old.body, new.body, base)
}

pub open spec fn fits_extern(x: Extern, base: int) -> bool {
    fits(x.span, base) && fits(x.symbol_span, base) && fits_params(x.params@, base)
}

pub open spec fn shifted_extern(old: Extern, new: Extern, base: int) -> bool {
    &&& new.name == old.name
    &&& new.symbol == old.symbol
    &&& new.return_type == old.return_type
    &&& new.span == moved(old.span, base)
    &&& new.symbol_span == moved(old.symbol_span, base)
    &&& shifted_params(old.params@, new.params@, base)
}

pub open spec fn fits_test(t: Test, base: int) -> bool {
    fits(t.span, base) && fits_expr(t.body, base)
}

pub open spec fn shifted_test(old: Test, new: Test, base: int) -> bool {
    new.name == old.name && new.span == moved(old.span, base) && shifted_expr(old.body, new.body, base)
}

pub open spec fn fits_struct(s: StructDecl, base: int) -> bool {
    fits(s.span, base) && fits_fields(s.fields@, base)
}

pub open spec fn shifted_struct(old: StructDecl, new: StructDecl, base: int) -> bool {
    &&& new.name == old.name
    &&& new.type_params == old.type_params
    &&& new.span == moved(old.span, base)
    &&& shifted_fields(old.fields@, new.fields@, base)
}

pub open spec fn fits_variant(v: Variant, base: int) -> bool {
    fits(v.span, base) && fits_fields(v.fields@, base)
}

pub open spec fn shifted_variant(old: Variant, new: Variant, base: int) -> bool {
    new.name == old.name && new.span == moved(old.span, base) && shifted_fields(old.fields@, new.fields@, base)
}

pub open spec fn fits_variants(xs: Seq<Variant>, base: int) -> bool
    decreases xs.len(),
{
    xs.len() == 0 || (fits_variants(xs.drop_last(), base) && fits_variant(xs.last(), base))
}

pub open spec fn shifted_variants(olds: Seq<Variant>, news: Seq<Variant>, base: int) -> bool
    decreases olds.len(),
{
    &&& olds.len() == news.len()
    &&& (olds.len() == 0 || (shifted_variants(olds.drop_last(), news.drop_last(), base) && shifted_variant(olds.last(), news.last(), base)))
}

pub open spec fn fits_enum(e: EnumDecl, base: int) -> bool {
    fits(e.span, base) && fits_variants(e.variants@, base)
}

pub open spec fn shifted_enum(old: EnumDecl, new: EnumDecl, base: int) -> bool {
    &&& new.name == old.name
    &&& new.type_params == old.type_params
    &&& new.span == moved(old.span, base)
    &&& shifted_variants(old.variants@, new.variants@, base)
}

pub open spec fn fits_const(c: ConstDecl, base: int) -> bool {
    fits(c.span, base) && fits_expr(c.value, base)
}

pub open spec fn shifted_const(old: ConstDecl, new: ConstDecl, base: int) -> bool {
    new.name == old.name && new.ty == old.ty && new.span == moved(old.span, base) && shifted_expr(
        old.value,
        new.value,
        base,
    )
}

pub open spec fn fits_functions(xs: Seq<Function>, base: int) -> bool
    decreases xs.len(),
{
    xs.len() == 0 || (fits_functions(xs.drop_last(), base) && fits_function(xs.last(), base))
}

pub open spec fn shifted_functions(olds: Seq<Function>, news: Seq<Function>, base: int) -> bool
    decreases olds.len(),
{
    &&& olds.len() == news.len()
    &&& (olds.len() == 0 || (shifted_functions(olds.drop_last(), news.drop_last(), base) && shifted_function(olds.last(), news.last(), base)))
}

pub open spec fn fits_externs(xs: Seq<Extern>, base: int) -> bool
    decreases xs.len(),
{
    xs.len() == 0 || (fits_externs(xs.drop_last(), base) && fits_extern(xs.last(), base))
}

pub open spec fn shifted_externs(olds: Seq<Extern>, news: Seq<Extern>, base: int) -> bool
    decreases olds.len(),
{
    &&& olds.len() == news.len()
    &&& (olds.len() == 0 || (shifted_externs(olds.drop_last(), news.drop_last(), base) && shifted_extern(olds.last(), news.last(), base)))
}

pub open spec fn fits_tests(xs: Seq<Test>, base: int) -> bool
    decreases xs.len(),
{
    xs.len() == 0 || (fits_tests(xs.drop_last(), base) && fits_test(xs.last(), base))
}

pub open spec fn shifted_tests(olds: Seq<Test>, news: Seq<Test>, base: int) -> bool
    decreases olds.len(),
{
    &&& olds.len() == news.len()
    &&& (olds.len() == 0 || (shifted_tests(olds.drop_last(), news.drop_last(), base) && shifted_test(olds.last(), news.last(), base)))
}

pub open spec fn fits_structs(xs: Seq<StructDecl>, base: int) -> bool
    decreases xs.len(),
{
    xs.len() == 0 || (fits_structs(xs.drop_last(), base) && fits_struct(xs.last(), base))
}

pub open spec fn shifted_structs(olds: Seq<StructDecl>, news: Seq<StructDecl>, base: int) -> bool
    decreases olds.len(),
{
    &&& olds.len() == news.len()
    &&& (olds.len() == 0 || (shifted_structs(olds.drop_last(), news.drop_last(), base) && shifted_struct(olds.last(), news.last(), base)))
}

pub open spec fn fits_enums(xs: Seq<EnumDecl>, base: int) -> bool
    decreases xs.len(),
{
    xs.len() == 0 || (fits_enums(xs.drop_last(), base) && fits_enum(xs.last(), base))
}

pub open spec fn shifted_enums(olds: Seq<EnumDecl>, news: Seq<EnumDecl>, base: int) -> bool
    decreases olds.len(),
{
    &&& olds.len() == news.len()
    &&& (olds.len() == 0 || (shifted_enums(olds.drop_last(), news.drop_last(), base) && shifted_enum(olds.last(), news.last(), base)))
}

pub open spec fn fits_consts(xs: Seq<ConstDecl>, base: int) -> bool
    decreases xs.len(),
{
    xs.len() == 0 || (fits_consts(xs.drop_last(), base) && fits_const(xs.last(), base))
}

pub open spec fn shifted_consts(olds: Seq<ConstDecl>, news: Seq<ConstDecl>, base: int) -> bool
    decreases olds.len(),
{
    &&& olds.len() == news.len()
    &&& (olds.len() == 0 || (shifted_consts(olds.drop_last(), news.drop_last(), base) && shifted_const(olds.last(), news.last(), base)))
}

/// Every span of `p` can move on by `base` within a word.
pub open spec fn fits_program(p: Program, base: int) -> bool {
    &&& fits_functions(p.functions@, base)
    &&& fits_externs(p.externs@, base)
    &&& fits_tests(p.tests@, base)
    &&& fits_structs(p.structs@, base)
    &&& fits_enums(p.enums@, base)
    &&& fits_consts(p.consts@, base)
}

/// `new` is `old` with every span moved on by `base`.
pub open spec fn shifted_program(old: Program, new: Program, base: int) -> bool {
    &&& shifted_functions(old.functions@, new.functions@, base)
    &&& shifted_externs(old.externs@, new.externs@, base)
    &&& shifted_tests(old.tests@, new.tests@, base)
    &&& shifted_structs(old.structs@, new.structs@, base)
    &&& shifted_enums(old.enums@, new.enums@, base)
    &&& shifted_consts(old.consts@, new.consts@, base)
    &&& new.exports == old.exports
    &&& new.takes == old.takes
}

fn shift_pattern(p: Pattern, base: usize) -> (r: Pattern)
    requires
        fits_pattern(p, base as int),
    ensures
        shifted_pattern(p, r, base as int),
    decreases p,
{
    let Pattern { kind, span } = p;
    let kind = match kind {
        PatternKind::Enum { path, fields } => PatternKind::Enum { path, fields: shift_patterns(fields, base) },
        PatternKind::Struct { path, fields } => PatternKind::Struct {
            path,
            fields: shift_field_patterns(fields, base),
        },
        other => other,
    };
    Pattern { kind, span: shift_span(span, base) }
}

fn shift_field_pattern(f: PatternField, base: usize) -> (r: PatternField)
    requires
        fits_field_pattern(f, base as int),
    ensures
        shifted_field_pattern(f, r, base as int),
    decreases f,
{
    let PatternField { name, pattern, span } = f;
    PatternField { name, pattern: shift_pattern(pattern, base), span: shift_span(span, base) }
}

fn shift_param(p: Param, base: usize) -> (r: Param)
    requires
        fits_param(p, base as int),
    ensures
        shifted_param(p, r, base as int),
{
    let Param { name, ty, span } = p;
    Param { name, ty, span: shift_span(span, base) }
}

fn shift_capture(c: Capture, base: usize) -> (r: Capture)
    requires
        fits_capture(c, base as int),
    ensures
        shifted_capture(c, r, base as int),
{
    let Capture { name, span } = c;
    Capture { name, span: shift_span(span, base) }
}

fn shift_field(f: Field, base: usize) -> (r: Field)
    requires
        fits_field(f, base as int),
    ensures
        shifted_field(f, r, base as int),
{
    let Field { name, ty, span } = f;
    Field { name, ty, span: shift_span(span, base) }
}

fn shift_expr(e: Expr, base: usize) -> (r: Expr)
    requires
        fits_expr(e, base as int),
    ensures
        shifted_expr(e, r, base as int),
    decreases e,
{
    let Expr { kind, span } = e;
    let kind = match kind {
        ExprKind::Let { name, mutable, ty, value } => ExprKind::Let {
            name,
            mutable,
            ty,
            value: Box::new(shift_expr(*value, base)),
        },
        ExprKind::Assign { name, value } => ExprKind::Assign { name, value: Box::new(shift_expr(*value, base)) },
        ExprKind::Do(items) => ExprKind::Do(shift_exprs(items, base)),
        ExprKind::Unsafe(items) => ExprKind::Unsafe(shift_exprs(items, base)),
        ExprKind::If { condition, then_expr, else_expr } => ExprKind::If {
            condition: Box::new(shift_expr(*condition, base)),
            then_expr: Box::new(shift_expr(*then_expr, base)),
            else_expr: Box::new(shift_expr(*else_expr, base)),
        },
        ExprKind::Loop { body } => ExprKind::Loop { body: Box::new(shift_expr(*body, base)) },
        ExprKind::While { condition, body } => ExprKind::While {
            condition: Box::new(shift_expr(*condition, base)),
            body: Box::new(shift_expr(*body, base)),
        },
        ExprKind::Match { value, arms } => ExprKind::Match {
            value: Box::new(shift_expr(*value, base)),
            arms: shift_arms(arms, base),
        },
        ExprKind::Break(Some(value)) => ExprKind::Break(Some(Box::new(shift_expr(*value, base)))),
        ExprKind::Borrow { mutable, value } => ExprKind::Borrow { mutable, value: Box::new(shift_expr(*value, base)) },
        ExprKind::Try(value) => ExprKind::Try(Box::new(shift_expr(*value, base))),
        ExprKind::Convert { target, value } => ExprKind::Convert {
            target,
            value: Box::new(shift_expr(*value, base)),
        },
        ExprKind::Call { callee, args } => ExprKind::Call { callee, args: shift_exprs(args, base) },
        ExprKind::Logical { op, operands } => ExprKind::Logical { op, operands: shift_exprs(operands, base) },
        ExprKind::Lambda { captures, params, result, body } => ExprKind::Lambda {
            captures: shift_captures(captures, base),
            params: shift_params(params, base),
            result,
            body: Box::new(shift_expr(*body, base)),
        },
        other => other,
    };
    Expr { kind, span: shift_span(span, base) }
}

fn shift_arm(a: MatchArm, base: usize) -> (r: MatchArm)
    requires
        fits_arm(a, base as int),
    ensures
        shifted_arm(a, r, base as int),
    decreases a,
{
    let MatchArm { pattern, guard, body, span } = a;
    let guard = match guard {
        Some(g) => Some(shift_expr(g, base)),
        None => None,
    };
    MatchArm {
        pattern: shift_pattern(pattern, base),
        guard,
        body: shift_expr(body, base),
        span: shift_span(span, base),
    }
}

fn shift_function(f: Function, base: usize) -> (r: Function)
    requires
        fits_function(f, base as int),
    ensures
        shifted_function(f, r, base as int),
{
    let Function { name, inline, type_params, params, return_type, body, span } = f;
    Function {
        name,
        inline,
        type_params,
        params: shift_params(params, base),
        return_type,
        body: shift_expr(body, base),
        span: shift_span(span, base),
    }
}

fn shift_extern(x: Extern, base: usize) -> (r: Extern)
    requires
        fits_extern(x, base as int),
    ensures
        shifted_extern(x, r, base as int),
{
    let Extern { name, symbol, symbol_span, params, return_type, span } = x;
    Extern {
        name,
        symbol,
        symbol_span: shift_span(symbol_span, base),
        params: shift_params(params, base),
        return_type,
        span: shift_span(span, base),
    }
}

fn shift_test(t: Test, base: usize) -> (r: Test)
    requires
        fits_test(t, base as int),
    ensures
        shifted_test(t, r, base as int),
{
    let Test { name, body, span } = t;
    Test { name, body: shift_expr(body, base), span: shift_span(span, base) }
}

fn shift_struct(s: StructDecl, base: usize) -> (r: StructDecl)
    requires
        fits_struct(s, base as int),
    ensures
        shifted_struct(s, r, base as int),
{
    let StructDecl { name, type_params, fields, span } = s;
    StructDecl { name, type_params, fields: shift_fields(fields, base), span: shift_span(span, base) }
}

fn shift_variant(v: Variant, base: usize) -> (r: Variant)
    requires
        fits_variant(v, base as int),
    ensures
        shifted_variant(v, r, base as int),
{
    let Variant { name, fields, span } = v;
    Variant { name, fields: shift_fields(fields, base), span: shift_span(span, base) }
}

fn shift_enum(e: EnumDecl, base: usize) -> (r: EnumDecl)
    requires
        fits_enum(e, base as int),
    ensures
        shifted_enum(e, r, base as int),
{
    let EnumDecl { name, type_params, variants, span } = e;
    EnumDecl { name, type_params, variants: shift_variants(variants, base), span: shift_span(span, base) }
}

fn shift_const(c: ConstDecl, base: usize) -> (r: ConstDecl)
    requires
        fits_const(c, base as int),
    ensures
        shifted_const(c, r, base as int),
{
    let ConstDecl { name, ty, value, span } = c;
    ConstDecl { name, ty, value: shift_expr(value, base), span: shift_span(span, base) }
}

/// Moves every span of `program` on by `base`: where the module's file
/// starts in the package, so that each points into the package's source
/// map. A `defer`'s body and a composition's operands keep their spans.
pub fn shift_program(program: &mut Program, base: usize)
    requires
        fits_program(*old(program), base as int),
    ensures
        shifted_program(*old(program), *final(program), base as int),
{
    let mut functions: Vec<Function> = Vec::new();
    std::mem::swap(&mut functions, &mut program.functions);
    program.functions = shift_functions(functions, base);
    let mut externs: Vec<Extern> = Vec::new();
    std::mem::swap(&mut externs, &mut program.externs);
    program.externs = shift_externs(externs, base);
    let mut tests: Vec<Test> = Vec::new();
    std::mem::swap(&mut tests, &mut program.tests);
    program.tests = shift_tests(tests, base);
    let mut structs: Vec<StructDecl> = Vec::new();
    std::mem::swap(&mut structs, &mut program.structs);
    program.structs = shift_structs(structs, base);
    let mut enums: Vec<EnumDecl> = Vec::new();
    std::mem::swap(&mut enums, &mut program.enums);
    program.enums = shift_enums(enums, base);
    let mut consts: Vec<ConstDecl> = Vec::new();
    std::mem::swap(&mut consts, &mut program.consts);
    program.consts = shift_consts(consts, base);
}

fn shift_patterns(xs: Vec<Pattern>, base: usize) -> (r: Vec<Pattern>)
    requires
        fits_patterns(xs@, base as int),
    ensures
        shifted_patterns(xs@, r@, base as int),
    decreases xs,
{
    let ghost original = xs@;
    proof {
        lemma_fits_patterns_each(original, base as int);
    }
    let mut rest = crate::mir::reversed(xs);
    let mut out: Vec<Pattern> = Vec::new();
    assert(original.subrange(0, 0) =~= Seq::<Pattern>::empty());
    while rest.len() > 0
        invariant
            original.len() == out@.len() + rest@.len(),
            forall|j: int| 0 <= j < rest@.len() ==> #[trigger] rest@[j] == original[original.len() - 1 - j],
            shifted_patterns(original.subrange(0, out@.len() as int), out@, base as int),
            forall|k: int| 0 <= k < original.len() ==> fits_pattern(#[trigger] original[k], base as int),
            original == xs@,
        decreases rest@.len(),
    {
        let k = out.len();
        let ghost rb = rest@;
        let x = rest.pop().unwrap();
        assert(x == rb[rb.len() - 1]);
        assert(x == original[k as int]);
        let y = shift_pattern(x, base);
        let ghost before = out@;
        out.push(y);
        assert(out@.drop_last() =~= before);
        assert(original.subrange(0, k + 1).drop_last() =~= original.subrange(0, k as int));
        assert forall|j: int| 0 <= j < rest@.len() implies #[trigger] rest@[j] == original[original.len() - 1 - j] by {
            assert(rest@[j] == rb[j]);
        }
    }
    assert(original.subrange(0, original.len() as int) =~= original);
    out
}

proof fn lemma_fits_patterns_each(xs: Seq<Pattern>, base: int)
    requires
        fits_patterns(xs, base),
    ensures
        forall|k: int| 0 <= k < xs.len() ==> fits_pattern(#[trigger] xs[k], base),
    decreases xs.len(),
{
    if xs.len() > 0 {
        lemma_fits_patterns_each(xs.drop_last(), base);
        assert forall|k: int| 0 <= k < xs.len() implies fits_pattern(#[trigger] xs[k], base) by {
            if k < xs.len() - 1 {
                assert(xs[k] == xs.drop_last()[k]);
            }
        }
    }
}

fn shift_field_patterns(xs: Vec<PatternField>, base: usize) -> (r: Vec<PatternField>)
    requires
        fits_field_patterns(xs@, base as int),
    ensures
        shifted_field_patterns(xs@, r@, base as int),
    decreases xs,
{
    let ghost original = xs@;
    proof {
        lemma_fits_field_patterns_each(original, base as int);
    }
    let mut rest = crate::mir::reversed(xs);
    let mut out: Vec<PatternField> = Vec::new();
    assert(original.subrange(0, 0) =~= Seq::<PatternField>::empty());
    while rest.len() > 0
        invariant
            original.len() == out@.len() + rest@.len(),
            forall|j: int| 0 <= j < rest@.len() ==> #[trigger] rest@[j] == original[original.len() - 1 - j],
            shifted_field_patterns(original.subrange(0, out@.len() as int), out@, base as int),
            forall|k: int| 0 <= k < original.len() ==> fits_field_pattern(#[trigger] original[k], base as int),
            original == xs@,
        decreases rest@.len(),
    {
        let k = out.len();
        let ghost rb = rest@;
        let x = rest.pop().unwrap();
        assert(x == rb[rb.len() - 1]);
        assert(x == original[k as int]);
        let y = shift_field_pattern(x, base);
        let ghost before = out@;
        out.push(y);
        assert(out@.drop_last() =~= before);
        assert(original.subrange(0, k + 1).drop_last() =~= original.subrange(0, k as int));
        assert forall|j: int| 0 <= j < rest@.len() implies #[trigger] rest@[j] == original[original.len() - 1 - j] by {
            assert(rest@[j] == rb[j]);
        }
    }
    assert(original.subrange(0, original.len() as int) =~= original);
    out
}

proof fn lemma_fits_field_patterns_each(xs: Seq<PatternField>, base: int)
    requires
        fits_field_patterns(xs, base),
    ensures
        forall|k: int| 0 <= k < xs.len() ==> fits_field_pattern(#[trigger] xs[k], base),
    decreases xs.len(),
{
    if xs.len() > 0 {
        lemma_fits_field_patterns_each(xs.drop_last(), base);
        assert forall|k: int| 0 <= k < xs.len() implies fits_field_pattern(#[trigger] xs[k], base) by {
            if k < xs.len() - 1 {
                assert(xs[k] == xs.drop_last()[k]);
            }
        }
    }
}

fn shift_params(xs: Vec<Param>, base: usize) -> (r: Vec<Param>)
    requires
        fits_params(xs@, base as int),
    ensures
        shifted_params(xs@, r@, base as int),
{
    let ghost original = xs@;
    proof {
        lemma_fits_params_each(original, base as int);
    }
    let mut rest = crate::mir::reversed(xs);
    let mut out: Vec<Param> = Vec::new();
    assert(original.subrange(0, 0) =~= Seq::<Param>::empty());
    while rest.len() > 0
        invariant
            original.len() == out@.len() + rest@.len(),
            forall|j: int| 0 <= j < rest@.len() ==> #[trigger] rest@[j] == original[original.len() - 1 - j],
            shifted_params(original.subrange(0, out@.len() as int), out@, base as int),
            forall|k: int| 0 <= k < original.len() ==> fits_param(#[trigger] original[k], base as int),
            original == xs@,
        decreases rest@.len(),
    {
        let k = out.len();
        let ghost rb = rest@;
        let x = rest.pop().unwrap();
        assert(x == rb[rb.len() - 1]);
        assert(x == original[k as int]);
        let y = shift_param(x, base);
        let ghost before = out@;
        out.push(y);
        assert(out@.drop_last() =~= before);
        assert(original.subrange(0, k + 1).drop_last() =~= original.subrange(0, k as int));
        assert forall|j: int| 0 <= j < rest@.len() implies #[trigger] rest@[j] == original[original.len() - 1 - j] by {
            assert(rest@[j] == rb[j]);
        }
    }
    assert(original.subrange(0, original.len() as int) =~= original);
    out
}

proof fn lemma_fits_params_each(xs: Seq<Param>, base: int)
    requires
        fits_params(xs, base),
    ensures
        forall|k: int| 0 <= k < xs.len() ==> fits_param(#[trigger] xs[k], base),
    decreases xs.len(),
{
    if xs.len() > 0 {
        lemma_fits_params_each(xs.drop_last(), base);
        assert forall|k: int| 0 <= k < xs.len() implies fits_param(#[trigger] xs[k], base) by {
            if k < xs.len() - 1 {
                assert(xs[k] == xs.drop_last()[k]);
            }
        }
    }
}

fn shift_captures(xs: Vec<Capture>, base: usize) -> (r: Vec<Capture>)
    requires
        fits_captures(xs@, base as int),
    ensures
        shifted_captures(xs@, r@, base as int),
{
    let ghost original = xs@;
    proof {
        lemma_fits_captures_each(original, base as int);
    }
    let mut rest = crate::mir::reversed(xs);
    let mut out: Vec<Capture> = Vec::new();
    assert(original.subrange(0, 0) =~= Seq::<Capture>::empty());
    while rest.len() > 0
        invariant
            original.len() == out@.len() + rest@.len(),
            forall|j: int| 0 <= j < rest@.len() ==> #[trigger] rest@[j] == original[original.len() - 1 - j],
            shifted_captures(original.subrange(0, out@.len() as int), out@, base as int),
            forall|k: int| 0 <= k < original.len() ==> fits_capture(#[trigger] original[k], base as int),
            original == xs@,
        decreases rest@.len(),
    {
        let k = out.len();
        let ghost rb = rest@;
        let x = rest.pop().unwrap();
        assert(x == rb[rb.len() - 1]);
        assert(x == original[k as int]);
        let y = shift_capture(x, base);
        let ghost before = out@;
        out.push(y);
        assert(out@.drop_last() =~= before);
        assert(original.subrange(0, k + 1).drop_last() =~= original.subrange(0, k as int));
        assert forall|j: int| 0 <= j < rest@.len() implies #[trigger] rest@[j] == original[original.len() - 1 - j] by {
            assert(rest@[j] == rb[j]);
        }
    }
    assert(original.subrange(0, original.len() as int) =~= original);
    out
}

proof fn lemma_fits_captures_each(xs: Seq<Capture>, base: int)
    requires
        fits_captures(xs, base),
    ensures
        forall|k: int| 0 <= k < xs.len() ==> fits_capture(#[trigger] xs[k], base),
    decreases xs.len(),
{
    if xs.len() > 0 {
        lemma_fits_captures_each(xs.drop_last(), base);
        assert forall|k: int| 0 <= k < xs.len() implies fits_capture(#[trigger] xs[k], base) by {
            if k < xs.len() - 1 {
                assert(xs[k] == xs.drop_last()[k]);
            }
        }
    }
}

fn shift_fields(xs: Vec<Field>, base: usize) -> (r: Vec<Field>)
    requires
        fits_fields(xs@, base as int),
    ensures
        shifted_fields(xs@, r@, base as int),
{
    let ghost original = xs@;
    proof {
        lemma_fits_fields_each(original, base as int);
    }
    let mut rest = crate::mir::reversed(xs);
    let mut out: Vec<Field> = Vec::new();
    assert(original.subrange(0, 0) =~= Seq::<Field>::empty());
    while rest.len() > 0
        invariant
            original.len() == out@.len() + rest@.len(),
            forall|j: int| 0 <= j < rest@.len() ==> #[trigger] rest@[j] == original[original.len() - 1 - j],
            shifted_fields(original.subrange(0, out@.len() as int), out@, base as int),
            forall|k: int| 0 <= k < original.len() ==> fits_field(#[trigger] original[k], base as int),
            original == xs@,
        decreases rest@.len(),
    {
        let k = out.len();
        let ghost rb = rest@;
        let x = rest.pop().unwrap();
        assert(x == rb[rb.len() - 1]);
        assert(x == original[k as int]);
        let y = shift_field(x, base);
        let ghost before = out@;
        out.push(y);
        assert(out@.drop_last() =~= before);
        assert(original.subrange(0, k + 1).drop_last() =~= original.subrange(0, k as int));
        assert forall|j: int| 0 <= j < rest@.len() implies #[trigger] rest@[j] == original[original.len() - 1 - j] by {
            assert(rest@[j] == rb[j]);
        }
    }
    assert(original.subrange(0, original.len() as int) =~= original);
    out
}

proof fn lemma_fits_fields_each(xs: Seq<Field>, base: int)
    requires
        fits_fields(xs, base),
    ensures
        forall|k: int| 0 <= k < xs.len() ==> fits_field(#[trigger] xs[k], base),
    decreases xs.len(),
{
    if xs.len() > 0 {
        lemma_fits_fields_each(xs.drop_last(), base);
        assert forall|k: int| 0 <= k < xs.len() implies fits_field(#[trigger] xs[k], base) by {
            if k < xs.len() - 1 {
                assert(xs[k] == xs.drop_last()[k]);
            }
        }
    }
}

fn shift_exprs(xs: Vec<Expr>, base: usize) -> (r: Vec<Expr>)
    requires
        fits_exprs(xs@, base as int),
    ensures
        shifted_exprs(xs@, r@, base as int),
    decreases xs,
{
    let ghost original = xs@;
    proof {
        lemma_fits_exprs_each(original, base as int);
    }
    let mut rest = crate::mir::reversed(xs);
    let mut out: Vec<Expr> = Vec::new();
    assert(original.subrange(0, 0) =~= Seq::<Expr>::empty());
    while rest.len() > 0
        invariant
            original.len() == out@.len() + rest@.len(),
            forall|j: int| 0 <= j < rest@.len() ==> #[trigger] rest@[j] == original[original.len() - 1 - j],
            shifted_exprs(original.subrange(0, out@.len() as int), out@, base as int),
            forall|k: int| 0 <= k < original.len() ==> fits_expr(#[trigger] original[k], base as int),
            original == xs@,
        decreases rest@.len(),
    {
        let k = out.len();
        let ghost rb = rest@;
        let x = rest.pop().unwrap();
        assert(x == rb[rb.len() - 1]);
        assert(x == original[k as int]);
        let y = shift_expr(x, base);
        let ghost before = out@;
        out.push(y);
        assert(out@.drop_last() =~= before);
        assert(original.subrange(0, k + 1).drop_last() =~= original.subrange(0, k as int));
        assert forall|j: int| 0 <= j < rest@.len() implies #[trigger] rest@[j] == original[original.len() - 1 - j] by {
            assert(rest@[j] == rb[j]);
        }
    }
    assert(original.subrange(0, original.len() as int) =~= original);
    out
}

proof fn lemma_fits_exprs_each(xs: Seq<Expr>, base: int)
    requires
        fits_exprs(xs, base),
    ensures
        forall|k: int| 0 <= k < xs.len() ==> fits_expr(#[trigger] xs[k], base),
    decreases xs.len(),
{
    if xs.len() > 0 {
        lemma_fits_exprs_each(xs.drop_last(), base);
        assert forall|k: int| 0 <= k < xs.len() implies fits_expr(#[trigger] xs[k], base) by {
            if k < xs.len() - 1 {
                assert(xs[k] == xs.drop_last()[k]);
            }
        }
    }
}

fn shift_arms(xs: Vec<MatchArm>, base: usize) -> (r: Vec<MatchArm>)
    requires
        fits_arms(xs@, base as int),
    ensures
        shifted_arms(xs@, r@, base as int),
    decreases xs,
{
    let ghost original = xs@;
    proof {
        lemma_fits_arms_each(original, base as int);
    }
    let mut rest = crate::mir::reversed(xs);
    let mut out: Vec<MatchArm> = Vec::new();
    assert(original.subrange(0, 0) =~= Seq::<MatchArm>::empty());
    while rest.len() > 0
        invariant
            original.len() == out@.len() + rest@.len(),
            forall|j: int| 0 <= j < rest@.len() ==> #[trigger] rest@[j] == original[original.len() - 1 - j],
            shifted_arms(original.subrange(0, out@.len() as int), out@, base as int),
            forall|k: int| 0 <= k < original.len() ==> fits_arm(#[trigger] original[k], base as int),
            original == xs@,
        decreases rest@.len(),
    {
        let k = out.len();
        let ghost rb = rest@;
        let x = rest.pop().unwrap();
        assert(x == rb[rb.len() - 1]);
        assert(x == original[k as int]);
        let y = shift_arm(x, base);
        let ghost before = out@;
        out.push(y);
        assert(out@.drop_last() =~= before);
        assert(original.subrange(0, k + 1).drop_last() =~= original.subrange(0, k as int));
        assert forall|j: int| 0 <= j < rest@.len() implies #[trigger] rest@[j] == original[original.len() - 1 - j] by {
            assert(rest@[j] == rb[j]);
        }
    }
    assert(original.subrange(0, original.len() as int) =~= original);
    out
}

proof fn lemma_fits_arms_each(xs: Seq<MatchArm>, base: int)
    requires
        fits_arms(xs, base),
    ensures
        forall|k: int| 0 <= k < xs.len() ==> fits_arm(#[trigger] xs[k], base),
    decreases xs.len(),
{
    if xs.len() > 0 {
        lemma_fits_arms_each(xs.drop_last(), base);
        assert forall|k: int| 0 <= k < xs.len() implies fits_arm(#[trigger] xs[k], base) by {
            if k < xs.len() - 1 {
                assert(xs[k] == xs.drop_last()[k]);
            }
        }
    }
}

fn shift_variants(xs: Vec<Variant>, base: usize) -> (r: Vec<Variant>)
    requires
        fits_variants(xs@, base as int),
    ensures
        shifted_variants(xs@, r@, base as int),
{
    let ghost original = xs@;
    proof {
        lemma_fits_variants_each(original, base as int);
    }
    let mut rest = crate::mir::reversed(xs);
    let mut out: Vec<Variant> = Vec::new();
    assert(original.subrange(0, 0) =~= Seq::<Variant>::empty());
    while rest.len() > 0
        invariant
            original.len() == out@.len() + rest@.len(),
            forall|j: int| 0 <= j < rest@.len() ==> #[trigger] rest@[j] == original[original.len() - 1 - j],
            shifted_variants(original.subrange(0, out@.len() as int), out@, base as int),
            forall|k: int| 0 <= k < original.len() ==> fits_variant(#[trigger] original[k], base as int),
            original == xs@,
        decreases rest@.len(),
    {
        let k = out.len();
        let ghost rb = rest@;
        let x = rest.pop().unwrap();
        assert(x == rb[rb.len() - 1]);
        assert(x == original[k as int]);
        let y = shift_variant(x, base);
        let ghost before = out@;
        out.push(y);
        assert(out@.drop_last() =~= before);
        assert(original.subrange(0, k + 1).drop_last() =~= original.subrange(0, k as int));
        assert forall|j: int| 0 <= j < rest@.len() implies #[trigger] rest@[j] == original[original.len() - 1 - j] by {
            assert(rest@[j] == rb[j]);
        }
    }
    assert(original.subrange(0, original.len() as int) =~= original);
    out
}

proof fn lemma_fits_variants_each(xs: Seq<Variant>, base: int)
    requires
        fits_variants(xs, base),
    ensures
        forall|k: int| 0 <= k < xs.len() ==> fits_variant(#[trigger] xs[k], base),
    decreases xs.len(),
{
    if xs.len() > 0 {
        lemma_fits_variants_each(xs.drop_last(), base);
        assert forall|k: int| 0 <= k < xs.len() implies fits_variant(#[trigger] xs[k], base) by {
            if k < xs.len() - 1 {
                assert(xs[k] == xs.drop_last()[k]);
            }
        }
    }
}

fn shift_functions(xs: Vec<Function>, base: usize) -> (r: Vec<Function>)
    requires
        fits_functions(xs@, base as int),
    ensures
        shifted_functions(xs@, r@, base as int),
{
    let ghost original = xs@;
    proof {
        lemma_fits_functions_each(original, base as int);
    }
    let mut rest = crate::mir::reversed(xs);
    let mut out: Vec<Function> = Vec::new();
    assert(original.subrange(0, 0) =~= Seq::<Function>::empty());
    while rest.len() > 0
        invariant
            original.len() == out@.len() + rest@.len(),
            forall|j: int| 0 <= j < rest@.len() ==> #[trigger] rest@[j] == original[original.len() - 1 - j],
            shifted_functions(original.subrange(0, out@.len() as int), out@, base as int),
            forall|k: int| 0 <= k < original.len() ==> fits_function(#[trigger] original[k], base as int),
            original == xs@,
        decreases rest@.len(),
    {
        let k = out.len();
        let ghost rb = rest@;
        let x = rest.pop().unwrap();
        assert(x == rb[rb.len() - 1]);
        assert(x == original[k as int]);
        let y = shift_function(x, base);
        let ghost before = out@;
        out.push(y);
        assert(out@.drop_last() =~= before);
        assert(original.subrange(0, k + 1).drop_last() =~= original.subrange(0, k as int));
        assert forall|j: int| 0 <= j < rest@.len() implies #[trigger] rest@[j] == original[original.len() - 1 - j] by {
            assert(rest@[j] == rb[j]);
        }
    }
    assert(original.subrange(0, original.len() as int) =~= original);
    out
}

proof fn lemma_fits_functions_each(xs: Seq<Function>, base: int)
    requires
        fits_functions(xs, base),
    ensures
        forall|k: int| 0 <= k < xs.len() ==> fits_function(#[trigger] xs[k], base),
    decreases xs.len(),
{
    if xs.len() > 0 {
        lemma_fits_functions_each(xs.drop_last(), base);
        assert forall|k: int| 0 <= k < xs.len() implies fits_function(#[trigger] xs[k], base) by {
            if k < xs.len() - 1 {
                assert(xs[k] == xs.drop_last()[k]);
            }
        }
    }
}

fn shift_externs(xs: Vec<Extern>, base: usize) -> (r: Vec<Extern>)
    requires
        fits_externs(xs@, base as int),
    ensures
        shifted_externs(xs@, r@, base as int),
{
    let ghost original = xs@;
    proof {
        lemma_fits_externs_each(original, base as int);
    }
    let mut rest = crate::mir::reversed(xs);
    let mut out: Vec<Extern> = Vec::new();
    assert(original.subrange(0, 0) =~= Seq::<Extern>::empty());
    while rest.len() > 0
        invariant
            original.len() == out@.len() + rest@.len(),
            forall|j: int| 0 <= j < rest@.len() ==> #[trigger] rest@[j] == original[original.len() - 1 - j],
            shifted_externs(original.subrange(0, out@.len() as int), out@, base as int),
            forall|k: int| 0 <= k < original.len() ==> fits_extern(#[trigger] original[k], base as int),
            original == xs@,
        decreases rest@.len(),
    {
        let k = out.len();
        let ghost rb = rest@;
        let x = rest.pop().unwrap();
        assert(x == rb[rb.len() - 1]);
        assert(x == original[k as int]);
        let y = shift_extern(x, base);
        let ghost before = out@;
        out.push(y);
        assert(out@.drop_last() =~= before);
        assert(original.subrange(0, k + 1).drop_last() =~= original.subrange(0, k as int));
        assert forall|j: int| 0 <= j < rest@.len() implies #[trigger] rest@[j] == original[original.len() - 1 - j] by {
            assert(rest@[j] == rb[j]);
        }
    }
    assert(original.subrange(0, original.len() as int) =~= original);
    out
}

proof fn lemma_fits_externs_each(xs: Seq<Extern>, base: int)
    requires
        fits_externs(xs, base),
    ensures
        forall|k: int| 0 <= k < xs.len() ==> fits_extern(#[trigger] xs[k], base),
    decreases xs.len(),
{
    if xs.len() > 0 {
        lemma_fits_externs_each(xs.drop_last(), base);
        assert forall|k: int| 0 <= k < xs.len() implies fits_extern(#[trigger] xs[k], base) by {
            if k < xs.len() - 1 {
                assert(xs[k] == xs.drop_last()[k]);
            }
        }
    }
}

fn shift_tests(xs: Vec<Test>, base: usize) -> (r: Vec<Test>)
    requires
        fits_tests(xs@, base as int),
    ensures
        shifted_tests(xs@, r@, base as int),
{
    let ghost original = xs@;
    proof {
        lemma_fits_tests_each(original, base as int);
    }
    let mut rest = crate::mir::reversed(xs);
    let mut out: Vec<Test> = Vec::new();
    assert(original.subrange(0, 0) =~= Seq::<Test>::empty());
    while rest.len() > 0
        invariant
            original.len() == out@.len() + rest@.len(),
            forall|j: int| 0 <= j < rest@.len() ==> #[trigger] rest@[j] == original[original.len() - 1 - j],
            shifted_tests(original.subrange(0, out@.len() as int), out@, base as int),
            forall|k: int| 0 <= k < original.len() ==> fits_test(#[trigger] original[k], base as int),
            original == xs@,
        decreases rest@.len(),
    {
        let k = out.len();
        let ghost rb = rest@;
        let x = rest.pop().unwrap();
        assert(x == rb[rb.len() - 1]);
        assert(x == original[k as int]);
        let y = shift_test(x, base);
        let ghost before = out@;
        out.push(y);
        assert(out@.drop_last() =~= before);
        assert(original.subrange(0, k + 1).drop_last() =~= original.subrange(0, k as int));
        assert forall|j: int| 0 <= j < rest@.len() implies #[trigger] rest@[j] == original[original.len() - 1 - j] by {
            assert(rest@[j] == rb[j]);
        }
    }
    assert(original.subrange(0, original.len() as int) =~= original);
    out
}

proof fn lemma_fits_tests_each(xs: Seq<Test>, base: int)
    requires
        fits_tests(xs, base),
    ensures
        forall|k: int| 0 <= k < xs.len() ==> fits_test(#[trigger] xs[k], base),
    decreases xs.len(),
{
    if xs.len() > 0 {
        lemma_fits_tests_each(xs.drop_last(), base);
        assert forall|k: int| 0 <= k < xs.len() implies fits_test(#[trigger] xs[k], base) by {
            if k < xs.len() - 1 {
                assert(xs[k] == xs.drop_last()[k]);
            }
        }
    }
}

fn shift_structs(xs: Vec<StructDecl>, base: usize) -> (r: Vec<StructDecl>)
    requires
        fits_structs(xs@, base as int),
    ensures
        shifted_structs(xs@, r@, base as int),
{
    let ghost original = xs@;
    proof {
        lemma_fits_structs_each(original, base as int);
    }
    let mut rest = crate::mir::reversed(xs);
    let mut out: Vec<StructDecl> = Vec::new();
    assert(original.subrange(0, 0) =~= Seq::<StructDecl>::empty());
    while rest.len() > 0
        invariant
            original.len() == out@.len() + rest@.len(),
            forall|j: int| 0 <= j < rest@.len() ==> #[trigger] rest@[j] == original[original.len() - 1 - j],
            shifted_structs(original.subrange(0, out@.len() as int), out@, base as int),
            forall|k: int| 0 <= k < original.len() ==> fits_struct(#[trigger] original[k], base as int),
            original == xs@,
        decreases rest@.len(),
    {
        let k = out.len();
        let ghost rb = rest@;
        let x = rest.pop().unwrap();
        assert(x == rb[rb.len() - 1]);
        assert(x == original[k as int]);
        let y = shift_struct(x, base);
        let ghost before = out@;
        out.push(y);
        assert(out@.drop_last() =~= before);
        assert(original.subrange(0, k + 1).drop_last() =~= original.subrange(0, k as int));
        assert forall|j: int| 0 <= j < rest@.len() implies #[trigger] rest@[j] == original[original.len() - 1 - j] by {
            assert(rest@[j] == rb[j]);
        }
    }
    assert(original.subrange(0, original.len() as int) =~= original);
    out
}

proof fn lemma_fits_structs_each(xs: Seq<StructDecl>, base: int)
    requires
        fits_structs(xs, base),
    ensures
        forall|k: int| 0 <= k < xs.len() ==> fits_struct(#[trigger] xs[k], base),
    decreases xs.len(),
{
    if xs.len() > 0 {
        lemma_fits_structs_each(xs.drop_last(), base);
        assert forall|k: int| 0 <= k < xs.len() implies fits_struct(#[trigger] xs[k], base) by {
            if k < xs.len() - 1 {
                assert(xs[k] == xs.drop_last()[k]);
            }
        }
    }
}

fn shift_enums(xs: Vec<EnumDecl>, base: usize) -> (r: Vec<EnumDecl>)
    requires
        fits_enums(xs@, base as int),
    ensures
        shifted_enums(xs@, r@, base as int),
{
    let ghost original = xs@;
    proof {
        lemma_fits_enums_each(original, base as int);
    }
    let mut rest = crate::mir::reversed(xs);
    let mut out: Vec<EnumDecl> = Vec::new();
    assert(original.subrange(0, 0) =~= Seq::<EnumDecl>::empty());
    while rest.len() > 0
        invariant
            original.len() == out@.len() + rest@.len(),
            forall|j: int| 0 <= j < rest@.len() ==> #[trigger] rest@[j] == original[original.len() - 1 - j],
            shifted_enums(original.subrange(0, out@.len() as int), out@, base as int),
            forall|k: int| 0 <= k < original.len() ==> fits_enum(#[trigger] original[k], base as int),
            original == xs@,
        decreases rest@.len(),
    {
        let k = out.len();
        let ghost rb = rest@;
        let x = rest.pop().unwrap();
        assert(x == rb[rb.len() - 1]);
        assert(x == original[k as int]);
        let y = shift_enum(x, base);
        let ghost before = out@;
        out.push(y);
        assert(out@.drop_last() =~= before);
        assert(original.subrange(0, k + 1).drop_last() =~= original.subrange(0, k as int));
        assert forall|j: int| 0 <= j < rest@.len() implies #[trigger] rest@[j] == original[original.len() - 1 - j] by {
            assert(rest@[j] == rb[j]);
        }
    }
    assert(original.subrange(0, original.len() as int) =~= original);
    out
}

proof fn lemma_fits_enums_each(xs: Seq<EnumDecl>, base: int)
    requires
        fits_enums(xs, base),
    ensures
        forall|k: int| 0 <= k < xs.len() ==> fits_enum(#[trigger] xs[k], base),
    decreases xs.len(),
{
    if xs.len() > 0 {
        lemma_fits_enums_each(xs.drop_last(), base);
        assert forall|k: int| 0 <= k < xs.len() implies fits_enum(#[trigger] xs[k], base) by {
            if k < xs.len() - 1 {
                assert(xs[k] == xs.drop_last()[k]);
            }
        }
    }
}

fn shift_consts(xs: Vec<ConstDecl>, base: usize) -> (r: Vec<ConstDecl>)
    requires
        fits_consts(xs@, base as int),
    ensures
        shifted_consts(xs@, r@, base as int),
{
    let ghost original = xs@;
    proof {
        lemma_fits_consts_each(original, base as int);
    }
    let mut rest = crate::mir::reversed(xs);
    let mut out: Vec<ConstDecl> = Vec::new();
    assert(original.subrange(0, 0) =~= Seq::<ConstDecl>::empty());
    while rest.len() > 0
        invariant
            original.len() == out@.len() + rest@.len(),
            forall|j: int| 0 <= j < rest@.len() ==> #[trigger] rest@[j] == original[original.len() - 1 - j],
            shifted_consts(original.subrange(0, out@.len() as int), out@, base as int),
            forall|k: int| 0 <= k < original.len() ==> fits_const(#[trigger] original[k], base as int),
            original == xs@,
        decreases rest@.len(),
    {
        let k = out.len();
        let ghost rb = rest@;
        let x = rest.pop().unwrap();
        assert(x == rb[rb.len() - 1]);
        assert(x == original[k as int]);
        let y = shift_const(x, base);
        let ghost before = out@;
        out.push(y);
        assert(out@.drop_last() =~= before);
        assert(original.subrange(0, k + 1).drop_last() =~= original.subrange(0, k as int));
        assert forall|j: int| 0 <= j < rest@.len() implies #[trigger] rest@[j] == original[original.len() - 1 - j] by {
            assert(rest@[j] == rb[j]);
        }
    }
    assert(original.subrange(0, original.len() as int) =~= original);
    out
}

proof fn lemma_fits_consts_each(xs: Seq<ConstDecl>, base: int)
    requires
        fits_consts(xs, base),
    ensures
        forall|k: int| 0 <= k < xs.len() ==> fits_const(#[trigger] xs[k], base),
    decreases xs.len(),
{
    if xs.len() > 0 {
        lemma_fits_consts_each(xs.drop_last(), base);
        assert forall|k: int| 0 <= k < xs.len() implies fits_const(#[trigger] xs[k], base) by {
            if k < xs.len() - 1 {
                assert(xs[k] == xs.drop_last()[k]);
            }
        }
    }
}

} // verus!
