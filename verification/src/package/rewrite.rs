//! Rewriting a module's program so that every name in it is canonical.
use crate::ast::{
    ConstDecl, EnumDecl, Expr, ExprKind, Extern, Field, Function, MatchArm, Param, Pattern, PatternField,
    PatternKind, Program, StructDecl, Test, Type, TypeList, Variant,
};
use crate::diagnostic::{codes, Diagnostic, Span};
use crate::lexer::chars_of;
use crate::names::{find_name, lemma_table};
use crate::package::resolve::{
    decl_view, export_tables, found, has_double_colon, holds_double_colon, module_of, qualify, resolution, Decl, DeclarationKind, ModuleUnit, Resolver,
};
use crate::package::{builtin_named, is_builtin};
use vstd::prelude::*;

verus! {

/// `after` is `before` with diagnostics added after it, each an error of the
/// module kind in `file`.
pub open spec fn reports_added(before: Seq<Diagnostic>, after: Seq<Diagnostic>, file: Seq<char>) -> bool {
    &&& before.len() <= after.len()
    &&& forall|k: int| 0 <= k < before.len() ==> #[trigger] after[k] == before[k]
    &&& forall|j: int| before.len() <= j < after.len() ==> (#[trigger] after[j]).code@ == codes::MODULE@
        && after[j].file@ == file
}

// ---------------------------------------------------------- what changes

/// `new` is the type `old` with each struct or enum name `n` in it made
/// `f(n)`; nothing else changes.
pub open spec fn type_rewritten(old: Type, new: Type, f: spec_fn(Seq<char>) -> Seq<char>) -> bool
    decreases old, 0int,
{
    match old {
        Type::Named(n) => new matches Type::Named(m) && m@ == f(n@),
        Type::List(i) => new matches Type::List(j) && type_rewritten(*i, *j, f),
        Type::Slice(i) => new matches Type::Slice(j) && type_rewritten(*i, *j, f),
        Type::Ref { mutable, inner } => new matches Type::Ref { mutable: m2, inner: j } && m2 == mutable
            && type_rewritten(*inner, *j, f),
        Type::Array { element, length } => new matches Type::Array { element: e2, length: l2 } && l2 == length
            && type_rewritten(*element, *e2, f),
        Type::Apply { name, args } => new matches Type::Apply { name: n2, args: a2 } && n2@ == f(name@)
            && list_rewritten(args, a2, f),
        Type::Fn { params, result } => new matches Type::Fn { params: p2, result: r2 } && list_rewritten(
            params,
            p2,
            f,
        ) && type_rewritten(*result, *r2, f),
        _ => new == old,
    }
}

pub open spec fn list_rewritten(old: TypeList, new: TypeList, f: spec_fn(Seq<char>) -> Seq<char>) -> bool
    decreases old, 1int,
{
    match old {
        TypeList::Nil => new is Nil,
        TypeList::Cons(h, t) => new matches TypeList::Cons(h2, t2) && type_rewritten(*h, *h2, f)
            && list_rewritten(*t, *t2, f),
    }
}

pub open spec fn opt_type_rewritten(old: Option<Type>, new: Option<Type>, f: spec_fn(Seq<char>) -> Seq<char>) -> bool {
    match old {
        Some(t) => new matches Some(t2) && type_rewritten(t, t2, f),
        None => new is None,
    }
}

/// `new` is the pattern `old` with the path of each variant and struct
/// pattern in it made `f(path)`.
pub open spec fn pattern_rewritten(old: Pattern, new: Pattern, f: spec_fn(Seq<char>) -> Seq<char>) -> bool
    decreases old, 0int,
{
    &&& new.span == old.span
    &&& match old.kind {
        PatternKind::Enum { path, fields } => new.kind matches PatternKind::Enum { path: p2, fields: f2 }
            && p2@ == f(path@) && patterns_rewritten(fields@, f2@, f),
        PatternKind::Struct { path, fields } => new.kind matches PatternKind::Struct { path: p2, fields: f2 }
            && p2@ == f(path@) && field_patterns_rewritten(fields@, f2@, f),
        _ => new.kind == old.kind,
    }
}

pub open spec fn patterns_rewritten(olds: Seq<Pattern>, news: Seq<Pattern>, f: spec_fn(Seq<char>) -> Seq<char>) -> bool
    decreases olds, 1int,
{
    &&& olds.len() == news.len()
    &&& (olds.len() == 0 || (patterns_rewritten(olds.drop_last(), news.drop_last(), f) && pattern_rewritten(
        olds.last(),
        news.last(),
        f,
    )))
}

pub open spec fn field_pattern_rewritten(old: PatternField, new: PatternField, f: spec_fn(Seq<char>) -> Seq<char>) -> bool
    decreases old, 0int,
{
    new.name == old.name && new.span == old.span && pattern_rewritten(old.pattern, new.pattern, f)
}

pub open spec fn field_patterns_rewritten(
    olds: Seq<PatternField>,
    news: Seq<PatternField>,
    f: spec_fn(Seq<char>) -> Seq<char>,
) -> bool
    decreases olds, 1int,
{
    &&& olds.len() == news.len()
    &&& (olds.len() == 0 || (field_patterns_rewritten(olds.drop_last(), news.drop_last(), f)
        && field_pattern_rewritten(olds.last(), news.last(), f)))
}

/// A parameter keeps its name and span; its type is rewritten.
pub open spec fn param_rewritten(old: Param, new: Param, f: spec_fn(Seq<char>) -> Seq<char>) -> bool {
    new.name == old.name && new.span == old.span && type_rewritten(old.ty, new.ty, f)
}

pub open spec fn params_rewritten(olds: Seq<Param>, news: Seq<Param>, f: spec_fn(Seq<char>) -> Seq<char>) -> bool {
    &&& olds.len() == news.len()
    &&& forall|i: int| 0 <= i < olds.len() ==> param_rewritten(#[trigger] olds[i], news[i], f)
}

/// What a name in head position becomes: a built-in stays, anything else is
/// `f` of it.
pub open spec fn callee_rewritten(name: Seq<char>, f: spec_fn(Seq<char>) -> Seq<char>) -> Seq<char> {
    if builtin_named(name) {
        name
    } else {
        f(name)
    }
}

/// `new` is the expression `old` with its types, patterns and callees
/// rewritten by `f`, and each variable that is not a built-in recording
/// `f` of its name as what it would stand for as a top-level item. A
/// `defer`'s body and a composition's operands are rewritten too; a
/// constant's value is not an expression here.
pub open spec fn expr_rewritten(old: Expr, new: Expr, f: spec_fn(Seq<char>) -> Seq<char>) -> bool
    decreases old, 0int,
{
    &&& new.span == old.span
    &&& match old.kind {
        ExprKind::Var { name, resolved } => new.kind matches ExprKind::Var { name: n2, resolved: r2 } && n2 == name
            && (if builtin_named(name@) {
            r2 == resolved
        } else {
            r2 matches Some(s) && s@ == f(name@)
        }),
        ExprKind::Let { name, mutable, ty, value } => new.kind matches ExprKind::Let {
            name: n2,
            mutable: m2,
            ty: t2,
            value: v2,
        } && n2 == name && m2 == mutable && opt_type_rewritten(ty, t2, f) && expr_rewritten(*value, *v2, f),
        ExprKind::Assign { name, value } => new.kind matches ExprKind::Assign { name: n2, value: v2 } && n2 == name
            && expr_rewritten(*value, *v2, f),
        ExprKind::Defer(body) => new.kind matches ExprKind::Defer(b2) && expr_rewritten(*body, *b2, f),
        ExprKind::Do(items) => new.kind matches ExprKind::Do(i2) && exprs_rewritten(items@, i2@, f),
        ExprKind::Unsafe(items) => new.kind matches ExprKind::Unsafe(i2) && exprs_rewritten(items@, i2@, f),
        ExprKind::If { condition, then_expr, else_expr } => new.kind matches ExprKind::If {
            condition: c2,
            then_expr: t2,
            else_expr: e2,
        } && expr_rewritten(*condition, *c2, f) && expr_rewritten(*then_expr, *t2, f) && expr_rewritten(
            *else_expr,
            *e2,
            f,
        ),
        ExprKind::Loop { body } => new.kind matches ExprKind::Loop { body: b2 } && expr_rewritten(*body, *b2, f),
        ExprKind::While { condition, body } => new.kind matches ExprKind::While { condition: c2, body: b2 }
            && expr_rewritten(*condition, *c2, f) && expr_rewritten(*body, *b2, f),
        ExprKind::Match { value, arms } => new.kind matches ExprKind::Match { value: v2, arms: a2 }
            && expr_rewritten(*value, *v2, f) && arms_rewritten(arms@, a2@, f),
        ExprKind::Borrow { mutable, value } => new.kind matches ExprKind::Borrow { mutable: m2, value: v2 } && m2
            == mutable && expr_rewritten(*value, *v2, f),
        ExprKind::Try(value) => new.kind matches ExprKind::Try(v2) && expr_rewritten(*value, *v2, f),
        ExprKind::Convert { target, value } => new.kind matches ExprKind::Convert { target: t2, value: v2 }
            && type_rewritten(target, t2, f) && expr_rewritten(*value, *v2, f),
        ExprKind::Call { callee, args } => new.kind matches ExprKind::Call { callee: c2, args: a2 } && c2@
            == callee_rewritten(callee@, f) && exprs_rewritten(args@, a2@, f),
        ExprKind::Logical { op, operands } => new.kind matches ExprKind::Logical { op: o2, operands: p2 } && o2
            == op && exprs_rewritten(operands@, p2@, f),
        ExprKind::Compose { operands } => new.kind matches ExprKind::Compose { operands: p2 } && exprs_rewritten(
            operands@,
            p2@,
            f,
        ),
        ExprKind::Lambda { captures, params, result, body } => new.kind matches ExprKind::Lambda {
            captures: c2,
            params: p2,
            result: r2,
            body: b2,
        } && c2 == captures && params_rewritten(params@, p2@, f) && type_rewritten(result, r2, f) && expr_rewritten(
            *body,
            *b2,
            f,
        ),
        ExprKind::Break(Some(value)) => new.kind matches ExprKind::Break(Some(v2)) && expr_rewritten(*value, *v2, f),
        _ => new.kind == old.kind,
    }
}

pub open spec fn exprs_rewritten(olds: Seq<Expr>, news: Seq<Expr>, f: spec_fn(Seq<char>) -> Seq<char>) -> bool
    decreases olds, 1int,
{
    &&& olds.len() == news.len()
    &&& (olds.len() == 0 || (exprs_rewritten(olds.drop_last(), news.drop_last(), f) && expr_rewritten(
        olds.last(),
        news.last(),
        f,
    )))
}

pub open spec fn arm_rewritten(old: MatchArm, new: MatchArm, f: spec_fn(Seq<char>) -> Seq<char>) -> bool
    decreases old, 0int,
{
    &&& new.span == old.span
    &&& pattern_rewritten(old.pattern, new.pattern, f)
    &&& match old.guard {
        Some(g) => new.guard matches Some(g2) && expr_rewritten(g, g2, f),
        None => new.guard is None,
    }
    &&& expr_rewritten(old.body, new.body, f)
}

pub open spec fn arms_rewritten(olds: Seq<MatchArm>, news: Seq<MatchArm>, f: spec_fn(Seq<char>) -> Seq<char>) -> bool
    decreases olds, 1int,
{
    &&& olds.len() == news.len()
    &&& (olds.len() == 0 || (arms_rewritten(olds.drop_last(), news.drop_last(), f) && arm_rewritten(
        olds.last(),
        news.last(),
        f,
    )))
}

/// A field keeps its name and span; its type is rewritten.
pub open spec fn field_rewritten(old: Field, new: Field, f: spec_fn(Seq<char>) -> Seq<char>) -> bool {
    new.name == old.name && new.span == old.span && type_rewritten(old.ty, new.ty, f)
}

pub open spec fn fields_rewritten(olds: Seq<Field>, news: Seq<Field>, f: spec_fn(Seq<char>) -> Seq<char>) -> bool {
    &&& olds.len() == news.len()
    &&& forall|i: int| 0 <= i < olds.len() ==> field_rewritten(#[trigger] olds[i], news[i], f)
}

pub open spec fn variant_rewritten(old: Variant, new: Variant, f: spec_fn(Seq<char>) -> Seq<char>) -> bool {
    new.name == old.name && new.span == old.span && fields_rewritten(old.fields@, new.fields@, f)
}

pub open spec fn variants_rewritten(olds: Seq<Variant>, news: Seq<Variant>, f: spec_fn(Seq<char>) -> Seq<char>) -> bool {
    &&& olds.len() == news.len()
    &&& forall|i: int| 0 <= i < olds.len() ==> variant_rewritten(#[trigger] olds[i], news[i], f)
}

/// What a module's top-level names stand for.
pub type Declared = Map<Seq<char>, (Seq<char>, DeclarationKind, Span)>;

/// Every function, extern, struct, enum and constant of `p` is a name of
/// the module.
pub open spec fn declares_all(p: Program, d: Declared) -> bool {
    &&& forall|i: int| 0 <= i < p.functions@.len() ==> d.dom().contains(#[trigger] p.functions@[i].name@)
    &&& forall|i: int| 0 <= i < p.externs@.len() ==> d.dom().contains(#[trigger] p.externs@[i].name@)
    &&& forall|i: int| 0 <= i < p.structs@.len() ==> d.dom().contains(#[trigger] p.structs@[i].name@)
    &&& forall|i: int| 0 <= i < p.enums@.len() ==> d.dom().contains(#[trigger] p.enums@[i].name@)
    &&& forall|i: int| 0 <= i < p.consts@.len() ==> d.dom().contains(#[trigger] p.consts@[i].name@)
}

pub open spec fn function_rewritten(old: Function, new: Function, f: spec_fn(Seq<char>) -> Seq<char>, d: Declared) -> bool {
    &&& new.name@ == d[old.name@].0
    &&& new.inline == old.inline
    &&& new.type_params == old.type_params
    &&& params_rewritten(old.params@, new.params@, f)
    &&& type_rewritten(old.return_type, new.return_type, f)
    &&& expr_rewritten(old.body, new.body, f)
    &&& new.span == old.span
}

pub open spec fn extern_rewritten(old: Extern, new: Extern, f: spec_fn(Seq<char>) -> Seq<char>, d: Declared) -> bool {
    &&& new.name@ == d[old.name@].0
    &&& new.symbol == old.symbol
    &&& new.symbol_span == old.symbol_span
    &&& params_rewritten(old.params@, new.params@, f)
    &&& type_rewritten(old.return_type, new.return_type, f)
    &&& new.span == old.span
}

/// A test is named within its module: `module:name`.
pub open spec fn test_rewritten(old: Test, new: Test, f: spec_fn(Seq<char>) -> Seq<char>, module: Seq<char>) -> bool {
    &&& new.name@ == module + seq![':'] + old.name@
    &&& expr_rewritten(old.body, new.body, f)
    &&& new.span == old.span
}

pub open spec fn struct_rewritten(old: StructDecl, new: StructDecl, f: spec_fn(Seq<char>) -> Seq<char>, d: Declared) -> bool {
    &&& new.name@ == d[old.name@].0
    &&& new.type_params == old.type_params
    &&& fields_rewritten(old.fields@, new.fields@, f)
    &&& new.span == old.span
}

pub open spec fn enum_rewritten(old: EnumDecl, new: EnumDecl, f: spec_fn(Seq<char>) -> Seq<char>, d: Declared) -> bool {
    &&& new.name@ == d[old.name@].0
    &&& new.type_params == old.type_params
    &&& variants_rewritten(old.variants@, new.variants@, f)
    &&& new.span == old.span
}

/// A constant's name and declared type are rewritten; its value is kept as
/// written.
pub open spec fn const_rewritten(old: ConstDecl, new: ConstDecl, f: spec_fn(Seq<char>) -> Seq<char>, d: Declared) -> bool {
    &&& new.name@ == d[old.name@].0
    &&& opt_type_rewritten(old.ty, new.ty, f)
    &&& new.value == old.value
    &&& new.span == old.span
}

/// `new` is the program `old` with every declaration given its canonical
/// name, every test named within `module`, every type, pattern, callee and
/// variable rewritten by `f`, and no exports or takes left.
pub open spec fn program_rewritten(
    old: Program,
    new: Program,
    f: spec_fn(Seq<char>) -> Seq<char>,
    d: Declared,
    module: Seq<char>,
) -> bool {
    &&& new.functions@.len() == old.functions@.len()
    &&& forall|i: int| 0 <= i < old.functions@.len() ==> function_rewritten(
        #[trigger] old.functions@[i],
        new.functions@[i],
        f,
        d,
    )
    &&& new.externs@.len() == old.externs@.len()
    &&& forall|i: int| 0 <= i < old.externs@.len() ==> extern_rewritten(#[trigger] old.externs@[i], new.externs@[i], f, d)
    &&& new.tests@.len() == old.tests@.len()
    &&& forall|i: int| 0 <= i < old.tests@.len() ==> test_rewritten(#[trigger] old.tests@[i], new.tests@[i], f, module)
    &&& new.structs@.len() == old.structs@.len()
    &&& forall|i: int| 0 <= i < old.structs@.len() ==> struct_rewritten(#[trigger] old.structs@[i], new.structs@[i], f, d)
    &&& new.enums@.len() == old.enums@.len()
    &&& forall|i: int| 0 <= i < old.enums@.len() ==> enum_rewritten(#[trigger] old.enums@[i], new.enums@[i], f, d)
    &&& new.consts@.len() == old.consts@.len()
    &&& forall|i: int| 0 <= i < old.consts@.len() ==> const_rewritten(#[trigger] old.consts@[i], new.consts@[i], f, d)
    &&& new.exports@.len() == 0
    &&& new.takes@.len() == 0
}

// ---------------------------------------------------------- what reports nothing

/// Every struct or enum name in `t` is one that `ok` accepts.
pub open spec fn type_clean(t: Type, ok: spec_fn(Seq<char>) -> bool) -> bool
    decreases t, 0int,
{
    match t {
        Type::Named(n) => ok(n@),
        Type::List(i) => type_clean(*i, ok),
        Type::Slice(i) => type_clean(*i, ok),
        Type::Ref { inner, .. } => type_clean(*inner, ok),
        Type::Array { element, .. } => type_clean(*element, ok),
        Type::Apply { name, args } => ok(name@) && list_clean(args, ok),
        Type::Fn { params, result } => list_clean(params, ok) && type_clean(*result, ok),
        _ => true,
    }
}

pub open spec fn list_clean(l: TypeList, ok: spec_fn(Seq<char>) -> bool) -> bool
    decreases l, 1int,
{
    match l {
        TypeList::Nil => true,
        TypeList::Cons(h, t) => type_clean(*h, ok) && list_clean(*t, ok),
    }
}

pub open spec fn opt_type_clean(t: Option<Type>, ok: spec_fn(Seq<char>) -> bool) -> bool {
    match t {
        Some(t) => type_clean(t, ok),
        None => true,
    }
}

/// Every path of a variant or struct pattern in `p` is one that `ok`
/// accepts.
pub open spec fn pattern_clean(p: Pattern, ok: spec_fn(Seq<char>) -> bool) -> bool
    decreases p, 0int,
{
    match p.kind {
        PatternKind::Enum { path, fields } => ok(path@) && patterns_clean(fields@, ok),
        PatternKind::Struct { path, fields } => ok(path@) && field_patterns_clean(fields@, ok),
        _ => true,
    }
}

pub open spec fn patterns_clean(ps: Seq<Pattern>, ok: spec_fn(Seq<char>) -> bool) -> bool
    decreases ps, 1int,
{
    ps.len() == 0 || (patterns_clean(ps.drop_last(), ok) && pattern_clean(ps.last(), ok))
}

pub open spec fn field_patterns_clean(fs: Seq<PatternField>, ok: spec_fn(Seq<char>) -> bool) -> bool
    decreases fs, 1int,
{
    fs.len() == 0 || (field_patterns_clean(fs.drop_last(), ok) && pattern_clean(fs.last().pattern, ok))
}

pub open spec fn params_clean(ps: Seq<Param>, ok: spec_fn(Seq<char>) -> bool) -> bool {
    forall|i: int| 0 <= i < ps.len() ==> type_clean(#[trigger] ps[i].ty, ok)
}

/// Every name in `e` that resolution reports on is one that `ok` accepts:
/// written types, pattern paths and callees that are not built-ins. A
/// variable is resolved quietly unless it is spelled with `::`, which is
/// always refused.
pub open spec fn expr_clean(e: Expr, ok: spec_fn(Seq<char>) -> bool) -> bool
    decreases e, 0int,
{
    match e.kind {
        ExprKind::Var { name, .. } => builtin_named(name@) || !has_double_colon(name@),
        ExprKind::Let { ty, value, .. } => opt_type_clean(ty, ok) && expr_clean(*value, ok),
        ExprKind::Assign { value, .. } => expr_clean(*value, ok),
        ExprKind::Defer(body) => expr_clean(*body, ok),
        ExprKind::Do(items) => exprs_clean(items@, ok),
        ExprKind::Unsafe(items) => exprs_clean(items@, ok),
        ExprKind::If { condition, then_expr, else_expr } => expr_clean(*condition, ok) && expr_clean(*then_expr, ok)
            && expr_clean(*else_expr, ok),
        ExprKind::Loop { body } => expr_clean(*body, ok),
        ExprKind::While { condition, body } => expr_clean(*condition, ok) && expr_clean(*body, ok),
        ExprKind::Match { value, arms } => expr_clean(*value, ok) && arms_clean(arms@, ok),
        ExprKind::Borrow { value, .. } => expr_clean(*value, ok),
        ExprKind::Try(value) => expr_clean(*value, ok),
        ExprKind::Convert { target, value } => type_clean(target, ok) && expr_clean(*value, ok),
        ExprKind::Call { callee, args } => (builtin_named(callee@) || ok(callee@)) && exprs_clean(args@, ok),
        ExprKind::Logical { operands, .. } => exprs_clean(operands@, ok),
        ExprKind::Compose { operands } => exprs_clean(operands@, ok),
        ExprKind::Lambda { params, result, body, .. } => params_clean(params@, ok) && type_clean(result, ok)
            && expr_clean(*body, ok),
        ExprKind::Break(Some(value)) => expr_clean(*value, ok),
        _ => true,
    }
}

pub open spec fn exprs_clean(es: Seq<Expr>, ok: spec_fn(Seq<char>) -> bool) -> bool
    decreases es, 1int,
{
    es.len() == 0 || (exprs_clean(es.drop_last(), ok) && expr_clean(es.last(), ok))
}

pub open spec fn arm_clean(a: MatchArm, ok: spec_fn(Seq<char>) -> bool) -> bool
    decreases a, 0int,
{
    &&& pattern_clean(a.pattern, ok)
    &&& match a.guard {
        Some(g) => expr_clean(g, ok),
        None => true,
    }
    &&& expr_clean(a.body, ok)
}

pub open spec fn arms_clean(arms: Seq<MatchArm>, ok: spec_fn(Seq<char>) -> bool) -> bool
    decreases arms, 1int,
{
    arms.len() == 0 || (arms_clean(arms.drop_last(), ok) && arm_clean(arms.last(), ok))
}

pub open spec fn fields_clean(fs: Seq<Field>, ok: spec_fn(Seq<char>) -> bool) -> bool {
    forall|i: int| 0 <= i < fs.len() ==> type_clean(#[trigger] fs[i].ty, ok)
}

pub open spec fn variants_clean(vs: Seq<Variant>, ok: spec_fn(Seq<char>) -> bool) -> bool {
    forall|i: int| 0 <= i < vs.len() ==> fields_clean(#[trigger] vs[i].fields@, ok)
}

pub open spec fn function_clean(f: Function, ok: spec_fn(Seq<char>) -> bool) -> bool {
    params_clean(f.params@, ok) && type_clean(f.return_type, ok) && expr_clean(f.body, ok)
}

pub open spec fn extern_clean(x: Extern, ok: spec_fn(Seq<char>) -> bool) -> bool {
    params_clean(x.params@, ok) && type_clean(x.return_type, ok)
}

/// Rewriting `p` reports nothing where `ok` accepts every name whose
/// resolution could report: in its functions, externs, tests, structs,
/// enums and the declared types of its constants.
pub open spec fn program_clean(p: Program, ok: spec_fn(Seq<char>) -> bool) -> bool {
    &&& forall|i: int| 0 <= i < p.functions@.len() ==> function_clean(#[trigger] p.functions@[i], ok)
    &&& forall|i: int| 0 <= i < p.externs@.len() ==> extern_clean(#[trigger] p.externs@[i], ok)
    &&& forall|i: int| 0 <= i < p.tests@.len() ==> expr_clean(#[trigger] p.tests@[i].body, ok)
    &&& forall|i: int| 0 <= i < p.structs@.len() ==> fields_clean(#[trigger] p.structs@[i].fields@, ok)
    &&& forall|i: int| 0 <= i < p.enums@.len() ==> variants_clean(#[trigger] p.enums@[i].variants@, ok)
    &&& forall|i: int| 0 <= i < p.consts@.len() ==> opt_type_clean(#[trigger] p.consts@[i].ty, ok)
}

/// A name written in `unit` resolves without a report: it is not spelled
/// with `::`, and it stands for something or begins with no module.
pub open spec fn resolves_quietly(
    unit: ModuleUnit,
    modules: Seq<String>,
    tables: Seq<Map<Seq<char>, Seq<char>>>,
    n: Seq<char>,
) -> bool {
    !has_double_colon(n) && (found(unit, modules, tables, n) is Some || module_of(modules, n) is None)
}

impl<'a> Resolver<'a> {
    /// What each name written in the module is rewritten to.
    pub open spec fn names(&self) -> spec_fn(Seq<char>) -> Seq<char> {
        |n: Seq<char>| resolution(*self.unit, self.modules@, export_tables(self.exports@), n)
    }

    /// Which names written in the module resolve without a report.
    pub open spec fn quiet(&self) -> spec_fn(Seq<char>) -> bool {
        |n: Seq<char>| resolves_quietly(*self.unit, self.modules@, export_tables(self.exports@), n)
    }

    fn resolve_reported(&self, name: &String, span: Span, diagnostics: &mut Vec<Diagnostic>) -> (r: String)
        requires
            self.wf(),
        ensures
            r@ == (self.names())(name@),
            reports_added(old(diagnostics)@, final(diagnostics)@, self.unit.path@),
            (self.quiet())(name@) ==> final(diagnostics)@ == old(diagnostics)@,
    {
        let ghost before = diagnostics@;
        let r = self.resolve(name.as_str(), span, diagnostics);
        proof {
            if diagnostics@.len() == before.len() + 1 {
                assert forall|k: int| 0 <= k < before.len() implies #[trigger] diagnostics@[k] == before[k] by {
                    assert(diagnostics@.drop_last()[k] == diagnostics@[k]);
                }
                assert(diagnostics@.last() == diagnostics@[before.len() as int]);
            }
        }
        r
    }

    fn rewritten_type(&self, t: Type, span: Span, diagnostics: &mut Vec<Diagnostic>) -> (r: Type)
        requires
            self.wf(),
        ensures
            type_rewritten(t, r, self.names()),
            reports_added(old(diagnostics)@, final(diagnostics)@, self.unit.path@),
            type_clean(t, self.quiet()) ==> final(diagnostics)@ == old(diagnostics)@,
        decreases t,
    {
        match t {
            Type::Named(name) => {
                let n = self.resolve_reported(&name, span, diagnostics);
                Type::Named(n)
            },
            Type::List(inner) => Type::List(Box::new(self.rewritten_type(*inner, span, diagnostics))),
            Type::Slice(inner) => Type::Slice(Box::new(self.rewritten_type(*inner, span, diagnostics))),
            Type::Ref { mutable, inner } => Type::Ref {
                mutable,
                inner: Box::new(self.rewritten_type(*inner, span, diagnostics)),
            },
            Type::Array { element, length } => Type::Array {
                element: Box::new(self.rewritten_type(*element, span, diagnostics)),
                length,
            },
            Type::Apply { name, args } => {
                let n = self.resolve_reported(&name, span, diagnostics);
                let a = self.rewritten_list(args, span, diagnostics);
                Type::Apply { name: n, args: a }
            },
            Type::Fn { params, result } => {
                let p = self.rewritten_list(params, span, diagnostics);
                let r = self.rewritten_type(*result, span, diagnostics);
                Type::Fn { params: p, result: Box::new(r) }
            },
            other => other,
        }
    }

    fn rewritten_list(&self, l: TypeList, span: Span, diagnostics: &mut Vec<Diagnostic>) -> (r: TypeList)
        requires
            self.wf(),
        ensures
            list_rewritten(l, r, self.names()),
            reports_added(old(diagnostics)@, final(diagnostics)@, self.unit.path@),
            list_clean(l, self.quiet()) ==> final(diagnostics)@ == old(diagnostics)@,
        decreases l,
    {
        match l {
            TypeList::Nil => TypeList::Nil,
            TypeList::Cons(h, t) => {
                let h2 = self.rewritten_type(*h, span, diagnostics);
                let t2 = self.rewritten_list(*t, span, diagnostics);
                TypeList::Cons(Box::new(h2), Box::new(t2))
            },
        }
    }

    fn rewritten_opt_type(&self, t: Option<Type>, span: Span, diagnostics: &mut Vec<Diagnostic>) -> (r: Option<Type>)
        requires
            self.wf(),
        ensures
            opt_type_rewritten(t, r, self.names()),
            reports_added(old(diagnostics)@, final(diagnostics)@, self.unit.path@),
            opt_type_clean(t, self.quiet()) ==> final(diagnostics)@ == old(diagnostics)@,
    {
        match t {
            Some(t) => Some(self.rewritten_type(t, span, diagnostics)),
            None => None,
        }
    }

    /// Rewrites each struct or enum name in `ty`, written in the module at
    /// `span`, to what it stands for; a name that cannot be resolved is
    /// reported as `resolve` reports it.
    pub fn rewrite_type(&self, ty: &mut Type, span: Span, diagnostics: &mut Vec<Diagnostic>)
        requires
            self.wf(),
        ensures
            type_rewritten(*old(ty), *final(ty), self.names()),
            reports_added(old(diagnostics)@, final(diagnostics)@, self.unit.path@),
            type_clean(*old(ty), self.quiet()) ==> final(diagnostics)@ == old(diagnostics)@,
    {
        let mut t = Type::Unit;
        std::mem::swap(&mut t, ty);
        *ty = self.rewritten_type(t, span, diagnostics);
    }

    fn rewritten_pattern(&self, p: Pattern, diagnostics: &mut Vec<Diagnostic>) -> (r: Pattern)
        requires
            self.wf(),
        ensures
            pattern_rewritten(p, r, self.names()),
            reports_added(old(diagnostics)@, final(diagnostics)@, self.unit.path@),
            pattern_clean(p, self.quiet()) ==> final(diagnostics)@ == old(diagnostics)@,
        decreases p,
    {
        let Pattern { kind, span } = p;
        let kind = match kind {
            PatternKind::Enum { path, fields } => {
                let p2 = self.resolve_reported(&path, span, diagnostics);
                let f2 = self.rewritten_patterns(fields, diagnostics);
                PatternKind::Enum { path: p2, fields: f2 }
            },
            PatternKind::Struct { path, fields } => {
                let p2 = self.resolve_reported(&path, span, diagnostics);
                let f2 = self.rewritten_field_patterns(fields, diagnostics);
                PatternKind::Struct { path: p2, fields: f2 }
            },
            other => other,
        };
        Pattern { kind, span }
    }

    /// Rewrites the path of each variant and struct pattern in `pattern` to
    /// what it stands for.
    pub fn rewrite_pattern(&self, pattern: &mut Pattern, diagnostics: &mut Vec<Diagnostic>)
        requires
            self.wf(),
        ensures
            pattern_rewritten(*old(pattern), *final(pattern), self.names()),
            reports_added(old(diagnostics)@, final(diagnostics)@, self.unit.path@),
            pattern_clean(*old(pattern), self.quiet()) ==> final(diagnostics)@ == old(diagnostics)@,
    {
        let mut p = Pattern { kind: PatternKind::Wildcard, span: pattern.span };
        std::mem::swap(&mut p, pattern);
        *pattern = self.rewritten_pattern(p, diagnostics);
    }

    fn rewritten_patterns(&self, xs: Vec<Pattern>, diagnostics: &mut Vec<Diagnostic>) -> (r: Vec<Pattern>)
        requires
            self.wf(),
        ensures
            patterns_rewritten(xs@, r@, self.names()),
            reports_added(old(diagnostics)@, final(diagnostics)@, self.unit.path@),
            patterns_clean(xs@, self.quiet()) ==> final(diagnostics)@ == old(diagnostics)@,
        decreases xs,
    {
        let ghost original = xs@;
        let ghost d0 = diagnostics@;
        let mut rest = crate::mir::reversed(xs);
        let mut out: Vec<Pattern> = Vec::new();
        assert(original.subrange(0, 0) =~= Seq::<Pattern>::empty());
        while rest.len() > 0
            invariant
                self.wf(),
                original.len() == out@.len() + rest@.len(),
                forall|j: int| 0 <= j < rest@.len() ==> #[trigger] rest@[j] == original[original.len() - 1 - j],
                patterns_rewritten(original.subrange(0, out@.len() as int), out@, self.names()),
                reports_added(d0, diagnostics@, self.unit.path@),
                patterns_clean(original.subrange(0, out@.len() as int), self.quiet()) ==> diagnostics@ == d0,
                original == xs@,
            decreases rest@.len(),
        {
            let k = out.len();
            let ghost dk = diagnostics@;
            let ghost rb = rest@;
            let x = rest.pop().unwrap();
            assert(x == rb[rb.len() - 1]);
            assert(x == original[k as int]);
            let y = self.rewritten_pattern(x, diagnostics);
            let ghost before = out@;
            out.push(y);
            assert(out@.drop_last() =~= before);
            assert(original.subrange(0, k + 1).drop_last() =~= original.subrange(0, k as int));
            proof {
                assert(original.subrange(0, k + 1).last() == original[k as int]);
                if patterns_clean(original.subrange(0, k + 1), self.quiet()) {
                    assert(patterns_clean(original.subrange(0, k as int), self.quiet()));
                }
            }
            assert forall|j: int| 0 <= j < rest@.len() implies #[trigger] rest@[j] == original[original.len() - 1 - j] by {
                assert(rest@[j] == rb[j]);
            }
        }
        assert(original.subrange(0, original.len() as int) =~= original);
        out
    }

    fn rewritten_field_patterns(&self, xs: Vec<PatternField>, diagnostics: &mut Vec<Diagnostic>) -> (r: Vec<PatternField>)
        requires
            self.wf(),
        ensures
            field_patterns_rewritten(xs@, r@, self.names()),
            reports_added(old(diagnostics)@, final(diagnostics)@, self.unit.path@),
            field_patterns_clean(xs@, self.quiet()) ==> final(diagnostics)@ == old(diagnostics)@,
        decreases xs,
    {
        let ghost original = xs@;
        let ghost d0 = diagnostics@;
        let mut rest = crate::mir::reversed(xs);
        let mut out: Vec<PatternField> = Vec::new();
        assert(original.subrange(0, 0) =~= Seq::<PatternField>::empty());
        while rest.len() > 0
            invariant
                self.wf(),
                original.len() == out@.len() + rest@.len(),
                forall|j: int| 0 <= j < rest@.len() ==> #[trigger] rest@[j] == original[original.len() - 1 - j],
                field_patterns_rewritten(original.subrange(0, out@.len() as int), out@, self.names()),
                reports_added(d0, diagnostics@, self.unit.path@),
                field_patterns_clean(original.subrange(0, out@.len() as int), self.quiet()) ==> diagnostics@ == d0,
                original == xs@,
            decreases rest@.len(),
        {
            let k = out.len();
            let ghost dk = diagnostics@;
            let ghost rb = rest@;
            let x = rest.pop().unwrap();
            assert(x == rb[rb.len() - 1]);
            assert(x == original[k as int]);
            let ghost gx = x;
            let PatternField { name, pattern, span } = x;
            let pattern = self.rewritten_pattern(pattern, diagnostics);
            let y = PatternField { name, pattern, span };
            assert(field_pattern_rewritten(gx, y, self.names()));
            let ghost before = out@;
            out.push(y);
            assert(out@.drop_last() =~= before);
            assert(original.subrange(0, k + 1).drop_last() =~= original.subrange(0, k as int));
            proof {
                assert(original.subrange(0, k + 1).last() == original[k as int]);
                if field_patterns_clean(original.subrange(0, k + 1), self.quiet()) {
                    assert(field_patterns_clean(original.subrange(0, k as int), self.quiet()));
                }
            }
            assert forall|j: int| 0 <= j < rest@.len() implies #[trigger] rest@[j] == original[original.len() - 1 - j] by {
                assert(rest@[j] == rb[j]);
            }
        }
        assert(original.subrange(0, original.len() as int) =~= original);
        out
    }
    fn rewritten_var(&self, name: String, resolved: Option<String>, span: Span, diagnostics: &mut Vec<Diagnostic>) -> (r: ExprKind)
        requires
            self.wf(),
        ensures
            r matches ExprKind::Var { name: n2, resolved: r2 } && n2 == name && (if builtin_named(name@) {
                r2 == resolved
            } else {
                r2 matches Some(s) && s@ == (self.names())(name@)
            }),
            reports_added(old(diagnostics)@, final(diagnostics)@, self.unit.path@),
            (builtin_named(name@) || !has_double_colon(name@)) ==> final(diagnostics)@ == old(diagnostics)@,
    {
        if is_builtin(name.as_str()) {
            return ExprKind::Var { name, resolved };
        }
        let mut quiet: Vec<Diagnostic> = Vec::new();
        let r = self.resolve_reported(&name, span, &mut quiet);
        if holds_double_colon(&chars_of(name.as_str())) {
            let ghost before = diagnostics@;
            let ghost q = quiet@;
            diagnostics.append(&mut quiet);
            proof {
                assert forall|j: int| before.len() <= j < diagnostics@.len() implies (#[trigger] diagnostics@[j]).code@
                    == codes::MODULE@ && diagnostics@[j].file@ == self.unit.path@ by {
                    assert(diagnostics@[j] == q[j - before.len()]);
                }
            }
        }
        ExprKind::Var { name, resolved: Some(r) }
    }

    fn rewritten_expr(&self, e: Expr, diagnostics: &mut Vec<Diagnostic>) -> (r: Expr)
        requires
            self.wf(),
        ensures
            expr_rewritten(e, r, self.names()),
            reports_added(old(diagnostics)@, final(diagnostics)@, self.unit.path@),
            expr_clean(e, self.quiet()) ==> final(diagnostics)@ == old(diagnostics)@,
        decreases e,
    {
        let Expr { kind, span } = e;
        let kind = match kind {
            ExprKind::Var { name, resolved } => self.rewritten_var(name, resolved, span, diagnostics),
            ExprKind::Let { name, mutable, ty, value } => {
                let ty = self.rewritten_opt_type(ty, span, diagnostics);
                let value = self.rewritten_expr(*value, diagnostics);
                ExprKind::Let { name, mutable, ty, value: Box::new(value) }
            },
            ExprKind::Assign { name, value } => ExprKind::Assign {
                name,
                value: Box::new(self.rewritten_expr(*value, diagnostics)),
            },
            ExprKind::Defer(body) => ExprKind::Defer(Box::new(self.rewritten_expr(*body, diagnostics))),
            ExprKind::Do(items) => ExprKind::Do(self.rewritten_exprs(items, diagnostics)),
            ExprKind::Unsafe(items) => ExprKind::Unsafe(self.rewritten_exprs(items, diagnostics)),
            ExprKind::If { condition, then_expr, else_expr } => {
                let c = self.rewritten_expr(*condition, diagnostics);
                let t = self.rewritten_expr(*then_expr, diagnostics);
                let x = self.rewritten_expr(*else_expr, diagnostics);
                ExprKind::If { condition: Box::new(c), then_expr: Box::new(t), else_expr: Box::new(x) }
            },
            ExprKind::Loop { body } => ExprKind::Loop { body: Box::new(self.rewritten_expr(*body, diagnostics)) },
            ExprKind::While { condition, body } => {
                let c = self.rewritten_expr(*condition, diagnostics);
                let b = self.rewritten_expr(*body, diagnostics);
                ExprKind::While { condition: Box::new(c), body: Box::new(b) }
            },
            ExprKind::Match { value, arms } => {
                let v = self.rewritten_expr(*value, diagnostics);
                let a = self.rewritten_arms(arms, diagnostics);
                ExprKind::Match { value: Box::new(v), arms: a }
            },
            ExprKind::Borrow { mutable, value } => ExprKind::Borrow {
                mutable,
                value: Box::new(self.rewritten_expr(*value, diagnostics)),
            },
            ExprKind::Try(value) => ExprKind::Try(Box::new(self.rewritten_expr(*value, diagnostics))),
            ExprKind::Convert { target, value } => {
                let t = self.rewritten_type(target, span, diagnostics);
                let v = self.rewritten_expr(*value, diagnostics);
                ExprKind::Convert { target: t, value: Box::new(v) }
            },
            ExprKind::Call { callee, args } => {
                let c = if is_builtin(callee.as_str()) {
                    callee
                } else {
                    self.resolve_reported(&callee, span, diagnostics)
                };
                let a = self.rewritten_exprs(args, diagnostics);
                ExprKind::Call { callee: c, args: a }
            },
            ExprKind::Logical { op, operands } => ExprKind::Logical {
                op,
                operands: self.rewritten_exprs(operands, diagnostics),
            },
            ExprKind::Compose { operands } => ExprKind::Compose { operands: self.rewritten_exprs(operands, diagnostics) },
            ExprKind::Lambda { captures, params, result, body } => {
                let p = self.rewritten_params(params, diagnostics);
                let r = self.rewritten_type(result, span, diagnostics);
                let b = self.rewritten_expr(*body, diagnostics);
                ExprKind::Lambda { captures, params: p, result: r, body: Box::new(b) }
            },
            ExprKind::Break(Some(value)) => ExprKind::Break(Some(Box::new(self.rewritten_expr(*value, diagnostics)))),
            other => other,
        };
        Expr { kind, span }
    }

    /// Rewrites the types, patterns, callees and variables of `expression`
    /// by what each name written in the module stands for.
    pub fn rewrite_expr(&self, expression: &mut Expr, diagnostics: &mut Vec<Diagnostic>)
        requires
            self.wf(),
        ensures
            expr_rewritten(*old(expression), *final(expression), self.names()),
            reports_added(old(diagnostics)@, final(diagnostics)@, self.unit.path@),
            expr_clean(*old(expression), self.quiet()) ==> final(diagnostics)@ == old(diagnostics)@,
    {
        let mut e = Expr { kind: ExprKind::Unit, span: expression.span };
        std::mem::swap(&mut e, expression);
        *expression = self.rewritten_expr(e, diagnostics);
    }

    fn rewritten_exprs(&self, xs: Vec<Expr>, diagnostics: &mut Vec<Diagnostic>) -> (r: Vec<Expr>)
        requires
            self.wf(),
        ensures
            exprs_rewritten(xs@, r@, self.names()),
            reports_added(old(diagnostics)@, final(diagnostics)@, self.unit.path@),
            exprs_clean(xs@, self.quiet()) ==> final(diagnostics)@ == old(diagnostics)@,
        decreases xs,
    {
        let ghost original = xs@;
        let ghost d0 = diagnostics@;
        let mut rest = crate::mir::reversed(xs);
        let mut out: Vec<Expr> = Vec::new();
        assert(original.subrange(0, 0) =~= Seq::<Expr>::empty());
        while rest.len() > 0
            invariant
                self.wf(),
                original.len() == out@.len() + rest@.len(),
                forall|j: int| 0 <= j < rest@.len() ==> #[trigger] rest@[j] == original[original.len() - 1 - j],
                exprs_rewritten(original.subrange(0, out@.len() as int), out@, self.names()),
                reports_added(d0, diagnostics@, self.unit.path@),
                exprs_clean(original.subrange(0, out@.len() as int), self.quiet()) ==> diagnostics@ == d0,
                original == xs@,
            decreases rest@.len(),
        {
            let k = out.len();
            let ghost dk = diagnostics@;
            let ghost rb = rest@;
            let x = rest.pop().unwrap();
            assert(x == rb[rb.len() - 1]);
            assert(x == original[k as int]);
            let y = self.rewritten_expr(x, diagnostics);
            let ghost before = out@;
            out.push(y);
            assert(out@.drop_last() =~= before);
            assert(original.subrange(0, k + 1).drop_last() =~= original.subrange(0, k as int));
            proof {
                assert(original.subrange(0, k + 1).last() == original[k as int]);
                if exprs_clean(original.subrange(0, k + 1), self.quiet()) {
                    assert(exprs_clean(original.subrange(0, k as int), self.quiet()));
                }
            }
            assert forall|j: int| 0 <= j < rest@.len() implies #[trigger] rest@[j] == original[original.len() - 1 - j] by {
                assert(rest@[j] == rb[j]);
            }
        }
        assert(original.subrange(0, original.len() as int) =~= original);
        out
    }

    fn rewritten_arm(&self, a: MatchArm, diagnostics: &mut Vec<Diagnostic>) -> (r: MatchArm)
        requires
            self.wf(),
        ensures
            arm_rewritten(a, r, self.names()),
            reports_added(old(diagnostics)@, final(diagnostics)@, self.unit.path@),
            arm_clean(a, self.quiet()) ==> final(diagnostics)@ == old(diagnostics)@,
        decreases a,
    {
        let MatchArm { pattern, guard, body, span } = a;
        let pattern = self.rewritten_pattern(pattern, diagnostics);
        let guard = match guard {
            Some(g) => Some(self.rewritten_expr(g, diagnostics)),
            None => None,
        };
        let body = self.rewritten_expr(body, diagnostics);
        MatchArm { pattern, guard, body, span }
    }

    fn rewritten_arms(&self, xs: Vec<MatchArm>, diagnostics: &mut Vec<Diagnostic>) -> (r: Vec<MatchArm>)
        requires
            self.wf(),
        ensures
            arms_rewritten(xs@, r@, self.names()),
            reports_added(old(diagnostics)@, final(diagnostics)@, self.unit.path@),
            arms_clean(xs@, self.quiet()) ==> final(diagnostics)@ == old(diagnostics)@,
        decreases xs,
    {
        let ghost original = xs@;
        let ghost d0 = diagnostics@;
        let mut rest = crate::mir::reversed(xs);
        let mut out: Vec<MatchArm> = Vec::new();
        assert(original.subrange(0, 0) =~= Seq::<MatchArm>::empty());
        while rest.len() > 0
            invariant
                self.wf(),
                original.len() == out@.len() + rest@.len(),
                forall|j: int| 0 <= j < rest@.len() ==> #[trigger] rest@[j] == original[original.len() - 1 - j],
                arms_rewritten(original.subrange(0, out@.len() as int), out@, self.names()),
                reports_added(d0, diagnostics@, self.unit.path@),
                arms_clean(original.subrange(0, out@.len() as int), self.quiet()) ==> diagnostics@ == d0,
                original == xs@,
            decreases rest@.len(),
        {
            let k = out.len();
            let ghost dk = diagnostics@;
            let ghost rb = rest@;
            let x = rest.pop().unwrap();
            assert(x == rb[rb.len() - 1]);
            assert(x == original[k as int]);
            let y = self.rewritten_arm(x, diagnostics);
            let ghost before = out@;
            out.push(y);
            assert(out@.drop_last() =~= before);
            assert(original.subrange(0, k + 1).drop_last() =~= original.subrange(0, k as int));
            proof {
                assert(original.subrange(0, k + 1).last() == original[k as int]);
                if arms_clean(original.subrange(0, k + 1), self.quiet()) {
                    assert(arms_clean(original.subrange(0, k as int), self.quiet()));
                }
            }
            assert forall|j: int| 0 <= j < rest@.len() implies #[trigger] rest@[j] == original[original.len() - 1 - j] by {
                assert(rest@[j] == rb[j]);
            }
        }
        assert(original.subrange(0, original.len() as int) =~= original);
        out
    }

    fn rewritten_params(&self, xs: Vec<Param>, diagnostics: &mut Vec<Diagnostic>) -> (r: Vec<Param>)
        requires
            self.wf(),
        ensures
            params_rewritten(xs@, r@, self.names()),
            reports_added(old(diagnostics)@, final(diagnostics)@, self.unit.path@),
            (forall|i: int| 0 <= i < xs@.len() ==> #[trigger] type_clean(xs@[i].ty, self.quiet())) ==> final(diagnostics)@ == old(diagnostics)@,
    {
        let ghost original = xs@;
        let ghost d0 = diagnostics@;
        let mut rest = crate::mir::reversed(xs);
        let mut out: Vec<Param> = Vec::new();
        while rest.len() > 0
            invariant
                self.wf(),
                original.len() == out@.len() + rest@.len(),
                forall|j: int| 0 <= j < rest@.len() ==> #[trigger] rest@[j] == original[original.len() - 1 - j],
                forall|i: int| 0 <= i < out@.len() ==> param_rewritten(#[trigger] original[i], out@[i], self.names()),
                reports_added(d0, diagnostics@, self.unit.path@),
                (forall|i: int| 0 <= i < out@.len() ==> #[trigger] type_clean(original[i].ty, self.quiet())) ==> diagnostics@ == d0,
            decreases rest@.len(),
        {
            let k = out.len();
            let ghost dk = diagnostics@;
            let ghost rb = rest@;
            let x = rest.pop().unwrap();
            assert(x == rb[rb.len() - 1]);
            assert(x == original[k as int]);
            let Param { name, ty, span } = x;
            let ty = self.rewritten_type(ty, span, diagnostics);
            out.push(Param { name, ty, span });
            proof {
                if forall|i: int| 0 <= i < out@.len() ==> #[trigger] type_clean(original[i].ty, self.quiet()) {
                    assert(type_clean(original[k as int].ty, self.quiet()));
                    assert(forall|i: int| 0 <= i < k ==> #[trigger] type_clean(original[i].ty, self.quiet()));
                }
            }
            assert forall|j: int| 0 <= j < rest@.len() implies #[trigger] rest@[j] == original[original.len() - 1 - j] by {
                assert(rest@[j] == rb[j]);
            }
        }
        out
    }
    /// The canonical name of one of the module's own names.
    fn canonical(&self, name: &String) -> (r: String)
        requires
            self.wf(),
            self.unit.declared().dom().contains(name@),
        ensures
            r@ == self.unit.declared()[name@].0,
    {
        proof {
            lemma_table(self.unit.declarations@, |d: Decl| decl_view(d));
        }
        match find_name(&self.unit.declarations, name.as_str()) {
            Some(i) => self.unit.declarations[i].1.canonical.clone(),
            None => {
                proof {
                    let k = choose|k: int| 0 <= k < self.unit.declarations@.len() && self.unit.declarations@[k].0@ == name@;
                    assert(self.unit.declarations@[k].0@ == name@);
                }
                name.clone()
            },
        }
    }

    fn rewritten_fields(&self, xs: Vec<Field>, diagnostics: &mut Vec<Diagnostic>) -> (r: Vec<Field>)
        requires
            self.wf(),
        ensures
            fields_rewritten(xs@, r@, self.names()),
            reports_added(old(diagnostics)@, final(diagnostics)@, self.unit.path@),
            (forall|i: int| 0 <= i < xs@.len() ==> #[trigger] type_clean(xs@[i].ty, self.quiet())) ==> final(diagnostics)@ == old(diagnostics)@,
    {
        let ghost original = xs@;
        let ghost d0 = diagnostics@;
        let mut rest = crate::mir::reversed(xs);
        let mut out: Vec<Field> = Vec::new();
        while rest.len() > 0
            invariant
                self.wf(),
                original.len() == out@.len() + rest@.len(),
                forall|j: int| 0 <= j < rest@.len() ==> #[trigger] rest@[j] == original[original.len() - 1 - j],
                forall|i: int| 0 <= i < out@.len() ==> field_rewritten(#[trigger] original[i], out@[i], self.names()),
                reports_added(d0, diagnostics@, self.unit.path@),
                (forall|i: int| 0 <= i < out@.len() ==> #[trigger] type_clean(original[i].ty, self.quiet())) ==> diagnostics@ == d0,
            decreases rest@.len(),
        {
            let k = out.len();
            let ghost dk = diagnostics@;
            let ghost rb = rest@;
            let x = rest.pop().unwrap();
            assert(x == rb[rb.len() - 1]);
            assert(x == original[k as int]);
            let Field { name, ty, span } = x;
            let ty = self.rewritten_type(ty, span, diagnostics);
            out.push(Field { name, ty, span });
            proof {
                if forall|i: int| 0 <= i < out@.len() ==> #[trigger] type_clean(original[i].ty, self.quiet()) {
                    assert(type_clean(original[k as int].ty, self.quiet()));
                    assert(forall|i: int| 0 <= i < k ==> #[trigger] type_clean(original[i].ty, self.quiet()));
                }
            }
            assert forall|j: int| 0 <= j < rest@.len() implies #[trigger] rest@[j] == original[original.len() - 1 - j] by {
                assert(rest@[j] == rb[j]);
            }
        }
        out
    }

    fn rewritten_variants(&self, xs: Vec<Variant>, diagnostics: &mut Vec<Diagnostic>) -> (r: Vec<Variant>)
        requires
            self.wf(),
        ensures
            variants_rewritten(xs@, r@, self.names()),
            reports_added(old(diagnostics)@, final(diagnostics)@, self.unit.path@),
            (forall|i: int| 0 <= i < xs@.len() ==> #[trigger] fields_clean(xs@[i].fields@, self.quiet())) ==> final(diagnostics)@ == old(diagnostics)@,
    {
        let ghost original = xs@;
        let ghost d0 = diagnostics@;
        let mut rest = crate::mir::reversed(xs);
        let mut out: Vec<Variant> = Vec::new();
        while rest.len() > 0
            invariant
                self.wf(),
                original.len() == out@.len() + rest@.len(),
                forall|j: int| 0 <= j < rest@.len() ==> #[trigger] rest@[j] == original[original.len() - 1 - j],
                forall|i: int| 0 <= i < out@.len() ==> variant_rewritten(#[trigger] original[i], out@[i], self.names()),
                reports_added(d0, diagnostics@, self.unit.path@),
                (forall|i: int| 0 <= i < out@.len() ==> #[trigger] fields_clean(original[i].fields@, self.quiet())) ==> diagnostics@ == d0,
            decreases rest@.len(),
        {
            let k = out.len();
            let ghost dk = diagnostics@;
            let ghost rb = rest@;
            let x = rest.pop().unwrap();
            assert(x == rb[rb.len() - 1]);
            assert(x == original[k as int]);
            let Variant { name, fields, span } = x;
            let fields = self.rewritten_fields(fields, diagnostics);
            out.push(Variant { name, fields, span });
            proof {
                if forall|i: int| 0 <= i < out@.len() ==> #[trigger] fields_clean(original[i].fields@, self.quiet()) {
                    assert(fields_clean(original[k as int].fields@, self.quiet()));
                    assert(forall|i: int| 0 <= i < k ==> #[trigger] fields_clean(original[i].fields@, self.quiet()));
                }
            }
            assert forall|j: int| 0 <= j < rest@.len() implies #[trigger] rest@[j] == original[original.len() - 1 - j] by {
                assert(rest@[j] == rb[j]);
            }
        }
        out
    }

    fn rewritten_functions(&self, xs: Vec<Function>, diagnostics: &mut Vec<Diagnostic>) -> (r: Vec<Function>)
        requires
            self.wf(),
            forall|i: int| 0 <= i < xs@.len() ==> self.unit.declared().dom().contains(#[trigger] xs@[i].name@),
        ensures
            r@.len() == xs@.len(),
            forall|i: int| 0 <= i < xs@.len() ==> function_rewritten(#[trigger] xs@[i], r@[i], self.names(), self.unit.declared()),
            reports_added(old(diagnostics)@, final(diagnostics)@, self.unit.path@),
            (forall|i: int| 0 <= i < xs@.len() ==> #[trigger] function_clean(xs@[i], self.quiet())) ==> final(diagnostics)@ == old(diagnostics)@,
    {
        let ghost original = xs@;
        let ghost d0 = diagnostics@;
        let mut rest = crate::mir::reversed(xs);
        let mut out: Vec<Function> = Vec::new();
        while rest.len() > 0
            invariant
                self.wf(),
                original.len() == out@.len() + rest@.len(),
                forall|j: int| 0 <= j < rest@.len() ==> #[trigger] rest@[j] == original[original.len() - 1 - j],
                forall|i: int| 0 <= i < original.len() ==> self.unit.declared().dom().contains(#[trigger] original[i].name@),
                forall|i: int| 0 <= i < out@.len() ==> function_rewritten(#[trigger] original[i], out@[i], self.names(), self.unit.declared()),
                reports_added(d0, diagnostics@, self.unit.path@),
                (forall|i: int| 0 <= i < out@.len() ==> #[trigger] function_clean(original[i], self.quiet())) ==> diagnostics@ == d0,
            decreases rest@.len(),
        {
            let k = out.len();
            let ghost dk = diagnostics@;
            let ghost rb = rest@;
            let x = rest.pop().unwrap();
            assert(x == rb[rb.len() - 1]);
            assert(x == original[k as int]);
            let Function { name, inline, type_params, params, return_type, body, span } = x;
            let name = self.canonical(&name);
            let params = self.rewritten_params(params, diagnostics);
            let return_type = self.rewritten_type(return_type, span, diagnostics);
            let body = self.rewritten_expr(body, diagnostics);
            out.push(Function { name, inline, type_params, params, return_type, body, span });
            proof {
                if forall|i: int| 0 <= i < out@.len() ==> #[trigger] function_clean(original[i], self.quiet()) {
                    assert(function_clean(original[k as int], self.quiet()));
                    assert(forall|i: int| 0 <= i < k ==> #[trigger] function_clean(original[i], self.quiet()));
                }
            }
            assert forall|j: int| 0 <= j < rest@.len() implies #[trigger] rest@[j] == original[original.len() - 1 - j] by {
                assert(rest@[j] == rb[j]);
            }
        }
        out
    }

    fn rewritten_externs(&self, xs: Vec<Extern>, diagnostics: &mut Vec<Diagnostic>) -> (r: Vec<Extern>)
        requires
            self.wf(),
            forall|i: int| 0 <= i < xs@.len() ==> self.unit.declared().dom().contains(#[trigger] xs@[i].name@),
        ensures
            r@.len() == xs@.len(),
            forall|i: int| 0 <= i < xs@.len() ==> extern_rewritten(#[trigger] xs@[i], r@[i], self.names(), self.unit.declared()),
            reports_added(old(diagnostics)@, final(diagnostics)@, self.unit.path@),
            (forall|i: int| 0 <= i < xs@.len() ==> #[trigger] extern_clean(xs@[i], self.quiet())) ==> final(diagnostics)@ == old(diagnostics)@,
    {
        let ghost original = xs@;
        let ghost d0 = diagnostics@;
        let mut rest = crate::mir::reversed(xs);
        let mut out: Vec<Extern> = Vec::new();
        while rest.len() > 0
            invariant
                self.wf(),
                original.len() == out@.len() + rest@.len(),
                forall|j: int| 0 <= j < rest@.len() ==> #[trigger] rest@[j] == original[original.len() - 1 - j],
                forall|i: int| 0 <= i < original.len() ==> self.unit.declared().dom().contains(#[trigger] original[i].name@),
                forall|i: int| 0 <= i < out@.len() ==> extern_rewritten(#[trigger] original[i], out@[i], self.names(), self.unit.declared()),
                reports_added(d0, diagnostics@, self.unit.path@),
                (forall|i: int| 0 <= i < out@.len() ==> #[trigger] extern_clean(original[i], self.quiet())) ==> diagnostics@ == d0,
            decreases rest@.len(),
        {
            let k = out.len();
            let ghost dk = diagnostics@;
            let ghost rb = rest@;
            let x = rest.pop().unwrap();
            assert(x == rb[rb.len() - 1]);
            assert(x == original[k as int]);
            let Extern { name, symbol, symbol_span, params, return_type, span } = x;
            let name = self.canonical(&name);
            let params = self.rewritten_params(params, diagnostics);
            let return_type = self.rewritten_type(return_type, span, diagnostics);
            out.push(Extern { name, symbol, symbol_span, params, return_type, span });
            proof {
                if forall|i: int| 0 <= i < out@.len() ==> #[trigger] extern_clean(original[i], self.quiet()) {
                    assert(extern_clean(original[k as int], self.quiet()));
                    assert(forall|i: int| 0 <= i < k ==> #[trigger] extern_clean(original[i], self.quiet()));
                }
            }
            assert forall|j: int| 0 <= j < rest@.len() implies #[trigger] rest@[j] == original[original.len() - 1 - j] by {
                assert(rest@[j] == rb[j]);
            }
        }
        out
    }

    fn rewritten_tests(&self, xs: Vec<Test>, diagnostics: &mut Vec<Diagnostic>) -> (r: Vec<Test>)
        requires
            self.wf(),
        ensures
            r@.len() == xs@.len(),
            forall|i: int| 0 <= i < xs@.len() ==> test_rewritten(#[trigger] xs@[i], r@[i], self.names(), self.unit.module@),
            reports_added(old(diagnostics)@, final(diagnostics)@, self.unit.path@),
            (forall|i: int| 0 <= i < xs@.len() ==> #[trigger] expr_clean(xs@[i].body, self.quiet())) ==> final(diagnostics)@ == old(diagnostics)@,
    {
        let ghost original = xs@;
        let ghost d0 = diagnostics@;
        let mut rest = crate::mir::reversed(xs);
        let mut out: Vec<Test> = Vec::new();
        while rest.len() > 0
            invariant
                self.wf(),
                original.len() == out@.len() + rest@.len(),
                forall|j: int| 0 <= j < rest@.len() ==> #[trigger] rest@[j] == original[original.len() - 1 - j],
                forall|i: int| 0 <= i < out@.len() ==> test_rewritten(#[trigger] original[i], out@[i], self.names(), self.unit.module@),
                reports_added(d0, diagnostics@, self.unit.path@),
                (forall|i: int| 0 <= i < out@.len() ==> #[trigger] expr_clean(original[i].body, self.quiet())) ==> diagnostics@ == d0,
            decreases rest@.len(),
        {
            let k = out.len();
            let ghost dk = diagnostics@;
            let ghost rb = rest@;
            let x = rest.pop().unwrap();
            assert(x == rb[rb.len() - 1]);
            assert(x == original[k as int]);
            let Test { name, body, span } = x;
            let name = qualify(self.unit.module.as_str(), name.as_str());
            let body = self.rewritten_expr(body, diagnostics);
            out.push(Test { name, body, span });
            proof {
                if forall|i: int| 0 <= i < out@.len() ==> #[trigger] expr_clean(original[i].body, self.quiet()) {
                    assert(expr_clean(original[k as int].body, self.quiet()));
                    assert(forall|i: int| 0 <= i < k ==> #[trigger] expr_clean(original[i].body, self.quiet()));
                }
            }
            assert forall|j: int| 0 <= j < rest@.len() implies #[trigger] rest@[j] == original[original.len() - 1 - j] by {
                assert(rest@[j] == rb[j]);
            }
        }
        out
    }

    fn rewritten_structs(&self, xs: Vec<StructDecl>, diagnostics: &mut Vec<Diagnostic>) -> (r: Vec<StructDecl>)
        requires
            self.wf(),
            forall|i: int| 0 <= i < xs@.len() ==> self.unit.declared().dom().contains(#[trigger] xs@[i].name@),
        ensures
            r@.len() == xs@.len(),
            forall|i: int| 0 <= i < xs@.len() ==> struct_rewritten(#[trigger] xs@[i], r@[i], self.names(), self.unit.declared()),
            reports_added(old(diagnostics)@, final(diagnostics)@, self.unit.path@),
            (forall|i: int| 0 <= i < xs@.len() ==> #[trigger] fields_clean(xs@[i].fields@, self.quiet())) ==> final(diagnostics)@ == old(diagnostics)@,
    {
        let ghost original = xs@;
        let ghost d0 = diagnostics@;
        let mut rest = crate::mir::reversed(xs);
        let mut out: Vec<StructDecl> = Vec::new();
        while rest.len() > 0
            invariant
                self.wf(),
                original.len() == out@.len() + rest@.len(),
                forall|j: int| 0 <= j < rest@.len() ==> #[trigger] rest@[j] == original[original.len() - 1 - j],
                forall|i: int| 0 <= i < original.len() ==> self.unit.declared().dom().contains(#[trigger] original[i].name@),
                forall|i: int| 0 <= i < out@.len() ==> struct_rewritten(#[trigger] original[i], out@[i], self.names(), self.unit.declared()),
                reports_added(d0, diagnostics@, self.unit.path@),
                (forall|i: int| 0 <= i < out@.len() ==> #[trigger] fields_clean(original[i].fields@, self.quiet())) ==> diagnostics@ == d0,
            decreases rest@.len(),
        {
            let k = out.len();
            let ghost dk = diagnostics@;
            let ghost rb = rest@;
            let x = rest.pop().unwrap();
            assert(x == rb[rb.len() - 1]);
            assert(x == original[k as int]);
            let StructDecl { name, type_params, fields, span } = x;
            let name = self.canonical(&name);
            let fields = self.rewritten_fields(fields, diagnostics);
            out.push(StructDecl { name, type_params, fields, span });
            proof {
                if forall|i: int| 0 <= i < out@.len() ==> #[trigger] fields_clean(original[i].fields@, self.quiet()) {
                    assert(fields_clean(original[k as int].fields@, self.quiet()));
                    assert(forall|i: int| 0 <= i < k ==> #[trigger] fields_clean(original[i].fields@, self.quiet()));
                }
            }
            assert forall|j: int| 0 <= j < rest@.len() implies #[trigger] rest@[j] == original[original.len() - 1 - j] by {
                assert(rest@[j] == rb[j]);
            }
        }
        out
    }

    fn rewritten_enums(&self, xs: Vec<EnumDecl>, diagnostics: &mut Vec<Diagnostic>) -> (r: Vec<EnumDecl>)
        requires
            self.wf(),
            forall|i: int| 0 <= i < xs@.len() ==> self.unit.declared().dom().contains(#[trigger] xs@[i].name@),
        ensures
            r@.len() == xs@.len(),
            forall|i: int| 0 <= i < xs@.len() ==> enum_rewritten(#[trigger] xs@[i], r@[i], self.names(), self.unit.declared()),
            reports_added(old(diagnostics)@, final(diagnostics)@, self.unit.path@),
            (forall|i: int| 0 <= i < xs@.len() ==> #[trigger] variants_clean(xs@[i].variants@, self.quiet())) ==> final(diagnostics)@ == old(diagnostics)@,
    {
        let ghost original = xs@;
        let ghost d0 = diagnostics@;
        let mut rest = crate::mir::reversed(xs);
        let mut out: Vec<EnumDecl> = Vec::new();
        while rest.len() > 0
            invariant
                self.wf(),
                original.len() == out@.len() + rest@.len(),
                forall|j: int| 0 <= j < rest@.len() ==> #[trigger] rest@[j] == original[original.len() - 1 - j],
                forall|i: int| 0 <= i < original.len() ==> self.unit.declared().dom().contains(#[trigger] original[i].name@),
                forall|i: int| 0 <= i < out@.len() ==> enum_rewritten(#[trigger] original[i], out@[i], self.names(), self.unit.declared()),
                reports_added(d0, diagnostics@, self.unit.path@),
                (forall|i: int| 0 <= i < out@.len() ==> #[trigger] variants_clean(original[i].variants@, self.quiet())) ==> diagnostics@ == d0,
            decreases rest@.len(),
        {
            let k = out.len();
            let ghost dk = diagnostics@;
            let ghost rb = rest@;
            let x = rest.pop().unwrap();
            assert(x == rb[rb.len() - 1]);
            assert(x == original[k as int]);
            let EnumDecl { name, type_params, variants, span } = x;
            let name = self.canonical(&name);
            let variants = self.rewritten_variants(variants, diagnostics);
            out.push(EnumDecl { name, type_params, variants, span });
            proof {
                if forall|i: int| 0 <= i < out@.len() ==> #[trigger] variants_clean(original[i].variants@, self.quiet()) {
                    assert(variants_clean(original[k as int].variants@, self.quiet()));
                    assert(forall|i: int| 0 <= i < k ==> #[trigger] variants_clean(original[i].variants@, self.quiet()));
                }
            }
            assert forall|j: int| 0 <= j < rest@.len() implies #[trigger] rest@[j] == original[original.len() - 1 - j] by {
                assert(rest@[j] == rb[j]);
            }
        }
        out
    }

    fn rewritten_consts(&self, xs: Vec<ConstDecl>, diagnostics: &mut Vec<Diagnostic>) -> (r: Vec<ConstDecl>)
        requires
            self.wf(),
            forall|i: int| 0 <= i < xs@.len() ==> self.unit.declared().dom().contains(#[trigger] xs@[i].name@),
        ensures
            r@.len() == xs@.len(),
            forall|i: int| 0 <= i < xs@.len() ==> const_rewritten(#[trigger] xs@[i], r@[i], self.names(), self.unit.declared()),
            reports_added(old(diagnostics)@, final(diagnostics)@, self.unit.path@),
            (forall|i: int| 0 <= i < xs@.len() ==> #[trigger] opt_type_clean(xs@[i].ty, self.quiet())) ==> final(diagnostics)@ == old(diagnostics)@,
    {
        let ghost original = xs@;
        let ghost d0 = diagnostics@;
        let mut rest = crate::mir::reversed(xs);
        let mut out: Vec<ConstDecl> = Vec::new();
        while rest.len() > 0
            invariant
                self.wf(),
                original.len() == out@.len() + rest@.len(),
                forall|j: int| 0 <= j < rest@.len() ==> #[trigger] rest@[j] == original[original.len() - 1 - j],
                forall|i: int| 0 <= i < original.len() ==> self.unit.declared().dom().contains(#[trigger] original[i].name@),
                forall|i: int| 0 <= i < out@.len() ==> const_rewritten(#[trigger] original[i], out@[i], self.names(), self.unit.declared()),
                reports_added(d0, diagnostics@, self.unit.path@),
                (forall|i: int| 0 <= i < out@.len() ==> #[trigger] opt_type_clean(original[i].ty, self.quiet())) ==> diagnostics@ == d0,
            decreases rest@.len(),
        {
            let k = out.len();
            let ghost dk = diagnostics@;
            let ghost rb = rest@;
            let x = rest.pop().unwrap();
            assert(x == rb[rb.len() - 1]);
            assert(x == original[k as int]);
            let ConstDecl { name, ty, value, span } = x;
            let name = self.canonical(&name);
            let ty = self.rewritten_opt_type(ty, span, diagnostics);
            out.push(ConstDecl { name, ty, value, span });
            proof {
                if forall|i: int| 0 <= i < out@.len() ==> #[trigger] opt_type_clean(original[i].ty, self.quiet()) {
                    assert(opt_type_clean(original[k as int].ty, self.quiet()));
                    assert(forall|i: int| 0 <= i < k ==> #[trigger] opt_type_clean(original[i].ty, self.quiet()));
                }
            }
            assert forall|j: int| 0 <= j < rest@.len() implies #[trigger] rest@[j] == original[original.len() - 1 - j] by {
                assert(rest@[j] == rb[j]);
            }
        }
        out
    }

    /// Gives every declaration of `program` its canonical name, names each
    /// test within the module, rewrites every name the program writes by
    /// what it stands for, and drops the exports and takes, which have done
    /// their work. Every declaration must be one of the module's names.
    pub fn rewrite_program(&self, program: &mut Program, diagnostics: &mut Vec<Diagnostic>)
        requires
            self.wf(),
            declares_all(*old(program), self.unit.declared()),
        ensures
            program_rewritten(*old(program), *final(program), self.names(), self.unit.declared(), self.unit.module@),
            reports_added(old(diagnostics)@, final(diagnostics)@, self.unit.path@),
            program_clean(*old(program), self.quiet()) ==> final(diagnostics)@ == old(diagnostics)@,
    {
        let mut functions: Vec<Function> = Vec::new();
        std::mem::swap(&mut functions, &mut program.functions);
        program.functions = self.rewritten_functions(functions, diagnostics);
        let mut externs: Vec<Extern> = Vec::new();
        std::mem::swap(&mut externs, &mut program.externs);
        program.externs = self.rewritten_externs(externs, diagnostics);
        let mut tests: Vec<Test> = Vec::new();
        std::mem::swap(&mut tests, &mut program.tests);
        program.tests = self.rewritten_tests(tests, diagnostics);
        let mut structs: Vec<StructDecl> = Vec::new();
        std::mem::swap(&mut structs, &mut program.structs);
        program.structs = self.rewritten_structs(structs, diagnostics);
        let mut enums: Vec<EnumDecl> = Vec::new();
        std::mem::swap(&mut enums, &mut program.enums);
        program.enums = self.rewritten_enums(enums, diagnostics);
        let mut consts: Vec<ConstDecl> = Vec::new();
        std::mem::swap(&mut consts, &mut program.consts);
        program.consts = self.rewritten_consts(consts, diagnostics);
        program.exports = Vec::new();
        program.takes = Vec::new();
    }
}

} // verus!
