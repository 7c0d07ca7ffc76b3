//! The module-qualified names a program mentions, found before any of them
//! is resolved.
use crate::ast::{
    ConstDecl, EnumDecl, Expr, ExprKind, Extern, Field, Function, MatchArm, Param, Pattern, PatternField,
    PatternKind, Program, StructDecl, Test, Type, TypeList, Variant,
};
use vstd::prelude::*;

verus! {

/// The texts of `names`, in order.
pub open spec fn texts_of(names: Seq<String>) -> Seq<Seq<char>> {
    names.map_values(|n: String| n@)
}

/// `name`, where it is qualified: where it holds a `:`.
pub open spec fn if_qualified(name: Seq<char>) -> Seq<Seq<char>> {
    if name.contains(':') {
        seq![name]
    } else {
        Seq::empty()
    }
}

/// The qualified names a type mentions, in the order they are written.
pub open spec fn type_names(t: Type) -> Seq<Seq<char>>
    decreases t, 0int,
{
    match t {
        Type::Named(name) => if_qualified(name@),
        Type::List(inner) => type_names(*inner),
        Type::Slice(inner) => type_names(*inner),
        Type::Ref { inner, .. } => type_names(*inner),
        Type::Array { element, .. } => type_names(*element),
        Type::Apply { name, args } => if_qualified(name@) + list_names(args),
        Type::Fn { params, result } => list_names(params) + type_names(*result),
        _ => Seq::empty(),
    }
}

/// The qualified names a list of types mentions.
pub open spec fn list_names(l: TypeList) -> Seq<Seq<char>>
    decreases l, 1int,
{
    match l {
        TypeList::Nil => Seq::empty(),
        TypeList::Cons(head, tail) => type_names(*head) + list_names(*tail),
    }
}

/// The paths a pattern names: every variant and struct pattern's, in order.
pub open spec fn pattern_names(p: Pattern) -> Seq<Seq<char>>
    decreases p, 0int,
{
    match p.kind {
        PatternKind::Enum { path, fields } => seq![path@] + patterns_names(fields@),
        PatternKind::Struct { path, fields } => seq![path@] + field_patterns_names(fields@),
        _ => Seq::empty(),
    }
}

pub open spec fn patterns_names(ps: Seq<Pattern>) -> Seq<Seq<char>>
    decreases ps, 1int,
{
    if ps.len() == 0 {
        Seq::empty()
    } else {
        patterns_names(ps.drop_last()) + pattern_names(ps.last())
    }
}

pub open spec fn field_patterns_names(fs: Seq<PatternField>) -> Seq<Seq<char>>
    decreases fs, 1int,
{
    if fs.len() == 0 {
        Seq::empty()
    } else {
        field_patterns_names(fs.drop_last()) + pattern_names(fs.last().pattern)
    }
}

/// The qualified names the types of `params` mention.
pub open spec fn params_names(ps: Seq<Param>) -> Seq<Seq<char>>
    decreases ps.len(),
{
    if ps.len() == 0 {
        Seq::empty()
    } else {
        params_names(ps.drop_last()) + type_names(ps.last().ty)
    }
}

/// The qualified names an expression mentions, in the order they are
/// written: written types, patterns' paths, and qualified callees.
pub open spec fn expr_names(e: Expr) -> Seq<Seq<char>>
    decreases e, 0int,
{
    match e.kind {
        ExprKind::Let { ty, value, .. } => (match ty {
            Some(t) => type_names(t),
            None => Seq::empty(),
        }) + expr_names(*value),
        ExprKind::Assign { value, .. } => expr_names(*value),
        ExprKind::Do(items) => exprs_names(items@),
        ExprKind::Unsafe(items) => exprs_names(items@),
        ExprKind::If { condition, then_expr, else_expr } => expr_names(*condition) + expr_names(*then_expr)
            + expr_names(*else_expr),
        ExprKind::Loop { body } => expr_names(*body),
        ExprKind::While { condition, body } => expr_names(*condition) + expr_names(*body),
        ExprKind::Match { value, arms } => expr_names(*value) + arms_names(arms@),
        ExprKind::Break(Some(value)) => expr_names(*value),
        ExprKind::Borrow { value, .. } => expr_names(*value),
        ExprKind::Try(value) => expr_names(*value),
        ExprKind::Convert { value, .. } => expr_names(*value),
        ExprKind::Call { callee, args } => if_qualified(callee@) + exprs_names(args@),
        ExprKind::Logical { operands, .. } => exprs_names(operands@),
        ExprKind::Compose { operands } => exprs_names(operands@),
        ExprKind::Lambda { params, result, body, .. } => params_names(params@) + type_names(result)
            + expr_names(*body),
        _ => Seq::empty(),
    }
}

pub open spec fn exprs_names(es: Seq<Expr>) -> Seq<Seq<char>>
    decreases es, 1int,
{
    if es.len() == 0 {
        Seq::empty()
    } else {
        exprs_names(es.drop_last()) + expr_names(es.last())
    }
}

/// An arm's pattern, then its guard, then its body.
pub open spec fn arm_names(a: MatchArm) -> Seq<Seq<char>>
    decreases a, 0int,
{
    pattern_names(a.pattern) + (match a.guard {
        Some(g) => expr_names(g),
        None => Seq::empty(),
    }) + expr_names(a.body)
}

pub open spec fn arms_names(arms: Seq<MatchArm>) -> Seq<Seq<char>>
    decreases arms, 1int,
{
    if arms.len() == 0 {
        Seq::empty()
    } else {
        arms_names(arms.drop_last()) + arm_names(arms.last())
    }
}

/// The expressions of an arm: its guard, where it has one, then its body.
pub open spec fn arm_exprs(a: MatchArm) -> Seq<Expr> {
    (match a.guard {
        Some(g) => seq![g],
        None => Seq::empty(),
    }) + seq![a.body]
}

/// The expressions of the arms, arm by arm.
pub open spec fn arms_exprs(arms: Seq<MatchArm>) -> Seq<Expr>
    decreases arms.len(),
{
    if arms.len() == 0 {
        Seq::empty()
    } else {
        arms_exprs(arms.drop_last()) + arm_exprs(arms.last())
    }
}

/// The expressions written directly inside `e` whose names are gathered:
/// every one, but for the body of a `defer`, which is not looked into.
pub open spec fn inner_exprs(e: Expr) -> Seq<Expr> {
    match e.kind {
        ExprKind::Let { value, .. } => seq![*value],
        ExprKind::Assign { value, .. } => seq![*value],
        ExprKind::Do(items) => items@,
        ExprKind::Unsafe(items) => items@,
        ExprKind::If { condition, then_expr, else_expr } => seq![*condition, *then_expr, *else_expr],
        ExprKind::Loop { body } => seq![*body],
        ExprKind::While { condition, body } => seq![*condition, *body],
        ExprKind::Match { value, arms } => seq![*value] + arms_exprs(arms@),
        ExprKind::Break(Some(value)) => seq![*value],
        ExprKind::Borrow { value, .. } => seq![*value],
        ExprKind::Try(value) => seq![*value],
        ExprKind::Convert { value, .. } => seq![*value],
        ExprKind::Call { args, .. } => args@,
        ExprKind::Logical { operands, .. } => operands@,
        ExprKind::Compose { operands } => operands@,
        ExprKind::Lambda { body, .. } => seq![*body],
        _ => Seq::empty(),
    }
}

proof fn lemma_contains_joined(a: Seq<Seq<char>>, b: Seq<Seq<char>>)
    ensures
        forall|n: Seq<char>| a.contains(n) ==> #[trigger] (a + b).contains(n),
        forall|n: Seq<char>| b.contains(n) ==> #[trigger] (a + b).contains(n),
{
    assert forall|n: Seq<char>| a.contains(n) implies #[trigger] (a + b).contains(n) by {
        let k = choose|k: int| 0 <= k < a.len() && a[k] == n;
        assert((a + b)[k] == n);
    }
    assert forall|n: Seq<char>| b.contains(n) implies #[trigger] (a + b).contains(n) by {
        let k = choose|k: int| 0 <= k < b.len() && b[k] == n;
        assert((a + b)[a.len() + k] == n);
    }
}

proof fn lemma_exprs_cover(es: Seq<Expr>, i: int)
    requires
        0 <= i < es.len(),
    ensures
        forall|n: Seq<char>| expr_names(es[i]).contains(n) ==> #[trigger] exprs_names(es).contains(n),
    decreases es.len(),
{
    lemma_contains_joined(exprs_names(es.drop_last()), expr_names(es.last()));
    if i < es.len() - 1 {
        lemma_exprs_cover(es.drop_last(), i);
        assert(es.drop_last()[i] == es[i]);
    }
}

proof fn lemma_arms_cover(arms: Seq<MatchArm>, i: int)
    requires
        0 <= i < arms_exprs(arms).len(),
    ensures
        forall|n: Seq<char>| expr_names(arms_exprs(arms)[i]).contains(n) ==> #[trigger] arms_names(arms).contains(n),
    decreases arms.len(),
{
    if arms.len() == 0 {
        assert(arms_exprs(arms).len() == 0);
    } else {
        let front = arms_exprs(arms.drop_last());
        let last = arms.last();
        lemma_contains_joined(arms_names(arms.drop_last()), arm_names(last));
        let guard_names = match last.guard {
            Some(g) => expr_names(g),
            None => Seq::<Seq<char>>::empty(),
        };
        lemma_contains_joined(pattern_names(last.pattern), guard_names);
        lemma_contains_joined(pattern_names(last.pattern) + guard_names, expr_names(last.body));
        if i < front.len() {
            lemma_arms_cover(arms.drop_last(), i);
            assert(arms_exprs(arms)[i] == front[i]);
        } else {
            assert(arms_exprs(arms)[i] == arm_exprs(last)[i - front.len()]);
        }
    }
}

/// The names gathered from an expression take in those of every expression
/// written directly inside it (the body of a `defer` aside): the condition
/// and both branches of an `if`, every item of a block, the value, guards and
/// bodies of a `match`, the arguments of a call, and so on. So a qualified
/// name written anywhere in an expression is among its names.
pub proof fn lemma_names_cover_inner(e: Expr, i: int)
    requires
        0 <= i < inner_exprs(e).len(),
    ensures
        forall|n: Seq<char>| expr_names(inner_exprs(e)[i]).contains(n) ==> #[trigger] expr_names(e).contains(n),
{
    match e.kind {
        ExprKind::Let { ty, value, .. } => {
            let written = match ty {
                Some(t) => type_names(t),
                None => Seq::empty(),
            };
            lemma_contains_joined(written, expr_names(*value));
            assert(expr_names(e) == written + expr_names(*value));
        },
        ExprKind::Do(items) => {
            lemma_exprs_cover(items@, i);
            assert(expr_names(e) == exprs_names(items@));
            assert(inner_exprs(e) == items@);
        },
        ExprKind::Unsafe(items) => {
            lemma_exprs_cover(items@, i);
            assert(expr_names(e) == exprs_names(items@));
            assert(inner_exprs(e) == items@);
        },
        ExprKind::If { condition, then_expr, else_expr } => {
            lemma_contains_joined(expr_names(*condition), expr_names(*then_expr));
            lemma_contains_joined(expr_names(*condition) + expr_names(*then_expr), expr_names(*else_expr));
        },
        ExprKind::While { condition, body } => {
            lemma_contains_joined(expr_names(*condition), expr_names(*body));
        },
        ExprKind::Match { value, arms } => {
            lemma_contains_joined(expr_names(*value), arms_names(arms@));
            if i > 0 {
                lemma_arms_cover(arms@, i - 1);
                assert(inner_exprs(e)[i] == arms_exprs(arms@)[i - 1]);
            }
        },
        ExprKind::Call { callee, args } => {
            lemma_contains_joined(if_qualified(callee@), exprs_names(args@));
            lemma_exprs_cover(args@, i);
        },
        ExprKind::Logical { operands, .. } => {
            lemma_exprs_cover(operands@, i);
            assert(expr_names(e) == exprs_names(operands@));
            assert(inner_exprs(e) == operands@);
        },
        ExprKind::Compose { operands } => {
            lemma_exprs_cover(operands@, i);
            assert(expr_names(e) == exprs_names(operands@));
            assert(inner_exprs(e) == operands@);
        },
        ExprKind::Lambda { params, result, body, .. } => {
            lemma_contains_joined(params_names(params@) + type_names(result), expr_names(*body));
        },
        ExprKind::Assign { value, .. } => {
            assert(inner_exprs(e)[i] == *value);
        },
        ExprKind::Loop { body } => {
            assert(inner_exprs(e)[i] == *body);
        },
        ExprKind::Break(Some(value)) => {
            assert(inner_exprs(e)[i] == *value);
        },
        ExprKind::Borrow { value, .. } => {
            assert(inner_exprs(e)[i] == *value);
        },
        ExprKind::Try(value) => {
            assert(inner_exprs(e)[i] == *value);
        },
        ExprKind::Convert { value, .. } => {
            assert(inner_exprs(e)[i] == *value);
        },
        _ => {},
    }
}

/// A call of a qualified name gathers that name; a call of a plain one
/// gathers nothing for its callee.
pub proof fn lemma_qualified_callee_named(e: Expr)
    requires
        e.kind is Call,
    ensures
        (e.kind->callee)@.contains(':') ==> expr_names(e).contains((e.kind->callee)@),
        expr_names(e) == if_qualified((e.kind->callee)@) + exprs_names((e.kind->args)@),
{
    let callee = (e.kind->callee)@;
    lemma_contains_joined(if_qualified(callee), exprs_names((e.kind->args)@));
    if callee.contains(':') {
        assert(if_qualified(callee)[0] == callee);
    }
}

/// Whether `s` holds a `:`.
fn has_colon(s: &str) -> (r: bool)
    ensures
        r == s@.contains(':'),
{
    let cs = crate::lexer::chars_of(s);
    let mut k: usize = 0;
    while k < cs.len()
        invariant
            k <= cs@.len(),
            cs@ == s@,
            forall|j: int| 0 <= j < k ==> cs@[j] != ':',
        decreases cs@.len() - k,
    {
        if cs[k] == ':' {
            assert(s@[k as int] == ':');
            return true;
        }
        k += 1;
    }
    false
}

proof fn lemma_texts_push(names: Seq<String>, n: String)
    ensures
        texts_of(names.push(n)) == texts_of(names).push(n@),
{
    assert(texts_of(names.push(n)) =~= texts_of(names).push(n@));
}

fn push_if_qualified(name: &String, out: &mut Vec<String>)
    ensures
        texts_of(final(out)@) == texts_of(old(out)@) + if_qualified(name@),
{
    if has_colon(name.as_str()) {
        let ghost before = out@;
        out.push(name.clone());
        proof {
            lemma_texts_push(before, out@.last());
            assert(texts_of(out@) =~= texts_of(before) + if_qualified(name@));
        }
    } else {
        assert(texts_of(out@) =~= texts_of(out@) + if_qualified(name@));
    }
}

fn push_name(name: &String, out: &mut Vec<String>)
    ensures
        texts_of(final(out)@) == texts_of(old(out)@) + seq![name@],
{
    let ghost before = out@;
    out.push(name.clone());
    proof {
        lemma_texts_push(before, out@.last());
        assert(texts_of(out@) =~= texts_of(before) + seq![name@]);
    }
}

fn names_in_type(t: &Type, out: &mut Vec<String>)
    ensures
        texts_of(final(out)@) == texts_of(old(out)@) + type_names(*t),
    decreases t,
{
    let ghost before = texts_of(out@);
    match t {
        Type::Named(name) => push_if_qualified(name, out),
        Type::List(inner) => names_in_type(inner, out),
        Type::Slice(inner) => names_in_type(inner, out),
        Type::Ref { inner, .. } => names_in_type(inner, out),
        Type::Array { element, .. } => names_in_type(element, out),
        Type::Apply { name, args } => {
            push_if_qualified(name, out);
            names_in_list(args, out);
            assert(texts_of(out@) =~= before + type_names(*t));
        },
        Type::Fn { params, result } => {
            names_in_list(params, out);
            names_in_type(result, out);
            assert(texts_of(out@) =~= before + type_names(*t));
        },
        _ => {
            assert(texts_of(out@) =~= before + type_names(*t));
        },
    }
}

fn names_in_list(l: &TypeList, out: &mut Vec<String>)
    ensures
        texts_of(final(out)@) == texts_of(old(out)@) + list_names(*l),
    decreases l,
{
    let ghost before = texts_of(out@);
    match l {
        TypeList::Nil => {
            assert(texts_of(out@) =~= before + list_names(*l));
        },
        TypeList::Cons(head, tail) => {
            names_in_type(head, out);
            names_in_list(tail, out);
            assert(texts_of(out@) =~= before + list_names(*l));
        },
    }
}

fn names_in_pattern(p: &Pattern, out: &mut Vec<String>)
    ensures
        texts_of(final(out)@) == texts_of(old(out)@) + pattern_names(*p),
    decreases p,
{
    let ghost before = texts_of(out@);
    match &p.kind {
        PatternKind::Enum { path, fields } => {
            push_name(path, out);
            names_in_patterns(fields, out);
            assert(texts_of(out@) =~= before + pattern_names(*p));
        },
        PatternKind::Struct { path, fields } => {
            push_name(path, out);
            names_in_field_patterns(fields, out);
            assert(texts_of(out@) =~= before + pattern_names(*p));
        },
        _ => {
            assert(texts_of(out@) =~= before + pattern_names(*p));
        },
    }
}

fn names_in_patterns(ps: &Vec<Pattern>, out: &mut Vec<String>)
    ensures
        texts_of(final(out)@) == texts_of(old(out)@) + patterns_names(ps@),
    decreases ps,
{
    let ghost before = texts_of(out@);
    let mut k: usize = 0;
    assert(ps@.subrange(0, 0) =~= Seq::<Pattern>::empty());
    while k < ps.len()
        invariant
            k <= ps@.len(),
            texts_of(out@) == before + patterns_names(ps@.subrange(0, k as int)),
        decreases ps@.len() - k,
    {
        names_in_pattern(&ps[k], out);
        assert(ps@.subrange(0, k + 1).drop_last() =~= ps@.subrange(0, k as int));
        assert(texts_of(out@) =~= before + patterns_names(ps@.subrange(0, k + 1)));
        k += 1;
    }
    assert(ps@.subrange(0, k as int) =~= ps@);
}

fn names_in_field_patterns(fs: &Vec<PatternField>, out: &mut Vec<String>)
    ensures
        texts_of(final(out)@) == texts_of(old(out)@) + field_patterns_names(fs@),
    decreases fs,
{
    let ghost before = texts_of(out@);
    let mut k: usize = 0;
    assert(fs@.subrange(0, 0) =~= Seq::<PatternField>::empty());
    while k < fs.len()
        invariant
            k <= fs@.len(),
            texts_of(out@) == before + field_patterns_names(fs@.subrange(0, k as int)),
        decreases fs@.len() - k,
    {
        names_in_pattern(&fs[k].pattern, out);
        assert(fs@.subrange(0, k + 1).drop_last() =~= fs@.subrange(0, k as int));
        assert(texts_of(out@) =~= before + field_patterns_names(fs@.subrange(0, k + 1)));
        k += 1;
    }
    assert(fs@.subrange(0, k as int) =~= fs@);
}

fn names_in_params(ps: &Vec<Param>, out: &mut Vec<String>)
    ensures
        texts_of(final(out)@) == texts_of(old(out)@) + params_names(ps@),
{
    let ghost before = texts_of(out@);
    let mut k: usize = 0;
    assert(ps@.subrange(0, 0) =~= Seq::<Param>::empty());
    while k < ps.len()
        invariant
            k <= ps@.len(),
            texts_of(out@) == before + params_names(ps@.subrange(0, k as int)),
        decreases ps@.len() - k,
    {
        names_in_type(&ps[k].ty, out);
        assert(ps@.subrange(0, k + 1).drop_last() =~= ps@.subrange(0, k as int));
        assert(texts_of(out@) =~= before + params_names(ps@.subrange(0, k + 1)));
        k += 1;
    }
    assert(ps@.subrange(0, k as int) =~= ps@);
}

fn names_in_expr(e: &Expr, out: &mut Vec<String>)
    ensures
        texts_of(final(out)@) == texts_of(old(out)@) + expr_names(*e),
    decreases e,
{
    let ghost before = texts_of(out@);
    match &e.kind {
        ExprKind::Let { ty, value, .. } => {
            match ty {
                Some(t) => names_in_type(t, out),
                None => {},
            }
            names_in_expr(value, out);
        },
        ExprKind::Assign { value, .. } => names_in_expr(value, out),
        ExprKind::Do(items) => names_in_exprs(items, out),
        ExprKind::Unsafe(items) => names_in_exprs(items, out),
        ExprKind::If { condition, then_expr, else_expr } => {
            names_in_expr(condition, out);
            names_in_expr(then_expr, out);
            names_in_expr(else_expr, out);
        },
        ExprKind::Loop { body } => names_in_expr(body, out),
        ExprKind::While { condition, body } => {
            names_in_expr(condition, out);
            names_in_expr(body, out);
        },
        ExprKind::Match { value, arms } => {
            names_in_expr(value, out);
            names_in_arms(arms, out);
        },
        ExprKind::Break(Some(value)) => names_in_expr(value, out),
        ExprKind::Borrow { value, .. } => names_in_expr(value, out),
        ExprKind::Try(value) => names_in_expr(value, out),
        ExprKind::Convert { value, .. } => names_in_expr(value, out),
        ExprKind::Call { callee, args } => {
            push_if_qualified(callee, out);
            names_in_exprs(args, out);
        },
        ExprKind::Logical { operands, .. } => names_in_exprs(operands, out),
        ExprKind::Compose { operands } => names_in_exprs(operands, out),
        ExprKind::Lambda { params, result, body, .. } => {
            names_in_params(params, out);
            names_in_type(result, out);
            names_in_expr(body, out);
        },
        _ => {},
    }
    assert(texts_of(out@) =~= before + expr_names(*e));
}

fn names_in_exprs(es: &Vec<Expr>, out: &mut Vec<String>)
    ensures
        texts_of(final(out)@) == texts_of(old(out)@) + exprs_names(es@),
    decreases es,
{
    let ghost before = texts_of(out@);
    let mut k: usize = 0;
    assert(es@.subrange(0, 0) =~= Seq::<Expr>::empty());
    while k < es.len()
        invariant
            k <= es@.len(),
            texts_of(out@) == before + exprs_names(es@.subrange(0, k as int)),
        decreases es@.len() - k,
    {
        names_in_expr(&es[k], out);
        assert(es@.subrange(0, k + 1).drop_last() =~= es@.subrange(0, k as int));
        assert(texts_of(out@) =~= before + exprs_names(es@.subrange(0, k + 1)));
        k += 1;
    }
    assert(es@.subrange(0, k as int) =~= es@);
}

fn names_in_arm(a: &MatchArm, out: &mut Vec<String>)
    ensures
        texts_of(final(out)@) == texts_of(old(out)@) + arm_names(*a),
    decreases a,
{
    let ghost before = texts_of(out@);
    names_in_pattern(&a.pattern, out);
    match &a.guard {
        Some(g) => names_in_expr(g, out),
        None => {},
    }
    names_in_expr(&a.body, out);
    assert(texts_of(out@) =~= before + arm_names(*a));
}

fn names_in_arms(arms: &Vec<MatchArm>, out: &mut Vec<String>)
    ensures
        texts_of(final(out)@) == texts_of(old(out)@) + arms_names(arms@),
    decreases arms,
{
    let ghost before = texts_of(out@);
    let mut k: usize = 0;
    assert(arms@.subrange(0, 0) =~= Seq::<MatchArm>::empty());
    while k < arms.len()
        invariant
            k <= arms@.len(),
            texts_of(out@) == before + arms_names(arms@.subrange(0, k as int)),
        decreases arms@.len() - k,
    {
        names_in_arm(&arms[k], out);
        assert(arms@.subrange(0, k + 1).drop_last() =~= arms@.subrange(0, k as int));
        assert(texts_of(out@) =~= before + arms_names(arms@.subrange(0, k + 1)));
        k += 1;
    }
    assert(arms@.subrange(0, k as int) =~= arms@);
}

/// The qualified names one `Function` mentions.
pub open spec fn function_names(x: Function) -> Seq<Seq<char>> {
    params_names(x.params@) + type_names(x.return_type) + expr_names(x.body)
}

/// The qualified names of each of `xs`, in order.
pub open spec fn functions_names(xs: Seq<Function>) -> Seq<Seq<char>>
    decreases xs.len(),
{
    if xs.len() == 0 {
        Seq::empty()
    } else {
        functions_names(xs.drop_last()) + function_names(xs.last())
    }
}

/// The qualified names one `Field` mentions.
pub open spec fn field_names(x: Field) -> Seq<Seq<char>> {
    type_names(x.ty)
}

/// The qualified names of each of `xs`, in order.
pub open spec fn fields_names(xs: Seq<Field>) -> Seq<Seq<char>>
    decreases xs.len(),
{
    if xs.len() == 0 {
        Seq::empty()
    } else {
        fields_names(xs.drop_last()) + field_names(xs.last())
    }
}

/// The qualified names one `StructDecl` mentions.
pub open spec fn struct_names(x: StructDecl) -> Seq<Seq<char>> {
    fields_names(x.fields@)
}

/// The qualified names of each of `xs`, in order.
pub open spec fn structs_names(xs: Seq<StructDecl>) -> Seq<Seq<char>>
    decreases xs.len(),
{
    if xs.len() == 0 {
        Seq::empty()
    } else {
        structs_names(xs.drop_last()) + struct_names(xs.last())
    }
}

/// The qualified names one `Variant` mentions.
pub open spec fn variant_names(x: Variant) -> Seq<Seq<char>> {
    fields_names(x.fields@)
}

/// The qualified names of each of `xs`, in order.
pub open spec fn variants_names(xs: Seq<Variant>) -> Seq<Seq<char>>
    decreases xs.len(),
{
    if xs.len() == 0 {
        Seq::empty()
    } else {
        variants_names(xs.drop_last()) + variant_names(xs.last())
    }
}

/// The qualified names one `EnumDecl` mentions.
pub open spec fn enum_names(x: EnumDecl) -> Seq<Seq<char>> {
    variants_names(x.variants@)
}

/// The qualified names of each of `xs`, in order.
pub open spec fn enums_names(xs: Seq<EnumDecl>) -> Seq<Seq<char>>
    decreases xs.len(),
{
    if xs.len() == 0 {
        Seq::empty()
    } else {
        enums_names(xs.drop_last()) + enum_names(xs.last())
    }
}

/// The qualified names one `Extern` mentions.
pub open spec fn extern_names(x: Extern) -> Seq<Seq<char>> {
    params_names(x.params@) + type_names(x.return_type)
}

/// The qualified names of each of `xs`, in order.
pub open spec fn externs_names(xs: Seq<Extern>) -> Seq<Seq<char>>
    decreases xs.len(),
{
    if xs.len() == 0 {
        Seq::empty()
    } else {
        externs_names(xs.drop_last()) + extern_names(xs.last())
    }
}

/// The qualified names one `Test` mentions.
pub open spec fn test_names(x: Test) -> Seq<Seq<char>> {
    expr_names(x.body)
}

/// The qualified names of each of `xs`, in order.
pub open spec fn tests_names(xs: Seq<Test>) -> Seq<Seq<char>>
    decreases xs.len(),
{
    if xs.len() == 0 {
        Seq::empty()
    } else {
        tests_names(xs.drop_last()) + test_names(xs.last())
    }
}

/// The qualified names one `ConstDecl` mentions.
pub open spec fn const_names(x: ConstDecl) -> Seq<Seq<char>> {
    match x.ty { Some(t) => type_names(t), None => Seq::empty() }
}

/// The qualified names of each of `xs`, in order.
pub open spec fn consts_names(xs: Seq<ConstDecl>) -> Seq<Seq<char>>
    decreases xs.len(),
{
    if xs.len() == 0 {
        Seq::empty()
    } else {
        consts_names(xs.drop_last()) + const_names(xs.last())
    }
}

/// The qualified names a program mentions: its functions', then its structs',
/// enums', externs', tests' and constants', each in the order written.
pub open spec fn program_names(p: Program) -> Seq<Seq<char>> {
    functions_names(p.functions@) + structs_names(p.structs@) + enums_names(p.enums@) + externs_names(
        p.externs@,
    ) + tests_names(p.tests@) + consts_names(p.consts@)
}

fn names_in_functions(xs: &Vec<Function>, out: &mut Vec<String>)
    ensures
        texts_of(final(out)@) == texts_of(old(out)@) + functions_names(xs@),
{
    let ghost before = texts_of(out@);
    let mut k: usize = 0;
    assert(xs@.subrange(0, 0) =~= Seq::<Function>::empty());
    while k < xs.len()
        invariant
            k <= xs@.len(),
            texts_of(out@) == before + functions_names(xs@.subrange(0, k as int)),
        decreases xs@.len() - k,
    {
        let ghost mid = texts_of(out@);
        let x = &xs[k];
        names_in_params(&x.params, out);
        names_in_type(&x.return_type, out);
        names_in_expr(&x.body, out);
        assert(texts_of(out@) =~= mid + function_names(*x));
        assert(xs@.subrange(0, k + 1).drop_last() =~= xs@.subrange(0, k as int));
        assert(texts_of(out@) =~= before + functions_names(xs@.subrange(0, k + 1)));
        k += 1;
    }
    assert(xs@.subrange(0, k as int) =~= xs@);
}

fn names_in_fields(xs: &Vec<Field>, out: &mut Vec<String>)
    ensures
        texts_of(final(out)@) == texts_of(old(out)@) + fields_names(xs@),
{
    let ghost before = texts_of(out@);
    let mut k: usize = 0;
    assert(xs@.subrange(0, 0) =~= Seq::<Field>::empty());
    while k < xs.len()
        invariant
            k <= xs@.len(),
            texts_of(out@) == before + fields_names(xs@.subrange(0, k as int)),
        decreases xs@.len() - k,
    {
        let ghost mid = texts_of(out@);
        let x = &xs[k];
        names_in_type(&x.ty, out);
        assert(texts_of(out@) =~= mid + field_names(*x));
        assert(xs@.subrange(0, k + 1).drop_last() =~= xs@.subrange(0, k as int));
        assert(texts_of(out@) =~= before + fields_names(xs@.subrange(0, k + 1)));
        k += 1;
    }
    assert(xs@.subrange(0, k as int) =~= xs@);
}

fn names_in_structs(xs: &Vec<StructDecl>, out: &mut Vec<String>)
    ensures
        texts_of(final(out)@) == texts_of(old(out)@) + structs_names(xs@),
{
    let ghost before = texts_of(out@);
    let mut k: usize = 0;
    assert(xs@.subrange(0, 0) =~= Seq::<StructDecl>::empty());
    while k < xs.len()
        invariant
            k <= xs@.len(),
            texts_of(out@) == before + structs_names(xs@.subrange(0, k as int)),
        decreases xs@.len() - k,
    {
        let ghost mid = texts_of(out@);
        let x = &xs[k];
        names_in_fields(&x.fields, out);
        assert(texts_of(out@) =~= mid + struct_names(*x));
        assert(xs@.subrange(0, k + 1).drop_last() =~= xs@.subrange(0, k as int));
        assert(texts_of(out@) =~= before + structs_names(xs@.subrange(0, k + 1)));
        k += 1;
    }
    assert(xs@.subrange(0, k as int) =~= xs@);
}

fn names_in_variants(xs: &Vec<Variant>, out: &mut Vec<String>)
    ensures
        texts_of(final(out)@) == texts_of(old(out)@) + variants_names(xs@),
{
    let ghost before = texts_of(out@);
    let mut k: usize = 0;
    assert(xs@.subrange(0, 0) =~= Seq::<Variant>::empty());
    while k < xs.len()
        invariant
            k <= xs@.len(),
            texts_of(out@) == before + variants_names(xs@.subrange(0, k as int)),
        decreases xs@.len() - k,
    {
        let ghost mid = texts_of(out@);
        let x = &xs[k];
        names_in_fields(&x.fields, out);
        assert(texts_of(out@) =~= mid + variant_names(*x));
        assert(xs@.subrange(0, k + 1).drop_last() =~= xs@.subrange(0, k as int));
        assert(texts_of(out@) =~= before + variants_names(xs@.subrange(0, k + 1)));
        k += 1;
    }
    assert(xs@.subrange(0, k as int) =~= xs@);
}

fn names_in_enums(xs: &Vec<EnumDecl>, out: &mut Vec<String>)
    ensures
        texts_of(final(out)@) == texts_of(old(out)@) + enums_names(xs@),
{
    let ghost before = texts_of(out@);
    let mut k: usize = 0;
    assert(xs@.subrange(0, 0) =~= Seq::<EnumDecl>::empty());
    while k < xs.len()
        invariant
            k <= xs@.len(),
            texts_of(out@) == before + enums_names(xs@.subrange(0, k as int)),
        decreases xs@.len() - k,
    {
        let ghost mid = texts_of(out@);
        let x = &xs[k];
        names_in_variants(&x.variants, out);
        assert(texts_of(out@) =~= mid + enum_names(*x));
        assert(xs@.subrange(0, k + 1).drop_last() =~= xs@.subrange(0, k as int));
        assert(texts_of(out@) =~= before + enums_names(xs@.subrange(0, k + 1)));
        k += 1;
    }
    assert(xs@.subrange(0, k as int) =~= xs@);
}

fn names_in_externs(xs: &Vec<Extern>, out: &mut Vec<String>)
    ensures
        texts_of(final(out)@) == texts_of(old(out)@) + externs_names(xs@),
{
    let ghost before = texts_of(out@);
    let mut k: usize = 0;
    assert(xs@.subrange(0, 0) =~= Seq::<Extern>::empty());
    while k < xs.len()
        invariant
            k <= xs@.len(),
            texts_of(out@) == before + externs_names(xs@.subrange(0, k as int)),
        decreases xs@.len() - k,
    {
        let ghost mid = texts_of(out@);
        let x = &xs[k];
        names_in_params(&x.params, out);
        names_in_type(&x.return_type, out);
        assert(texts_of(out@) =~= mid + extern_names(*x));
        assert(xs@.subrange(0, k + 1).drop_last() =~= xs@.subrange(0, k as int));
        assert(texts_of(out@) =~= before + externs_names(xs@.subrange(0, k + 1)));
        k += 1;
    }
    assert(xs@.subrange(0, k as int) =~= xs@);
}

fn names_in_tests(xs: &Vec<Test>, out: &mut Vec<String>)
    ensures
        texts_of(final(out)@) == texts_of(old(out)@) + tests_names(xs@),
{
    let ghost before = texts_of(out@);
    let mut k: usize = 0;
    assert(xs@.subrange(0, 0) =~= Seq::<Test>::empty());
    while k < xs.len()
        invariant
            k <= xs@.len(),
            texts_of(out@) == before + tests_names(xs@.subrange(0, k as int)),
        decreases xs@.len() - k,
    {
        let ghost mid = texts_of(out@);
        let x = &xs[k];
        names_in_expr(&x.body, out);
        assert(texts_of(out@) =~= mid + test_names(*x));
        assert(xs@.subrange(0, k + 1).drop_last() =~= xs@.subrange(0, k as int));
        assert(texts_of(out@) =~= before + tests_names(xs@.subrange(0, k + 1)));
        k += 1;
    }
    assert(xs@.subrange(0, k as int) =~= xs@);
}

fn names_in_consts(xs: &Vec<ConstDecl>, out: &mut Vec<String>)
    ensures
        texts_of(final(out)@) == texts_of(old(out)@) + consts_names(xs@),
{
    let ghost before = texts_of(out@);
    let mut k: usize = 0;
    assert(xs@.subrange(0, 0) =~= Seq::<ConstDecl>::empty());
    while k < xs.len()
        invariant
            k <= xs@.len(),
            texts_of(out@) == before + consts_names(xs@.subrange(0, k as int)),
        decreases xs@.len() - k,
    {
        let ghost mid = texts_of(out@);
        let x = &xs[k];
        match &x.ty {
            Some(t) => names_in_type(t, out),
            None => {},
        }
        assert(texts_of(out@) =~= mid + const_names(*x));
        assert(xs@.subrange(0, k + 1).drop_last() =~= xs@.subrange(0, k as int));
        assert(texts_of(out@) =~= before + consts_names(xs@.subrange(0, k + 1)));
        k += 1;
    }
    assert(xs@.subrange(0, k as int) =~= xs@);
}

/// Appends to `output` every module-qualified name `program` mentions, in
/// order: written types, callees and patterns' paths that hold a `:`.
pub fn collect_qualified_names(program: &Program, output: &mut Vec<String>)
    ensures
        texts_of(final(output)@) == texts_of(old(output)@) + program_names(*program),
{
    let ghost before = texts_of(output@);
    names_in_functions(&program.functions, output);
    names_in_structs(&program.structs, output);
    names_in_enums(&program.enums, output);
    names_in_externs(&program.externs, output);
    names_in_tests(&program.tests, output);
    names_in_consts(&program.consts, output);
    assert(texts_of(output@) =~= before + program_names(*program));
}

} // verus!
