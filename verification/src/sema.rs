//! What checking a program produces, and the rules it checks by: the typed
//! declarations and patterns it hands on, the operators the language has
//! and what each of them accepts, and which types may cross the C boundary.
//!
//! One table rather than scattered `match`es: an operator's arity, the types
//! it is defined on, whether it answers a `bool` and whether its second operand
//! is a shift amount are facts about the operator, kept in one place.
use crate::ast::{integer_type, push_type, same_type, same_types, type_spelling, Type, TypeList};
use crate::diagnostic::Span;
use crate::names::{distinct_names, find_name, lemma_table, lemma_table_push, lemma_table_update, table};
use crate::text::{push_str, same_text};
use vstd::prelude::*;

verus! {

/// How many operands an operator takes.
#[derive(Clone, Copy, Debug, PartialEq, Eq, Structural)]
pub enum Arity {
    One,
    Two,
    /// `-` alone: `(- a b)` subtracts and `(- a)` negates.
    OneOrTwo,
}

impl Arity {
    /// Whether an operator of this arity can be applied to `count` operands.
    pub fn accepts(self, count: usize) -> (r: bool)
        ensures
            r == match self {
                Arity::One => count == 1,
                Arity::Two => count == 2,
                Arity::OneOrTwo => count == 1 || count == 2,
            },
    {
        match self {
            Arity::One => count == 1,
            Arity::Two => count == 2,
            Arity::OneOrTwo => count == 1 || count == 2,
        }
    }

    /// How a diagnostic names this arity.
    pub fn describe(self) -> (s: &'static str)
        ensures
            s@ == match self {
                Arity::One => "one argument"@,
                Arity::Two => "two arguments"@,
                Arity::OneOrTwo => "one or two arguments"@,
            },
    {
        match self {
            Arity::One => "one argument",
            Arity::Two => "two arguments",
            Arity::OneOrTwo => "one or two arguments",
        }
    }
}

/// Which types an operator is defined on.
#[derive(Clone, Copy, Debug, PartialEq, Eq, Structural)]
pub enum Domain {
    /// Every number: the integers and `f64`.
    Numeric,
    /// The integers alone. A remainder, a bit and a shift are statements about
    /// a pattern of bits, and an `f64` has none to speak of.
    Integer,
    Bool,
    /// What `=` accepts and nothing wider: every other type is one machine word
    /// in a local, so a wider comparison would answer about the handle while
    /// looking like it answered about the contents.
    Scalar,
}

/// Whether `ty` is in `domain`.
pub open spec fn in_domain(domain: Domain, ty: Type) -> bool {
    match domain {
        Domain::Numeric => integer_type(ty) || ty is F64,
        Domain::Integer => integer_type(ty),
        Domain::Bool => ty is Bool,
        Domain::Scalar => integer_type(ty) || ty is F64 || ty is Bool,
    }
}

impl Domain {
    /// Whether an operator of this domain is defined on `ty`.
    pub fn accepts(self, ty: &Type) -> (r: bool)
        ensures
            r == in_domain(self, *ty),
    {
        match self {
            Domain::Numeric => ty.is_integer() || ty.is_f64(),
            Domain::Integer => ty.is_integer(),
            Domain::Bool => match ty {
                Type::Bool => true,
                _ => false,
            },
            Domain::Scalar => ty.is_integer() || ty.is_f64() || match ty {
                Type::Bool => true,
                _ => false,
            },
        }
    }
}

/// What one operator accepts and answers.
#[derive(Clone, Copy, Debug, PartialEq, Eq, Structural)]
pub struct OperatorSpec {
    pub arity: Arity,
    pub domain: Domain,
    /// Whether the result is a `bool` rather than the operand type.
    pub answers_bool: bool,
    /// Whether the second operand is a shift amount, and so is checked against
    /// the operand width when it is written down.
    pub shift: bool,
}

/// An operator of `arity` and `domain` that answers its operand type.
pub open spec fn arithmetic(arity: Arity, domain: Domain) -> OperatorSpec {
    OperatorSpec { arity, domain, answers_bool: false, shift: false }
}

/// A two-operand operator of `domain` that answers a `bool`.
pub open spec fn comparison(domain: Domain) -> OperatorSpec {
    OperatorSpec { arity: Arity::Two, domain, answers_bool: true, shift: false }
}

/// A shift of an integer by an integer amount.
pub open spec fn shift() -> OperatorSpec {
    OperatorSpec { arity: Arity::Two, domain: Domain::Integer, answers_bool: false, shift: true }
}

/// Every operator the language has, by name, and what each accepts.
pub open spec fn operator_named(name: Seq<char>) -> Option<OperatorSpec> {
    if name == "+"@ || name == "*"@ || name == "/"@ {
        Some(arithmetic(Arity::Two, Domain::Numeric))
    } else if name == "-"@ {
        Some(arithmetic(Arity::OneOrTwo, Domain::Numeric))
    } else if name == "%"@ || name == "bit-and"@ || name == "bit-or"@ || name == "bit-xor"@ {
        Some(arithmetic(Arity::Two, Domain::Integer))
    } else if name == "<"@ || name == ">"@ || name == "<="@ || name == ">="@ {
        Some(comparison(Domain::Numeric))
    } else if name == "="@ || name == "!="@ {
        Some(comparison(Domain::Scalar))
    } else if name == "not"@ {
        Some(OperatorSpec { arity: Arity::One, domain: Domain::Bool, answers_bool: true, shift: false })
    } else if name == "bit-not"@ {
        Some(arithmetic(Arity::One, Domain::Integer))
    } else if name == "shl"@ || name == "shr"@ {
        Some(shift())
    } else {
        None
    }
}

/// What the operator `name` accepts, or `None` when no operator has that name.
pub fn operator(name: &str) -> (r: Option<OperatorSpec>)
    ensures
        r == operator_named(name@),
{
    if same_text(name, "+") || same_text(name, "*") || same_text(name, "/") {
        Some(OperatorSpec { arity: Arity::Two, domain: Domain::Numeric, answers_bool: false, shift: false })
    } else if same_text(name, "-") {
        Some(OperatorSpec { arity: Arity::OneOrTwo, domain: Domain::Numeric, answers_bool: false, shift: false })
    } else if same_text(name, "%") || same_text(name, "bit-and") || same_text(name, "bit-or")
        || same_text(name, "bit-xor") {
        Some(OperatorSpec { arity: Arity::Two, domain: Domain::Integer, answers_bool: false, shift: false })
    } else if same_text(name, "<") || same_text(name, ">") || same_text(name, "<=") || same_text(
        name,
        ">=",
    ) {
        Some(OperatorSpec { arity: Arity::Two, domain: Domain::Numeric, answers_bool: true, shift: false })
    } else if same_text(name, "=") || same_text(name, "!=") {
        Some(OperatorSpec { arity: Arity::Two, domain: Domain::Scalar, answers_bool: true, shift: false })
    } else if same_text(name, "not") {
        Some(OperatorSpec { arity: Arity::One, domain: Domain::Bool, answers_bool: true, shift: false })
    } else if same_text(name, "bit-not") {
        Some(OperatorSpec { arity: Arity::One, domain: Domain::Integer, answers_bool: false, shift: false })
    } else if same_text(name, "shl") || same_text(name, "shr") {
        Some(OperatorSpec { arity: Arity::Two, domain: Domain::Integer, answers_bool: false, shift: true })
    } else {
        None
    }
}

/// Whether `name` is one of the language's operators.
pub fn is_operator(name: &str) -> (r: bool)
    ensures
        r == operator_named(name@) is Some,
{
    operator(name).is_some()
}


// ------------------------------------------------------ typed declarations

/// Which binding of a checked function a name refers to.
pub type BindingId = u32;

/// A checked `extern`: the name calls use, and the C symbol they reach.
#[derive(Clone, Debug)]
pub struct TypedExtern {
    pub name: String,
    pub symbol: String,
    pub params: Vec<Type>,
    pub result: Type,
}

/// A checked struct.
#[derive(Clone, Debug)]
pub struct TypedStruct {
    pub name: String,
    pub type_params: Vec<String>,
    pub fields: Vec<(String, Type)>,
}

/// A checked enum.
#[derive(Clone, Debug)]
pub struct TypedEnum {
    pub name: String,
    pub type_params: Vec<String>,
    pub variants: Vec<TypedVariant>,
}

/// One variant of a checked enum, with the tag that tells it apart.
#[derive(Clone, Debug)]
pub struct TypedVariant {
    pub name: String,
    pub tag: usize,
    pub fields: Vec<(String, Type)>,
}

/// A value a `lambda` takes from the function around it.
#[derive(Clone, Debug)]
pub struct TCapture {
    /// The binding the value was taken from, in the enclosing function.
    pub from: BindingId,
    /// The binding it is inside the body, which is a different one holding
    /// the same value under the same name.
    pub id: BindingId,
    pub name: String,
    pub ty: Type,
}

/// A parameter of a checked function.
#[derive(Clone, Debug)]
pub struct TypedParam {
    pub id: BindingId,
    pub name: String,
    pub ty: Type,
    pub span: Span,
}

/// A checked pattern.
#[derive(Debug)]
pub enum TPattern {
    Wildcard,
    Binding(TPatternBinding),
    Bool(bool),
    Int(i64),
    Enum { enum_name: String, variant: String, tag: usize, fields: Vec<TPatternField> },
    Struct { struct_name: String, fields: Vec<TPatternField> },
}

/// One field of a struct or enum pattern, with the field's type.
#[derive(Debug)]
pub struct TPatternField {
    pub ty: Type,
    pub pattern: TPattern,
}

/// A name a pattern binds.
#[derive(Clone, Debug)]
pub struct TPatternBinding {
    pub id: BindingId,
    pub name: String,
    pub ty: Type,
}

/// Every value of the pattern's type matches `p`: it binds or ignores the
/// whole value, or it is a struct pattern whose every field pattern is so.
pub open spec fn irrefutable(p: TPattern) -> bool
    decreases p,
{
    match p {
        TPattern::Wildcard => true,
        TPattern::Binding(_) => true,
        TPattern::Struct { fields, .. } => forall|i: int|
            0 <= i < fields@.len() ==> irrefutable(#[trigger] fields@[i].pattern),
        _ => false,
    }
}

/// Whether every value of the pattern's type matches `pattern`.
pub fn pattern_irrefutable(pattern: &TPattern) -> (r: bool)
    ensures
        r == irrefutable(*pattern),
    decreases pattern,
{
    match pattern {
        TPattern::Wildcard => true,
        TPattern::Binding(_) => true,
        TPattern::Struct { fields, .. } => {
            let mut i: usize = 0;
            while i < fields.len()
                invariant
                    i <= fields@.len(),
                    *pattern matches TPattern::Struct { fields: f, .. } && f == *fields,
                    forall|j: int| 0 <= j < i ==> irrefutable(#[trigger] fields@[j].pattern),
                decreases fields@.len() - i,
            {
                proof {
                    assert(decreases_to!(*pattern => fields@[i as int].pattern));
                }
                if !pattern_irrefutable(&fields[i].pattern) {
                    return false;
                }
                i += 1;
            }
            true
        },
        _ => false,
    }
}

// ---------------------------------------------------------- match coverage

/// Two checked patterns are the same pattern: the same shape, the same
/// names, bindings and types, field by field.
pub open spec fn same_pattern(a: TPattern, b: TPattern) -> bool
    decreases a,
{
    match (a, b) {
        (TPattern::Wildcard, TPattern::Wildcard) => true,
        (TPattern::Binding(x), TPattern::Binding(y)) => x.id == y.id && x.name@ == y.name@ && same_type(x.ty, y.ty),
        (TPattern::Bool(x), TPattern::Bool(y)) => x == y,
        (TPattern::Int(x), TPattern::Int(y)) => x == y,
        (
            TPattern::Enum { enum_name: e1, variant: v1, tag: t1, fields: f1 },
            TPattern::Enum { enum_name: e2, variant: v2, tag: t2, fields: f2 },
        ) => e1@ == e2@ && v1@ == v2@ && t1 == t2 && f1@.len() == f2@.len() && forall|i: int|
            0 <= i < f1@.len() ==> same_type(f1@[i].ty, f2@[i].ty) && same_pattern(#[trigger] f1@[i].pattern, f2@[i].pattern),
        (TPattern::Struct { struct_name: s1, fields: f1 }, TPattern::Struct { struct_name: s2, fields: f2 }) => s1@
            == s2@ && f1@.len() == f2@.len() && forall|i: int|
            0 <= i < f1@.len() ==> same_type(f1@[i].ty, f2@[i].ty) && same_pattern(#[trigger] f1@[i].pattern, f2@[i].pattern),
        _ => false,
    }
}

fn same_fields(f1: &Vec<TPatternField>, f2: &Vec<TPatternField>, whole: &TPattern) -> (r: bool)
    requires
        forall|i: int| 0 <= i < f1@.len() ==> decreases_to!(*whole => #[trigger] f1@[i].pattern),
    ensures
        r == (f1@.len() == f2@.len() && forall|i: int|
            0 <= i < f1@.len() ==> same_type(f1@[i].ty, f2@[i].ty) && same_pattern(#[trigger] f1@[i].pattern, f2@[i].pattern)),
    decreases whole, 0int,
{
    if f1.len() != f2.len() {
        return false;
    }
    let mut i: usize = 0;
    while i < f1.len()
        invariant
            i <= f1@.len(),
            f1@.len() == f2@.len(),
            forall|j: int| 0 <= j < f1@.len() ==> decreases_to!(*whole => #[trigger] f1@[j].pattern),
            forall|j: int|
                0 <= j < i ==> same_type(f1@[j].ty, f2@[j].ty) && same_pattern(#[trigger] f1@[j].pattern, f2@[j].pattern),
        decreases f1@.len() - i,
    {
        proof {
            assert(decreases_to!(*whole => f1@[i as int].pattern));
        }
        if !f1[i].ty.same(&f2[i].ty) || !patterns_same(&f1[i].pattern, &f2[i].pattern) {
            return false;
        }
        i += 1;
    }
    true
}

/// Whether `a` and `b` are the same pattern.
pub fn patterns_same(a: &TPattern, b: &TPattern) -> (r: bool)
    ensures
        r == same_pattern(*a, *b),
    decreases a, 1int,
{
    match (a, b) {
        (TPattern::Wildcard, TPattern::Wildcard) => true,
        (TPattern::Binding(x), TPattern::Binding(y)) => x.id == y.id && same_text(x.name.as_str(), y.name.as_str())
            && x.ty.same(&y.ty),
        (TPattern::Bool(x), TPattern::Bool(y)) => *x == *y,
        (TPattern::Int(x), TPattern::Int(y)) => *x == *y,
        (
            TPattern::Enum { enum_name: e1, variant: v1, tag: t1, fields: f1 },
            TPattern::Enum { enum_name: e2, variant: v2, tag: t2, fields: f2 },
        ) => {
            if !same_text(e1.as_str(), e2.as_str()) || !same_text(v1.as_str(), v2.as_str()) || *t1 != *t2 {
                return false;
            }
            proof {
                assert forall|i: int| 0 <= i < f1@.len() implies decreases_to!(*a => #[trigger] f1@[i].pattern) by {
                    assert(decreases_to!(*a => f1@[i].pattern));
                }
            }
            same_fields(f1, f2, a)
        },
        (TPattern::Struct { struct_name: s1, fields: f1 }, TPattern::Struct { struct_name: s2, fields: f2 }) => {
            if !same_text(s1.as_str(), s2.as_str()) {
                return false;
            }
            proof {
                assert forall|i: int| 0 <= i < f1@.len() implies decreases_to!(*a => #[trigger] f1@[i].pattern) by {
                    assert(decreases_to!(*a => f1@[i].pattern));
                }
            }
            same_fields(f1, f2, a)
        },
        _ => false,
    }
}

/// Some arm without a guard catches every value.
pub open spec fn catches_all(ps: Seq<TPattern>, guarded: Seq<bool>) -> bool {
    exists|i: int| 0 <= i < ps.len() && !guarded[i] && irrefutable(#[trigger] ps[i])
}

/// Some arm without a guard matches exactly the boolean `b`.
pub open spec fn bool_covered(ps: Seq<TPattern>, guarded: Seq<bool>, b: bool) -> bool {
    exists|i: int| 0 <= i < ps.len() && !guarded[i] && #[trigger] ps[i] == TPattern::Bool(b)
}

/// The key a variant is recorded under: the enum's name, a colon, the
/// variant's.
pub open spec fn variant_key(enum_name: Seq<char>, variant: Seq<char>) -> Seq<char> {
    enum_name + seq![':'] + variant
}

/// Some arm without a guard matches every value of the variant recorded
/// under `key`: a variant pattern whose every field pattern catches all.
pub open spec fn variant_covered(ps: Seq<TPattern>, guarded: Seq<bool>, key: Seq<char>) -> bool {
    exists|i: int|
        0 <= i < ps.len() && !guarded[i] && (#[trigger] ps[i] matches TPattern::Enum { enum_name, variant, fields, .. }
            && variant_key(enum_name@, variant@) == key && forall|f: int|
            0 <= f < fields@.len() ==> irrefutable(#[trigger] fields@[f].pattern))
}

/// Whether a `match` whose unguarded arms are `ps` covers every value of the
/// scrutinee: an arm catches all, or the scrutinee is `bool` and both
/// values are matched, or it is the enum `enum_name` and every one of its
/// `variants` is matched in full. A guarded arm proves nothing.
pub open spec fn match_covers(
    ps: Seq<TPattern>,
    guarded: Seq<bool>,
    scrutinee: Type,
    enum_name: Option<Seq<char>>,
    variants: Seq<Seq<char>>,
) -> bool {
    ||| catches_all(ps, guarded)
    ||| (same_type(scrutinee, Type::Bool) && bool_covered(ps, guarded, true) && bool_covered(ps, guarded, false))
    ||| (enum_name matches Some(e) && forall|k: int|
        0 <= k < variants.len() ==> variant_covered(ps, guarded, variant_key(e, #[trigger] variants[k])))
}

/// Arm `k` repeats an earlier arm: neither has a guard, they have the same
/// pattern, and it does not catch all.
pub open spec fn repeats(ps: Seq<TPattern>, guarded: Seq<bool>, k: int) -> bool {
    &&& !guarded[k]
    &&& !irrefutable(ps[k])
    &&& exists|j: int| 0 <= j < k && !guarded[j] && same_pattern(#[trigger] ps[j], ps[k])
}

/// Literal patterns are the same only when they are the same literal: two
/// `bool` patterns when they match the same `bool`, two integer patterns when
/// they match the same integer, and a literal is never the same pattern as
/// one of another kind.
pub proof fn lemma_same_literals(x: bool, y: bool, m: i64, n: i64, other: TPattern)
    ensures
        same_pattern(TPattern::Bool(x), TPattern::Bool(y)) <==> x == y,
        same_pattern(TPattern::Int(m), TPattern::Int(n)) <==> m == n,
        !(other is Bool) ==> !same_pattern(other, TPattern::Bool(x)),
        !(other is Int) ==> !same_pattern(other, TPattern::Int(m)),
{
}

/// An arm whose pattern is a literal repeats an earlier arm exactly when it
/// has no guard and an earlier arm without a guard is that very literal: two
/// arms with different literals never count as repeats.
pub proof fn lemma_literal_repeats(ps: Seq<TPattern>, guarded: Seq<bool>, k: int)
    requires
        0 <= k < ps.len(),
        guarded.len() == ps.len(),
        ps[k] is Bool || ps[k] is Int,
    ensures
        repeats(ps, guarded, k) <==> (!guarded[k] && exists|j: int| 0 <= j < k && !guarded[j] && #[trigger] ps[j] == ps[k]),
{
    if exists|j: int| 0 <= j < k && !guarded[j] && same_pattern(#[trigger] ps[j], ps[k]) {
        let j = choose|j: int| 0 <= j < k && !guarded[j] && same_pattern(#[trigger] ps[j], ps[k]);
        lemma_same_literals(false, false, 0, 0, ps[j]);
        assert(ps[j] == ps[k]);
    }
    if exists|j: int| 0 <= j < k && !guarded[j] && #[trigger] ps[j] == ps[k] {
        let j = choose|j: int| 0 <= j < k && !guarded[j] && #[trigger] ps[j] == ps[k];
        assert(same_pattern(ps[j], ps[k]));
    }
}

fn covers_bool(ps: &Vec<TPattern>, guarded: &Vec<bool>, b: bool) -> (r: bool)
    requires
        guarded@.len() == ps@.len(),
    ensures
        r == bool_covered(ps@, guarded@, b),
{
    let mut i: usize = 0;
    while i < ps.len()
        invariant
            i <= ps@.len(),
            guarded@.len() == ps@.len(),
            forall|j: int| 0 <= j < i ==> !(!guarded@[j] && #[trigger] ps@[j] == TPattern::Bool(b)),
        decreases ps@.len() - i,
    {
        if !guarded[i] {
            match &ps[i] {
                TPattern::Bool(x) => {
                    if *x == b {
                        return true;
                    }
                },
                _ => {},
            }
        }
        i += 1;
    }
    false
}

fn fields_catch_all(fields: &Vec<TPatternField>) -> (r: bool)
    ensures
        r == forall|f: int| 0 <= f < fields@.len() ==> irrefutable(#[trigger] fields@[f].pattern),
{
    let mut i: usize = 0;
    while i < fields.len()
        invariant
            i <= fields@.len(),
            forall|f: int| 0 <= f < i ==> irrefutable(#[trigger] fields@[f].pattern),
        decreases fields@.len() - i,
    {
        if !pattern_irrefutable(&fields[i].pattern) {
            return false;
        }
        i += 1;
    }
    true
}

fn covers_variant(ps: &Vec<TPattern>, guarded: &Vec<bool>, key: &String) -> (r: bool)
    requires
        guarded@.len() == ps@.len(),
    ensures
        r == variant_covered(ps@, guarded@, key@),
{
    let mut i: usize = 0;
    while i < ps.len()
        invariant
            i <= ps@.len(),
            guarded@.len() == ps@.len(),
            forall|j: int|
                0 <= j < i ==> !(!guarded@[j] && (#[trigger] ps@[j] matches TPattern::Enum { enum_name, variant, fields, .. }
                    && variant_key(enum_name@, variant@) == key@ && forall|f: int|
                    0 <= f < fields@.len() ==> irrefutable(#[trigger] fields@[f].pattern))),
        decreases ps@.len() - i,
    {
        if !guarded[i] {
            match &ps[i] {
                TPattern::Enum { enum_name, variant, fields, .. } => {
                    let k = key_of(enum_name, variant);
                    if same_text(k.as_str(), key.as_str()) && fields_catch_all(fields) {
                        return true;
                    }
                },
                _ => {},
            }
        }
        i += 1;
    }
    false
}

fn key_of(enum_name: &String, variant: &String) -> (k: String)
    ensures
        k@ == variant_key(enum_name@, variant@),
{
    let mut k = String::new();
    push_str(&mut k, enum_name.as_str());
    push_str(&mut k, ":");
    push_str(&mut k, variant.as_str());
    proof {
        reveal_strlit(":");
    }
    k
}

/// What a `match` with the arms `patterns` covers, where `guarded[i]` says
/// whether arm `i` has a guard: whether it covers every value of a
/// scrutinee of type `scrutinee` (the enum `enum_name`, with `variants`,
/// where it is one), and which arms repeat an earlier one, in order.
pub fn match_coverage(
    patterns: &Vec<TPattern>,
    guarded: &Vec<bool>,
    scrutinee: &Type,
    enum_name: Option<&String>,
    variants: &Vec<String>,
) -> (r: (bool, Vec<usize>))
    requires
        guarded@.len() == patterns@.len(),
    ensures
        r.0 == match_covers(
            patterns@,
            guarded@,
            *scrutinee,
            match enum_name {
                Some(e) => Some(e@),
                None => None,
            },
            variants@.map_values(|v: String| v@),
        ),
        forall|i: int, j: int| 0 <= i < j < r.1@.len() ==> r.1@[i] < r.1@[j],
        forall|k: int| 0 <= k < patterns@.len() ==> (r.1@.contains(k as usize) <==> repeats(patterns@, guarded@, k)),
{
    let n = patterns.len();
    // An arm that catches all.
    let mut wild = false;
    let mut i: usize = 0;
    while i < n
        invariant
            i <= n == patterns@.len() == guarded@.len(),
            wild <==> exists|j: int| 0 <= j < i && !guarded@[j] && irrefutable(#[trigger] patterns@[j]),
        decreases n - i,
    {
        if !guarded[i] && pattern_irrefutable(&patterns[i]) {
            wild = true;
        }
        i += 1;
    }
    let both = scrutinee.same(&Type::Bool) && covers_bool(patterns, guarded, true) && covers_bool(
        patterns,
        guarded,
        false,
    );
    let ghost names = variants@.map_values(|v: String| v@);
    let every = match enum_name {
        Some(e) => {
            let mut all = true;
            let mut k: usize = 0;
            while k < variants.len()
                invariant
                    k <= variants@.len(),
                    guarded@.len() == patterns@.len(),
                    names == variants@.map_values(|v: String| v@),
                    all <==> forall|x: int| 0 <= x < k ==> variant_covered(patterns@, guarded@, variant_key(e@, #[trigger] names[x])),
                decreases variants@.len() - k,
            {
                let key = key_of(e, &variants[k]);
                assert(names[k as int] == variants@[k as int]@);
                let ghost was = all;
                if !covers_variant(patterns, guarded, &key) {
                    all = false;
                }
                proof {
                    assert(all <==> (was && variant_covered(patterns@, guarded@, variant_key(e@, names[k as int]))));
                    if all {
                        assert forall|x: int| 0 <= x < k + 1 implies variant_covered(patterns@, guarded@, variant_key(e@, #[trigger] names[x])) by {
                            if x < k {
                                assert(was);
                            }
                        }
                    }
                }
                k += 1;
            }
            all
        },
        None => false,
    };
    let exhaustive = wild || both || every;
    // Repeated arms.
    let mut repeated: Vec<usize> = Vec::new();
    let mut k: usize = 0;
    while k < n
        invariant
            k <= n == patterns@.len() == guarded@.len(),
            forall|a: int, b: int| 0 <= a < b < repeated@.len() ==> repeated@[a] < repeated@[b],
            forall|a: int| 0 <= a < repeated@.len() ==> repeated@[a] < k,
            forall|x: int| 0 <= x < k ==> (repeated@.contains(x as usize) <==> repeats(patterns@, guarded@, x)),
        decreases n - k,
    {
        let mut again = false;
        if !guarded[k] && !pattern_irrefutable(&patterns[k]) {
            let mut j: usize = 0;
            while j < k
                invariant
                    j <= k < n == patterns@.len() == guarded@.len(),
                    again <==> exists|y: int| 0 <= y < j && !guarded@[y] && same_pattern(#[trigger] patterns@[y], patterns@[k as int]),
                decreases k - j,
            {
                if !guarded[j] && patterns_same(&patterns[j], &patterns[k]) {
                    again = true;
                }
                j += 1;
            }
        }
        let ghost before = repeated@;
        if again {
            repeated.push(k);
        }
        proof {
            assert forall|x: int| 0 <= x < k + 1 implies (repeated@.contains(x as usize) <==> repeats(patterns@, guarded@, x)) by {
                if x < k {
                    if repeated@.contains(x as usize) {
                        let a = choose|a: int| 0 <= a < repeated@.len() && repeated@[a] == x as usize;
                        if a < before.len() {
                            assert(before[a] == x as usize);
                            assert(before.contains(x as usize));
                        }
                    }
                    if before.contains(x as usize) {
                        let a = choose|a: int| 0 <= a < before.len() && before[a] == x as usize;
                        assert(repeated@[a] == x as usize);
                    }
                } else {
                    if again {
                        assert(repeated@[repeated@.len() - 1] == k);
                    } else {
                        if repeated@.contains(x as usize) {
                            let a = choose|a: int| 0 <= a < repeated@.len() && repeated@[a] == x as usize;
                            assert(before[a] < k);
                        }
                    }
                }
            }
        }
        k += 1;
    }
    (exhaustive, repeated)
}

// ---------------------------------------------------------- the C boundary

/// A type an `extern` parameter may have: an integer type, `f64`, `bool`, a
/// `(Ptr T)`, or a shared borrow of `String` or of a slice.
pub open spec fn extern_parameter_type(t: Type) -> bool {
    match t {
        Type::F64 => true,
        Type::Bool => true,
        Type::Ptr(_) => true,
        Type::Ref { mutable, inner } => !mutable && (*inner is String || *inner is Slice),
        _ => integer_type(t),
    }
}

/// Whether an `extern` parameter may have type `ty`.
///
/// A `(Ptr T)` is C's `T *` and crosses as the scalars do. A borrow is the
/// only way anything else crosses: an `extern` may not take ownership,
/// because the drop glue would then run where the compiler cannot see it.
pub fn extern_parameter_is_expressible(ty: &Type) -> (r: bool)
    ensures
        r == extern_parameter_type(*ty),
{
    match ty {
        Type::F64 | Type::Bool => true,
        Type::Ptr(_) => true,
        Type::Ref { mutable: false, inner } => match &**inner {
            Type::String | Type::Slice(_) => true,
            _ => false,
        },
        _ => ty.is_integer(),
    }
}

/// A type an `extern` may return: an integer type, unit, `bool`, `f64`,
/// `String`, or a `(Ptr T)`.
pub open spec fn extern_result_type(t: Type) -> bool {
    integer_type(t) || t is Unit || t is Bool || t is F64 || t is String || t is Ptr
}

/// Whether an `extern` may return `ty`.
pub fn extern_result_is_expressible(ty: &Type) -> (r: bool)
    ensures
        r == extern_result_type(*ty),
{
    ty.is_integer() || match ty {
        Type::Unit | Type::Bool | Type::F64 | Type::String | Type::Ptr(_) => true,
        _ => false,
    }
}

/// `t` is text, owned or borrowed any number of times.
pub open spec fn text_type(t: Type) -> bool
    decreases t,
{
    match t {
        Type::String => true,
        Type::Ref { inner, .. } => text_type(*inner),
        _ => false,
    }
}

/// Whether `ty` is text, owned or borrowed.
pub fn is_text(ty: &Type) -> (r: bool)
    ensures
        r == text_type(*ty),
    decreases ty,
{
    match ty {
        Type::String => true,
        Type::Ref { inner, .. } => is_text(inner),
        _ => false,
    }
}

/// Whether a `clone` of a value of type `ty` copies nothing: unit, `bool`,
/// `i32`, `i64` and `f64`.
pub fn is_nothing_to_clone(ty: &Type) -> (r: bool)
    ensures
        r == (*ty is Unit || *ty is Bool || *ty is I32 || *ty is I64 || *ty is F64),
{
    match ty {
        Type::Unit | Type::Bool | Type::I32 | Type::I64 | Type::F64 => true,
        _ => false,
    }
}


// ------------------------------------------------------------- ownership

/// Whether a binding's value can be used, and what holds it.
#[derive(Clone, Copy, Debug, PartialEq, Eq, Structural)]
pub enum OwnershipState {
    Available,
    Moved,
    /// Borrowed shared, this many times.
    SharedBorrowed(u32),
    MutBorrowed,
}

/// What one borrow ending makes of a binding's state: one shared borrow
/// fewer, or available again after the last one or an exclusive one.
pub open spec fn released(s: OwnershipState) -> OwnershipState {
    match s {
        OwnershipState::SharedBorrowed(count) => if count > 1 {
            OwnershipState::SharedBorrowed((count - 1) as u32)
        } else {
            OwnershipState::Available
        },
        OwnershipState::MutBorrowed => OwnershipState::Available,
        _ => s,
    }
}

/// A name's binding while a function is checked.
#[derive(Debug)]
pub struct Binding {
    pub id: BindingId,
    pub ty: Type,
    pub mutable: bool,
    pub state: OwnershipState,
    pub definition: Span,
    /// The binding this one borrows from, while it holds a borrow.
    pub borrowed_from: Option<BindingId>,
    /// Whether this binding is the one the borrow's loan is charged to.
    pub owns_loan: bool,
    /// Whether this name is a `lambda`'s capture, which the environment owns
    /// and therefore nothing may move back out.
    pub captured: bool,
    /// Whether this name is a field an exclusive pattern bound, and so a place
    /// `set` can write through.
    pub place: bool,
}

/// `b` with its state replaced.
pub open spec fn with_state(b: Binding, state: OwnershipState) -> Binding {
    Binding {
        id: b.id,
        ty: b.ty,
        mutable: b.mutable,
        state,
        definition: b.definition,
        borrowed_from: b.borrowed_from,
        owns_loan: b.owns_loan,
        captured: b.captured,
        place: b.place,
    }
}

/// `b` with what it borrows and whether it owns the loan replaced.
pub open spec fn with_borrow(b: Binding, borrowed_from: Option<BindingId>, owns_loan: bool) -> Binding {
    Binding {
        id: b.id,
        ty: b.ty,
        mutable: b.mutable,
        state: b.state,
        definition: b.definition,
        borrowed_from,
        owns_loan,
        captured: b.captured,
        place: b.place,
    }
}

/// One block's names: what each stands for, the borrows taken in it, and the
/// bindings a later `let` of the same name displaced, which still live to the
/// end of the block.
#[derive(Debug)]
pub struct Scope {
    pub names: Vec<(String, BindingId)>,
    pub loans: Vec<BindingId>,
    pub shadowed: Vec<BindingId>,
}

/// The names in scope while a function is checked, innermost block last,
/// and every live binding.
#[derive(Debug)]
pub struct Environment {
    pub scopes: Vec<Scope>,
    pub bindings: Vec<Binding>,
}

/// No two bindings of `bs` have one id.
pub open spec fn ids_distinct(bs: Seq<Binding>) -> bool {
    forall|i: int, j: int| 0 <= i < j < bs.len() ==> bs[i].id != bs[j].id
}

/// The bindings of `bs` by id.
pub open spec fn store(bs: Seq<Binding>) -> Map<BindingId, Binding>
    decreases bs.len(),
{
    if bs.len() == 0 {
        Map::empty()
    } else {
        store(bs.drop_last()).insert(bs.last().id, bs.last())
    }
}

/// What a scope's names stand for.
pub open spec fn named(s: Scope) -> Map<Seq<char>, BindingId> {
    table(s.names@, |id: BindingId| id)
}

proof fn lemma_store(bs: Seq<Binding>)
    requires
        ids_distinct(bs),
    ensures
        forall|id: BindingId| #[trigger] store(bs).dom().contains(id) <==> exists|i: int| 0 <= i < bs.len() && bs[i].id == id,
        forall|i: int| 0 <= i < bs.len() ==> #[trigger] store(bs)[bs[i].id] == bs[i],
    decreases bs.len(),
{
    if bs.len() > 0 {
        let s = bs.drop_last();
        let n = bs.len() - 1;
        assert forall|a: int, b: int| 0 <= a < b < s.len() implies s[a].id != s[b].id by {
            assert(s[a] == bs[a] && s[b] == bs[b]);
        }
        lemma_store(s);
        assert(store(bs) == store(s).insert(bs[n].id, bs[n]));
        assert forall|id: BindingId| #[trigger] store(bs).dom().contains(id) <==> exists|i: int| 0 <= i < bs.len() && bs[i].id == id by {
            if store(bs).dom().contains(id) && id != bs[n].id {
                assert(store(s).dom().contains(id));
                let i = choose|i: int| 0 <= i < s.len() && s[i].id == id;
                assert(bs[i] == s[i]);
            }
            if exists|i: int| 0 <= i < bs.len() && bs[i].id == id {
                let i = choose|i: int| 0 <= i < bs.len() && bs[i].id == id;
                if i < n {
                    assert(s[i] == bs[i]);
                    assert(store(s).dom().contains(s[i].id));
                }
            }
        }
        assert forall|i: int| 0 <= i < bs.len() implies #[trigger] store(bs)[bs[i].id] == bs[i] by {
            if i < n {
                assert(s[i] == bs[i]);
                assert(bs[i].id != bs[n].id);
                assert(store(s)[s[i].id] == s[i]);
            }
        }
    }
}

/// Where the binding `id` is in `bs`.
fn find_binding(bs: &Vec<Binding>, id: BindingId) -> (r: Option<usize>)
    ensures
        r matches Some(i) ==> i < bs@.len() && bs@[i as int].id == id,
        r is None ==> forall|i: int| 0 <= i < bs@.len() ==> bs@[i].id != id,
{
    let mut i: usize = 0;
    while i < bs.len()
        invariant
            i <= bs@.len(),
            forall|j: int| 0 <= j < i ==> bs@[j].id != id,
        decreases bs@.len() - i,
    {
        if bs[i].id == id {
            return Some(i);
        }
        i += 1;
    }
    None
}

impl Environment {
    /// Each scope holds a name once, and each binding has its own id.
    pub open spec fn wf(&self) -> bool {
        &&& ids_distinct(self.bindings@)
        &&& forall|s: int| 0 <= s < self.scopes@.len() ==> distinct_names(#[trigger] self.scopes@[s].names@)
    }

    /// Every live binding, by id.
    pub open spec fn bound(&self) -> Map<BindingId, Binding> {
        store(self.bindings@)
    }

    /// An environment with no scope and no binding.
    pub fn new() -> (e: Environment)
        ensures
            e.wf(),
            e.scopes@.len() == 0,
            e.bound() == Map::<BindingId, Binding>::empty(),
    {
        Environment { scopes: Vec::new(), bindings: Vec::new() }
    }

    /// Opens a block.
    pub fn push(&mut self)
        requires
            old(self).wf(),
        ensures
            final(self).wf(),
            final(self).bindings == old(self).bindings,
            final(self).scopes@.len() == old(self).scopes@.len() + 1,
            forall|s: int| 0 <= s < old(self).scopes@.len() ==> #[trigger] final(self).scopes@[s] == old(self).scopes@[s],
            final(self).scopes@.last().names@.len() == 0,
            final(self).scopes@.last().loans@.len() == 0,
            final(self).scopes@.last().shadowed@.len() == 0,
    {
        self.scopes.push(Scope { names: Vec::new(), loans: Vec::new(), shadowed: Vec::new() });
    }

    /// Ends one borrow of the binding `id`, if it lives.
    pub fn release_loan(&mut self, id: BindingId)
        requires
            old(self).wf(),
        ensures
            final(self).wf(),
            final(self).scopes == old(self).scopes,
            final(self).bound() == release_in(old(self).bound(), id),
    {
        proof {
            lemma_store(self.bindings@);
        }
        match find_binding(&self.bindings, id) {
            Some(i) => {
                let ghost before = self.bindings@;
                let state = match self.bindings[i].state {
                    OwnershipState::SharedBorrowed(count) => if count > 1 {
                        OwnershipState::SharedBorrowed(count - 1)
                    } else {
                        OwnershipState::Available
                    },
                    OwnershipState::MutBorrowed => OwnershipState::Available,
                    other => other,
                };
                self.bindings[i].state = state;
                proof {
                    assert(self.bindings@ == before.update(i as int, with_state(before[i as int], state)));
                    lemma_store_update(before, i as int, with_state(before[i as int], state));
                }
            },
            None => {},
        }
    }
}

/// What ending one borrow of `id` makes of the bindings.
pub open spec fn release_in(m: Map<BindingId, Binding>, id: BindingId) -> Map<BindingId, Binding> {
    if m.dom().contains(id) {
        m.insert(id, with_state(m[id], released(m[id].state)))
    } else {
        m
    }
}

/// Replacing a binding by one with the same id replaces it in the store.
proof fn lemma_store_update(bs: Seq<Binding>, i: int, b: Binding)
    requires
        ids_distinct(bs),
        0 <= i < bs.len(),
        b.id == bs[i].id,
    ensures
        ids_distinct(bs.update(i, b)),
        store(bs.update(i, b)) == store(bs).insert(b.id, b),
{
    let u = bs.update(i, b);
    assert forall|x: int, y: int| 0 <= x < y < u.len() implies u[x].id != u[y].id by {
        assert(bs[x].id != bs[y].id);
    }
    lemma_store(bs);
    lemma_store(u);
    assert(store(u) =~= store(bs).insert(b.id, b)) by {
        assert forall|id: BindingId| store(u).dom().contains(id) <==> store(bs).insert(b.id, b).dom().contains(id) by {
            if store(u).dom().contains(id) {
                let j = choose|j: int| 0 <= j < u.len() && u[j].id == id;
                assert(bs[j].id == id);
            }
            if store(bs).dom().contains(id) {
                let j = choose|j: int| 0 <= j < bs.len() && bs[j].id == id;
                assert(u[j].id == id);
            }
            if id == b.id {
                assert(u[i].id == id);
            }
        }
        assert forall|id: BindingId| #[trigger] store(u).dom().contains(id) implies store(u)[id] == store(bs).insert(b.id, b)[id] by {
            let j = choose|j: int| 0 <= j < u.len() && u[j].id == id;
            assert(store(u)[u[j].id] == u[j]);
            if j != i {
                assert(store(bs)[bs[j].id] == bs[j]);
            }
        }
    }
}


/// A binding whose id `bs` does not hold yet keeps the ids distinct.
proof fn lemma_store_push(bs: Seq<Binding>, b: Binding)
    requires
        ids_distinct(bs),
        forall|i: int| 0 <= i < bs.len() ==> bs[i].id != b.id,
    ensures
        ids_distinct(bs.push(b)),
        store(bs.push(b)) == store(bs).insert(b.id, b),
{
    assert(bs.push(b).drop_last() =~= bs);
}

/// Taking a binding out takes its id out of the store.
proof fn lemma_store_remove(bs: Seq<Binding>, i: int)
    requires
        ids_distinct(bs),
        0 <= i < bs.len(),
    ensures
        ids_distinct(bs.remove(i)),
        store(bs.remove(i)) == store(bs).remove(bs[i].id),
{
    let r = bs.remove(i);
    assert forall|x: int, y: int| 0 <= x < y < r.len() implies r[x].id != r[y].id by {
        let x2 = if x < i { x } else { x + 1 };
        let y2 = if y < i { y } else { y + 1 };
        assert(r[x] == bs[x2] && r[y] == bs[y2]);
    }
    lemma_store(bs);
    lemma_store(r);
    assert(store(r) =~= store(bs).remove(bs[i].id)) by {
        assert forall|id: BindingId| store(r).dom().contains(id) <==> store(bs).remove(bs[i].id).dom().contains(id) by {
            if store(r).dom().contains(id) {
                let j = choose|j: int| 0 <= j < r.len() && r[j].id == id;
                let j2 = if j < i { j } else { j + 1 };
                assert(r[j] == bs[j2]);
                assert(bs[j2].id != bs[i].id);
            }
            if store(bs).dom().contains(id) && id != bs[i].id {
                let j = choose|j: int| 0 <= j < bs.len() && bs[j].id == id;
                let j2 = if j < i { j } else { j - 1 };
                assert(r[j2] == bs[j]);
            }
        }
        assert forall|id: BindingId| #[trigger] store(r).dom().contains(id) implies store(r)[id] == store(bs).remove(bs[i].id)[id] by {
            let j = choose|j: int| 0 <= j < r.len() && r[j].id == id;
            let j2 = if j < i { j } else { j + 1 };
            assert(r[j] == bs[j2]);
            assert(store(r)[r[j].id] == r[j]);
            assert(store(bs)[bs[j2].id] == bs[j2]);
        }
    }
}

/// Stores `b` under its id, replacing what was there.
fn put_binding(bs: &mut Vec<Binding>, b: Binding)
    requires
        ids_distinct(old(bs)@),
    ensures
        ids_distinct(final(bs)@),
        store(final(bs)@) == store(old(bs)@).insert(b.id, b),
{
    let ghost before = bs@;
    match find_binding(bs, b.id) {
        Some(i) => {
            let ghost nb = b;
            bs.set(i, b);
            proof {
                lemma_store_update(before, i as int, nb);
            }
        },
        None => {
            let ghost nb = b;
            bs.push(b);
            proof {
                lemma_store_push(before, nb);
            }
        },
    }
}

/// Takes the binding `id` out, if it is there.
fn remove_binding(bs: &mut Vec<Binding>, id: BindingId)
    requires
        ids_distinct(old(bs)@),
    ensures
        ids_distinct(final(bs)@),
        store(final(bs)@) == store(old(bs)@).remove(id),
{
    let ghost before = bs@;
    proof {
        lemma_store(before);
    }
    match find_binding(bs, id) {
        Some(i) => {
            bs.remove(i);
            proof {
                lemma_store_remove(before, i as int);
            }
        },
        None => {
            assert(store(before).remove(id) =~= store(before));
        },
    }
}

/// Binds `key` to `value` in a scope's names, answering what it was bound
/// to before.
fn bind_name(t: &mut Vec<(String, BindingId)>, key: String, value: BindingId) -> (previous: Option<BindingId>)
    requires
        distinct_names(old(t)@),
    ensures
        distinct_names(final(t)@),
        table(final(t)@, |id: BindingId| id) == table(old(t)@, |id: BindingId| id).insert(key@, value),
        previous == (if table(old(t)@, |id: BindingId| id).dom().contains(key@) {
            Some(table(old(t)@, |id: BindingId| id)[key@])
        } else {
            None
        }),
{
    proof {
        lemma_table(t@, |id: BindingId| id);
    }
    let ghost before = t@;
    match find_name(t, key.as_str()) {
        Some(i) => {
            let previous = t[i].1;
            let e = (key, value);
            t.set(i, e);
            proof {
                lemma_table_update(before, |id: BindingId| id, i as int, e);
            }
            Some(previous)
        },
        None => {
            let e = (key, value);
            t.push(e);
            proof {
                lemma_table_push(before, |id: BindingId| id, e);
            }
            None
        },
    }
}

/// Where the innermost binding of `name` in `scopes` is.
pub open spec fn innermost_id(scopes: Seq<Scope>, name: Seq<char>) -> Option<BindingId>
    decreases scopes.len(),
{
    if scopes.len() == 0 {
        None
    } else if named(scopes.last()).dom().contains(name) {
        Some(named(scopes.last())[name])
    } else {
        innermost_id(scopes.drop_last(), name)
    }
}

/// Scope `s` names the binding `id`.
pub open spec fn names_id(s: Scope, id: BindingId) -> bool {
    exists|i: int| 0 <= i < s.names@.len() && (#[trigger] s.names@[i]).1 == id
}

/// The loans of each scope.
pub open spec fn loans_of(scopes: Seq<Scope>) -> Seq<Seq<BindingId>> {
    scopes.map_values(|s: Scope| s.loans@)
}

/// The innermost of the scopes whose loans are `rows` that has taken a loan
/// of `id`.
pub open spec fn loan_scope(rows: Seq<Seq<BindingId>>, id: BindingId) -> Option<int>
    decreases rows.len(),
{
    if rows.len() == 0 {
        None
    } else if rows.last().contains(id) {
        Some(rows.len() - 1)
    } else {
        loan_scope(rows.drop_last(), id)
    }
}

/// Where the last loan of `id` in `loans[..k]` is.
pub open spec fn last_loan(loans: Seq<BindingId>, id: BindingId, k: int) -> int
    decreases k,
{
    if k <= 0 {
        -1
    } else if loans[k - 1] == id {
        k - 1
    } else {
        last_loan(loans, id, k - 1)
    }
}

proof fn lemma_loan_scope(rows: Seq<Seq<BindingId>>, id: BindingId)
    ensures
        loan_scope(rows, id) matches Some(s) ==> 0 <= s < rows.len() && rows[s].contains(id) && forall|t: int|
            s < t < rows.len() ==> !(#[trigger] rows[t]).contains(id),
        loan_scope(rows, id) is None ==> forall|t: int| 0 <= t < rows.len() ==> !(#[trigger] rows[t]).contains(id),
    decreases rows.len(),
{
    if rows.len() > 0 && !rows.last().contains(id) {
        lemma_loan_scope(rows.drop_last(), id);
        assert forall|t: int| 0 <= t < rows.len() - 1 implies #[trigger] rows[t] == rows.drop_last()[t] by {}
    }
}

proof fn lemma_last_loan(loans: Seq<BindingId>, id: BindingId, k: int)
    requires
        0 <= k <= loans.len(),
    ensures
        -1 <= last_loan(loans, id, k) < k,
        last_loan(loans, id, k) >= 0 ==> loans[last_loan(loans, id, k)] == id,
        forall|j: int| last_loan(loans, id, k) < j < k ==> loans[j] != id,
    decreases k,
{
    if k > 0 && loans[k - 1] != id {
        lemma_last_loan(loans, id, k - 1);
    }
}

/// `b` is `a` with scope `s` alone changed.
pub open spec fn other_scopes_kept(a: Seq<Scope>, b: Seq<Scope>, s: int) -> bool {
    &&& b.len() == a.len()
    &&& forall|t: int| 0 <= t < a.len() && t != s ==> #[trigger] b[t] == a[t]
}

impl Environment {
    /// Binds `name` in the innermost block. A name the block binds already
    /// is refused, as is a name bound with no block open; then nothing
    /// changes.
    pub fn insert(&mut self, name: String, binding: Binding) -> (r: Result<(), ()>)
        requires
            old(self).wf(),
        ensures
            final(self).wf(),
            r is Err <==> (old(self).scopes@.len() == 0 || named(old(self).scopes@.last()).dom().contains(name@)),
            r is Err ==> *final(self) == *old(self),
            r is Ok ==> {
                let s = old(self).scopes@.len() - 1;
                &&& other_scopes_kept(old(self).scopes@, final(self).scopes@, s)
                &&& named(final(self).scopes@[s]) == named(old(self).scopes@[s]).insert(name@, binding.id)
                &&& final(self).scopes@[s].loans == old(self).scopes@[s].loans
                &&& final(self).scopes@[s].shadowed == old(self).scopes@[s].shadowed
                &&& final(self).bound() == old(self).bound().insert(binding.id, binding)
            },
    {
        if self.scopes.len() == 0 {
            return Err(());
        }
        let last = self.scopes.len() - 1;
        proof {
            lemma_table(self.scopes@[last as int].names@, |id: BindingId| id);
        }
        if find_name(&self.scopes[last].names, name.as_str()).is_some() {
            return Err(());
        }
        let ghost old_scopes = self.scopes@;
        let previous = bind_name(&mut self.scopes[last].names, name, binding.id);
        put_binding(&mut self.bindings, binding);
        proof {
            assert forall|s: int| 0 <= s < self.scopes@.len() implies distinct_names(#[trigger] self.scopes@[s].names@) by {
                if s != last {
                    assert(self.scopes@[s] == old_scopes[s]);
                }
            }
        }
        Ok(())
    }

    /// Binds `name` in the innermost block, displacing whatever it named
    /// there: the displaced binding lives on to the end of the block. With no
    /// block open nothing changes.
    pub fn rebind(&mut self, name: String, binding: Binding)
        requires
            old(self).wf(),
        ensures
            final(self).wf(),
            old(self).scopes@.len() == 0 ==> *final(self) == *old(self),
            old(self).scopes@.len() > 0 ==> {
                let s = old(self).scopes@.len() - 1;
                let before = named(old(self).scopes@[s]);
                &&& other_scopes_kept(old(self).scopes@, final(self).scopes@, s)
                &&& named(final(self).scopes@[s]) == before.insert(name@, binding.id)
                &&& final(self).scopes@[s].loans == old(self).scopes@[s].loans
                &&& final(self).scopes@[s].shadowed@ == if before.dom().contains(name@) {
                    old(self).scopes@[s].shadowed@.push(before[name@])
                } else {
                    old(self).scopes@[s].shadowed@
                }
                &&& final(self).bound() == old(self).bound().insert(binding.id, binding)
            },
    {
        if self.scopes.len() == 0 {
            return;
        }
        let last = self.scopes.len() - 1;
        let ghost old_scopes = self.scopes@;
        let previous = bind_name(&mut self.scopes[last].names, name, binding.id);
        match previous {
            Some(p) => {
                self.scopes[last].shadowed.push(p);
            },
            None => {},
        }
        put_binding(&mut self.bindings, binding);
        proof {
            assert forall|s: int| 0 <= s < self.scopes@.len() implies distinct_names(#[trigger] self.scopes@[s].names@) by {
                if s != last {
                    assert(self.scopes@[s] == old_scopes[s]);
                }
            }
        }
    }

    /// The binding `name` stands for: the one of the innermost block that
    /// binds it.
    pub fn lookup_id(&self, name: &str) -> (r: Option<BindingId>)
        requires
            self.wf(),
        ensures
            r == innermost_id(self.scopes@, name@),
    {
        let mut k = self.scopes.len();
        proof {
            assert(self.scopes@.take(k as int) =~= self.scopes@);
        }
        while k > 0
            invariant
                self.wf(),
                k <= self.scopes@.len(),
                innermost_id(self.scopes@, name@) == innermost_id(self.scopes@.take(k as int), name@),
            decreases k,
        {
            let scope = &self.scopes[k - 1];
            proof {
                lemma_table(scope.names@, |id: BindingId| id);
                assert(self.scopes@.take(k as int).last() == self.scopes@[k - 1]);
                assert(self.scopes@.take(k as int).drop_last() =~= self.scopes@.take(k - 1));
            }
            match find_name(&scope.names, name) {
                Some(i) => {
                    return Some(scope.names[i].1);
                },
                None => {},
            }
            k -= 1;
        }
        None
    }

    /// A name the binding `id` is known by: one the innermost block that
    /// names it binds to it.
    pub fn name_of(&self, id: BindingId) -> (r: Option<String>)
        ensures
            r matches Some(n) ==> exists|s: int, i: int|
                0 <= s < self.scopes@.len() && 0 <= i < self.scopes@[s].names@.len()
                    && self.scopes@[s].names@[i].0@ == n@ && self.scopes@[s].names@[i].1 == id
                    && forall|t: int| s < t < self.scopes@.len() ==> !names_id(#[trigger] self.scopes@[t], id),
            r is None ==> forall|s: int| 0 <= s < self.scopes@.len() ==> !names_id(#[trigger] self.scopes@[s], id),
    {
        let mut k = self.scopes.len();
        while k > 0
            invariant
                k <= self.scopes@.len(),
                forall|t: int| k <= t < self.scopes@.len() ==> !names_id(#[trigger] self.scopes@[t], id),
            decreases k,
        {
            let scope = &self.scopes[k - 1];
            let mut i: usize = 0;
            while i < scope.names.len()
                invariant
                    0 < k <= self.scopes@.len(),
                    forall|t: int| k <= t < self.scopes@.len() ==> !names_id(#[trigger] self.scopes@[t], id),
                    scope == &self.scopes@[k - 1],
                    i <= scope.names@.len(),
                    forall|j: int| 0 <= j < i ==> (#[trigger] scope.names@[j]).1 != id,
                decreases scope.names@.len() - i,
            {
                if scope.names[i].1 == id {
                    return Some(scope.names[i].0.clone());
                }
                i += 1;
            }
            k -= 1;
        }
        None
    }

    /// Records a loan in the innermost block, to be released when it ends.
    pub fn add_loan(&mut self, id: BindingId)
        requires
            old(self).wf(),
        ensures
            final(self).wf(),
            final(self).bindings == old(self).bindings,
            old(self).scopes@.len() == 0 ==> final(self).scopes == old(self).scopes,
            old(self).scopes@.len() > 0 ==> {
                let s = old(self).scopes@.len() - 1;
                &&& other_scopes_kept(old(self).scopes@, final(self).scopes@, s)
                &&& final(self).scopes@[s].names == old(self).scopes@[s].names
                &&& final(self).scopes@[s].loans@ == old(self).scopes@[s].loans@.push(id)
                &&& final(self).scopes@[s].shadowed == old(self).scopes@[s].shadowed
            },
    {
        if self.scopes.len() > 0 {
            let last = self.scopes.len() - 1;
            let ghost old_scopes = self.scopes@;
            self.scopes[last].loans.push(id);
            proof {
                assert forall|s: int| 0 <= s < self.scopes@.len() implies distinct_names(#[trigger] self.scopes@[s].names@) by {
                    if s != last {
                        assert(self.scopes@[s] == old_scopes[s]);
                    }
                }
            }
        }
    }

    /// Releases a loan before its block ends, forgetting the record of it in
    /// the innermost block that has one, so that the end of that block does
    /// not release the same borrow a second time. Nothing happens where no
    /// block records a loan of `id`.
    pub fn discharge_loan(&mut self, id: BindingId)
        requires
            old(self).wf(),
        ensures
            final(self).wf(),
            loan_scope(loans_of(old(self).scopes@), id) is None ==> *final(self) == *old(self),
            loan_scope(loans_of(old(self).scopes@), id) matches Some(s) ==> {
                let loans = old(self).scopes@[s].loans@;
                &&& other_scopes_kept(old(self).scopes@, final(self).scopes@, s)
                &&& final(self).scopes@[s].names == old(self).scopes@[s].names
                &&& final(self).scopes@[s].loans@ == loans.remove(last_loan(loans, id, loans.len() as int))
                &&& final(self).scopes@[s].shadowed == old(self).scopes@[s].shadowed
                &&& final(self).bound() == release_in(old(self).bound(), id)
            },
    {
        proof {
            lemma_loan_scope(loans_of(self.scopes@), id);
        }
        let mut k = self.scopes.len();
        while k > 0
            invariant
                self.wf(),
                *self == *old(self),
                k <= self.scopes@.len(),
                forall|t: int| k <= t < self.scopes@.len() ==> !(#[trigger] self.scopes@[t]).loans@.contains(id),
            decreases k,
        {
            let s = k - 1;
            let loans = &self.scopes[s].loans;
            let mut j = loans.len();
            proof {
                lemma_last_loan(loans@, id, loans@.len() as int);
            }
            while j > 0 && loans[j - 1] != id
                invariant
                    loans == &self.scopes@[s as int].loans,
                    j <= loans@.len(),
                    forall|x: int| j <= x < loans@.len() ==> loans@[x] != id,
                    last_loan(loans@, id, loans@.len() as int) == last_loan(loans@, id, j as int),
                decreases j,
            {
                j -= 1;
            }
            if j > 0 {
                proof {
                    assert(self.scopes@[s as int].loans@.contains(id));
                    assert(loan_scope(loans_of(self.scopes@), id) == Some(s as int)) by {
                        lemma_loan_scope(loans_of(self.scopes@), id);
                        assert(loans_of(self.scopes@)[s as int] == self.scopes@[s as int].loans@);
                        if loan_scope(loans_of(self.scopes@), id) is None {
                            assert(!loans_of(self.scopes@)[s as int].contains(id));
                        }
                        let c = loan_scope(loans_of(self.scopes@), id)->Some_0;
                        if c > s {
                            assert(!loans_of(self.scopes@)[s as int].contains(id) || c <= s);
                        }
                        if c < s {
                            assert(loans_of(self.scopes@)[s as int] == self.scopes@[s as int].loans@);
                        }
                    }
                }
                let ghost old_scopes = self.scopes@;
                self.scopes[s].loans.remove(j - 1);
                proof {
                    assert forall|t: int| 0 <= t < self.scopes@.len() implies distinct_names(#[trigger] self.scopes@[t].names@) by {
                        if t != s {
                            assert(self.scopes@[t] == old_scopes[t]);
                        }
                    }
                }
                self.release_loan(id);
                return;
            }
            proof {
                assert(!self.scopes@[s as int].loans@.contains(id)) by {
                    if self.scopes@[s as int].loans@.contains(id) {
                        let x = choose|x: int| 0 <= x < self.scopes@[s as int].loans@.len() && self.scopes@[s as int].loans@[x] == id;
                    }
                }
            }
            k -= 1;
        }
        proof {
            lemma_loan_scope(loans_of(self.scopes@), id);
            assert forall|t: int| 0 <= t < self.scopes@.len() implies !(#[trigger] loans_of(self.scopes@)[t]).contains(id) by {
                assert(loans_of(self.scopes@)[t] == self.scopes@[t].loans@);
            }
        }
    }
}


/// What ending one borrow of each of `loans`, in order, makes of the
/// bindings.
pub open spec fn release_all(m: Map<BindingId, Binding>, loans: Seq<BindingId>) -> Map<BindingId, Binding>
    decreases loans.len(),
{
    if loans.len() == 0 {
        m
    } else {
        release_in(release_all(m, loans.drop_last()), loans.last())
    }
}

/// The bindings a block owns: those its names stand for and those a later
/// `let` displaced.
pub open spec fn scope_ids(s: Scope) -> Set<BindingId> {
    Set::new(|id: BindingId| names_id(s, id) || s.shadowed@.contains(id))
}

impl Environment {
    /// Closes the innermost block: each loan it took is released, one at a
    /// time, so that loans still held by enclosing blocks stay counted; then
    /// every binding it owns is gone. With no block open nothing changes.
    pub fn pop(&mut self)
        requires
            old(self).wf(),
        ensures
            final(self).wf(),
            old(self).scopes@.len() == 0 ==> *final(self) == *old(self),
            old(self).scopes@.len() > 0 ==> {
                let s = old(self).scopes@.last();
                &&& final(self).scopes@ == old(self).scopes@.drop_last()
                &&& final(self).bound() == release_all(old(self).bound(), s.loans@).remove_keys(scope_ids(s))
            },
    {
        if self.scopes.len() == 0 {
            return;
        }
        let ghost start = self.bound();
        let ghost rest = old(self).scopes@.drop_last();
        let scope = self.scopes.pop().unwrap();
        assert(scope == old(self).scopes@.last());
        let mut i: usize = 0;
        proof {
            assert(scope.loans@.take(0) =~= seq![]);
        }
        while i < scope.loans.len()
            invariant
                self.wf(),
                self.scopes@ == rest,
                i <= scope.loans@.len(),
                self.bound() == release_all(start, scope.loans@.take(i as int)),
            decreases scope.loans@.len() - i,
        {
            assert(scope.loans@.take(i + 1).drop_last() =~= scope.loans@.take(i as int));
            self.release_loan(scope.loans[i]);
            i += 1;
        }
        assert(scope.loans@.take(scope.loans@.len() as int) =~= scope.loans@);
        let ghost released_all = self.bound();
        let mut i: usize = 0;
        while i < scope.names.len()
            invariant
                self.wf(),
                self.scopes@ == rest,
                i <= scope.names@.len(),
                self.bound() == released_all.remove_keys(
                    Set::new(|id: BindingId| exists|j: int| 0 <= j < i && (#[trigger] scope.names@[j]).1 == id),
                ),
            decreases scope.names@.len() - i,
        {
            let ghost before = self.bound();
            remove_binding(&mut self.bindings, scope.names[i].1);
            proof {
                assert(self.bound() =~= released_all.remove_keys(
                    Set::new(|id: BindingId| exists|j: int| 0 <= j < i + 1 && (#[trigger] scope.names@[j]).1 == id),
                ));
            }
            i += 1;
        }
        let ghost after_names = self.bound();
        let mut i: usize = 0;
        while i < scope.shadowed.len()
            invariant
                self.wf(),
                self.scopes@ == rest,
                i <= scope.shadowed@.len(),
                self.bound() == after_names.remove_keys(
                    Set::new(|id: BindingId| exists|j: int| 0 <= j < i && scope.shadowed@[j] == id),
                ),
            decreases scope.shadowed@.len() - i,
        {
            remove_binding(&mut self.bindings, scope.shadowed[i]);
            proof {
                assert(self.bound() =~= after_names.remove_keys(
                    Set::new(|id: BindingId| exists|j: int| 0 <= j < i + 1 && scope.shadowed@[j] == id),
                ));
            }
            i += 1;
        }
        proof {
            assert(self.bound() =~= released_all.remove_keys(scope_ids(scope)));
        }
    }
}


/// The names in scope, outermost block first, each block's names in the
/// order they were bound.
pub open spec fn visible(scopes: Seq<Scope>) -> Seq<(String, BindingId)>
    decreases scopes.len(),
{
    if scopes.len() == 0 {
        seq![]
    } else {
        visible(scopes.drop_last()) + scopes.last().names@
    }
}

/// `name` is one of `live`.
pub open spec fn is_live(live: Seq<String>, name: Seq<char>) -> bool {
    exists|i: int| 0 <= i < live.len() && live[i]@ == name
}

/// The bindings that hold a borrow under a name that is no longer live, in
/// the order their names are visible.
pub open spec fn dead_refs(vis: Seq<(String, BindingId)>, m: Map<BindingId, Binding>, live: Seq<String>) -> Seq<BindingId>
    decreases vis.len(),
{
    if vis.len() == 0 {
        seq![]
    } else {
        let e = vis.last();
        dead_refs(vis.drop_last(), m, live) + if m.dom().contains(e.1) && m[e.1].borrowed_from is Some && !is_live(live, e.0@) {
            seq![e.1]
        } else {
            seq![]
        }
    }
}

/// The binding under visible name `j` can take over the loan that `id`
/// holds on `origin`: it is another binding, under a live name, that
/// borrows from `origin` too.
pub open spec fn takes_over(
    vis: Seq<(String, BindingId)>,
    m: Map<BindingId, Binding>,
    live: Seq<String>,
    id: BindingId,
    origin: BindingId,
    j: int,
) -> bool {
    &&& 0 <= j < vis.len()
    &&& vis[j].1 != id
    &&& is_live(live, vis[j].0@)
    &&& m.dom().contains(vis[j].1)
    &&& m[vis[j].1].borrowed_from == Some(origin)
}

/// The first visible name whose binding can take over the loan.
pub open spec fn first_taker(
    vis: Seq<(String, BindingId)>,
    m: Map<BindingId, Binding>,
    live: Seq<String>,
    id: BindingId,
    origin: BindingId,
    j: int,
) -> bool {
    takes_over(vis, m, live, id, origin, j) && forall|k: int| 0 <= k < j ==> !takes_over(vis, m, live, id, origin, k)
}

/// The binding that takes over the loan `id` holds on `origin`, if one can.
pub open spec fn successor(
    vis: Seq<(String, BindingId)>,
    m: Map<BindingId, Binding>,
    live: Seq<String>,
    id: BindingId,
    origin: BindingId,
) -> Option<BindingId> {
    if exists|j: int| first_taker(vis, m, live, id, origin, j) {
        Some(vis[choose|j: int| first_taker(vis, m, live, id, origin, j)].1)
    } else {
        None
    }
}

/// What `discharge_loan` makes of the scopes' loans and the bindings.
pub open spec fn discharged(
    rows: Seq<Seq<BindingId>>,
    m: Map<BindingId, Binding>,
    id: BindingId,
) -> (Seq<Seq<BindingId>>, Map<BindingId, Binding>) {
    match loan_scope(rows, id) {
        None => (rows, m),
        Some(s) => (rows.update(s, rows[s].remove(last_loan(rows[s], id, rows[s].len() as int))), release_in(m, id)),
    }
}

/// The binding `id` stops holding its borrow: where it owned the loan, the
/// first live binding that borrows from the same origin takes the loan
/// over, and where none does the loan is discharged.
pub open spec fn forget_borrow(
    vis: Seq<(String, BindingId)>,
    live: Seq<String>,
    st: (Seq<Seq<BindingId>>, Map<BindingId, Binding>),
    id: BindingId,
) -> (Seq<Seq<BindingId>>, Map<BindingId, Binding>) {
    let m = st.1;
    if !m.dom().contains(id) {
        st
    } else {
        match m[id].borrowed_from {
            None => st,
            Some(origin) => {
                let st1 = if m[id].owns_loan {
                    match successor(vis, m, live, id, origin) {
                        Some(s) => (st.0, m.insert(s, with_borrow(m[s], m[s].borrowed_from, true))),
                        None => discharged(st.0, m, origin),
                    }
                } else {
                    st
                };
                (st1.0, st1.1.insert(id, with_borrow(st1.1[id], None, false)))
            },
        }
    }
}

/// Each of `dead` forgets its borrow, in order.
pub open spec fn forget_all(
    vis: Seq<(String, BindingId)>,
    live: Seq<String>,
    st: (Seq<Seq<BindingId>>, Map<BindingId, Binding>),
    dead: Seq<BindingId>,
) -> (Seq<Seq<BindingId>>, Map<BindingId, Binding>)
    decreases dead.len(),
{
    if dead.len() == 0 {
        st
    } else {
        forget_borrow(vis, live, forget_all(vis, live, st, dead.drop_last()), dead.last())
    }
}

/// Whether `name` is one of `live`.
fn live_name(live: &Vec<String>, name: &str) -> (r: bool)
    ensures
        r == is_live(live@, name@),
{
    let mut i: usize = 0;
    while i < live.len()
        invariant
            i <= live@.len(),
            forall|j: int| 0 <= j < i ==> live@[j]@ != name@,
        decreases live@.len() - i,
    {
        if same_text(live[i].as_str(), name) {
            return true;
        }
        i += 1;
    }
    false
}

/// `b` keeps every scope's names and displaced bindings of `a`.
pub open spec fn names_kept(a: Seq<Scope>, b: Seq<Scope>) -> bool {
    &&& b.len() == a.len()
    &&& forall|s: int| 0 <= s < a.len() ==> (#[trigger] b[s]).names == a[s].names && b[s].shadowed == a[s].shadowed
}

impl Environment {
    /// The names in scope, outermost block first.
    fn visible_names(&self) -> (vis: Vec<(String, BindingId)>)
        ensures
            vis@ == visible(self.scopes@),
    {
        let mut vis: Vec<(String, BindingId)> = Vec::new();
        let mut s: usize = 0;
        proof {
            assert(self.scopes@.take(0) =~= seq![]);
        }
        while s < self.scopes.len()
            invariant
                s <= self.scopes@.len(),
                vis@ == visible(self.scopes@.take(s as int)),
            decreases self.scopes@.len() - s,
        {
            let ghost before = vis@;
            let names = &self.scopes[s].names;
            let mut i: usize = 0;
            while i < names.len()
                invariant
                    names == &self.scopes@[s as int].names,
                    i <= names@.len(),
                    vis@ == before + names@.take(i as int),
                decreases names@.len() - i,
            {
                vis.push((names[i].0.clone(), names[i].1));
                i += 1;
                assert(vis@ =~= before + names@.take(i as int));
            }
            proof {
                assert(names@.take(names@.len() as int) =~= names@);
                assert(self.scopes@.take(s + 1).drop_last() =~= self.scopes@.take(s as int));
                assert(self.scopes@.take(s + 1).last() == self.scopes@[s as int]);
            }
            s += 1;
        }
        assert(self.scopes@.take(self.scopes@.len() as int) =~= self.scopes@);
        vis
    }

    /// The borrows that a reference holds end where its name is no longer
    /// live: each binding that borrows under a dead name forgets its
    /// borrow, and the loan it owned passes to the first live binding that
    /// borrows from the same origin, or is discharged where there is none.
    #[verifier::spinoff_prover]
    #[verifier::rlimit(40)]
    pub fn release_dead_references(&mut self, live: &Vec<String>)
        requires
            old(self).wf(),
        ensures
            final(self).wf(),
            names_kept(old(self).scopes@, final(self).scopes@),
            ({
                let vis = visible(old(self).scopes@);
                let dead = dead_refs(vis, old(self).bound(), live@);
                let fin = forget_all(vis, live@, (loans_of(old(self).scopes@), old(self).bound()), dead);
                &&& loans_of(final(self).scopes@) == fin.0
                &&& final(self).bound() == fin.1
            }),
    {
        let vis = self.visible_names();
        let ghost start = (loans_of(self.scopes@), self.bound());
        let ghost first = self.scopes@;
        proof {
            lemma_store(self.bindings@);
        }
        let mut dead: Vec<BindingId> = Vec::new();
        let mut j: usize = 0;
        proof {
            assert(vis@.take(0) =~= seq![]);
        }
        while j < vis.len()
            invariant
                self.wf(),
                self.scopes@ == first,
                start.1 == self.bound(),
                vis@ == visible(first),
                j <= vis@.len(),
                dead@ == dead_refs(vis@.take(j as int), start.1, live@),
            decreases vis@.len() - j,
        {
            proof {
                lemma_store(self.bindings@);
                assert(vis@.take(j + 1).drop_last() =~= vis@.take(j as int));
                assert(vis@.take(j + 1).last() == vis@[j as int]);
            }
            let id = vis[j].1;
            match find_binding(&self.bindings, id) {
                Some(i) => {
                    if self.bindings[i].borrowed_from.is_some() && !live_name(live, vis[j].0.as_str()) {
                        dead.push(id);
                    }
                },
                None => {},
            }
            proof {
                assert(dead@ =~= dead_refs(vis@.take(j + 1), start.1, live@));
            }
            j += 1;
        }
        assert(vis@.take(vis@.len() as int) =~= vis@);
        let mut k: usize = 0;
        proof {
            assert(dead@.take(0) =~= seq![]);
        }
        while k < dead.len()
            invariant
                self.wf(),
                names_kept(first, self.scopes@),
                vis@ == visible(first),
                k <= dead@.len(),
                ({
                    let st = forget_all(vis@, live@, start, dead@.take(k as int));
                    loans_of(self.scopes@) == st.0 && self.bound() == st.1
                }),
            decreases dead@.len() - k,
        {
            proof {
                assert(dead@.take(k + 1).drop_last() =~= dead@.take(k as int));
                assert(dead@.take(k + 1).last() == dead@[k as int]);
            }
            let id = dead[k];
            self.forget(&vis, live, id);
            k += 1;
        }
        assert(dead@.take(dead@.len() as int) =~= dead@);
    }

    /// The binding `id` forgets the borrow it holds.
    #[verifier::spinoff_prover]
    #[verifier::rlimit(40)]
    fn forget(&mut self, vis: &Vec<(String, BindingId)>, live: &Vec<String>, id: BindingId)
        requires
            old(self).wf(),
        ensures
            final(self).wf(),
            names_kept(old(self).scopes@, final(self).scopes@),
            ({
                let st = forget_borrow(vis@, live@, (loans_of(old(self).scopes@), old(self).bound()), id);
                loans_of(final(self).scopes@) == st.0 && final(self).bound() == st.1
            }),
    {
        let ghost m = self.bound();
        let ghost rows = loans_of(self.scopes@);
        proof {
            lemma_store(self.bindings@);
        }
        let i = match find_binding(&self.bindings, id) {
            Some(i) => i,
            None => {
                return;
            },
        };
        let origin = match self.bindings[i].borrowed_from {
            Some(origin) => origin,
            None => {
                return;
            },
        };
        if self.bindings[i].owns_loan {
            // The first live binding that borrows from the same origin.
            let mut found: Option<usize> = None;
            let mut j: usize = 0;
            while j < vis.len() && found.is_none()
                invariant
                    self.wf(),
                    m == self.bound(),
                    j <= vis@.len(),
                    found is None ==> forall|x: int| 0 <= x < j ==> !takes_over(vis@, m, live@, id, origin, x),
                    found matches Some(x) ==> x < self.bindings@.len() && exists|w: int|
                        first_taker(vis@, m, live@, id, origin, w) && vis@[w].1 == self.bindings@[x as int].id,
                decreases vis@.len() - j,
            {
                let other = vis[j].1;
                if other != id && live_name(live, vis[j].0.as_str()) {
                    match find_binding(&self.bindings, other) {
                        Some(x) => {
                            if self.bindings[x].borrowed_from == Some(origin) {
                                proof {
                                    lemma_store(self.bindings@);
                                    assert(takes_over(vis@, m, live@, id, origin, j as int));
                                    assert(first_taker(vis@, m, live@, id, origin, j as int));
                                }
                                found = Some(x);
                            }
                        },
                        None => {
                            proof {
                                lemma_store(self.bindings@);
                            }
                        },
                    }
                }
                proof {
                    if found is None {
                        lemma_store(self.bindings@);
                        assert(!takes_over(vis@, m, live@, id, origin, j as int));
                    }
                }
                j += 1;
            }
            match found {
                Some(x) => {
                    proof {
                        let w = choose|w: int| first_taker(vis@, m, live@, id, origin, w) && vis@[w].1 == self.bindings@[x as int].id;
                        let c = choose|c: int| first_taker(vis@, m, live@, id, origin, c);
                        if c < w {
                            assert(!takes_over(vis@, m, live@, id, origin, c));
                        } else if w < c {
                            assert(!takes_over(vis@, m, live@, id, origin, w));
                        }
                        lemma_store(self.bindings@);
                    }
                    let ghost before = self.bindings@;
                    self.bindings[x].owns_loan = true;
                    proof {
                        lemma_store_update(before, x as int, with_borrow(before[x as int], before[x as int].borrowed_from, true));
                    }
                },
                None => {
                    proof {
                        assert(!exists|w: int| first_taker(vis@, m, live@, id, origin, w));
                    }
                    let ghost old_scopes = self.scopes@;
                    self.discharge_loan(origin);
                    proof {
                        lemma_loan_scope(loans_of(old_scopes), origin);
                        match loan_scope(loans_of(old_scopes), origin) {
                            None => {},
                            Some(s) => {
                                assert(loans_of(self.scopes@) =~= discharged(loans_of(old_scopes), m, origin).0) by {
                                    assert forall|t: int| 0 <= t < self.scopes@.len() implies #[trigger] loans_of(self.scopes@)[t]
                                        == discharged(loans_of(old_scopes), m, origin).0[t] by {
                                        if t != s {
                                            assert(self.scopes@[t] == old_scopes[t]);
                                        }
                                    }
                                }
                            },
                        }
                    }
                },
            }
        }
        proof {
            lemma_store(self.bindings@);
        }
        let i = match find_binding(&self.bindings, id) {
            Some(i) => i,
            None => {
                return;
            },
        };
        let ghost before = self.bindings@;
        self.bindings[i].borrowed_from = None;
        self.bindings[i].owns_loan = false;
        proof {
            assert(self.bindings@ == before.update(i as int, with_borrow(before[i as int], None, false)));
            lemma_store_update(before, i as int, with_borrow(before[i as int], None, false));
        }
    }
}


// ------------------------------------------------------------------- laws

/// Ending two borrows gives the same bindings in either order.
proof fn lemma_release_commutes(m: Map<BindingId, Binding>, a: BindingId, b: BindingId)
    ensures
        release_in(release_in(m, a), b) == release_in(release_in(m, b), a),
{
    assert(release_in(release_in(m, a), b) =~= release_in(release_in(m, b), a));
}

/// Ending one borrow of `id` first and then the borrows of `loans` gives
/// the bindings that ending the borrows of `loans` and then that one does.
proof fn lemma_release_first(m: Map<BindingId, Binding>, loans: Seq<BindingId>, id: BindingId)
    ensures
        release_all(release_in(m, id), loans) == release_in(release_all(m, loans), id),
    decreases loans.len(),
{
    if loans.len() > 0 {
        lemma_release_first(m, loans.drop_last(), id);
        lemma_release_commutes(release_all(m, loans.drop_last()), id, loans.last());
    }
}

/// Where the last loan of `id` before `k` is depends on the loans before
/// `k` alone.
proof fn lemma_last_loan_prefix(a: Seq<BindingId>, b: Seq<BindingId>, id: BindingId, k: int)
    requires
        0 <= k <= a.len(),
        k <= b.len(),
        forall|j: int| 0 <= j < k ==> a[j] == b[j],
    ensures
        last_loan(a, id, k) == last_loan(b, id, k),
    decreases k,
{
    if k > 0 {
        lemma_last_loan_prefix(a, b, id, k - 1);
    }
}

/// A loan discharged before its block ends is not released a second time
/// when the block ends: discharging the last loan of `id` the block took and
/// then ending the block's loans leaves every binding as ending the block's
/// loans alone does.
pub proof fn lemma_discharge_then_pop(m: Map<BindingId, Binding>, loans: Seq<BindingId>, id: BindingId)
    requires
        loans.contains(id),
    ensures
        release_all(release_in(m, id), loans.remove(last_loan(loans, id, loans.len() as int))) == release_all(m, loans),
    decreases loans.len(),
{
    lemma_last_loan(loans, id, loans.len() as int);
    let p = last_loan(loans, id, loans.len() as int);
    if p == -1 {
        let i = choose|i: int| 0 <= i < loans.len() && loans[i] == id;
        assert(loans[i] != id);
    }
    let rest = loans.drop_last();
    if p == loans.len() - 1 {
        assert(loans.remove(p) =~= rest);
        lemma_release_first(m, rest, id);
    } else {
        assert(loans.last() != id);
        lemma_last_loan_prefix(loans, rest, id, rest.len() as int);
        assert(last_loan(loans, id, loans.len() as int) == last_loan(rest, id, rest.len() as int));
        assert(rest.contains(id)) by {
            assert(rest[p] == id);
        }
        lemma_discharge_then_pop(m, rest, id);
        assert(loans.remove(p).drop_last() =~= rest.remove(p));
        assert(loans.remove(p).last() == loans.last());
    }
}

/// Each loan is released on its own: ending `n` borrows of a binding
/// borrowed shared more than `n` times leaves it borrowed `n` times fewer.
pub proof fn lemma_release_counts(m: Map<BindingId, Binding>, id: BindingId, count: u32, n: nat)
    requires
        m.dom().contains(id),
        m[id].state == OwnershipState::SharedBorrowed(count),
        n < count,
    ensures
        release_all(m, Seq::new(n, |i: int| id)).dom().contains(id),
        release_all(m, Seq::new(n, |i: int| id))[id].state == OwnershipState::SharedBorrowed((count - n) as u32),
    decreases n,
{
    if n > 0 {
        lemma_release_counts(m, id, count, (n - 1) as nat);
        assert(Seq::new(n, |i: int| id).drop_last() =~= Seq::new((n - 1) as nat, |i: int| id));
    }
}


// ------------------------------------------------------------ generic types

/// `name` is one of `names`.
pub open spec fn listed(names: Seq<String>, name: Seq<char>) -> bool {
    exists|i: int| 0 <= i < names.len() && names[i]@ == name
}

/// Whether `name` is one of `names`.
fn is_listed(names: &Vec<String>, name: &str) -> (r: bool)
    ensures
        r == listed(names@, name@),
{
    let mut i: usize = 0;
    while i < names.len()
        invariant
            i <= names@.len(),
            forall|j: int| 0 <= j < i ==> names@[j]@ != name@,
        decreases names@.len() - i,
    {
        if same_text(names[i].as_str(), name) {
            return true;
        }
        i += 1;
    }
    false
}

/// `t` mentions one of the generic `parameters` where a type argument can
/// reach it: through lists, arrays, slices, borrows, applications and
/// function types, though not behind a raw pointer.
pub open spec fn mentions_parameter(t: Type, parameters: Seq<String>) -> bool
    decreases t,
{
    match t {
        Type::Named(name) => listed(parameters, name@),
        Type::List(inner) => mentions_parameter(*inner, parameters),
        Type::Slice(inner) => mentions_parameter(*inner, parameters),
        Type::Ref { inner, .. } => mentions_parameter(*inner, parameters),
        Type::Array { element, .. } => mentions_parameter(*element, parameters),
        Type::Apply { args, .. } => any_mentions_parameter(args, parameters),
        Type::Fn { params, result } => any_mentions_parameter(params, parameters) || mentions_parameter(*result, parameters),
        _ => false,
    }
}

/// Some type of `l` mentions one of `parameters`.
pub open spec fn any_mentions_parameter(l: TypeList, parameters: Seq<String>) -> bool
    decreases l,
{
    match l {
        TypeList::Nil => false,
        TypeList::Cons(head, tail) => mentions_parameter(*head, parameters) || any_mentions_parameter(*tail, parameters),
    }
}

/// Whether `ty` mentions one of the generic `parameters`.
pub fn contains_parameter(ty: &Type, parameters: &Vec<String>) -> (r: bool)
    ensures
        r == mentions_parameter(*ty, parameters@),
    decreases ty,
{
    match ty {
        Type::Named(name) => is_listed(parameters, name.as_str()),
        Type::List(inner) | Type::Slice(inner) | Type::Ref { inner, .. } => contains_parameter(inner, parameters),
        Type::Array { element, .. } => contains_parameter(element, parameters),
        Type::Apply { args, .. } => any_contains_parameter(args, parameters),
        Type::Fn { params, result } => any_contains_parameter(params, parameters) || contains_parameter(result, parameters),
        _ => false,
    }
}

/// Whether some type of `l` mentions one of the generic `parameters`.
fn any_contains_parameter(l: &TypeList, parameters: &Vec<String>) -> (r: bool)
    ensures
        r == any_mentions_parameter(*l, parameters@),
    decreases l,
{
    match l {
        TypeList::Nil => false,
        TypeList::Cons(head, tail) => contains_parameter(head, parameters) || any_contains_parameter(tail, parameters),
    }
}

/// A value of type `t` holds a borrow: `t` is a borrow or a slice, or a
/// list, array or application of such a type. A function type's borrows are
/// its parameters', and a raw pointer holds no loan.
pub open spec fn borrows(t: Type) -> bool
    decreases t,
{
    match t {
        Type::Ref { .. } => true,
        Type::Slice(_) => true,
        Type::List(inner) => borrows(*inner),
        Type::Array { element, .. } => borrows(*element),
        Type::Apply { args, .. } => any_borrows(args),
        _ => false,
    }
}

/// Some type of `l` holds a borrow.
pub open spec fn any_borrows(l: TypeList) -> bool
    decreases l,
{
    match l {
        TypeList::Nil => false,
        TypeList::Cons(head, tail) => borrows(*head) || any_borrows(*tail),
    }
}

/// Whether a value of type `ty` holds a borrow.
pub fn contains_borrowed_type(ty: &Type) -> (r: bool)
    ensures
        r == borrows(*ty),
    decreases ty,
{
    match ty {
        Type::Ref { .. } | Type::Slice(_) => true,
        Type::List(inner) => contains_borrowed_type(inner),
        Type::Array { element, .. } => contains_borrowed_type(element),
        Type::Apply { args, .. } => any_contains_borrowed_type(args),
        Type::Fn { .. } => false,
        Type::Ptr(_) => false,
        _ => false,
    }
}

/// Whether some type of `l` holds a borrow.
fn any_contains_borrowed_type(l: &TypeList) -> (r: bool)
    ensures
        r == any_borrows(*l),
    decreases l,
{
    match l {
        TypeList::Nil => false,
        TypeList::Cons(head, tail) => contains_borrowed_type(head) || any_contains_borrowed_type(tail),
    }
}

/// What a table of substitutions maps each generic parameter to.
pub open spec fn substitutions_of(s: Seq<(String, Type)>) -> Map<Seq<char>, Type> {
    table(s, |t: Type| t)
}

/// `t` with every name `s` maps replaced by what it maps to, through lists,
/// arrays, slices, borrows, applications and function types; what is behind
/// a raw pointer is left as it is.
pub open spec fn substituted(t: Type, s: Map<Seq<char>, Type>) -> Type
    decreases t,
{
    match t {
        Type::Named(name) => if s.dom().contains(name@) {
            s[name@]
        } else {
            t
        },
        Type::List(inner) => Type::List(Box::new(substituted(*inner, s))),
        Type::Array { element, length } => Type::Array { element: Box::new(substituted(*element, s)), length },
        Type::Slice(inner) => Type::Slice(Box::new(substituted(*inner, s))),
        Type::Ref { mutable, inner } => Type::Ref { mutable, inner: Box::new(substituted(*inner, s)) },
        Type::Apply { name, args } => Type::Apply { name, args: substituted_list(args, s) },
        Type::Fn { params, result } => Type::Fn {
            params: substituted_list(params, s),
            result: Box::new(substituted(*result, s)),
        },
        _ => t,
    }
}

/// Each type of `l`, substituted.
pub open spec fn substituted_list(l: TypeList, s: Map<Seq<char>, Type>) -> TypeList
    decreases l,
{
    match l {
        TypeList::Nil => TypeList::Nil,
        TypeList::Cons(head, tail) => TypeList::Cons(Box::new(substituted(*head, s)), Box::new(substituted_list(*tail, s))),
    }
}

/// `ty` with each generic parameter the table maps replaced by its type.
pub fn substitute_type(ty: &Type, substitutions: &Vec<(String, Type)>) -> (r: Type)
    requires
        distinct_names(substitutions@),
    ensures
        r == substituted(*ty, substitutions_of(substitutions@)),
    decreases ty,
{
    match ty {
        Type::Named(name) => {
            proof {
                lemma_table(substitutions@, |t: Type| t);
            }
            match find_name(substitutions, name.as_str()) {
                Some(i) => substitutions[i].1.clone(),
                None => ty.clone(),
            }
        },
        Type::List(inner) => Type::List(Box::new(substitute_type(inner, substitutions))),
        Type::Array { element, length } => Type::Array {
            element: Box::new(substitute_type(element, substitutions)),
            length: *length,
        },
        Type::Slice(inner) => Type::Slice(Box::new(substitute_type(inner, substitutions))),
        Type::Ref { mutable, inner } => Type::Ref { mutable: *mutable, inner: Box::new(substitute_type(inner, substitutions)) },
        Type::Apply { name, args } => Type::Apply { name: name.clone(), args: substitute_list(args, substitutions) },
        Type::Fn { params, result } => Type::Fn {
            params: substitute_list(params, substitutions),
            result: Box::new(substitute_type(result, substitutions)),
        },
        _ => ty.clone(),
    }
}

/// Each type of `l`, substituted.
fn substitute_list(l: &TypeList, substitutions: &Vec<(String, Type)>) -> (r: TypeList)
    requires
        distinct_names(substitutions@),
    ensures
        r == substituted_list(*l, substitutions_of(substitutions@)),
    decreases l,
{
    match l {
        TypeList::Nil => TypeList::Nil,
        TypeList::Cons(head, tail) => TypeList::Cons(
            Box::new(substitute_type(head, substitutions)),
            Box::new(substitute_list(tail, substitutions)),
        ),
    }
}

/// The types of `l`, each written, with a comma between each two.
pub open spec fn comma_spelling(l: TypeList) -> Seq<char>
    decreases l,
{
    match l {
        TypeList::Nil => seq![],
        TypeList::Cons(head, tail) => type_spelling(*head) + match *tail {
            TypeList::Nil => seq![],
            _ => ","@ + comma_spelling(*tail),
        },
    }
}

fn push_comma_spelled(out: &mut String, l: &TypeList)
    ensures
        final(out)@ == old(out)@ + comma_spelling(*l),
    decreases l,
{
    match l {
        TypeList::Nil => {},
        TypeList::Cons(head, tail) => {
            push_type(out, head);
            match &**tail {
                TypeList::Nil => {},
                _ => {
                    push_str(out, ",");
                    push_comma_spelled(out, tail);
                },
            }
        },
    }
    assert(final(out)@ =~= old(out)@ + comma_spelling(*l));
}

/// The name a generic function or type gets once applied to `arguments`:
/// `callee$<a,b>`, each argument written as a type.
pub fn generic_instance_name(callee: &str, arguments: &TypeList) -> (r: String)
    ensures
        r@ == callee@ + "$<"@ + comma_spelling(*arguments) + ">"@,
{
    let mut r = String::new();
    push_str(&mut r, callee);
    push_str(&mut r, "$<");
    push_comma_spelled(&mut r, arguments);
    push_str(&mut r, ">");
    r
}


/// The aggregates generated from generic ones, by the name each instance
/// got: the generic type and the arguments it was applied to.
pub struct Instances {
    pub enums: Vec<(String, (String, TypeList))>,
    pub structs: Vec<(String, (String, TypeList))>,
}

impl Instances {
    /// Each table holds an instance name once.
    pub open spec fn wf(&self) -> bool {
        distinct_names(self.enums@) && distinct_names(self.structs@)
    }

    /// The generic type and arguments the instance `name` was generated
    /// from: an enum's first, then a struct's.
    pub open spec fn application(&self, name: Seq<char>) -> Option<(String, TypeList)> {
        let e = table(self.enums@, |v: (String, TypeList)| v);
        let s = table(self.structs@, |v: (String, TypeList)| v);
        if e.dom().contains(name) {
            Some(e[name])
        } else if s.dom().contains(name) {
            Some(s[name])
        } else {
            None
        }
    }

    /// The generic type and arguments an instance name was generated from.
    pub fn application_of(&self, instance: &str) -> (r: Option<(String, TypeList)>)
        requires
            self.wf(),
        ensures
            r == self.application(instance@),
    {
        proof {
            lemma_table(self.enums@, |v: (String, TypeList)| v);
            lemma_table(self.structs@, |v: (String, TypeList)| v);
        }
        match find_name(&self.enums, instance) {
            Some(i) => {
                return Some((self.enums[i].1.0.clone(), self.enums[i].1.1.clone()));
            },
            None => {},
        }
        match find_name(&self.structs, instance) {
            Some(i) => Some((self.structs[i].1.0.clone(), self.structs[i].1.1.clone())),
            None => None,
        }
    }
}

/// What a parameter inferred as two different types is told.
pub open spec fn inferred_twice(name: Seq<char>, previous: Type, actual: Type) -> Seq<char> {
    "generic parameter `"@ + name + "` was inferred as both `"@ + type_spelling(previous) + "` and `"@ + type_spelling(actual)
        + "`"@
}

/// What a type that does not fit its template is told.
pub open spec fn type_mismatch(template: Type, actual: Type) -> Seq<char> {
    "expected `"@ + type_spelling(template) + "`, found `"@ + type_spelling(actual) + "`"@
}

/// The last resort of unification: a template fits a type that is the same
/// type.
pub open spec fn fits_as_is(t: Type, a: Type, s: Map<Seq<char>, Type>) -> (Map<Seq<char>, Type>, Option<Seq<char>>) {
    if same_type(t, a) {
        (s, None)
    } else {
        (s, Some(type_mismatch(t, a)))
    }
}

/// Unifying the template `t` with the type `a`, where `parameters` are the
/// generic parameters and `s` what they were inferred as so far: what they
/// are inferred as then, and the error, if there is one.
///
/// A parameter not inferred yet is inferred as `a`; one inferred already
/// must have been inferred as the same type. Lists, slices, borrows of the
/// same kind, arrays of one length, applications of one generic type and
/// function types of one arity are unified part by part, first to last, up
/// to the first error. A shared borrow in the template fits an exclusive one
/// too, and an application fits the name of an instance generated from it.
/// Anything else fits only the same type.
pub open spec fn unified(
    t: Type,
    a: Type,
    parameters: Seq<String>,
    s: Map<Seq<char>, Type>,
    instances: Instances,
) -> (Map<Seq<char>, Type>, Option<Seq<char>>)
    decreases t,
{
    if t is Named && listed(parameters, t->Named_0@) {
        let name = t->Named_0@;
        if s.dom().contains(name) {
            if same_type(s[name], a) {
                (s, None)
            } else {
                (s, Some(inferred_twice(name, s[name], a)))
            }
        } else {
            (s.insert(name, a), None)
        }
    } else {
        match (t, a) {
            (Type::List(x), Type::List(y)) => unified(*x, *y, parameters, s, instances),
            (Type::Slice(x), Type::Slice(y)) => unified(*x, *y, parameters, s, instances),
            (Type::Ref { mutable: m, inner: x }, Type::Ref { mutable: n, inner: y }) => if m == n || (!m && n) {
                unified(*x, *y, parameters, s, instances)
            } else {
                fits_as_is(t, a, s)
            },
            (Type::Array { element: x, length: m }, Type::Array { element: y, length: n }) => if m == n {
                unified(*x, *y, parameters, s, instances)
            } else {
                fits_as_is(t, a, s)
            },
            (Type::Apply { name: m, args: xs }, Type::Apply { name: n, args: ys }) => if m@ == n@ && xs.items().len()
                == ys.items().len() {
                unified_lists(xs, ys, parameters, s, instances)
            } else {
                fits_as_is(t, a, s)
            },
            (Type::Fn { params: p, result: x }, Type::Fn { params: q, result: y }) => if p.items().len() == q.items().len() {
                let r = unified_lists(p, q, parameters, s, instances);
                if r.1 is Some {
                    r
                } else {
                    unified(*x, *y, parameters, r.0, instances)
                }
            } else {
                fits_as_is(t, a, s)
            },
            (Type::Apply { name, args }, Type::Named(instance)) => match instances.application(instance@) {
                Some((base, arguments)) => if base@ == name@ && arguments.items().len() == args.items().len() {
                    unified_lists(args, arguments, parameters, s, instances)
                } else {
                    (s, Some(type_mismatch(t, a)))
                },
                None => (s, Some(type_mismatch(t, a))),
            },
            _ => fits_as_is(t, a, s),
        }
    }
}

/// Unifying the templates `xs` with the types `ys`, one for one, first to
/// last, up to the first error.
pub open spec fn unified_lists(
    xs: TypeList,
    ys: TypeList,
    parameters: Seq<String>,
    s: Map<Seq<char>, Type>,
    instances: Instances,
) -> (Map<Seq<char>, Type>, Option<Seq<char>>)
    decreases xs,
{
    match (xs, ys) {
        (TypeList::Cons(x, xt), TypeList::Cons(y, yt)) => {
            let r = unified(*x, *y, parameters, s, instances);
            if r.1 is Some {
                r
            } else {
                unified_lists(*xt, *yt, parameters, r.0, instances)
            }
        },
        _ => (s, None),
    }
}

/// Whether the two lists have as many types.
fn same_length(xs: &TypeList, ys: &TypeList) -> (r: bool)
    ensures
        r == (xs.items().len() == ys.items().len()),
    decreases xs,
{
    match (xs, ys) {
        (TypeList::Nil, TypeList::Nil) => true,
        (TypeList::Cons(_, xt), TypeList::Cons(_, yt)) => same_length(xt, yt),
        _ => false,
    }
}

/// `expected `t`, found `a``.
fn mismatch(template: &Type, actual: &Type) -> (r: String)
    ensures
        r@ == type_mismatch(*template, *actual),
{
    let mut r = String::new();
    push_str(&mut r, "expected `");
    push_type(&mut r, template);
    push_str(&mut r, "`, found `");
    push_type(&mut r, actual);
    push_str(&mut r, "`");
    r
}

/// The template fits `actual` only as the same type.
fn fit_as_is(template: &Type, actual: &Type) -> (r: Result<(), String>)
    ensures
        match fits_as_is(*template, *actual, Map::empty()).1 {
            None => r is Ok,
            Some(e) => r matches Err(x) && x@ == e,
        },
{
    if template.same(actual) {
        Ok(())
    } else {
        Err(mismatch(template, actual))
    }
}

/// Unifies the template `template` with the type `actual`, recording in
/// `substitutions` what each generic parameter is inferred as.
pub fn unify_type(
    template: &Type,
    actual: &Type,
    parameters: &Vec<String>,
    substitutions: &mut Vec<(String, Type)>,
    instances: &Instances,
) -> (r: Result<(), String>)
    requires
        distinct_names(old(substitutions)@),
        instances.wf(),
    ensures
        distinct_names(final(substitutions)@),
        ({
            let u = unified(*template, *actual, parameters@, substitutions_of(old(substitutions)@), *instances);
            &&& substitutions_of(final(substitutions)@) == u.0
            &&& match u.1 {
                None => r is Ok,
                Some(e) => r matches Err(x) && x@ == e,
            }
        }),
    decreases template,
{
    match template {
        Type::Named(name) => {
            if is_listed(parameters, name.as_str()) {
                proof {
                    lemma_table(substitutions@, |t: Type| t);
                }
                match find_name(substitutions, name.as_str()) {
                    Some(i) => {
                        if substitutions[i].1.same(actual) {
                            return Ok(());
                        }
                        let mut message = String::new();
                        push_str(&mut message, "generic parameter `");
                        push_str(&mut message, name.as_str());
                        push_str(&mut message, "` was inferred as both `");
                        push_type(&mut message, &substitutions[i].1);
                        push_str(&mut message, "` and `");
                        push_type(&mut message, actual);
                        push_str(&mut message, "`");
                        return Err(message);
                    },
                    None => {
                        let ghost before = substitutions@;
                        let e = (name.clone(), actual.clone());
                        substitutions.push(e);
                        proof {
                            lemma_table_push(before, |t: Type| t, e);
                        }
                        return Ok(());
                    },
                }
            }
        },
        _ => {},
    }
    match (template, actual) {
        (Type::List(x), Type::List(y)) => unify_type(x, y, parameters, substitutions, instances),
        (Type::Slice(x), Type::Slice(y)) => unify_type(x, y, parameters, substitutions, instances),
        (Type::Ref { mutable: m, inner: x }, Type::Ref { mutable: n, inner: y }) => {
            if *m == *n || (!*m && *n) {
                unify_type(x, y, parameters, substitutions, instances)
            } else {
                fit_as_is(template, actual)
            }
        },
        (Type::Array { element: x, length: m }, Type::Array { element: y, length: n }) => {
            if *m == *n {
                unify_type(x, y, parameters, substitutions, instances)
            } else {
                fit_as_is(template, actual)
            }
        },
        (Type::Apply { name: m, args: xs }, Type::Apply { name: n, args: ys }) => {
            if same_text(m.as_str(), n.as_str()) && same_length(xs, ys) {
                unify_lists(xs, ys, parameters, substitutions, instances)
            } else {
                fit_as_is(template, actual)
            }
        },
        (Type::Fn { params: p, result: x }, Type::Fn { params: q, result: y }) => {
            if same_length(p, q) {
                match unify_lists(p, q, parameters, substitutions, instances) {
                    Ok(()) => unify_type(x, y, parameters, substitutions, instances),
                    Err(e) => Err(e),
                }
            } else {
                fit_as_is(template, actual)
            }
        },
        (Type::Apply { name, args }, Type::Named(instance)) => {
            match instances.application_of(instance.as_str()) {
                Some((base, arguments)) => {
                    if same_text(base.as_str(), name.as_str()) && same_length(&arguments, args) {
                        unify_lists(args, &arguments, parameters, substitutions, instances)
                    } else {
                        Err(mismatch(template, actual))
                    }
                },
                None => Err(mismatch(template, actual)),
            }
        },
        _ => fit_as_is(template, actual),
    }
}

/// Unifies the templates `xs` with the types `ys`, one for one, up to the
/// first error.
fn unify_lists(
    xs: &TypeList,
    ys: &TypeList,
    parameters: &Vec<String>,
    substitutions: &mut Vec<(String, Type)>,
    instances: &Instances,
) -> (r: Result<(), String>)
    requires
        distinct_names(old(substitutions)@),
        instances.wf(),
    ensures
        distinct_names(final(substitutions)@),
        ({
            let u = unified_lists(*xs, *ys, parameters@, substitutions_of(old(substitutions)@), *instances);
            &&& substitutions_of(final(substitutions)@) == u.0
            &&& match u.1 {
                None => r is Ok,
                Some(e) => r matches Err(x) && x@ == e,
            }
        }),
    decreases xs,
{
    match (xs, ys) {
        (TypeList::Cons(x, xt), TypeList::Cons(y, yt)) => {
            match unify_type(x, y, parameters, substitutions, instances) {
                Ok(()) => unify_lists(xt, yt, parameters, substitutions, instances),
                Err(e) => Err(e),
            }
        },
        _ => Ok(()),
    }
}


// ------------------------------------------------------ unification laws

/// Every type is the same type as itself.
pub proof fn lemma_same_type_reflexive(t: Type)
    ensures
        same_type(t, t),
    decreases t,
{
    match t {
        Type::List(x) => lemma_same_type_reflexive(*x),
        Type::Array { element, .. } => lemma_same_type_reflexive(*element),
        Type::Slice(x) => lemma_same_type_reflexive(*x),
        Type::Ref { inner, .. } => lemma_same_type_reflexive(*inner),
        Type::Ptr(x) => lemma_same_type_reflexive(*x),
        Type::Apply { args, .. } => lemma_same_types_reflexive(args),
        Type::Fn { params, result } => {
            lemma_same_types_reflexive(params);
            lemma_same_type_reflexive(*result);
        },
        _ => {},
    }
}

/// Every list holds the same types as itself.
pub proof fn lemma_same_types_reflexive(l: TypeList)
    ensures
        same_types(l, l),
    decreases l,
{
    match l {
        TypeList::Nil => {},
        TypeList::Cons(head, tail) => {
            lemma_same_type_reflexive(*head);
            lemma_same_types_reflexive(*tail);
        },
    }
}

/// Lists of the same types have as many.
proof fn lemma_same_types_length(a: TypeList, b: TypeList)
    requires
        same_types(a, b),
    ensures
        a.items().len() == b.items().len(),
    decreases a,
{
    match (a, b) {
        (TypeList::Cons(_, x), TypeList::Cons(_, y)) => lemma_same_types_length(*x, *y),
        _ => {},
    }
}

/// The template and the type are to be unified part for part: every pair of
/// borrows is of the same kind, and no application is to be found behind an
/// instance's name. These are the inputs on which a unified template,
/// substituted, is the type itself.
pub open spec fn literal(t: Type, a: Type) -> bool
    decreases t,
{
    match (t, a) {
        (Type::Ref { mutable: m, inner: x }, Type::Ref { mutable: n, inner: y }) => m == n && literal(*x, *y),
        (Type::List(x), Type::List(y)) => literal(*x, *y),
        (Type::Slice(x), Type::Slice(y)) => literal(*x, *y),
        (Type::Array { element: x, .. }, Type::Array { element: y, .. }) => literal(*x, *y),
        (Type::Apply { args: xs, .. }, Type::Apply { args: ys, .. }) => literal_lists(xs, ys),
        (Type::Fn { params: p, result: x }, Type::Fn { params: q, result: y }) => literal_lists(p, q) && literal(*x, *y),
        (Type::Apply { .. }, Type::Named(_)) => false,
        _ => true,
    }
}

/// Each template of `xs` and its type of `ys` are to be unified part for part.
pub open spec fn literal_lists(xs: TypeList, ys: TypeList) -> bool
    decreases xs,
{
    match (xs, ys) {
        (TypeList::Cons(x, xt), TypeList::Cons(y, yt)) => literal(*x, *y) && literal_lists(*xt, *yt),
        _ => true,
    }
}

/// Every generic parameter that substitution reaches in `t` is bound in `m`.
pub open spec fn bound_in(t: Type, parameters: Seq<String>, m: Map<Seq<char>, Type>) -> bool
    decreases t,
{
    match t {
        Type::Named(name) => listed(parameters, name@) ==> m.dom().contains(name@),
        Type::List(inner) => bound_in(*inner, parameters, m),
        Type::Array { element, .. } => bound_in(*element, parameters, m),
        Type::Slice(inner) => bound_in(*inner, parameters, m),
        Type::Ref { inner, .. } => bound_in(*inner, parameters, m),
        Type::Apply { args, .. } => bound_in_list(args, parameters, m),
        Type::Fn { params, result } => bound_in_list(params, parameters, m) && bound_in(*result, parameters, m),
        _ => true,
    }
}

/// Every generic parameter that substitution reaches in `l` is bound in `m`.
pub open spec fn bound_in_list(l: TypeList, parameters: Seq<String>, m: Map<Seq<char>, Type>) -> bool
    decreases l,
{
    match l {
        TypeList::Nil => true,
        TypeList::Cons(head, tail) => bound_in(*head, parameters, m) && bound_in_list(*tail, parameters, m),
    }
}

/// `m` binds generic parameters only.
pub open spec fn binds_parameters(m: Map<Seq<char>, Type>, parameters: Seq<String>) -> bool {
    forall|k: Seq<char>| #[trigger] m.dom().contains(k) ==> listed(parameters, k)
}

/// Unification keeps every parameter it had inferred, as it was, and infers
/// nothing but parameters, whether it succeeds or not.
pub proof fn lemma_unified_keeps(t: Type, a: Type, ps: Seq<String>, s: Map<Seq<char>, Type>, inst: Instances)
    ensures
        s.submap_of(unified(t, a, ps, s, inst).0),
        forall|k: Seq<char>| #[trigger] unified(t, a, ps, s, inst).0.dom().contains(k) ==> s.dom().contains(k) || listed(ps, k),
    decreases t,
{
    if t is Named && listed(ps, t->Named_0@) {
        assert(s.submap_of(unified(t, a, ps, s, inst).0));
    } else {
        match (t, a) {
            (Type::List(x), Type::List(y)) => lemma_unified_keeps(*x, *y, ps, s, inst),
            (Type::Slice(x), Type::Slice(y)) => lemma_unified_keeps(*x, *y, ps, s, inst),
            (Type::Ref { inner: x, .. }, Type::Ref { inner: y, .. }) => lemma_unified_keeps(*x, *y, ps, s, inst),
            (Type::Array { element: x, .. }, Type::Array { element: y, .. }) => lemma_unified_keeps(*x, *y, ps, s, inst),
            (Type::Apply { args: xs, .. }, Type::Apply { args: ys, .. }) => lemma_unified_lists_keep(xs, ys, ps, s, inst),
            (Type::Fn { params: p, result: x }, Type::Fn { params: q, result: y }) => {
                lemma_unified_lists_keep(p, q, ps, s, inst);
                let r = unified_lists(p, q, ps, s, inst);
                lemma_unified_keeps(*x, *y, ps, r.0, inst);
                if r.1 is None {
                    vstd::map_lib::lemma_submap_of_trans(s, r.0, unified(*x, *y, ps, r.0, inst).0);
                }
            },
            (Type::Apply { args, .. }, Type::Named(instance)) => {
                match inst.application(instance@) {
                    Some((_, arguments)) => lemma_unified_lists_keep(args, arguments, ps, s, inst),
                    None => {},
                }
            },
            _ => {},
        }
    }
}

/// Unifying templates with types one for one keeps every parameter
/// inferred before, as it was, and infers nothing but parameters.
pub proof fn lemma_unified_lists_keep(xs: TypeList, ys: TypeList, ps: Seq<String>, s: Map<Seq<char>, Type>, inst: Instances)
    ensures
        s.submap_of(unified_lists(xs, ys, ps, s, inst).0),
        forall|k: Seq<char>| #[trigger] unified_lists(xs, ys, ps, s, inst).0.dom().contains(k) ==> s.dom().contains(k) || listed(ps, k),
    decreases xs,
{
    match (xs, ys) {
        (TypeList::Cons(x, xt), TypeList::Cons(y, yt)) => {
            lemma_unified_keeps(*x, *y, ps, s, inst);
            let r = unified(*x, *y, ps, s, inst);
            lemma_unified_lists_keep(*xt, *yt, ps, r.0, inst);
            if r.1 is None {
                vstd::map_lib::lemma_submap_of_trans(s, r.0, unified_lists(*xt, *yt, ps, r.0, inst).0);
            }
        },
        _ => {},
    }
}

/// What is bound stays bound as more is inferred.
proof fn lemma_bound_grows(t: Type, ps: Seq<String>, m1: Map<Seq<char>, Type>, m2: Map<Seq<char>, Type>)
    requires
        bound_in(t, ps, m1),
        m1.submap_of(m2),
    ensures
        bound_in(t, ps, m2),
    decreases t,
{
    match t {
        Type::List(x) => lemma_bound_grows(*x, ps, m1, m2),
        Type::Array { element, .. } => lemma_bound_grows(*element, ps, m1, m2),
        Type::Slice(x) => lemma_bound_grows(*x, ps, m1, m2),
        Type::Ref { inner, .. } => lemma_bound_grows(*inner, ps, m1, m2),
        Type::Apply { args, .. } => lemma_bound_list_grows(args, ps, m1, m2),
        Type::Fn { params, result } => {
            lemma_bound_list_grows(params, ps, m1, m2);
            lemma_bound_grows(*result, ps, m1, m2);
        },
        _ => {},
    }
}

proof fn lemma_bound_list_grows(l: TypeList, ps: Seq<String>, m1: Map<Seq<char>, Type>, m2: Map<Seq<char>, Type>)
    requires
        bound_in_list(l, ps, m1),
        m1.submap_of(m2),
    ensures
        bound_in_list(l, ps, m2),
    decreases l,
{
    match l {
        TypeList::Nil => {},
        TypeList::Cons(head, tail) => {
            lemma_bound_grows(*head, ps, m1, m2);
            lemma_bound_list_grows(*tail, ps, m1, m2);
        },
    }
}

/// A successful unification infers every parameter the template mentions.
pub proof fn lemma_unified_binds(t: Type, a: Type, ps: Seq<String>, s: Map<Seq<char>, Type>, inst: Instances)
    ensures
        unified(t, a, ps, s, inst).1 is None ==> bound_in(t, ps, unified(t, a, ps, s, inst).0),
    decreases t,
{
    if t is Named && listed(ps, t->Named_0@) {
    } else {
        match (t, a) {
            (Type::List(x), Type::List(y)) => lemma_unified_binds(*x, *y, ps, s, inst),
            (Type::Slice(x), Type::Slice(y)) => lemma_unified_binds(*x, *y, ps, s, inst),
            (Type::Ref { mutable: m, inner: x }, Type::Ref { mutable: n, inner: y }) => {
                lemma_unified_binds(*x, *y, ps, s, inst);
                if !(m == n || (!m && n)) {
                    lemma_same_type_mentions(t, a, ps, s);
                }
            },
            (Type::Array { element: x, length: m }, Type::Array { element: y, length: n }) => {
                lemma_unified_binds(*x, *y, ps, s, inst);
                if m != n {
                    lemma_same_type_mentions(t, a, ps, s);
                }
            },
            (Type::Apply { name: m, args: xs }, Type::Apply { name: n, args: ys }) => {
                lemma_unified_lists_bind(xs, ys, ps, s, inst);
                if !(m@ == n@ && xs.items().len() == ys.items().len()) {
                    lemma_same_type_mentions(t, a, ps, s);
                }
            },
            (Type::Fn { params: p, result: x }, Type::Fn { params: q, result: y }) => {
                if p.items().len() == q.items().len() {
                    lemma_unified_lists_bind(p, q, ps, s, inst);
                    let r = unified_lists(p, q, ps, s, inst);
                    lemma_unified_binds(*x, *y, ps, r.0, inst);
                    lemma_unified_keeps(*x, *y, ps, r.0, inst);
                    if r.1 is None {
                        lemma_bound_list_grows(p, ps, r.0, unified(*x, *y, ps, r.0, inst).0);
                    }
                } else {
                    lemma_same_type_mentions(t, a, ps, s);
                }
            },
            (Type::Apply { args, .. }, Type::Named(instance)) => {
                match inst.application(instance@) {
                    Some((_, arguments)) => lemma_unified_lists_bind(args, arguments, ps, s, inst),
                    None => {},
                }
            },
            _ => {
                lemma_same_type_mentions(t, a, ps, s);
            },
        }
    }
}

/// Unifying templates with as many types, successfully, infers every
/// parameter the templates mention.
pub proof fn lemma_unified_lists_bind(xs: TypeList, ys: TypeList, ps: Seq<String>, s: Map<Seq<char>, Type>, inst: Instances)
    ensures
        unified_lists(xs, ys, ps, s, inst).1 is None && xs.items().len() == ys.items().len() ==> bound_in_list(
            xs,
            ps,
            unified_lists(xs, ys, ps, s, inst).0,
        ),
    decreases xs,
{
    match (xs, ys) {
        (TypeList::Cons(x, xt), TypeList::Cons(y, yt)) => {
            lemma_unified_binds(*x, *y, ps, s, inst);
            let r = unified(*x, *y, ps, s, inst);
            lemma_unified_lists_bind(*xt, *yt, ps, r.0, inst);
            lemma_unified_lists_keep(*xt, *yt, ps, r.0, inst);
            if r.1 is None {
                lemma_bound_grows(*x, ps, r.0, unified_lists(*xt, *yt, ps, r.0, inst).0);
            }
        },
        _ => {},
    }
}

/// Where a template is the same type as `a` and fits as it is, the
/// parameters it mentions are the names of `a`: a template that fits as
/// is and mentions a parameter is one that unification takes apart first,
/// so what is left is a type in which no parameter is reached.
proof fn lemma_same_type_mentions(t: Type, a: Type, ps: Seq<String>, s: Map<Seq<char>, Type>)
    ensures
        fits_as_is(t, a, s).1 is None && !(t is Named && listed(ps, t->Named_0@)) && !(t is List && a is List) && !(t is Slice
            && a is Slice) && !(t is Ref && a is Ref && (t->mutable == a->mutable || (!t->mutable && a->mutable)))
            && !(t is Array && a is Array && t->length == a->length) && !(t is Apply && a is Apply && t->Apply_name@
            == a->Apply_name@ && t->Apply_args.items().len() == a->Apply_args.items().len()) && !(t is Fn && a is Fn
            && t->params.items().len() == a->params.items().len()) ==> bound_in(t, ps, s),
{
    if fits_as_is(t, a, s).1 is None {
        match (t, a) {
            (Type::Apply { args: xs, .. }, Type::Apply { args: ys, .. }) => {
                lemma_same_types_length(xs, ys);
            },
            (Type::Fn { params: p, .. }, Type::Fn { params: q, .. }) => {
                lemma_same_types_length(p, q);
            },
            _ => {},
        }
    }
}


/// Substituting with more inferred changes nothing where every parameter
/// the type mentions was inferred already.
proof fn lemma_substituted_local(t: Type, ps: Seq<String>, m1: Map<Seq<char>, Type>, m2: Map<Seq<char>, Type>)
    requires
        bound_in(t, ps, m1),
        m1.submap_of(m2),
        binds_parameters(m2, ps),
    ensures
        substituted(t, m1) == substituted(t, m2),
    decreases t,
{
    match t {
        Type::Named(name) => {
            if !listed(ps, name@) {
                assert(!m2.dom().contains(name@));
            }
        },
        Type::List(x) => lemma_substituted_local(*x, ps, m1, m2),
        Type::Array { element, .. } => lemma_substituted_local(*element, ps, m1, m2),
        Type::Slice(x) => lemma_substituted_local(*x, ps, m1, m2),
        Type::Ref { inner, .. } => lemma_substituted_local(*inner, ps, m1, m2),
        Type::Apply { args, .. } => lemma_substituted_list_local(args, ps, m1, m2),
        Type::Fn { params, result } => {
            lemma_substituted_list_local(params, ps, m1, m2);
            lemma_substituted_local(*result, ps, m1, m2);
        },
        _ => {},
    }
}

proof fn lemma_substituted_list_local(l: TypeList, ps: Seq<String>, m1: Map<Seq<char>, Type>, m2: Map<Seq<char>, Type>)
    requires
        bound_in_list(l, ps, m1),
        m1.submap_of(m2),
        binds_parameters(m2, ps),
    ensures
        substituted_list(l, m1) == substituted_list(l, m2),
    decreases l,
{
    match l {
        TypeList::Nil => {},
        TypeList::Cons(head, tail) => {
            lemma_substituted_local(*head, ps, m1, m2);
            lemma_substituted_list_local(*tail, ps, m1, m2);
        },
    }
}

/// Unification infers parameters only, where only parameters were inferred
/// before.
proof fn lemma_unified_binds_parameters(t: Type, a: Type, ps: Seq<String>, s: Map<Seq<char>, Type>, inst: Instances)
    requires
        binds_parameters(s, ps),
    ensures
        binds_parameters(unified(t, a, ps, s, inst).0, ps),
{
    lemma_unified_keeps(t, a, ps, s, inst);
}

proof fn lemma_unified_lists_bind_parameters(xs: TypeList, ys: TypeList, ps: Seq<String>, s: Map<Seq<char>, Type>, inst: Instances)
    requires
        binds_parameters(s, ps),
    ensures
        binds_parameters(unified_lists(xs, ys, ps, s, inst).0, ps),
{
    lemma_unified_lists_keep(xs, ys, ps, s, inst);
}

/// A template that unifies with a type, part for part, is that type once
/// each generic parameter in it is replaced by what unification inferred it
/// as.
///
/// Where a shared borrow in the template met an exclusive one, or an
/// application met the name of an instance, the two are not the same type
/// and the law does not hold; `literal` leaves those inputs out.
pub proof fn lemma_unification_is_sound(t: Type, a: Type, ps: Seq<String>, s: Map<Seq<char>, Type>, inst: Instances)
    requires
        literal(t, a),
        binds_parameters(s, ps),
        unified(t, a, ps, s, inst).1 is None,
    ensures
        same_type(substituted(t, unified(t, a, ps, s, inst).0), a),
    decreases t,
{
    if t is Named && listed(ps, t->Named_0@) {
        lemma_same_type_reflexive(a);
    } else {
        match (t, a) {
            (Type::List(x), Type::List(y)) => lemma_unification_is_sound(*x, *y, ps, s, inst),
            (Type::Slice(x), Type::Slice(y)) => lemma_unification_is_sound(*x, *y, ps, s, inst),
            (Type::Ref { inner: x, .. }, Type::Ref { inner: y, .. }) => lemma_unification_is_sound(*x, *y, ps, s, inst),
            (Type::Array { element: x, length: m }, Type::Array { element: y, length: n }) => {
                if m == n {
                    lemma_unification_is_sound(*x, *y, ps, s, inst);
                }
            },
            (Type::Apply { name: m, args: xs }, Type::Apply { name: n, args: ys }) => {
                if m@ == n@ && xs.items().len() == ys.items().len() {
                    lemma_unified_lists_sound(xs, ys, ps, s, inst);
                } else {
                    lemma_same_types_length(xs, ys);
                }
            },
            (Type::Fn { params: p, result: x }, Type::Fn { params: q, result: y }) => {
                if p.items().len() == q.items().len() {
                    let r = unified_lists(p, q, ps, s, inst);
                    lemma_unified_lists_sound(p, q, ps, s, inst);
                    lemma_unified_lists_bind(p, q, ps, s, inst);
                    lemma_unified_lists_bind_parameters(p, q, ps, s, inst);
                    lemma_unification_is_sound(*x, *y, ps, r.0, inst);
                    lemma_unified_keeps(*x, *y, ps, r.0, inst);
                    lemma_unified_binds_parameters(*x, *y, ps, r.0, inst);
                    lemma_substituted_list_local(p, ps, r.0, unified(*x, *y, ps, r.0, inst).0);
                } else {
                    lemma_same_types_length(p, q);
                }
            },
            _ => {},
        }
    }
}

/// Templates unified with types one for one, each part for part, are those
/// types once substituted.
pub proof fn lemma_unified_lists_sound(xs: TypeList, ys: TypeList, ps: Seq<String>, s: Map<Seq<char>, Type>, inst: Instances)
    requires
        literal_lists(xs, ys),
        xs.items().len() == ys.items().len(),
        binds_parameters(s, ps),
        unified_lists(xs, ys, ps, s, inst).1 is None,
    ensures
        same_types(substituted_list(xs, unified_lists(xs, ys, ps, s, inst).0), ys),
    decreases xs,
{
    match (xs, ys) {
        (TypeList::Cons(x, xt), TypeList::Cons(y, yt)) => {
            let r = unified(*x, *y, ps, s, inst);
            lemma_unification_is_sound(*x, *y, ps, s, inst);
            lemma_unified_binds(*x, *y, ps, s, inst);
            lemma_unified_binds_parameters(*x, *y, ps, s, inst);
            lemma_unified_lists_sound(*xt, *yt, ps, r.0, inst);
            lemma_unified_lists_keep(*xt, *yt, ps, r.0, inst);
            lemma_unified_lists_bind_parameters(*xt, *yt, ps, r.0, inst);
            lemma_substituted_local(*x, ps, r.0, unified_lists(*xt, *yt, ps, r.0, inst).0);
        },
        _ => {},
    }
}

} // verus!
