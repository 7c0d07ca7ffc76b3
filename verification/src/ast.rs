//! The types a program's values have, and the declarations that connect one
//! module of a package to another.
use crate::diagnostic::Span;
use crate::text::{push_char, push_str};
use vstd::prelude::*;

verus! {

/// A Slopium type.
#[derive(Debug, PartialEq, Eq)]
pub enum Type {
    Unit,
    Bool,
    I8,
    I16,
    I32,
    I64,
    U8,
    U16,
    U32,
    U64,
    F64,
    String,
    /// A struct or enum, by name, or a generic parameter.
    Named(String),
    List(Box<Type>),
    /// A fixed number of values of one type.
    Array { element: Box<Type>, length: usize },
    Slice(Box<Type>),
    Ref { mutable: bool, inner: Box<Type> },
    Ptr(Box<Type>),
    /// A generic struct or enum applied to its arguments, as `(Option T)`.
    Apply { name: String, args: TypeList },
    /// A function value: what it takes and what it answers.
    Fn { params: TypeList, result: Box<Type> },
}

/// The types of a list, first to last: the arguments of an application, or
/// the parameters of a function type.
#[derive(Debug, PartialEq, Eq)]
pub enum TypeList {
    Nil,
    Cons(Box<Type>, Box<TypeList>),
}

impl TypeList {
    /// The types of the list, in order.
    pub open spec fn items(self) -> Seq<Type>
        decreases self,
    {
        match self {
            TypeList::Nil => seq![],
            TypeList::Cons(head, tail) => seq![*head] + tail.items(),
        }
    }

    /// How many types the list has.
    pub fn len(&self) -> (n: usize)
        requires
            self.items().len() <= usize::MAX,
        ensures
            n == self.items().len(),
        decreases self,
    {
        match self {
            TypeList::Nil => 0,
            TypeList::Cons(_, tail) => 1 + tail.len(),
        }
    }

    /// The list of `types`, in order.
    pub fn from_vec(types: Vec<Type>) -> (l: TypeList)
        ensures
            l.items() == types@,
    {
        let mut types = types;
        let mut l = TypeList::Nil;
        let ghost all = types@;
        assert(all.skip(all.len() as int) =~= seq![]);
        while types.len() > 0
            invariant
                all.len() >= types@.len(),
                types@ == all.take(types@.len() as int),
                l.items() == all.skip(types@.len() as int),
            decreases types@.len(),
        {
            let ghost n = types@.len();
            let t = types.pop().unwrap();
            assert(t == all[n - 1]);
            l = TypeList::Cons(Box::new(t), Box::new(l));
            assert(types@ =~= all.take(n - 1));
            assert(l.items() =~= all.skip(n - 1));
        }
        assert(all.skip(0) =~= all);
        l
    }
}

/// Two types are the same type: the same shape, and names spelled alike.
pub open spec fn same_type(a: Type, b: Type) -> bool
    decreases a,
{
    match (a, b) {
        (Type::Named(x), Type::Named(y)) => x@ == y@,
        (Type::List(x), Type::List(y)) => same_type(*x, *y),
        (Type::Array { element: x, length: m }, Type::Array { element: y, length: n }) => m == n && same_type(*x, *y),
        (Type::Slice(x), Type::Slice(y)) => same_type(*x, *y),
        (Type::Ref { mutable: m, inner: x }, Type::Ref { mutable: n, inner: y }) => m == n
            && same_type(*x, *y),
        (Type::Ptr(x), Type::Ptr(y)) => same_type(*x, *y),
        (Type::Apply { name: m, args: x }, Type::Apply { name: n, args: y }) => m@ == n@ && same_types(x, y),
        (Type::Fn { params: p, result: r }, Type::Fn { params: q, result: s }) => same_types(p, q) && same_type(*r, *s),
        (Type::Unit, Type::Unit) => true,
        (Type::Bool, Type::Bool) => true,
        (Type::I8, Type::I8) => true,
        (Type::I16, Type::I16) => true,
        (Type::I32, Type::I32) => true,
        (Type::I64, Type::I64) => true,
        (Type::U8, Type::U8) => true,
        (Type::U16, Type::U16) => true,
        (Type::U32, Type::U32) => true,
        (Type::U64, Type::U64) => true,
        (Type::F64, Type::F64) => true,
        (Type::String, Type::String) => true,
        _ => false,
    }
}

/// Two lists hold the same types, one for one.
pub open spec fn same_types(a: TypeList, b: TypeList) -> bool
    decreases a,
{
    match (a, b) {
        (TypeList::Nil, TypeList::Nil) => true,
        (TypeList::Cons(x, xs), TypeList::Cons(y, ys)) => same_type(*x, *y) && same_types(*xs, *ys),
        _ => false,
    }
}

/// The fixed-width integer types.
pub open spec fn integer_type(t: Type) -> bool {
    t is I8 || t is I16 || t is I32 || t is I64 || t is U8 || t is U16 || t is U32 || t is U64
}

impl Type {
    /// Whether `self` and `other` are the same type.
    pub fn same(&self, other: &Type) -> (r: bool)
        ensures
            r == same_type(*self, *other),
        decreases self,
    {
        match (self, other) {
            (Type::Named(x), Type::Named(y)) => x.eq(y),
            (Type::List(x), Type::List(y)) => x.same(y),
            (Type::Array { element: x, length: m }, Type::Array { element: y, length: n }) => *m == *n && x.same(y),
            (Type::Slice(x), Type::Slice(y)) => x.same(y),
            (Type::Ref { mutable: m, inner: x }, Type::Ref { mutable: n, inner: y }) => *m == *n
                && x.same(y),
            (Type::Ptr(x), Type::Ptr(y)) => x.same(y),
            (Type::Apply { name: m, args: x }, Type::Apply { name: n, args: y }) => m.eq(n) && x.same(y),
            (Type::Fn { params: p, result: r }, Type::Fn { params: q, result: s }) => p.same(q) && r.same(s),
            (Type::Unit, Type::Unit) => true,
            (Type::Bool, Type::Bool) => true,
            (Type::I8, Type::I8) => true,
            (Type::I16, Type::I16) => true,
            (Type::I32, Type::I32) => true,
            (Type::I64, Type::I64) => true,
            (Type::U8, Type::U8) => true,
            (Type::U16, Type::U16) => true,
            (Type::U32, Type::U32) => true,
            (Type::U64, Type::U64) => true,
            (Type::F64, Type::F64) => true,
            (Type::String, Type::String) => true,
            _ => false,
        }
    }

    /// Whether this is one of the fixed-width integer types.
    pub fn is_integer(&self) -> (r: bool)
        ensures
            r == integer_type(*self),
    {
        match self {
            Type::I8 | Type::I16 | Type::I32 | Type::I64 | Type::U8 | Type::U16 | Type::U32
            | Type::U64 => true,
            _ => false,
        }
    }

    /// Whether this is the one floating-point type.
    pub fn is_f64(&self) -> (r: bool)
        ensures
            r == (*self is F64),
    {
        match self {
            Type::F64 => true,
            _ => false,
        }
    }
}

impl TypeList {
    /// Whether the two lists hold the same types, one for one.
    pub fn same(&self, other: &TypeList) -> (r: bool)
        ensures
            r == same_types(*self, *other),
        decreases self,
    {
        match (self, other) {
            (TypeList::Nil, TypeList::Nil) => true,
            (TypeList::Cons(x, xs), TypeList::Cons(y, ys)) => x.same(y) && xs.same(ys),
            _ => false,
        }
    }
}

/// How a type is written in source.
pub open spec fn type_spelling(t: Type) -> Seq<char>
    decreases t,
{
    match t {
        Type::Unit => "unit"@,
        Type::Bool => "bool"@,
        Type::I8 => "i8"@,
        Type::I16 => "i16"@,
        Type::I32 => "i32"@,
        Type::I64 => "i64"@,
        Type::U8 => "u8"@,
        Type::U16 => "u16"@,
        Type::U32 => "u32"@,
        Type::U64 => "u64"@,
        Type::F64 => "f64"@,
        Type::String => "String"@,
        Type::Named(name) => name@,
        Type::List(inner) => "(List "@ + type_spelling(*inner) + ")"@,
        Type::Array { element, length } => "(Array "@ + type_spelling(*element) + " "@ + crate::text::decimal(
            length as nat,
        ) + ")"@,
        Type::Slice(inner) => "(Slice "@ + type_spelling(*inner) + ")"@,
        Type::Ref { mutable, inner } => if mutable {
            "(&mut "@ + type_spelling(*inner) + ")"@
        } else {
            "(& "@ + type_spelling(*inner) + ")"@
        },
        Type::Ptr(inner) => "(Ptr "@ + type_spelling(*inner) + ")"@,
        Type::Apply { name, args } => "("@ + name@ + spaced_spelling(args) + ")"@,
        Type::Fn { params, result } => "(Fn ("@ + list_spelling(params) + ") "@ + type_spelling(*result) + ")"@,
    }
}

/// Each type of `l`, written after a space.
pub open spec fn spaced_spelling(l: TypeList) -> Seq<char>
    decreases l,
{
    match l {
        TypeList::Nil => seq![],
        TypeList::Cons(head, tail) => " "@ + type_spelling(*head) + spaced_spelling(*tail),
    }
}

/// The types of `l`, written with a space between each two.
pub open spec fn list_spelling(l: TypeList) -> Seq<char>
    decreases l,
{
    match l {
        TypeList::Nil => seq![],
        TypeList::Cons(head, tail) => type_spelling(*head) + spaced_spelling(*tail),
    }
}

/// Appends how `t` is written in source to `out`.
#[verifier::spinoff_prover]
#[verifier::rlimit(50)]
pub fn push_type(out: &mut String, t: &Type)
    ensures
        final(out)@ == old(out)@ + type_spelling(*t),
    decreases t,
{
    match t {
        Type::Unit => push_str(out, "unit"),
        Type::Bool => push_str(out, "bool"),
        Type::I8 => push_str(out, "i8"),
        Type::I16 => push_str(out, "i16"),
        Type::I32 => push_str(out, "i32"),
        Type::I64 => push_str(out, "i64"),
        Type::U8 => push_str(out, "u8"),
        Type::U16 => push_str(out, "u16"),
        Type::U32 => push_str(out, "u32"),
        Type::U64 => push_str(out, "u64"),
        Type::F64 => push_str(out, "f64"),
        Type::String => push_str(out, "String"),
        Type::Named(name) => push_str(out, name.as_str()),
        Type::List(inner) => {
            push_str(out, "(List ");
            push_type(out, inner);
            push_str(out, ")");
        },
        Type::Array { element, length } => {
            push_str(out, "(Array ");
            push_type(out, element);
            push_str(out, " ");
            crate::text::push_usize(out, *length);
            push_str(out, ")");
        },
        Type::Slice(inner) => {
            push_str(out, "(Slice ");
            push_type(out, inner);
            push_str(out, ")");
        },
        Type::Ref { mutable, inner } => {
            if *mutable {
                push_str(out, "(&mut ");
            } else {
                push_str(out, "(& ");
            }
            push_type(out, inner);
            push_str(out, ")");
        },
        Type::Ptr(inner) => {
            push_str(out, "(Ptr ");
            push_type(out, inner);
            push_str(out, ")");
        },
        Type::Apply { name, args } => {
            push_str(out, "(");
            push_str(out, name.as_str());
            push_spaced(out, args);
            push_str(out, ")");
        },
        Type::Fn { params, result } => {
            push_str(out, "(Fn (");
            let ghost opened = out@;
            match params {
                TypeList::Nil => {},
                TypeList::Cons(head, tail) => {
                    push_type(out, head);
                    push_spaced(out, tail);
                },
            }
            assert(out@ =~= opened + list_spelling(*params));
            push_str(out, ") ");
            push_type(out, result);
            push_str(out, ")");
        },
    }
    assert(final(out)@ =~= old(out)@ + type_spelling(*t));
}

/// Appends each type of `l`, after a space, to `out`.
pub fn push_spaced(out: &mut String, l: &TypeList)
    ensures
        final(out)@ == old(out)@ + spaced_spelling(*l),
    decreases l,
{
    match l {
        TypeList::Nil => {},
        TypeList::Cons(head, tail) => {
            push_str(out, " ");
            push_type(out, head);
            push_spaced(out, tail);
        },
    }
    assert(final(out)@ =~= old(out)@ + spaced_spelling(*l));
}

impl Clone for Type {
    fn clone(&self) -> (r: Type)
        ensures
            r == *self,
        decreases self,
    {
        match self {
            Type::Unit => Type::Unit,
            Type::Bool => Type::Bool,
            Type::I8 => Type::I8,
            Type::I16 => Type::I16,
            Type::I32 => Type::I32,
            Type::I64 => Type::I64,
            Type::U8 => Type::U8,
            Type::U16 => Type::U16,
            Type::U32 => Type::U32,
            Type::U64 => Type::U64,
            Type::F64 => Type::F64,
            Type::String => Type::String,
            Type::Named(name) => Type::Named(name.clone()),
            Type::List(inner) => Type::List(Box::new((**inner).clone())),
            Type::Array { element, length } => Type::Array { element: Box::new((**element).clone()), length: *length },
            Type::Slice(inner) => Type::Slice(Box::new((**inner).clone())),
            Type::Ref { mutable, inner } => Type::Ref {
                mutable: *mutable,
                inner: Box::new((**inner).clone()),
            },
            Type::Ptr(inner) => Type::Ptr(Box::new((**inner).clone())),
            Type::Apply { name, args } => Type::Apply { name: name.clone(), args: args.clone() },
            Type::Fn { params, result } => Type::Fn { params: params.clone(), result: Box::new((**result).clone()) },
        }
    }
}

impl Clone for TypeList {
    fn clone(&self) -> (r: TypeList)
        ensures
            r == *self,
        decreases self,
    {
        match self {
            TypeList::Nil => TypeList::Nil,
            TypeList::Cons(head, tail) => TypeList::Cons(Box::new((**head).clone()), Box::new((**tail).clone())),
        }
    }
}

/// One name of an `export` or a `take`: the path written, and the name it is
/// known by where it is bound.
#[derive(Clone, Debug)]
pub struct ImportItem {
    pub path: String,
    pub alias: String,
    pub span: Span,
}

/// A `take`: names brought into a module from another one.
#[derive(Clone, Debug)]
pub struct TakeDecl {
    pub module: String,
    pub items: Vec<ImportItem>,
    pub span: Span,
}

/// A parameter: of a function, an extern or a `lambda`.
#[derive(Debug)]
pub struct Param {
    pub name: String,
    pub ty: Type,
    pub span: Span,
}

/// A name a `lambda` takes from the function around it.
#[derive(Debug)]
pub struct Capture {
    pub name: String,
    pub span: Span,
}

/// `and` or `or`.
#[derive(Clone, Copy, Debug, PartialEq, Eq)]
pub enum LogicalOp {
    And,
    Or,
}

/// What a pattern of a `match` arm matches.
#[derive(Debug)]
pub enum PatternKind {
    Wildcard,
    Binding(String),
    Bool(bool),
    Int(i64),
    /// A variant, by its path, and patterns for its fields.
    Enum { path: String, fields: Vec<Pattern> },
    /// A struct, by its path, and patterns for the fields it names.
    Struct { path: String, fields: Vec<PatternField> },
}

/// A pattern and where it was written.
#[derive(Debug)]
pub struct Pattern {
    pub kind: PatternKind,
    pub span: Span,
}

/// One named field of a struct pattern.
#[derive(Debug)]
pub struct PatternField {
    pub name: String,
    pub pattern: Pattern,
    pub span: Span,
}

/// One arm of a `match`: a pattern, an optional `when` guard, a body.
#[derive(Debug)]
pub struct MatchArm {
    pub pattern: Pattern,
    pub guard: Option<Expr>,
    pub body: Expr,
    pub span: Span,
}

/// What an expression is.
#[derive(Debug)]
pub enum ExprKind {
    Unit,
    Bool(bool),
    Int(i64),
    /// A float literal, held as the bits of its `f64`.
    Float(u64),
    /// A text literal's bytes.
    String(Vec<u8>),
    /// A name, and what it would mean as a top-level item once resolved.
    Var { name: String, resolved: Option<String> },
    Let { name: String, mutable: bool, ty: Option<Type>, value: Box<Expr> },
    /// `set`: a new value for a binding.
    Assign { name: String, value: Box<Expr> },
    Defer(Box<Expr>),
    Do(Vec<Expr>),
    Unsafe(Vec<Expr>),
    If { condition: Box<Expr>, then_expr: Box<Expr>, else_expr: Box<Expr> },
    Loop { body: Box<Expr> },
    While { condition: Box<Expr>, body: Box<Expr> },
    Match { value: Box<Expr>, arms: Vec<MatchArm> },
    Borrow { mutable: bool, value: Box<Expr> },
    Try(Box<Expr>),
    /// A widening to `target`.
    Convert { target: Type, value: Box<Expr> },
    Call { callee: String, args: Vec<Expr> },
    Logical { op: LogicalOp, operands: Vec<Expr> },
    /// Functions composed into one function value.
    Compose { operands: Vec<Expr> },
    Lambda { captures: Vec<Capture>, params: Vec<Param>, result: Type, body: Box<Expr> },
    Break(Option<Box<Expr>>),
    Continue,
}

/// An expression and where it was written.
#[derive(Debug)]
pub struct Expr {
    pub kind: ExprKind,
    pub span: Span,
}

/// A `fn`.
#[derive(Debug)]
pub struct Function {
    pub name: String,
    pub inline: bool,
    pub type_params: Vec<String>,
    pub params: Vec<Param>,
    pub return_type: Type,
    pub body: Expr,
    pub span: Span,
}

/// An `extern`: a C function, the name calls use and the symbol it reaches.
#[derive(Debug)]
pub struct Extern {
    pub name: String,
    pub symbol: String,
    pub symbol_span: Span,
    pub params: Vec<Param>,
    pub return_type: Type,
    pub span: Span,
}

/// A `test`.
#[derive(Debug)]
pub struct Test {
    pub name: String,
    pub body: Expr,
    pub span: Span,
}

/// A field of a struct or of an enum variant.
#[derive(Debug)]
pub struct Field {
    pub name: String,
    pub ty: Type,
    pub span: Span,
}

/// A `struct`.
#[derive(Debug)]
pub struct StructDecl {
    pub name: String,
    pub type_params: Vec<String>,
    pub fields: Vec<Field>,
    pub span: Span,
}

/// One variant of an `enum`.
#[derive(Debug)]
pub struct Variant {
    pub name: String,
    pub fields: Vec<Field>,
    pub span: Span,
}

/// An `enum`.
#[derive(Debug)]
pub struct EnumDecl {
    pub name: String,
    pub type_params: Vec<String>,
    pub variants: Vec<Variant>,
    pub span: Span,
}

/// A module-level `const`.
#[derive(Debug)]
pub struct ConstDecl {
    pub name: String,
    pub ty: Option<Type>,
    pub value: Expr,
    pub span: Span,
}

/// One module's program: its declarations, and what it exports and takes.
#[derive(Debug)]
pub struct Program {
    pub functions: Vec<Function>,
    pub externs: Vec<Extern>,
    pub tests: Vec<Test>,
    pub structs: Vec<StructDecl>,
    pub enums: Vec<EnumDecl>,
    pub consts: Vec<ConstDecl>,
    pub exports: Vec<ImportItem>,
    pub takes: Vec<TakeDecl>,
}

} // verus!
