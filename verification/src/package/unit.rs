//! Making a module unit of a parsed program, and joining the programs of a
//! package into one.
use crate::ast::{
    ConstDecl, EnumDecl, Extern, Function, ImportItem, Program, StructDecl, TakeDecl, Test,
};
use crate::diagnostic::Span;
use crate::package::qualified::{collect_qualified_names, program_names, texts_of};
use crate::package::resolve::{DeclarationKind, ModuleUnit, TopLevel};
use crate::package::shift::{fits_program, shift_program, shifted_program};
use vstd::prelude::*;

verus! {

/// A top-level declaration as plain values.
pub open spec fn item_view(t: TopLevel) -> (Seq<char>, DeclarationKind, Span) {
    (t.name@, t.kind, t.span)
}

/// The top-level declarations of `p`, in the order a module declares them:
/// functions, structs, enums, externs, then constants.
pub open spec fn program_items(p: Program) -> Seq<(Seq<char>, DeclarationKind, Span)> {
    p.functions@.map_values(|f: Function| (f.name@, DeclarationKind::Function, f.span))
        + p.structs@.map_values(|s: StructDecl| (s.name@, DeclarationKind::Struct, s.span))
        + p.enums@.map_values(|e: EnumDecl| (e.name@, DeclarationKind::Enum, e.span))
        + p.externs@.map_values(|e: Extern| (e.name@, DeclarationKind::Extern, e.span))
        + p.consts@.map_values(|c: ConstDecl| (c.name@, DeclarationKind::Const, c.span))
}

fn copy_item(x: &ImportItem) -> (r: ImportItem)
    ensures
        r == *x,
{
    ImportItem { path: x.path.clone(), alias: x.alias.clone(), span: x.span }
}

fn copy_items(xs: &Vec<ImportItem>) -> (r: Vec<ImportItem>)
    ensures
        r@ == xs@,
{
    let mut out: Vec<ImportItem> = Vec::new();
    let mut k: usize = 0;
    while k < xs.len()
        invariant
            k <= xs@.len(),
            out@ == xs@.subrange(0, k as int),
        decreases xs@.len() - k,
    {
        out.push(copy_item(&xs[k]));
        assert(xs@.subrange(0, k + 1) =~= xs@.subrange(0, k as int).push(xs@[k as int]));
        k = k + 1;
    }
    assert(xs@.subrange(0, xs@.len() as int) =~= xs@);
    out
}

/// A `take` declaration as plain values.
pub open spec fn take_view(t: TakeDecl) -> (Seq<char>, Seq<ImportItem>, Span) {
    (t.module@, t.items@, t.span)
}

fn copy_takes(xs: &Vec<TakeDecl>) -> (r: Vec<TakeDecl>)
    ensures
        r@.map_values(|t: TakeDecl| take_view(t)) == xs@.map_values(|t: TakeDecl| take_view(t)),
{
    let mut out: Vec<TakeDecl> = Vec::new();
    let mut k: usize = 0;
    while k < xs.len()
        invariant
            k <= xs@.len(),
            out@.map_values(|t: TakeDecl| take_view(t)) == xs@.subrange(0, k as int).map_values(|t: TakeDecl| take_view(t)),
        decreases xs@.len() - k,
    {
        let x = &xs[k];
        let t = TakeDecl { module: x.module.clone(), items: copy_items(&x.items), span: x.span };
        assert(t.items@ == x.items@);
        let ghost before = out@;
        out.push(t);
        assert(out@.map_values(|t: TakeDecl| take_view(t)) =~= before.map_values(|t: TakeDecl| take_view(t)).push(take_view(xs@[k as int])));
        assert(xs@.subrange(0, k + 1).map_values(|t: TakeDecl| take_view(t)) =~= xs@.subrange(0, k as int).map_values(|t: TakeDecl| take_view(t)).push(take_view(xs@[k as int])));
        k = k + 1;
    }
    assert(xs@.subrange(0, xs@.len() as int) =~= xs@);
    out
}

fn push_item(out: &mut Vec<TopLevel>, name: &String, kind: DeclarationKind, span: Span)
    ensures
        final(out)@.map_values(|t: TopLevel| item_view(t)) == old(out)@.map_values(|t: TopLevel| item_view(t)).push(
            (name@, kind, span),
        ),
{
    out.push(TopLevel { name: name.clone(), kind, span });
    assert(out@.map_values(|t: TopLevel| item_view(t)) =~= old(out)@.map_values(|t: TopLevel| item_view(t)).push(
        (name@, kind, span),
    ));
}

impl ModuleUnit {
    /// The unit of the module `module`, read from the file at `path` whose
    /// text is `source_len` bytes long and that parsed to `program`: its
    /// declarations, exports, takes and the qualified names it mentions are
    /// the program's, and nothing is resolved yet.
    pub fn of_program(
        path: String,
        module: String,
        namespace: Option<String>,
        source_len: usize,
        program: &Program,
    ) -> (u: ModuleUnit)
        ensures
            u.path == path,
            u.module == module,
            u.namespace == namespace,
            u.source_len == source_len,
            u.base == 0,
            u.items@.map_values(|t: TopLevel| item_view(t)) == program_items(*program),
            u.exports@ == program.exports@,
            u.takes@.map_values(|t: TakeDecl| take_view(t)) == program.takes@.map_values(|t: TakeDecl| take_view(t)),
            texts_of(u.names@) == program_names(*program),
            u.declarations@.len() == 0,
            u.imports@.len() == 0,
    {
        let mut items: Vec<TopLevel> = Vec::new();
        let ghost p = *program;
        let mut k: usize = 0;
        while k < program.functions.len()
            invariant
                k <= p.functions@.len(),
                p == *program,
                items@.map_values(|t: TopLevel| item_view(t)) == p.functions@.subrange(0, k as int).map_values(
                    |f: Function| (f.name@, DeclarationKind::Function, f.span),
                ),
            decreases p.functions@.len() - k,
        {
            push_item(&mut items, &program.functions[k].name, DeclarationKind::Function, program.functions[k].span);
            assert(p.functions@.subrange(0, k + 1).map_values(|f: Function| (f.name@, DeclarationKind::Function, f.span))
                =~= p.functions@.subrange(0, k as int).map_values(
                |f: Function| (f.name@, DeclarationKind::Function, f.span),
            ).push((p.functions@[k as int].name@, DeclarationKind::Function, p.functions@[k as int].span)));
            k = k + 1;
        }
        assert(p.functions@.subrange(0, p.functions@.len() as int) =~= p.functions@);
        let ghost a = items@.map_values(|t: TopLevel| item_view(t));
        k = 0;
        while k < program.structs.len()
            invariant
                k <= p.structs@.len(),
                p == *program,
                items@.map_values(|t: TopLevel| item_view(t)) == a + p.structs@.subrange(0, k as int).map_values(
                    |s: StructDecl| (s.name@, DeclarationKind::Struct, s.span),
                ),
            decreases p.structs@.len() - k,
        {
            push_item(&mut items, &program.structs[k].name, DeclarationKind::Struct, program.structs[k].span);
            assert(p.structs@.subrange(0, k + 1).map_values(|s: StructDecl| (s.name@, DeclarationKind::Struct, s.span))
                =~= p.structs@.subrange(0, k as int).map_values(
                |s: StructDecl| (s.name@, DeclarationKind::Struct, s.span),
            ).push((p.structs@[k as int].name@, DeclarationKind::Struct, p.structs@[k as int].span)));
            k = k + 1;
        }
        assert(p.structs@.subrange(0, p.structs@.len() as int) =~= p.structs@);
        let ghost b = items@.map_values(|t: TopLevel| item_view(t));
        k = 0;
        while k < program.enums.len()
            invariant
                k <= p.enums@.len(),
                p == *program,
                items@.map_values(|t: TopLevel| item_view(t)) == b + p.enums@.subrange(0, k as int).map_values(
                    |e: EnumDecl| (e.name@, DeclarationKind::Enum, e.span),
                ),
            decreases p.enums@.len() - k,
        {
            push_item(&mut items, &program.enums[k].name, DeclarationKind::Enum, program.enums[k].span);
            assert(p.enums@.subrange(0, k + 1).map_values(|e: EnumDecl| (e.name@, DeclarationKind::Enum, e.span))
                =~= p.enums@.subrange(0, k as int).map_values(
                |e: EnumDecl| (e.name@, DeclarationKind::Enum, e.span),
            ).push((p.enums@[k as int].name@, DeclarationKind::Enum, p.enums@[k as int].span)));
            k = k + 1;
        }
        assert(p.enums@.subrange(0, p.enums@.len() as int) =~= p.enums@);
        let ghost c = items@.map_values(|t: TopLevel| item_view(t));
        k = 0;
        while k < program.externs.len()
            invariant
                k <= p.externs@.len(),
                p == *program,
                items@.map_values(|t: TopLevel| item_view(t)) == c + p.externs@.subrange(0, k as int).map_values(
                    |e: Extern| (e.name@, DeclarationKind::Extern, e.span),
                ),
            decreases p.externs@.len() - k,
        {
            push_item(&mut items, &program.externs[k].name, DeclarationKind::Extern, program.externs[k].span);
            assert(p.externs@.subrange(0, k + 1).map_values(|e: Extern| (e.name@, DeclarationKind::Extern, e.span))
                =~= p.externs@.subrange(0, k as int).map_values(
                |e: Extern| (e.name@, DeclarationKind::Extern, e.span),
            ).push((p.externs@[k as int].name@, DeclarationKind::Extern, p.externs@[k as int].span)));
            k = k + 1;
        }
        assert(p.externs@.subrange(0, p.externs@.len() as int) =~= p.externs@);
        let ghost d = items@.map_values(|t: TopLevel| item_view(t));
        k = 0;
        while k < program.consts.len()
            invariant
                k <= p.consts@.len(),
                p == *program,
                items@.map_values(|t: TopLevel| item_view(t)) == d + p.consts@.subrange(0, k as int).map_values(
                    |x: ConstDecl| (x.name@, DeclarationKind::Const, x.span),
                ),
            decreases p.consts@.len() - k,
        {
            push_item(&mut items, &program.consts[k].name, DeclarationKind::Const, program.consts[k].span);
            assert(p.consts@.subrange(0, k + 1).map_values(|x: ConstDecl| (x.name@, DeclarationKind::Const, x.span))
                =~= p.consts@.subrange(0, k as int).map_values(
                |x: ConstDecl| (x.name@, DeclarationKind::Const, x.span),
            ).push((p.consts@[k as int].name@, DeclarationKind::Const, p.consts@[k as int].span)));
            k = k + 1;
        }
        assert(p.consts@.subrange(0, p.consts@.len() as int) =~= p.consts@);
        let mut names: Vec<String> = Vec::new();
        collect_qualified_names(program, &mut names);
        assert(texts_of(Seq::<String>::empty()) =~= Seq::<Seq<char>>::empty());
        assert(texts_of(names@) =~= program_names(*program));
        ModuleUnit {
            path,
            module,
            namespace,
            source_len,
            base: 0,
            items,
            exports: copy_items(&program.exports),
            takes: copy_takes(&program.takes),
            names,
            declarations: Vec::new(),
            imports: Vec::new(),
        }
    }
}

// ---------------------------------------------------------- joining

/// The functions of `ps`, program by program.
pub open spec fn all_functions(ps: Seq<Program>) -> Seq<Function>
    decreases ps.len(),
{
    if ps.len() == 0 {
        seq![]
    } else {
        all_functions(ps.drop_last()) + ps.last().functions@
    }
}

pub open spec fn all_externs(ps: Seq<Program>) -> Seq<Extern>
    decreases ps.len(),
{
    if ps.len() == 0 {
        seq![]
    } else {
        all_externs(ps.drop_last()) + ps.last().externs@
    }
}

pub open spec fn all_structs(ps: Seq<Program>) -> Seq<StructDecl>
    decreases ps.len(),
{
    if ps.len() == 0 {
        seq![]
    } else {
        all_structs(ps.drop_last()) + ps.last().structs@
    }
}

pub open spec fn all_enums(ps: Seq<Program>) -> Seq<EnumDecl>
    decreases ps.len(),
{
    if ps.len() == 0 {
        seq![]
    } else {
        all_enums(ps.drop_last()) + ps.last().enums@
    }
}

pub open spec fn all_consts(ps: Seq<Program>) -> Seq<ConstDecl>
    decreases ps.len(),
{
    if ps.len() == 0 {
        seq![]
    } else {
        all_consts(ps.drop_last()) + ps.last().consts@
    }
}

/// The tests of the programs `i` of `ps` with `keep[i]`, program by program.
pub open spec fn kept_tests(ps: Seq<Program>, keep: Seq<bool>) -> Seq<Test>
    decreases ps.len(),
{
    if ps.len() == 0 {
        seq![]
    } else {
        kept_tests(ps.drop_last(), keep) + if keep[ps.len() - 1] {
            ps.last().tests@
        } else {
            seq![]
        }
    }
}

/// `m` is the programs `ps` joined: every declaration of each, in order,
/// the tests only of those that `keep` marks, and no exports or takes.
pub open spec fn joined_programs(ps: Seq<Program>, keep: Seq<bool>, m: Program) -> bool {
    &&& m.functions@ == all_functions(ps)
    &&& m.externs@ == all_externs(ps)
    &&& m.tests@ == kept_tests(ps, keep)
    &&& m.structs@ == all_structs(ps)
    &&& m.enums@ == all_enums(ps)
    &&& m.consts@ == all_consts(ps)
    &&& m.exports@.len() == 0
    &&& m.takes@.len() == 0
}

/// Joins the programs of a package's modules into one, in order. A
/// module's tests are kept where `keep_tests` says so: those of a
/// dependency belong to the dependency, not to this package's suite.
pub fn merge_programs(programs: Vec<Program>, keep_tests: &Vec<bool>) -> (m: Program)
    requires
        keep_tests@.len() == programs@.len(),
    ensures
        joined_programs(programs@, keep_tests@, m),
{
    let ghost original = programs@;
    let mut rest = crate::mir::reversed(programs);
    let mut m = Program {
        functions: Vec::new(),
        externs: Vec::new(),
        tests: Vec::new(),
        structs: Vec::new(),
        enums: Vec::new(),
        consts: Vec::new(),
        exports: Vec::new(),
        takes: Vec::new(),
    };
    let mut k: usize = 0;
    let n = keep_tests.len();
    assert(original.subrange(0, 0) =~= Seq::<Program>::empty());
    while rest.len() > 0
        invariant
            original.len() == k + rest@.len(),
            n == original.len(),
            keep_tests@.len() == original.len(),
            forall|j: int| 0 <= j < rest@.len() ==> #[trigger] rest@[j] == original[original.len() - 1 - j],
            joined_programs(original.subrange(0, k as int), keep_tests@, m),
        decreases rest@.len(),
    {
        let ghost rb = rest@;
        let x = rest.pop().unwrap();
        assert(x == original[k as int]);
        let ghost sub = original.subrange(0, k + 1);
        assert(sub.drop_last() =~= original.subrange(0, k as int));
        assert(sub.last() == x);
        let Program { mut functions, mut externs, mut tests, mut structs, mut enums, mut consts, exports, takes } = x;
        m.functions.append(&mut functions);
        m.externs.append(&mut externs);
        if keep_tests[k] {
            m.tests.append(&mut tests);
        } else {
            assert(m.tests@ =~= m.tests@ + Seq::<Test>::empty());
        }
        m.structs.append(&mut structs);
        m.enums.append(&mut enums);
        m.consts.append(&mut consts);
        k = k + 1;
        assert forall|j: int| 0 <= j < rest@.len() implies #[trigger] rest@[j] == original[original.len() - 1 - j] by {
            assert(rest@[j] == rb[j]);
        }
    }
    assert(original.subrange(0, original.len() as int) =~= original);
    m
}

/// Moves the spans of each module's program on by where its file starts in
/// the package, `bases[i]` for the program `i`, then joins the programs as
/// `merge_programs` does.
pub fn link_programs(programs: Vec<Program>, bases: &Vec<usize>, keep_tests: &Vec<bool>) -> (m: Program)
    requires
        bases@.len() == programs@.len(),
        keep_tests@.len() == programs@.len(),
        forall|i: int| 0 <= i < programs@.len() ==> fits_program(#[trigger] programs@[i], bases@[i] as int),
    ensures
        exists|moved: Seq<Program>|
            {
                &&& moved.len() == programs@.len()
                &&& forall|i: int|
                    0 <= i < moved.len() ==> shifted_program(#[trigger] programs@[i], moved[i], bases@[i] as int)
                &&& joined_programs(moved, keep_tests@, m)
            },
{
    let ghost original = programs@;
    let mut rest = crate::mir::reversed(programs);
    let mut moved: Vec<Program> = Vec::new();
    let n = bases.len();
    while rest.len() > 0
        invariant
            original.len() == moved@.len() + rest@.len(),
            n == original.len(),
            bases@.len() == original.len(),
            forall|j: int| 0 <= j < rest@.len() ==> #[trigger] rest@[j] == original[original.len() - 1 - j],
            forall|i: int| 0 <= i < original.len() ==> fits_program(#[trigger] original[i], bases@[i] as int),
            forall|i: int| 0 <= i < moved@.len() ==> shifted_program(#[trigger] original[i], moved@[i], bases@[i] as int),
        decreases rest@.len(),
    {
        let k = moved.len();
        let ghost rb = rest@;
        let mut x = rest.pop().unwrap();
        assert(x == original[k as int]);
        shift_program(&mut x, bases[k]);
        moved.push(x);
        assert forall|j: int| 0 <= j < rest@.len() implies #[trigger] rest@[j] == original[original.len() - 1 - j] by {
            assert(rest@[j] == rb[j]);
        }
    }
    let ghost witness = moved@;
    let m = merge_programs(moved, keep_tests);
    assert(witness.len() == original.len());
    assert(forall|i: int| 0 <= i < witness.len() ==> shifted_program(#[trigger] original[i], witness[i], bases@[i] as int));
    m
}

} // verus!
