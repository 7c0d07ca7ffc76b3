//! Resolving the names of a package's modules and joining their programs
//! into one.
use crate::ast::{
    TakeDecl, ConstDecl, EnumDecl, Expr, ExprKind, Extern, Field, Function, MatchArm, Param, Pattern, PatternField,
    PatternKind, Program, StructDecl, Test, Variant,
};
use crate::diagnostic::Diagnostic;
use crate::package::{
    base_of, check_module_identities, full_module, graph, has_cycle, identities, reports_cycle, module_name, reject_cycles, shows_identity,
    source_bases, PackageInput, PackageSource,
};
use crate::package::resolve::{
    all_declaration_reports, collect_declarations, declare, dependency_edges, distinct_modules, export_tables,
    all_import_reports, depends_on, export_resolution, exports_wf, qualify, reported, resolution, resolve_exports, resolve_imports, same_but_declarations, same_but_imports,
    ModuleUnit, Resolver, TopLevel,
};
use crate::package::unit::{item_view, joined_programs, link_programs, program_items, take_view};
use crate::package::qualified::{program_names, texts_of};
use crate::package::rewrite::{declares_all, program_clean, resolves_quietly, 
    arm_rewritten, arms_rewritten, const_rewritten, enum_rewritten, expr_rewritten, exprs_rewritten,
    extern_rewritten, field_pattern_rewritten, field_patterns_rewritten, field_rewritten, fields_rewritten,
    function_rewritten, param_rewritten, params_rewritten, pattern_rewritten, patterns_rewritten,
    program_rewritten, struct_rewritten, test_rewritten, variant_rewritten, variants_rewritten, Declared,
};
use crate::package::shift::{
    fits, fits_arm, fits_arms, fits_const, fits_consts, fits_enum, fits_enums, fits_expr, fits_exprs,
    fits_extern, fits_externs, fits_field, fits_field_pattern, fits_field_patterns, fits_fields, fits_function,
    fits_functions, fits_param, fits_params, fits_pattern, fits_patterns, fits_program, fits_struct,
    fits_structs, fits_test, fits_tests, fits_variant, fits_variants, shifted_program,
};
use vstd::prelude::*;

verus! {

// ---------------------------------------------------------- rewriting keeps spans

proof fn lemma_pattern_fits(old: Pattern, new: Pattern, f: spec_fn(Seq<char>) -> Seq<char>, base: int)
    requires
        pattern_rewritten(old, new, f),
        fits_pattern(old, base),
    ensures
        fits_pattern(new, base),
    decreases old, 0int,
{
    match old.kind {
        PatternKind::Enum { fields, .. } => {
            match new.kind {
                PatternKind::Enum { fields: f2, .. } => lemma_patterns_fit(fields@, f2@, f, base),
                _ => {},
            }
        },
        PatternKind::Struct { fields, .. } => {
            match new.kind {
                PatternKind::Struct { fields: f2, .. } => lemma_field_patterns_fit(fields@, f2@, f, base),
                _ => {},
            }
        },
        _ => {},
    }
}

proof fn lemma_patterns_fit(olds: Seq<Pattern>, news: Seq<Pattern>, f: spec_fn(Seq<char>) -> Seq<char>, base: int)
    requires
        patterns_rewritten(olds, news, f),
        fits_patterns(olds, base),
    ensures
        fits_patterns(news, base),
    decreases olds, 1int,
{
    if olds.len() > 0 {
        lemma_patterns_fit(olds.drop_last(), news.drop_last(), f, base);
        lemma_pattern_fits(olds.last(), news.last(), f, base);
    }
}

proof fn lemma_field_patterns_fit(
    olds: Seq<PatternField>,
    news: Seq<PatternField>,
    f: spec_fn(Seq<char>) -> Seq<char>,
    base: int,
)
    requires
        field_patterns_rewritten(olds, news, f),
        fits_field_patterns(olds, base),
    ensures
        fits_field_patterns(news, base),
    decreases olds, 1int,
{
    if olds.len() > 0 {
        lemma_field_patterns_fit(olds.drop_last(), news.drop_last(), f, base);
        assert(field_pattern_rewritten(olds.last(), news.last(), f));
        reveal_with_fuel(field_pattern_rewritten, 2);
        assert(fits_field_pattern(olds.last(), base));
        reveal_with_fuel(fits_field_pattern, 2);
        lemma_pattern_fits(olds.last().pattern, news.last().pattern, f, base);
        assert(fits_field_pattern(news.last(), base));
    }
}

proof fn lemma_params_fit(olds: Seq<Param>, news: Seq<Param>, f: spec_fn(Seq<char>) -> Seq<char>, base: int)
    requires
        params_rewritten(olds, news, f),
        fits_params(olds, base),
    ensures
        fits_params(news, base),
    decreases olds.len(),
{
    if olds.len() > 0 {
        let n = olds.len() - 1;
        assert forall|i: int| 0 <= i < n implies param_rewritten(#[trigger] olds.drop_last()[i], news.drop_last()[i], f) by {
            assert(olds.drop_last()[i] == olds[i] && news.drop_last()[i] == news[i]);
            assert(param_rewritten(olds[i], news[i], f));
        }
        lemma_params_fit(olds.drop_last(), news.drop_last(), f, base);
        assert(param_rewritten(olds[n], news[n], f));
    }
}

proof fn lemma_fields_fit(olds: Seq<Field>, news: Seq<Field>, f: spec_fn(Seq<char>) -> Seq<char>, base: int)
    requires
        fields_rewritten(olds, news, f),
        fits_fields(olds, base),
    ensures
        fits_fields(news, base),
    decreases olds.len(),
{
    if olds.len() > 0 {
        let n = olds.len() - 1;
        assert forall|i: int| 0 <= i < n implies field_rewritten(#[trigger] olds.drop_last()[i], news.drop_last()[i], f) by {
            assert(olds.drop_last()[i] == olds[i] && news.drop_last()[i] == news[i]);
            assert(field_rewritten(olds[i], news[i], f));
        }
        lemma_fields_fit(olds.drop_last(), news.drop_last(), f, base);
        assert(field_rewritten(olds[n], news[n], f));
    }
}

proof fn lemma_variants_fit(olds: Seq<Variant>, news: Seq<Variant>, f: spec_fn(Seq<char>) -> Seq<char>, base: int)
    requires
        variants_rewritten(olds, news, f),
        fits_variants(olds, base),
    ensures
        fits_variants(news, base),
    decreases olds.len(),
{
    if olds.len() > 0 {
        let n = olds.len() - 1;
        assert forall|i: int| 0 <= i < n implies variant_rewritten(#[trigger] olds.drop_last()[i], news.drop_last()[i], f) by {
            assert(olds.drop_last()[i] == olds[i] && news.drop_last()[i] == news[i]);
            assert(variant_rewritten(olds[i], news[i], f));
        }
        lemma_variants_fit(olds.drop_last(), news.drop_last(), f, base);
        assert(variant_rewritten(olds[n], news[n], f));
        lemma_fields_fit(olds[n].fields@, news[n].fields@, f, base);
    }
}

proof fn lemma_expr_fits(old: Expr, new: Expr, f: spec_fn(Seq<char>) -> Seq<char>, base: int)
    requires
        expr_rewritten(old, new, f),
        fits_expr(old, base),
    ensures
        fits_expr(new, base),
    decreases old, 0int,
{
    match old.kind {
        ExprKind::Let { value, .. } => {
            match new.kind {
                ExprKind::Let { value: v2, .. } => lemma_expr_fits(*value, *v2, f, base),
                _ => {},
            }
        },
        ExprKind::Assign { value, .. } => {
            match new.kind {
                ExprKind::Assign { value: v2, .. } => lemma_expr_fits(*value, *v2, f, base),
                _ => {},
            }
        },
        ExprKind::Do(items) => {
            match new.kind {
                ExprKind::Do(i2) => lemma_exprs_fit(items@, i2@, f, base),
                _ => {},
            }
        },
        ExprKind::Unsafe(items) => {
            match new.kind {
                ExprKind::Unsafe(i2) => lemma_exprs_fit(items@, i2@, f, base),
                _ => {},
            }
        },
        ExprKind::If { condition, then_expr, else_expr } => {
            match new.kind {
                ExprKind::If { condition: c2, then_expr: t2, else_expr: e2 } => {
                    lemma_expr_fits(*condition, *c2, f, base);
                    lemma_expr_fits(*then_expr, *t2, f, base);
                    lemma_expr_fits(*else_expr, *e2, f, base);
                },
                _ => {},
            }
        },
        ExprKind::Loop { body } => {
            match new.kind {
                ExprKind::Loop { body: b2 } => lemma_expr_fits(*body, *b2, f, base),
                _ => {},
            }
        },
        ExprKind::While { condition, body } => {
            match new.kind {
                ExprKind::While { condition: c2, body: b2 } => {
                    lemma_expr_fits(*condition, *c2, f, base);
                    lemma_expr_fits(*body, *b2, f, base);
                },
                _ => {},
            }
        },
        ExprKind::Match { value, arms } => {
            match new.kind {
                ExprKind::Match { value: v2, arms: a2 } => {
                    lemma_expr_fits(*value, *v2, f, base);
                    lemma_arms_fit(arms@, a2@, f, base);
                },
                _ => {},
            }
        },
        ExprKind::Break(Some(value)) => {
            match new.kind {
                ExprKind::Break(Some(v2)) => lemma_expr_fits(*value, *v2, f, base),
                _ => {},
            }
        },
        ExprKind::Borrow { value, .. } => {
            match new.kind {
                ExprKind::Borrow { value: v2, .. } => lemma_expr_fits(*value, *v2, f, base),
                _ => {},
            }
        },
        ExprKind::Try(value) => {
            match new.kind {
                ExprKind::Try(v2) => lemma_expr_fits(*value, *v2, f, base),
                _ => {},
            }
        },
        ExprKind::Convert { value, .. } => {
            match new.kind {
                ExprKind::Convert { value: v2, .. } => lemma_expr_fits(*value, *v2, f, base),
                _ => {},
            }
        },
        ExprKind::Call { args, .. } => {
            match new.kind {
                ExprKind::Call { args: a2, .. } => lemma_exprs_fit(args@, a2@, f, base),
                _ => {},
            }
        },
        ExprKind::Logical { operands, .. } => {
            match new.kind {
                ExprKind::Logical { operands: p2, .. } => lemma_exprs_fit(operands@, p2@, f, base),
                _ => {},
            }
        },
        ExprKind::Lambda { params, body, .. } => {
            match new.kind {
                ExprKind::Lambda { params: p2, body: b2, .. } => {
                    lemma_params_fit(params@, p2@, f, base);
                    lemma_expr_fits(*body, *b2, f, base);
                },
                _ => {},
            }
        },
        _ => {},
    }
}

proof fn lemma_exprs_fit(olds: Seq<Expr>, news: Seq<Expr>, f: spec_fn(Seq<char>) -> Seq<char>, base: int)
    requires
        exprs_rewritten(olds, news, f),
        fits_exprs(olds, base),
    ensures
        fits_exprs(news, base),
    decreases olds, 1int,
{
    if olds.len() > 0 {
        lemma_exprs_fit(olds.drop_last(), news.drop_last(), f, base);
        lemma_expr_fits(olds.last(), news.last(), f, base);
    }
}

proof fn lemma_arms_fit(olds: Seq<MatchArm>, news: Seq<MatchArm>, f: spec_fn(Seq<char>) -> Seq<char>, base: int)
    requires
        arms_rewritten(olds, news, f),
        fits_arms(olds, base),
    ensures
        fits_arms(news, base),
    decreases olds, 1int,
{
    if olds.len() > 0 {
        lemma_arms_fit(olds.drop_last(), news.drop_last(), f, base);
        let a = olds.last();
        let b = news.last();
        assert(arm_rewritten(a, b, f));
        reveal_with_fuel(arm_rewritten, 2);
        assert(fits_arm(a, base));
        reveal_with_fuel(fits_arm, 2);
        lemma_pattern_fits(a.pattern, b.pattern, f, base);
        match a.guard {
            Some(g) => {
                match b.guard {
                    Some(g2) => lemma_expr_fits(g, g2, f, base),
                    None => {},
                }
            },
            None => {},
        }
        lemma_expr_fits(a.body, b.body, f, base);
        assert(fits_arm(b, base));
    }
}

proof fn lemma_functions_fit(olds: Seq<Function>, news: Seq<Function>, f: spec_fn(Seq<char>) -> Seq<char>, d: Declared, base: int)
    requires
        olds.len() == news.len(),
        forall|i: int| 0 <= i < olds.len() ==> function_rewritten(#[trigger] olds[i], news[i], f, d),
        fits_functions(olds, base),
    ensures
        fits_functions(news, base),
    decreases olds.len(),
{
    if olds.len() > 0 {
        let n = olds.len() - 1;
        assert forall|i: int| 0 <= i < n implies function_rewritten(#[trigger] olds.drop_last()[i], news.drop_last()[i], f, d) by {
            assert(olds.drop_last()[i] == olds[i] && news.drop_last()[i] == news[i]);
            assert(function_rewritten(olds[i], news[i], f, d));
        }
        lemma_functions_fit(olds.drop_last(), news.drop_last(), f, d, base);
        assert(function_rewritten(olds[n], news[n], f, d));
        assert(fits_function(olds[n], base));
        lemma_params_fit(olds[n].params@, news[n].params@, f, base);
        lemma_expr_fits(olds[n].body, news[n].body, f, base);
        assert(fits_function(news[n], base));
    }
}

proof fn lemma_externs_fit(olds: Seq<Extern>, news: Seq<Extern>, f: spec_fn(Seq<char>) -> Seq<char>, d: Declared, base: int)
    requires
        olds.len() == news.len(),
        forall|i: int| 0 <= i < olds.len() ==> extern_rewritten(#[trigger] olds[i], news[i], f, d),
        fits_externs(olds, base),
    ensures
        fits_externs(news, base),
    decreases olds.len(),
{
    if olds.len() > 0 {
        let n = olds.len() - 1;
        assert forall|i: int| 0 <= i < n implies extern_rewritten(#[trigger] olds.drop_last()[i], news.drop_last()[i], f, d) by {
            assert(olds.drop_last()[i] == olds[i] && news.drop_last()[i] == news[i]);
            assert(extern_rewritten(olds[i], news[i], f, d));
        }
        lemma_externs_fit(olds.drop_last(), news.drop_last(), f, d, base);
        assert(extern_rewritten(olds[n], news[n], f, d));
        assert(fits_extern(olds[n], base));
        lemma_params_fit(olds[n].params@, news[n].params@, f, base);
        assert(fits_extern(news[n], base));
    }
}

proof fn lemma_tests_fit(olds: Seq<Test>, news: Seq<Test>, f: spec_fn(Seq<char>) -> Seq<char>, module: Seq<char>, base: int)
    requires
        olds.len() == news.len(),
        forall|i: int| 0 <= i < olds.len() ==> test_rewritten(#[trigger] olds[i], news[i], f, module),
        fits_tests(olds, base),
    ensures
        fits_tests(news, base),
    decreases olds.len(),
{
    if olds.len() > 0 {
        let n = olds.len() - 1;
        assert forall|i: int| 0 <= i < n implies test_rewritten(#[trigger] olds.drop_last()[i], news.drop_last()[i], f, module) by {
            assert(olds.drop_last()[i] == olds[i] && news.drop_last()[i] == news[i]);
            assert(test_rewritten(olds[i], news[i], f, module));
        }
        lemma_tests_fit(olds.drop_last(), news.drop_last(), f, module, base);
        assert(test_rewritten(olds[n], news[n], f, module));
        assert(fits_test(olds[n], base));
        lemma_expr_fits(olds[n].body, news[n].body, f, base);
        assert(fits_test(news[n], base));
    }
}

proof fn lemma_structs_fit(olds: Seq<StructDecl>, news: Seq<StructDecl>, f: spec_fn(Seq<char>) -> Seq<char>, d: Declared, base: int)
    requires
        olds.len() == news.len(),
        forall|i: int| 0 <= i < olds.len() ==> struct_rewritten(#[trigger] olds[i], news[i], f, d),
        fits_structs(olds, base),
    ensures
        fits_structs(news, base),
    decreases olds.len(),
{
    if olds.len() > 0 {
        let n = olds.len() - 1;
        assert forall|i: int| 0 <= i < n implies struct_rewritten(#[trigger] olds.drop_last()[i], news.drop_last()[i], f, d) by {
            assert(olds.drop_last()[i] == olds[i] && news.drop_last()[i] == news[i]);
            assert(struct_rewritten(olds[i], news[i], f, d));
        }
        lemma_structs_fit(olds.drop_last(), news.drop_last(), f, d, base);
        assert(struct_rewritten(olds[n], news[n], f, d));
        assert(fits_struct(olds[n], base));
        lemma_fields_fit(olds[n].fields@, news[n].fields@, f, base);
        assert(fits_struct(news[n], base));
    }
}

proof fn lemma_enums_fit(olds: Seq<EnumDecl>, news: Seq<EnumDecl>, f: spec_fn(Seq<char>) -> Seq<char>, d: Declared, base: int)
    requires
        olds.len() == news.len(),
        forall|i: int| 0 <= i < olds.len() ==> enum_rewritten(#[trigger] olds[i], news[i], f, d),
        fits_enums(olds, base),
    ensures
        fits_enums(news, base),
    decreases olds.len(),
{
    if olds.len() > 0 {
        let n = olds.len() - 1;
        assert forall|i: int| 0 <= i < n implies enum_rewritten(#[trigger] olds.drop_last()[i], news.drop_last()[i], f, d) by {
            assert(olds.drop_last()[i] == olds[i] && news.drop_last()[i] == news[i]);
            assert(enum_rewritten(olds[i], news[i], f, d));
        }
        lemma_enums_fit(olds.drop_last(), news.drop_last(), f, d, base);
        assert(enum_rewritten(olds[n], news[n], f, d));
        assert(fits_enum(olds[n], base));
        lemma_variants_fit(olds[n].variants@, news[n].variants@, f, base);
        assert(fits_enum(news[n], base));
    }
}

proof fn lemma_consts_fit(olds: Seq<ConstDecl>, news: Seq<ConstDecl>, f: spec_fn(Seq<char>) -> Seq<char>, d: Declared, base: int)
    requires
        olds.len() == news.len(),
        forall|i: int| 0 <= i < olds.len() ==> const_rewritten(#[trigger] olds[i], news[i], f, d),
        fits_consts(olds, base),
    ensures
        fits_consts(news, base),
    decreases olds.len(),
{
    if olds.len() > 0 {
        let n = olds.len() - 1;
        assert forall|i: int| 0 <= i < n implies const_rewritten(#[trigger] olds.drop_last()[i], news.drop_last()[i], f, d) by {
            assert(olds.drop_last()[i] == olds[i] && news.drop_last()[i] == news[i]);
            assert(const_rewritten(olds[i], news[i], f, d));
        }
        lemma_consts_fit(olds.drop_last(), news.drop_last(), f, d, base);
        assert(const_rewritten(olds[n], news[n], f, d));
        assert(fits_const(olds[n], base));
        assert(fits_const(news[n], base));
    }
}

/// Rewriting a program's names moves none of its spans, so a program that
/// can be moved on by `base` still can be once it is rewritten.
proof fn lemma_program_fits(old: Program, new: Program, f: spec_fn(Seq<char>) -> Seq<char>, d: Declared, module: Seq<char>, base: int)
    requires
        program_rewritten(old, new, f, d, module),
        fits_program(old, base),
    ensures
        fits_program(new, base),
{
    lemma_functions_fit(old.functions@, new.functions@, f, d, base);
    lemma_externs_fit(old.externs@, new.externs@, f, d, base);
    lemma_tests_fit(old.tests@, new.tests@, f, module, base);
    lemma_structs_fit(old.structs@, new.structs@, f, d, base);
    lemma_enums_fit(old.enums@, new.enums@, f, d, base);
    lemma_consts_fit(old.consts@, new.consts@, f, d, base);
}

// ---------------------------------------------------------- declarations cover the program

proof fn lemma_declare_has(start: Declared, module: Seq<char>, entry: Seq<char>, items: Seq<TopLevel>)
    ensures
        forall|k: int| 0 <= k < items.len() ==> declare(start, module, entry, items).dom().contains(#[trigger] items[k].name@),
    decreases items.len(),
{
    if items.len() > 0 {
        lemma_declare_has(start, module, entry, items.drop_last());
        assert forall|k: int| 0 <= k < items.len() implies declare(start, module, entry, items).dom().contains(#[trigger] items[k].name@) by {
            if k < items.len() - 1 {
                assert(items.drop_last()[k] == items[k]);
            }
        }
    }
}

proof fn lemma_declares_all(p: Program, items: Seq<TopLevel>, d: Declared)
    requires
        items.map_values(|t: TopLevel| item_view(t)) == program_items(p),
        forall|k: int| 0 <= k < items.len() ==> d.dom().contains(#[trigger] items[k].name@),
    ensures
        declares_all(p, d),
{
    let v = items.map_values(|t: TopLevel| item_view(t));
    let nf = p.functions@.len() as int;
    let ns = p.structs@.len() as int;
    let ne = p.enums@.len() as int;
    let nx = p.externs@.len() as int;
    assert(v.len() == items.len());
    assert forall|k: int| 0 <= k < items.len() implies d.dom().contains(#[trigger] v[k].0) by {
        assert(v[k] == item_view(items[k]));
    }
    assert forall|i: int| 0 <= i < nf implies d.dom().contains(#[trigger] p.functions@[i].name@) by {
        assert(v[i].0 == p.functions@[i].name@);
    }
    assert forall|i: int| 0 <= i < ns implies d.dom().contains(#[trigger] p.structs@[i].name@) by {
        assert(v[nf + i].0 == p.structs@[i].name@);
    }
    assert forall|i: int| 0 <= i < ne implies d.dom().contains(#[trigger] p.enums@[i].name@) by {
        assert(v[nf + ns + i].0 == p.enums@[i].name@);
    }
    assert forall|i: int| 0 <= i < nx implies d.dom().contains(#[trigger] p.externs@[i].name@) by {
        assert(v[nf + ns + ne + i].0 == p.externs@[i].name@);
    }
    assert forall|i: int| 0 <= i < p.consts@.len() implies d.dom().contains(#[trigger] p.consts@[i].name@) by {
        assert(v[nf + ns + ne + nx + i].0 == p.consts@[i].name@);
    }
}

// ---------------------------------------------------------- the stage

/// The modules of `units`, in order.
pub open spec fn unit_modules(units: Seq<ModuleUnit>) -> Seq<String> {
    units.map_values(|u: ModuleUnit| u.module)
}

/// What each name written in `unit` stands for, given every module's name
/// and what each exports.
pub open spec fn unit_names(
    unit: ModuleUnit,
    modules: Seq<String>,
    exports: Seq<Vec<(String, String)>>,
) -> spec_fn(Seq<char>) -> Seq<char> {
    |n: Seq<char>| resolution(unit, modules, export_tables(exports), n)
}


/// `m` is what linking `programs` gives: each rewritten by the names of its
/// unit to `rewritten[i]`, whose spans are moved on by `bases[i]` to
/// `moved[i]`, and those joined, with the tests that `keep` marks.
pub open spec fn links_to(
    programs: Seq<Program>,
    units: Seq<ModuleUnit>,
    modules: Seq<String>,
    exports: Seq<Vec<(String, String)>>,
    bases: Seq<usize>,
    keep: Seq<bool>,
    rewritten: Seq<Program>,
    moved: Seq<Program>,
    m: Program,
) -> bool {
    &&& rewritten.len() == programs.len()
    &&& moved.len() == programs.len()
    &&& forall|i: int|
        0 <= i < programs.len() ==> {
            &&& program_rewritten(
                programs[i],
                #[trigger] rewritten[i],
                unit_names(units[i], modules, exports),
                units[i].declared(),
                units[i].module@,
            )
            &&& shifted_program(rewritten[i], moved[i], bases[i] as int)
        }
    &&& joined_programs(moved, keep, m)
}

/// Which names written in `unit` resolve without a report, given every
/// module's name and what each exports.
pub open spec fn unit_quiet(
    unit: ModuleUnit,
    modules: Seq<String>,
    exports: Seq<Vec<(String, String)>>,
) -> spec_fn(Seq<char>) -> bool {
    |n: Seq<char>| resolves_quietly(unit, modules, export_tables(exports), n)
}

/// The paths of `units`' files, in order.
pub open spec fn unit_paths(units: Seq<ModuleUnit>) -> Seq<String> {
    units.map_values(|u: ModuleUnit| u.path)
}

/// `after` is `before` followed by what each stage of resolving the
/// package of `first` reports, in order: the declaration reports; one
/// report of a cycle in `deps`, the module graph of the declared units
/// `mid`, where it has one; the export reports; the import reports. Where
/// none of these stages reports anything, rewriting the programs reports
/// nothing either when every name of each program that could be refused
/// resolves quietly in its unit `last[i]`.
#[verifier::opaque]
pub open spec fn stages_reported(
    first: Seq<ModuleUnit>,
    mid: Seq<ModuleUnit>,
    last: Seq<ModuleUnit>,
    deps: Seq<Seq<usize>>,
    entry: Seq<char>,
    exports: Seq<Vec<(String, String)>>,
    programs: Seq<Program>,
    before: Seq<Diagnostic>,
    after: Seq<Diagnostic>,
) -> bool {
    let modules = unit_modules(first);
    let decl = all_declaration_reports(first, entry);
    let exported = export_resolution(mid, modules);
    let imported = all_import_reports(mid, modules, export_tables(exports));
    let n1 = (before.len() + decl.len()) as int;
    let n2 = n1 + if has_cycle(deps) { 1int } else { 0int };
    let n3 = n2 + exported.1.len();
    let n4 = n3 + imported.len();
    &&& mid.len() == first.len()
    &&& last.len() == first.len()
    &&& forall|i: int|
        0 <= i < first.len() ==> {
            &&& same_but_declarations(#[trigger] first[i], mid[i])
            &&& mid[i].declared() == declare(first[i].declared(), first[i].module@, entry, first[i].items@)
            &&& same_but_imports(mid[i], last[i])
        }
    &&& deps.len() == first.len()
    &&& forall|i: int, t: usize|
        0 <= i < deps.len() ==> (#[trigger] deps[i].contains(t) <==> depends_on(mid[i], i, modules, t as int))
    &&& export_tables(exports) == exported.0
    &&& n4 <= after.len()
    &&& reported(before, after.take(n1), decl)
    &&& (has_cycle(deps) ==> exists|root: int, cycle: Seq<usize>|
        #[trigger] reports_cycle(after[n1], modules, unit_paths(first), deps, root, cycle))
    &&& reported(after.take(n2), after.take(n3), exported.1)
    &&& reported(after.take(n3), after.take(n4), imported)
    &&& (n4 > before.len() ==> after.len() == n4)
    &&& (n4 == before.len() && (forall|i: int|
        0 <= i < programs.len() ==> program_clean(#[trigger] programs[i], unit_quiet(last[i], modules, exports)))
        ==> after == before)
}

proof fn lemma_stages(
    first: Seq<ModuleUnit>,
    mid: Seq<ModuleUnit>,
    last: Seq<ModuleUnit>,
    deps: Seq<Seq<usize>>,
    entry: Seq<char>,
    exports: Seq<Vec<(String, String)>>,
    programs: Seq<Program>,
    d0: Seq<Diagnostic>,
    d1: Seq<Diagnostic>,
    d2: Seq<Diagnostic>,
    d3: Seq<Diagnostic>,
    d4: Seq<Diagnostic>,
    after: Seq<Diagnostic>,
)
    requires
        mid.len() == first.len(),
        last.len() == first.len(),
        forall|i: int|
            0 <= i < first.len() ==> {
                &&& same_but_declarations(#[trigger] first[i], mid[i])
                &&& mid[i].declared() == declare(first[i].declared(), first[i].module@, entry, first[i].items@)
                &&& same_but_imports(mid[i], last[i])
            },
        deps.len() == first.len(),
        forall|i: int, t: usize|
            0 <= i < deps.len() ==> (#[trigger] deps[i].contains(t) <==> depends_on(mid[i], i, unit_modules(first), t as int)),
        export_tables(exports) == export_resolution(mid, unit_modules(first)).0,
        reported(d0, d1, all_declaration_reports(first, entry)),
        !has_cycle(deps) ==> d2 == d1,
        has_cycle(deps) ==> {
            &&& d2.len() == d1.len() + 1
            &&& d2.drop_last() == d1
            &&& exists|root: int, cycle: Seq<usize>|
                #[trigger] reports_cycle(d2.last(), unit_modules(first), unit_paths(first), deps, root, cycle)
        },
        reported(d2, d3, export_resolution(mid, unit_modules(first)).1),
        reported(d3, d4, all_import_reports(mid, unit_modules(first), export_tables(exports))),
        d4.len() <= after.len(),
        after.take(d4.len() as int) == d4,
        d4.len() > d0.len() ==> after == d4,
        d4.len() == d0.len() && (forall|i: int|
            0 <= i < programs.len() ==> program_clean(#[trigger] programs[i], unit_quiet(last[i], unit_modules(first), exports)))
            ==> after == d4,
    ensures
        stages_reported(first, mid, last, deps, entry, exports, programs, d0, after),
{
    reveal(stages_reported);
    assert(d1.len() <= d2.len());
    assert(d2.take(d1.len() as int) == d1) by {
        if has_cycle(deps) {
            assert(d2.take(d1.len() as int) =~= d2.drop_last());
        } else {
            assert(d2.take(d1.len() as int) =~= d2);
        }
    }
    assert(d3.take(d2.len() as int) == d2);
    assert(d4.take(d3.len() as int) == d3);
    lemma_prefix_trans(d3, d4, after);
    lemma_prefix_trans(d2, d3, after);
    lemma_prefix_trans(d1, d2, after);
    if has_cycle(deps) {
        assert(after[d1.len() as int] == d2[d1.len() as int]);
        assert(d2.last() == d2[d1.len() as int]);
    }
    if d4.len() == d0.len() {
        assert(d4 =~= d0) by {
            lemma_prefix_trans(d0, d1, d4);
        }
    }
}

/// Resolves the names of a package's modules and joins their programs into
/// one. `units[i]` is the unit of `programs[i]`, whose file starts at
/// `bases[i]` in the package; `keep_tests[i]` says whether that module's
/// tests belong to this package.
///
/// In order: each module's names are declared, the module graph is refused
/// if it has a cycle, exports and then imports are resolved; if any of
/// that reported, nothing is joined. Otherwise every program is rewritten to
/// canonical names; if that reported, nothing is joined. Otherwise each
/// program's spans are moved by its base and the programs are joined. The
/// second result is what each module exports.
#[verifier::spinoff_prover]
#[verifier::rlimit(100)]
pub fn resolve_package(
    units: &mut Vec<ModuleUnit>,
    programs: Vec<Program>,
    entry_module: &str,
    bases: &Vec<usize>,
    keep_tests: &Vec<bool>,
    diagnostics: &mut Vec<Diagnostic>,
) -> (r: (Option<Program>, Vec<Vec<(String, String)>>))
    requires
        old(units)@.len() == programs@.len(),
        bases@.len() == programs@.len(),
        keep_tests@.len() == programs@.len(),
        distinct_modules(unit_modules(old(units)@)),
        forall|i: int|
            0 <= i < programs@.len() ==> {
                &&& (#[trigger] old(units)@[i]).declarations@.len() == 0
                &&& old(units)@[i].imports@.len() == 0
                &&& old(units)@[i].items@.map_values(|t: TopLevel| item_view(t)) == program_items(programs@[i])
                &&& fits_program(programs@[i], bases@[i] as int)
            },
    ensures
        final(units)@.len() == old(units)@.len(),
        r.1@.len() == old(units)@.len(),
        exports_wf(r.1@),
        forall|i: int|
            0 <= i < final(units)@.len() ==> {
                &&& (#[trigger] final(units)@[i]).tables_wf()
                &&& final(units)@[i].module == old(units)@[i].module
                &&& final(units)@[i].path == old(units)@[i].path
                &&& final(units)@[i].declared() == declare(
                    old(units)@[i].declared(),
                    old(units)@[i].module@,
                    entry_module@,
                    old(units)@[i].items@,
                )
            },
        final(diagnostics)@.len() >= old(diagnostics)@.len() + all_declaration_reports(old(units)@, entry_module@).len(),
        reported(
            old(diagnostics)@,
            final(diagnostics)@.take((old(diagnostics)@.len() + all_declaration_reports(old(units)@, entry_module@).len()) as int),
            all_declaration_reports(old(units)@, entry_module@),
        ),
        r.0 is Some <==> final(diagnostics)@ == old(diagnostics)@,
        r.0 matches Some(m) ==> exists|rewritten: Seq<Program>, moved: Seq<Program>|
            links_to(programs@, final(units)@, unit_modules(old(units)@), r.1@, bases@, keep_tests@, rewritten, moved, m),
        exists|mid: Seq<ModuleUnit>, deps: Seq<Seq<usize>>|
            stages_reported(
                old(units)@,
                mid,
                final(units)@,
                deps,
                entry_module@,
                r.1@,
                programs@,
                old(diagnostics)@,
                final(diagnostics)@,
            ),
{
    let ghost d0 = diagnostics@;
    let n0 = diagnostics.len();
    let ghost first = units@;
    let ghost original = programs@;
    assert forall|i: int| 0 <= i < units@.len() implies (#[trigger] units@[i]).tables_wf() by {
        assert(units@[i].declarations@.len() == 0 && units@[i].imports@.len() == 0);
    }
    collect_declarations(units, entry_module, diagnostics);
    let ghost d1 = diagnostics@;
    let ghost declared_units = units@;
    let mut modules: Vec<String> = Vec::new();
    let mut paths: Vec<String> = Vec::new();
    let mut k: usize = 0;
    while k < units.len()
        invariant
            k <= units@.len(),
            units@ == declared_units,
            declared_units.len() == first.len(),
            forall|i: int| 0 <= i < declared_units.len() ==> (#[trigger] declared_units[i]).module == first[i].module,
            modules@.len() == k,
            paths@.len() == k,
            forall|i: int| 0 <= i < k ==> #[trigger] modules@[i] == declared_units[i].module,
            forall|i: int| 0 <= i < k ==> #[trigger] paths@[i] == declared_units[i].path,
        decreases units@.len() - k,
    {
        modules.push(units[k].module.clone());
        paths.push(units[k].path.clone());
        k = k + 1;
    }
    assert(modules@ =~= unit_modules(first));
    let edges = dependency_edges(units, &modules);
    assert forall|u: int, j: int| 0 <= u < graph(edges@).len() && 0 <= j < graph(edges@)[u].len() implies #[trigger] graph(edges@)[u][j] < graph(edges@).len() by {
        let t = edges@[u]@[j];
        assert(edges@[u]@.contains(t));
    }
    let ghost dc0 = diagnostics@;
    reject_cycles(&modules, &paths, &edges, diagnostics);
    proof {
        if diagnostics@.len() != dc0.len() {
            assert(diagnostics@.take(dc0.len() as int) =~= diagnostics@.drop_last());
        } else {
            assert(diagnostics@.take(dc0.len() as int) =~= dc0);
        }
    }
    let ghost de0 = diagnostics@;
    let exports = resolve_exports(units, &modules, diagnostics);
    let ghost di0 = diagnostics@;
    resolve_imports(units, &modules, &exports, diagnostics);
    proof {
        assert(dc0 == d1);
        assert(de0.take(d1.len() as int) == d1);
        assert(di0.take(de0.len() as int) == de0);
        assert(diagnostics@.take(di0.len() as int) == di0);
        lemma_prefix_trans(d1, de0, di0);
        lemma_prefix_trans(d1, di0, diagnostics@);
    }
    let ghost imported_units = units@;
    let ghost deps = graph(edges@);
    let ghost d4 = diagnostics@;
    proof {
        assert(paths@ =~= unit_paths(first));
        assert forall|i: int, t: usize| 0 <= i < deps.len() implies (#[trigger] deps[i].contains(t) <==> depends_on(declared_units[i], i, unit_modules(first), t as int)) by {
            assert(deps[i] == edges@[i]@);
        }
    }
    if diagnostics.len() != n0 {
        proof {
            lemma_declared_units(first, declared_units, imported_units, entry_module@);
            assert(d4.take(d4.len() as int) =~= d4);
            lemma_stages(first, declared_units, imported_units, deps, entry_module@, exports@, original, d0, d1, de0, di0, d4, diagnostics@);
        }
        let res = (None, exports);
        assert(stages_reported(first, declared_units, units@, deps, entry_module@, res.1@, original, d0, diagnostics@));
        return res;
    }
    assert(diagnostics@ =~= d0) by {
        lemma_prefix_trans(d0, d1, diagnostics@);
    }
    proof {
        lemma_declared_units(first, declared_units, imported_units, entry_module@);
        assert forall|i: int| 0 <= i < original.len() implies declares_all(#[trigger] original[i], imported_units[i].declared()) by {
            lemma_declare_has(first[i].declared(), first[i].module@, entry_module@, first[i].items@);
            lemma_declares_all(original[i], first[i].items@, imported_units[i].declared());
        }
    }
    assert(d1 =~= d0);
    let r = rewrite_and_link(units, &modules, &exports, programs, bases, keep_tests, diagnostics);
    proof {
        if r is Some {
            assert(diagnostics@ =~= d0);
        } else {
            assert(diagnostics@.take(d0.len() as int) =~= d0);
        }
        assert(d4 =~= d0);
        lemma_stages(first, declared_units, imported_units, deps, entry_module@, exports@, original, d0, d1, de0, di0, d4, diagnostics@);
    }
    let ghost m = r->0;
    let ghost pair: (Seq<Program>, Seq<Program>) = choose|rw: Seq<Program>, mv: Seq<Program>|
        links_to(original, units@, modules@, exports@, bases@, keep_tests@, rw, mv, m);
    let res = (r, exports);
    proof {
        if res.0 is Some {
            assert(links_to(original, units@, modules@, res.1@, bases@, keep_tests@, pair.0, pair.1, m));
            assert(res.0->0 == m);
            assert(links_to(original, units@, unit_modules(first), res.1@, bases@, keep_tests@, pair.0, pair.1, res.0->0));
        }
        assert(stages_reported(first, declared_units, units@, deps, entry_module@, res.1@, original, d0, diagnostics@));
    }
    res
}

/// Rewrites each program by its unit's names and, where that reports
/// nothing, links the rewritten programs.
#[verifier::spinoff_prover]
#[verifier::rlimit(50)]
fn rewrite_and_link(
    units: &Vec<ModuleUnit>,
    modules: &Vec<String>,
    exports: &Vec<Vec<(String, String)>>,
    programs: Vec<Program>,
    bases: &Vec<usize>,
    keep_tests: &Vec<bool>,
    diagnostics: &mut Vec<Diagnostic>,
) -> (r: Option<Program>)
    requires
        units@.len() == programs@.len(),
        modules@.len() == programs@.len(),
        exports@.len() == programs@.len(),
        bases@.len() == programs@.len(),
        keep_tests@.len() == programs@.len(),
        distinct_modules(modules@),
        exports_wf(exports@),
        forall|i: int| 0 <= i < units@.len() ==> (#[trigger] units@[i]).tables_wf(),
        forall|i: int| 0 <= i < programs@.len() ==> declares_all(#[trigger] programs@[i], units@[i].declared()),
        forall|i: int| 0 <= i < programs@.len() ==> fits_program(#[trigger] programs@[i], bases@[i] as int),
    ensures
        old(diagnostics)@.len() <= final(diagnostics)@.len(),
        forall|j: int| 0 <= j < old(diagnostics)@.len() ==> #[trigger] final(diagnostics)@[j] == old(diagnostics)@[j],
        r is Some <==> final(diagnostics)@.len() == old(diagnostics)@.len(),
        (forall|i: int| 0 <= i < programs@.len() ==> program_clean(#[trigger] programs@[i], unit_quiet(units@[i], modules@, exports@)))
            ==> r is Some,
        r matches Some(m) ==> exists|rewritten: Seq<Program>, moved: Seq<Program>|
            links_to(programs@, units@, modules@, exports@, bases@, keep_tests@, rewritten, moved, m),
{
    let ghost original = programs@;
    let ghost d0 = diagnostics@;
    let n0 = diagnostics.len();
    let mut rest = crate::mir::reversed(programs);
    let mut out: Vec<Program> = Vec::new();
    while rest.len() > 0
        invariant
            units@.len() == original.len(),
            original.len() == out@.len() + rest@.len(),
            distinct_modules(modules@),
            exports@.len() == modules@.len(),
            modules@.len() == original.len(),
            bases@.len() == original.len(),
            exports_wf(exports@),
            forall|j: int| 0 <= j < rest@.len() ==> #[trigger] rest@[j] == original[original.len() - 1 - j],
            forall|i: int| 0 <= i < units@.len() ==> (#[trigger] units@[i]).tables_wf(),
            forall|i: int| 0 <= i < original.len() ==> declares_all(#[trigger] original[i], units@[i].declared()),
            forall|i: int| 0 <= i < original.len() ==> fits_program(#[trigger] original[i], bases@[i] as int),
            forall|i: int|
                0 <= i < out@.len() ==> program_rewritten(
                    #[trigger] original[i],
                    out@[i],
                    unit_names(units@[i], modules@, exports@),
                    units@[i].declared(),
                    units@[i].module@,
                ),
            forall|i: int| 0 <= i < out@.len() ==> fits_program(#[trigger] out@[i], bases@[i] as int),
            d0.len() <= diagnostics@.len(),
            n0 == d0.len(),
            forall|j: int| 0 <= j < d0.len() ==> #[trigger] diagnostics@[j] == d0[j],
            (forall|i: int| 0 <= i < out@.len() ==> program_clean(#[trigger] original[i], unit_quiet(units@[i], modules@, exports@)))
                ==> diagnostics@ == d0,
        decreases rest@.len(),
    {
        let k = out.len();
        let ghost rb = rest@;
        let ghost dk = diagnostics@;
        let mut x = rest.pop().unwrap();
        assert(x == original[k as int]);
        let resolver = Resolver { unit: &units[k], modules, exports };
        assert(resolver.wf());
        assert(resolver.quiet() =~= unit_quiet(units@[k as int], modules@, exports@));
        resolver.rewrite_program(&mut x, diagnostics);
        assert(resolver.names() =~= unit_names(units@[k as int], modules@, exports@));
        proof {
            lemma_program_fits(
                original[k as int],
                x,
                resolver.names(),
                units@[k as int].declared(),
                units@[k as int].module@,
                bases@[k as int] as int,
            );
        }
        out.push(x);
        proof {
            if forall|i: int| 0 <= i < out@.len() ==> program_clean(#[trigger] original[i], unit_quiet(units@[i], modules@, exports@)) {
                assert(program_clean(original[k as int], unit_quiet(units@[k as int], modules@, exports@)));
                assert(forall|i: int| 0 <= i < k ==> program_clean(#[trigger] original[i], unit_quiet(units@[i], modules@, exports@)));
            }
        }
        assert forall|j: int| 0 <= j < rest@.len() implies #[trigger] rest@[j] == original[original.len() - 1 - j] by {
            assert(rest@[j] == rb[j]);
        }
    }
    if diagnostics.len() != n0 {
        return None;
    }
    let ghost rewritten = out@;
    let m = link_programs(out, bases, keep_tests);
    let ghost moved = choose|moved: Seq<Program>|
        {
            &&& moved.len() == rewritten.len()
            &&& forall|i: int|
                0 <= i < moved.len() ==> shifted_program(#[trigger] rewritten[i], moved[i], bases@[i] as int)
            &&& joined_programs(moved, keep_tests@, m)
        };
    proof {
        assert(rewritten.len() == original.len());
        assert(moved.len() == original.len());
        assert(joined_programs(moved, keep_tests@, m));
        assert(forall|i: int|
            0 <= i < original.len() ==> {
                &&& program_rewritten(
                    original[i],
                    #[trigger] rewritten[i],
                    unit_names(units@[i], modules@, exports@),
                    units@[i].declared(),
                    units@[i].module@,
                )
                &&& shifted_program(rewritten[i], moved[i], bases@[i] as int)
            });
        assert(links_to(original, units@, modules@, exports@, bases@, keep_tests@, rewritten, moved, m));
        assert(original == programs@);
        assert(links_to(programs@, units@, modules@, exports@, bases@, keep_tests@, rewritten, moved, m));
    }
    let r = Some(m);
    assert(r->0 == m);
    assert(links_to(programs@, units@, modules@, exports@, bases@, keep_tests@, rewritten, moved, r->0));
    r
}

/// `c` keeps `a` where `b` keeps `a` and `c` keeps `b`.
proof fn lemma_prefix_trans(a: Seq<Diagnostic>, b: Seq<Diagnostic>, c: Seq<Diagnostic>)
    requires
        a.len() <= b.len(),
        b.take(a.len() as int) == a,
        b.len() <= c.len(),
        c.take(b.len() as int) == b,
    ensures
        a.len() <= c.len(),
        c.take(a.len() as int) == a,
{
    assert forall|k: int| 0 <= k < a.len() implies c.take(a.len() as int)[k] == a[k] by {
        assert(c.take(b.len() as int)[k] == c[k]);
        assert(b.take(a.len() as int)[k] == b[k]);
    }
    assert(c.take(a.len() as int) =~= a);
}

/// After declarations and imports, each unit still has its module, path and
/// items; its names are those its items declare, which cover its program.
proof fn lemma_declared_units(first: Seq<ModuleUnit>, declared: Seq<ModuleUnit>, imported: Seq<ModuleUnit>, entry: Seq<char>)
    requires
        declared.len() == first.len(),
        imported.len() == first.len(),
        forall|i: int|
            0 <= i < declared.len() ==> {
                &&& (#[trigger] declared[i]).tables_wf()
                &&& same_but_declarations(first[i], declared[i])
                &&& declared[i].declared() == declare(first[i].declared(), first[i].module@, entry, first[i].items@)
            },
        forall|i: int|
            0 <= i < imported.len() ==> {
                &&& (#[trigger] imported[i]).tables_wf()
                &&& same_but_imports(declared[i], imported[i])
            },
    ensures
        forall|i: int|
            0 <= i < imported.len() ==> {
                &&& (#[trigger] imported[i]).module == first[i].module
                &&& imported[i].path == first[i].path
                &&& imported[i].declared() == declare(first[i].declared(), first[i].module@, entry, first[i].items@)
            },
{
    assert forall|i: int| 0 <= i < imported.len() implies {
        &&& (#[trigger] imported[i]).module == first[i].module
        &&& imported[i].path == first[i].path
        &&& imported[i].declared() == declare(first[i].declared(), first[i].module@, entry, first[i].items@)
    } by {
        assert(imported[i].declarations == declared[i].declarations);
        assert(imported[i].declared() == declared[i].declared());
    }
}

// ---------------------------------------------------------- a parsed package

/// Where no identity is refused, every file's module is one of its own:
/// the names taken are those of all the files, and no two are alike.
proof fn lemma_identities_distinct(files: Seq<PackageSource>)
    requires
        identities(files).2.len() == 0,
    ensures
        forall|i: int| 0 <= i < files.len() ==> identities(files).0.dom().contains(#[trigger] full_module(files[i])),
        forall|i: int, j: int| 0 <= i < j < files.len() ==> full_module(files[i]) != full_module(files[j]),
    decreases files.len(),
{
    if files.len() > 0 {
        let (seen, kept, rs) = identities(files.drop_last());
        let f = files.last();
        let name = full_module(f);
        if !module_name(name) || seen.dom().contains(name) {
            assert(identities(files).2.len() > 0);
        } else {
            assert(rs.len() == 0);
            lemma_identities_distinct(files.drop_last());
            assert forall|i: int| 0 <= i < files.len() implies identities(files).0.dom().contains(#[trigger] full_module(files[i])) by {
                if i < files.len() - 1 {
                    assert(files.drop_last()[i] == files[i]);
                }
            }
            assert forall|i: int, j: int| 0 <= i < j < files.len() implies full_module(files[i]) != full_module(files[j]) by {
                assert(files.drop_last()[i] == files[i]);
                if j < files.len() - 1 {
                    assert(files.drop_last()[j] == files[j]);
                } else {
                    assert(seen.dom().contains(full_module(files.drop_last()[i])));
                }
            }
        }
    }
}

fn full_module_of(file: &PackageSource) -> (m: String)
    ensures
        m@ == full_module(*file),
{
    match &file.namespace {
        Some(ns) => qualify(ns.as_str(), file.module.as_str()),
        None => file.module.clone(),
    }
}

/// Where each file of `files` starts in the package.
pub open spec fn file_bases(files: Seq<PackageSource>) -> Seq<usize> {
    Seq::new(files.len(), |i: int| base_of(files, i) as usize)
}

/// Which files' tests belong to the package: those with no namespace.
pub open spec fn own_tests(files: Seq<PackageSource>) -> Seq<bool> {
    Seq::new(files.len(), |i: int| files[i].namespace is None)
}

/// `u` is the unit of the module of `file`, made from its parsed
/// `program`: nothing resolved yet.
pub open spec fn unit_of(u: ModuleUnit, file: PackageSource, program: Program) -> bool {
    &&& u.path == file.path
    &&& u.module@ == full_module(file)
    &&& u.namespace == file.namespace
    &&& u.base == 0
    &&& u.items@.map_values(|t: TopLevel| item_view(t)) == program_items(program)
    &&& u.exports@ == program.exports@
    &&& u.takes@.map_values(|t: TakeDecl| take_view(t)) == program.takes@.map_values(|t: TakeDecl| take_view(t))
    &&& texts_of(u.names@) == program_names(program)
    &&& u.declarations@.len() == 0
    &&& u.imports@.len() == 0
}

/// Analyses a package whose files are parsed, `programs[i]` being the
/// program of `input.files[i]`, as far as one program: the module of each
/// file is checked, and the entry module must be one of them; then the
/// modules' names are resolved and their programs joined, as
/// `resolve_package` does, each file starting where `source_bases` puts it
/// and only files without a namespace keeping their tests. Where any of
/// that reports, there is no program. Also answers the modules' units and
/// what each exports, where the modules were checked.
pub fn analyze_programs(
    input: &PackageInput,
    programs: Vec<Program>,
    diagnostics: &mut Vec<Diagnostic>,
) -> (r: (Option<Program>, Vec<ModuleUnit>, Vec<Vec<(String, String)>>))
    requires
        programs@.len() == input.files@.len(),
        base_of(input.files@, input.files@.len() as int) <= usize::MAX,
        forall|i: int| 0 <= i < programs@.len() ==> fits_program(#[trigger] programs@[i], base_of(input.files@, i)),
    ensures
        ({
            let (seen, ks, rs) = identities(input.files@);
            let entry_missing = !seen.dom().contains(input.entry_module@);
            &&& final(diagnostics)@.len() >= old(diagnostics)@.len() + rs.len() + if entry_missing { 1int } else { 0int }
            &&& final(diagnostics)@.take(old(diagnostics)@.len() as int) == old(diagnostics)@
            &&& forall|j: int| 0 <= j < rs.len() ==> shows_identity(#[trigger] final(diagnostics)@[old(diagnostics)@.len() + j], rs[j])
            &&& (rs.len() > 0 || entry_missing) ==> final(diagnostics)@.len() == old(diagnostics)@.len() + rs.len() + if entry_missing { 1int } else { 0int }
        }),
        r.0 is Some <==> final(diagnostics)@ == old(diagnostics)@,
        r.0 matches Some(m) ==> {
            &&& r.1@.len() == input.files@.len()
            &&& forall|i: int| 0 <= i < r.1@.len() ==> (#[trigger] r.1@[i]).module@ == full_module(input.files@[i])
                && r.1@[i].path == input.files@[i].path
            &&& exists|rewritten: Seq<Program>, moved: Seq<Program>|
                links_to(
                    programs@,
                    r.1@,
                    unit_modules(r.1@),
                    r.2@,
                    file_bases(input.files@),
                    own_tests(input.files@),
                    rewritten,
                    moved,
                    m,
                )
        },
        ({
            let (seen, ks, rs) = identities(input.files@);
            rs.len() == 0 && seen.dom().contains(input.entry_module@)
        }) ==> exists|first: Seq<ModuleUnit>, mid: Seq<ModuleUnit>, deps: Seq<Seq<usize>>|
            {
                &&& first.len() == input.files@.len()
                &&& forall|i: int| 0 <= i < first.len() ==> unit_of(#[trigger] first[i], input.files@[i], programs@[i])
                &&& stages_reported(
                    first,
                    mid,
                    r.1@,
                    deps,
                    input.entry_module@,
                    r.2@,
                    programs@,
                    old(diagnostics)@,
                    final(diagnostics)@,
                )
            },
{
    let ghost d0 = diagnostics@;
    let ghost files = input.files@;
    let n0 = diagnostics.len();
    let _kept = check_module_identities(input, diagnostics);
    if diagnostics.len() != n0 {
        proof {
            let (seen, ks, rs) = identities(files);
            assert(diagnostics@ != d0);
        }
        return (None, Vec::new(), Vec::new());
    }
    proof {
        let (seen, ks, rs) = identities(files);
        assert(rs.len() == 0);
        lemma_identities_distinct(files);
        assert(diagnostics@ =~= d0);
    }
    let bases = source_bases(input.files.as_slice());
    let mut units: Vec<ModuleUnit> = Vec::new();
    let mut keep: Vec<bool> = Vec::new();
    let mut k: usize = 0;
    while k < input.files.len()
        invariant
            files == input.files@,
            k <= files.len(),
            programs@.len() == files.len(),
            units@.len() == k,
            keep@.len() == k,
            forall|i: int|
                0 <= i < k ==> {
                    &&& (#[trigger] units@[i]).module@ == full_module(files[i])
                    &&& units@[i].path == files[i].path
                    &&& units@[i].declarations@.len() == 0
                    &&& units@[i].imports@.len() == 0
                    &&& units@[i].items@.map_values(|t: TopLevel| item_view(t)) == program_items(programs@[i])
                &&& unit_of(units@[i], files[i], programs@[i])
                },
            forall|i: int| 0 <= i < k ==> #[trigger] keep@[i] == (files[i].namespace is None),
        decreases files.len() - k,
    {
        let file = &input.files[k];
        let unit = ModuleUnit::of_program(
            file.path.clone(),
            full_module_of(file),
            file.namespace.clone(),
            file.source.as_str().len(),
            &programs[k],
        );
        units.push(unit);
        keep.push(file.namespace.is_none());
        k += 1;
    }
    proof {
        assert(bases@ =~= file_bases(files));
        assert(keep@ =~= own_tests(files));
        assert forall|i: int, j: int| 0 <= i < j < unit_modules(units@).len() implies unit_modules(units@)[i]@ != unit_modules(units@)[j]@ by {
            assert(unit_modules(units@)[i] == units@[i].module);
            assert(unit_modules(units@)[j] == units@[j].module);
        }
        assert forall|i: int| 0 <= i < programs@.len() implies fits_program(#[trigger] programs@[i], bases@[i] as int) by {
            assert(bases@[i] == base_of(files, i));
        }
    }
    let ghost first = units@;
    let ghost progs = programs@;
    let ghost dmid = diagnostics@;
    let (program, exports) = resolve_package(&mut units, programs, input.entry_module.as_str(), &bases, &keep, diagnostics);
    proof {
        assert(unit_modules(units@) =~= unit_modules(first)) by {
            assert forall|i: int| 0 <= i < units@.len() implies unit_modules(units@)[i] == unit_modules(first)[i] by {
                assert(units@[i].module == first[i].module);
            }
        }
        assert forall|i: int| 0 <= i < units@.len() implies (#[trigger] units@[i]).module@ == full_module(files[i])
            && units@[i].path == files[i].path by {
            assert(units@[i].module == first[i].module);
            assert(units@[i].path == first[i].path);
        }
    }
    let ghost m = program->0;
    let ghost pair: (Seq<Program>, Seq<Program>) = choose|rw: Seq<Program>, mv: Seq<Program>|
        links_to(progs, units@, unit_modules(first), exports@, bases@, keep@, rw, mv, m);
    proof {
        if program is Some {
            assert(links_to(progs, units@, unit_modules(first), exports@, bases@, keep@, pair.0, pair.1, m));
            assert(links_to(progs, units@, unit_modules(units@), exports@, file_bases(files), own_tests(files), pair.0, pair.1, m));
        }
    }
    let ghost st: (Seq<ModuleUnit>, Seq<Seq<usize>>) = choose|mid: Seq<ModuleUnit>, deps: Seq<Seq<usize>>|
        stages_reported(first, mid, units@, deps, input.entry_module@, exports@, progs, dmid, diagnostics@);
    proof {
        assert(stages_reported(first, st.0, units@, st.1, input.entry_module@, exports@, progs, dmid, diagnostics@));
        assert(dmid == d0);
    }
    let r = (program, units, exports);
    proof {
        if r.0 is Some {
            assert(r.0->0 == m);
            assert(links_to(progs, r.1@, unit_modules(r.1@), r.2@, file_bases(files), own_tests(files), pair.0, pair.1, r.0->0));
        }
        assert(stages_reported(first, st.0, r.1@, st.1, input.entry_module@, r.2@, progs, d0, diagnostics@));
        assert(forall|i: int| 0 <= i < first.len() ==> unit_of(#[trigger] first[i], files[i], progs[i]));
    }
    r
}

} // verus!
