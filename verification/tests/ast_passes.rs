use slopic_core::ast::{
    ConstDecl, EnumDecl, Expr, ExprKind, Extern, Field, Function, ImportItem, MatchArm, Param, Pattern,
    PatternKind, Program, StructDecl, TakeDecl, Test, Type, TypeList, Variant,
};
use slopic_core::diagnostic::Span;
use slopic_core::mir::escape_bytes;
use slopic_core::reader::pieces;
use slopic_core::sema::{match_coverage, TPattern, TPatternBinding, TPatternField};
use slopic_core::syntax::{lex_lossless, SyntaxKind};
use slopic_core::package::qualified::collect_qualified_names;
use slopic_core::package::resolve::{collect_declarations, DeclarationKind, ModuleUnit, Resolver};
use slopic_core::package::shift::shift_program;
use slopic_core::package::pipeline::{analyze_programs, resolve_package};
use slopic_core::package::{PackageInput, PackageSource};
use slopic_core::package::unit::{link_programs, merge_programs};

fn at(start: usize) -> Span {
    Span {
        start,
        end: start + 2,
        line: 3,
        column: 4,
    }
}

fn expr(kind: ExprKind, start: usize) -> Expr {
    Expr {
        kind,
        span: at(start),
    }
}

fn var(name: &str, start: usize) -> Expr {
    expr(
        ExprKind::Var {
            name: name.to_string(),
            resolved: None,
        },
        start,
    )
}

fn call(callee: &str, args: Vec<Expr>, start: usize) -> Expr {
    expr(
        ExprKind::Call {
            callee: callee.to_string(),
            args,
        },
        start,
    )
}

fn named(name: &str) -> Type {
    Type::Named(name.to_string())
}

fn empty_program() -> Program {
    Program {
        functions: Vec::new(),
        externs: Vec::new(),
        tests: Vec::new(),
        structs: Vec::new(),
        enums: Vec::new(),
        consts: Vec::new(),
        exports: Vec::new(),
        takes: Vec::new(),
    }
}

/// A function `helper (p: Point) -> geo:Shape` whose body matches on `p`
/// against `geo:Shape:Circle` and calls `geo:area` and `+`.
fn sample_program() -> Program {
    let arm = MatchArm {
        pattern: Pattern {
            kind: PatternKind::Enum {
                path: "geo:Shape:Circle".to_string(),
                fields: vec![Pattern {
                    kind: PatternKind::Binding("r".to_string()),
                    span: at(40),
                }],
            },
            span: at(35),
        },
        guard: None,
        body: call("geo:area", vec![var("r", 50)], 45),
        span: at(35),
    };
    let body = expr(
        ExprKind::Match {
            value: Box::new(var("p", 30)),
            arms: vec![arm],
        },
        25,
    );
    let helper = Function {
        name: "helper".to_string(),
        inline: false,
        type_params: Vec::new(),
        params: vec![Param {
            name: "p".to_string(),
            ty: named("Point"),
            span: at(12),
        }],
        return_type: Type::Apply {
            name: "geo:Shape".to_string(),
            args: TypeList::from_vec(vec![Type::I64]),
        },
        body,
        span: at(10),
    };
    let mut program = empty_program();
    program.functions.push(helper);
    program.structs.push(StructDecl {
        name: "Point".to_string(),
        type_params: Vec::new(),
        fields: vec![Field {
            name: "x".to_string(),
            ty: Type::I64,
            span: at(70),
        }],
        span: at(60),
    });
    program.tests.push(Test {
        name: "adds".to_string(),
        body: call("+", vec![var("one", 90), var("helper", 92)], 88),
        span: at(85),
    });
    program
}

#[test]
fn collects_the_qualified_names_a_program_mentions() {
    let program = sample_program();
    let mut names = Vec::new();
    collect_qualified_names(&program, &mut names);
    assert_eq!(names, vec!["geo:Shape", "geo:Shape:Circle", "geo:area"]);
}

#[test]
fn collecting_appends_to_what_is_there() {
    let mut program = empty_program();
    program.consts.push(ConstDecl {
        name: "limit".to_string(),
        ty: Some(named("units:Meters")),
        value: expr(ExprKind::Int(3), 5),
        span: at(1),
    });
    let mut names = vec!["first".to_string()];
    collect_qualified_names(&program, &mut names);
    assert_eq!(names, vec!["first", "units:Meters"]);
}

#[test]
fn shifting_moves_every_span_by_the_base() {
    let mut program = sample_program();
    shift_program(&mut program, 1000);
    let helper = &program.functions[0];
    assert_eq!(helper.span.start, 1010);
    assert_eq!(helper.span.end, 1012);
    assert_eq!(helper.span.line, 3);
    assert_eq!(helper.span.column, 4);
    assert_eq!(helper.params[0].span.start, 1012);
    assert_eq!(helper.body.span.start, 1025);
    match &helper.body.kind {
        ExprKind::Match { value, arms } => {
            assert_eq!(value.span.start, 1030);
            assert_eq!(arms[0].span.start, 1035);
            assert_eq!(arms[0].pattern.span.start, 1035);
            assert_eq!(arms[0].body.span.start, 1045);
        }
        other => panic!("unexpected {other:?}"),
    }
    assert_eq!(program.structs[0].fields[0].span.start, 1070);
    assert_eq!(program.tests[0].span.start, 1085);
}

#[test]
fn shifting_by_zero_changes_nothing() {
    let mut program = sample_program();
    shift_program(&mut program, 0);
    assert_eq!(program.functions[0].span, at(10));
    assert_eq!(program.tests[0].body.span, at(88));
}

fn app_unit(program: &Program) -> ModuleUnit {
    ModuleUnit::of_program(
        "src/app.slp".to_string(),
        "app".to_string(),
        None,
        120,
        program,
    )
}

#[test]
fn a_unit_lists_its_program_declarations_in_order() {
    let mut program = sample_program();
    program.externs.push(Extern {
        name: "puts".to_string(),
        symbol: "puts".to_string(),
        symbol_span: at(100),
        params: Vec::new(),
        return_type: Type::Unit,
        span: at(98),
    });
    program.enums.push(EnumDecl {
        name: "Color".to_string(),
        type_params: Vec::new(),
        variants: vec![Variant {
            name: "Red".to_string(),
            fields: Vec::new(),
            span: at(110),
        }],
        span: at(108),
    });
    program.exports.push(ImportItem {
        path: "helper".to_string(),
        alias: "helper".to_string(),
        span: at(1),
    });
    program.takes.push(TakeDecl {
        module: "geo".to_string(),
        items: Vec::new(),
        span: at(2),
    });
    let unit = app_unit(&program);
    let items: Vec<(String, DeclarationKind)> = unit
        .items
        .iter()
        .map(|t| (t.name.clone(), t.kind))
        .collect();
    assert_eq!(
        items,
        vec![
            ("helper".to_string(), DeclarationKind::Function),
            ("Point".to_string(), DeclarationKind::Struct),
            ("Color".to_string(), DeclarationKind::Enum),
            ("puts".to_string(), DeclarationKind::Extern),
        ]
    );
    assert_eq!(unit.items[3].span, at(98));
    assert_eq!(unit.names, vec!["geo:Shape", "geo:Shape:Circle", "geo:area"]);
    assert_eq!(unit.exports.len(), 1);
    assert_eq!(unit.exports[0].alias, "helper");
    assert_eq!(unit.takes[0].module, "geo");
    assert!(unit.declarations.is_empty());
    assert_eq!(unit.base, 0);
    assert_eq!(unit.source_len, 120);
}

fn declared_app(program: &Program) -> Vec<ModuleUnit> {
    let mut units = vec![app_unit(program)];
    let mut diagnostics = Vec::new();
    collect_declarations(&mut units, "app", &mut diagnostics);
    assert!(diagnostics.is_empty());
    units
}

#[test]
fn rewriting_gives_every_name_its_canonical_form() {
    let mut program = sample_program();
    let units = declared_app(&program);
    let modules = vec!["app".to_string()];
    let exports: Vec<Vec<(String, String)>> = vec![Vec::new()];
    let resolver = Resolver {
        unit: &units[0],
        modules: &modules,
        exports: &exports,
    };
    let mut diagnostics = Vec::new();
    resolver.rewrite_program(&mut program, &mut diagnostics);
    assert!(diagnostics.is_empty());
    let helper = &program.functions[0];
    assert_eq!(helper.name, "app:helper");
    assert_eq!(helper.params[0].ty, named("app:Point"));
    assert_eq!(program.structs[0].name, "app:Point");
    assert_eq!(program.tests[0].name, "app:adds");
    match &program.tests[0].body.kind {
        ExprKind::Call { callee, args } => {
            // `+` is the language's own, and stays as written.
            assert_eq!(callee, "+");
            match &args[1].kind {
                ExprKind::Var { name, resolved } => {
                    assert_eq!(name, "helper");
                    assert_eq!(resolved.as_deref(), Some("app:helper"));
                }
                other => panic!("unexpected {other:?}"),
            }
            match &args[0].kind {
                ExprKind::Var { resolved, .. } => assert_eq!(resolved.as_deref(), Some("one")),
                other => panic!("unexpected {other:?}"),
            }
        }
        other => panic!("unexpected {other:?}"),
    }
    assert!(program.exports.is_empty());
    assert!(program.takes.is_empty());
}

#[test]
fn rewriting_refuses_the_double_colon_separator() {
    let program = sample_program();
    let units = declared_app(&program);
    let modules = vec!["app".to_string()];
    let exports: Vec<Vec<(String, String)>> = vec![Vec::new()];
    let resolver = Resolver {
        unit: &units[0],
        modules: &modules,
        exports: &exports,
    };
    let mut diagnostics = Vec::new();
    let mut ty = Type::List(Box::new(named("app::Point")));
    resolver.rewrite_type(&mut ty, at(7), &mut diagnostics);
    assert_eq!(ty, Type::List(Box::new(named("app:Point"))));
    assert_eq!(diagnostics.len(), 1);
    assert_eq!(diagnostics[0].code, "SL0500");
    assert_eq!(diagnostics[0].file, "src/app.slp");
    assert_eq!(diagnostics[0].span, at(7));

    // A local spelled with `::` is refused too; one without is quiet.
    let mut diagnostics = Vec::new();
    let mut quiet = var("nowhere", 3);
    resolver.rewrite_expr(&mut quiet, &mut diagnostics);
    assert!(diagnostics.is_empty());
    let mut loud = var("app::helper", 3);
    resolver.rewrite_expr(&mut loud, &mut diagnostics);
    assert_eq!(diagnostics.len(), 1);
    match &loud.kind {
        ExprKind::Var { resolved, .. } => assert_eq!(resolved.as_deref(), Some("app:helper")),
        other => panic!("unexpected {other:?}"),
    }
}

#[test]
fn rewriting_resolves_pattern_paths() {
    let program = sample_program();
    let units = declared_app(&program);
    let modules = vec!["app".to_string()];
    let exports: Vec<Vec<(String, String)>> = vec![Vec::new()];
    let resolver = Resolver {
        unit: &units[0],
        modules: &modules,
        exports: &exports,
    };
    let mut diagnostics = Vec::new();
    let mut pattern = Pattern {
        kind: PatternKind::Struct {
            path: "Point".to_string(),
            fields: Vec::new(),
        },
        span: at(5),
    };
    resolver.rewrite_pattern(&mut pattern, &mut diagnostics);
    match &pattern.kind {
        PatternKind::Struct { path, .. } => assert_eq!(path, "app:Point"),
        other => panic!("unexpected {other:?}"),
    }
    assert!(diagnostics.is_empty());
}

#[test]
fn merging_keeps_order_and_drops_dependency_tests() {
    let first = sample_program();
    let mut second = empty_program();
    second.functions.push(Function {
        name: "other".to_string(),
        inline: true,
        type_params: Vec::new(),
        params: Vec::new(),
        return_type: Type::Unit,
        body: expr(ExprKind::Unit, 3),
        span: at(1),
    });
    second.tests.push(Test {
        name: "dependency".to_string(),
        body: expr(ExprKind::Unit, 9),
        span: at(8),
    });
    let merged = merge_programs(vec![first, second], &vec![true, false]);
    let names: Vec<&str> = merged.functions.iter().map(|f| f.name.as_str()).collect();
    assert_eq!(names, vec!["helper", "other"]);
    assert_eq!(merged.tests.len(), 1);
    assert_eq!(merged.tests[0].name, "adds");
    assert_eq!(merged.structs.len(), 1);
}

#[test]
fn linking_shifts_each_program_by_its_base() {
    let first = sample_program();
    let mut second = empty_program();
    second.tests.push(Test {
        name: "late".to_string(),
        body: expr(ExprKind::Unit, 9),
        span: at(8),
    });
    let linked = link_programs(vec![first, second], &vec![0, 500], &vec![true, true]);
    assert_eq!(linked.functions[0].span.start, 10);
    assert_eq!(linked.tests.len(), 2);
    assert_eq!(linked.tests[1].span.start, 508);
    assert_eq!(linked.tests[1].body.span.start, 509);
}

fn function(name: &str, body: Expr, start: usize) -> Function {
    Function {
        name: name.to_string(),
        inline: false,
        type_params: Vec::new(),
        params: Vec::new(),
        return_type: Type::Unit,
        body,
        span: at(start),
    }
}

fn two_modules() -> (Program, Program) {
    let mut app = empty_program();
    app.functions.push(function("main", call("helper", Vec::new(), 5), 1));
    app.functions.push(function("helper", expr(ExprKind::Unit, 12), 10));
    app.tests.push(Test {
        name: "t".to_string(),
        body: call("helper", Vec::new(), 22),
        span: at(20),
    });
    let mut lib = empty_program();
    lib.functions.push(function("f", expr(ExprKind::Unit, 3), 1));
    lib.tests.push(Test {
        name: "inner".to_string(),
        body: expr(ExprKind::Unit, 9),
        span: at(8),
    });
    (app, lib)
}

fn units_of(app: &Program, lib: &Program) -> Vec<ModuleUnit> {
    vec![
        ModuleUnit::of_program("src/app.slp".to_string(), "app".to_string(), None, 50, app),
        ModuleUnit::of_program("src/lib.slp".to_string(), "lib".to_string(), None, 40, lib),
    ]
}

#[test]
fn resolving_a_package_links_its_modules() {
    let (app, lib) = two_modules();
    let mut units = units_of(&app, &lib);
    let mut diagnostics = Vec::new();
    let (program, exports) = resolve_package(
        &mut units,
        vec![app, lib],
        "app",
        &vec![0, 100],
        &vec![true, false],
        &mut diagnostics,
    );
    assert!(diagnostics.is_empty());
    assert_eq!(exports.len(), 2);
    let program = program.expect("a clean package links");
    let names: Vec<&str> = program.functions.iter().map(|f| f.name.as_str()).collect();
    assert_eq!(names, vec!["main", "app:helper", "lib:f"]);
    assert_eq!(program.functions[2].span.start, 101);
    assert_eq!(program.functions[0].span.start, 1);
    match &program.functions[0].body.kind {
        ExprKind::Call { callee, .. } => assert_eq!(callee, "app:helper"),
        other => panic!("unexpected {other:?}"),
    }
    assert_eq!(program.tests.len(), 1);
    assert_eq!(program.tests[0].name, "app:t");
    assert_eq!(units[1].declarations.len(), 1);
}

#[test]
fn a_name_declared_twice_stops_the_package() {
    let (mut app, lib) = two_modules();
    app.functions.push(function("helper", expr(ExprKind::Unit, 30), 30));
    let mut units = units_of(&app, &lib);
    let mut diagnostics = Vec::new();
    let (program, _) = resolve_package(
        &mut units,
        vec![app, lib],
        "app",
        &vec![0, 100],
        &vec![true, false],
        &mut diagnostics,
    );
    assert!(program.is_none());
    assert_eq!(diagnostics.len(), 1);
    assert!(diagnostics[0].message.contains("defined more than once"));
    assert_eq!(diagnostics[0].file, "src/app.slp");
}

#[test]
fn escaping_joins_and_keeps_plain_text() {
    let a: &[u8] = b"ab\n\x01";
    let b: &[u8] = b"\"\\z\xff";
    let joined = [a, b].concat();
    assert_eq!(escape_bytes(&joined), escape_bytes(a) + &escape_bytes(b));
    assert!(escape_bytes(&joined).chars().all(|c| (' '..='~').contains(&c)));
    assert_eq!(escape_bytes(b"plain text"), "plain text");
    assert_eq!(escape_bytes(b"plain text").as_bytes(), b"plain text");
    assert_ne!(escape_bytes(b"\\x41"), escape_bytes(b"A"));
    assert_eq!(escape_bytes(&[0x1f, 0x7f]), "\\x1f\\x7f");
}

#[test]
fn runs_of_atom_tokens_are_the_pieces_of_one_atom() {
    let tokens = lex_lossless("(f &mut x 'y) ; c\n(g &z)");
    let mut runs: Vec<Vec<String>> = Vec::new();
    let mut current: Vec<String> = Vec::new();
    for token in &tokens {
        if token.kind == SyntaxKind::Atom {
            current.push(token.text.clone());
        } else if !current.is_empty() {
            runs.push(std::mem::take(&mut current));
        }
    }
    assert!(current.is_empty());
    assert!(runs.len() >= 5);
    for run in &runs {
        let joined: String = run.concat();
        assert_eq!(run, &pieces(&joined));
    }
    let amp: Vec<&str> = tokens
        .iter()
        .skip_while(|t| t.text != "g")
        .filter(|t| t.kind == SyntaxKind::Atom)
        .map(|t| t.text.as_str())
        .collect();
    assert_eq!(amp, vec!["g", "&", "z"]);
    for pair in tokens.windows(2) {
        if pair[0].kind == SyntaxKind::Atom {
            assert_eq!(pair[1].span.line, pair[0].span.line);
            assert_eq!(pair[1].span.column, pair[0].span.column + pair[0].text.chars().count());
        }
    }
    let ampersand = tokens.iter().position(|t| t.text == "&" && t.span.line == 2).unwrap();
    assert_eq!(tokens[ampersand].span.column, 4);
    assert_eq!(tokens[ampersand + 1].span.column, 5);
}

fn variant_pattern(variant: &str, tag: usize, fields: Vec<TPatternField>) -> TPattern {
    TPattern::Enum {
        enum_name: "app:Shape".to_string(),
        variant: variant.to_string(),
        tag,
        fields,
    }
}

#[test]
fn a_bool_match_needs_both_values_or_a_catch_all() {
    let one = vec![TPattern::Bool(true)];
    assert!(!match_coverage(&one, &vec![false], &Type::Bool, None, &Vec::new()).0);
    let both = vec![TPattern::Bool(true), TPattern::Bool(false)];
    assert!(match_coverage(&both, &vec![false, false], &Type::Bool, None, &Vec::new()).0);
    // A guarded arm proves nothing.
    assert!(!match_coverage(&both, &vec![true, false], &Type::Bool, None, &Vec::new()).0);
    let binding = vec![TPattern::Binding(TPatternBinding {
        id: 7,
        name: "b".to_string(),
        ty: Type::Bool,
    })];
    assert!(match_coverage(&binding, &vec![false], &Type::Bool, None, &Vec::new()).0);
    let ints = vec![TPattern::Int(0)];
    assert!(!match_coverage(&ints, &vec![false], &Type::I64, None, &Vec::new()).0);
}

#[test]
fn an_enum_match_needs_every_variant_in_full() {
    let variants = vec!["Circle".to_string(), "Square".to_string()];
    let name = "app:Shape".to_string();
    let scrutinee = Type::Named(name.clone());
    let circle = variant_pattern("Circle", 0, Vec::new());
    let narrow_square = variant_pattern(
        "Square",
        1,
        vec![TPatternField {
            ty: Type::I64,
            pattern: TPattern::Int(3),
        }],
    );
    let arms = vec![circle, narrow_square];
    assert!(!match_coverage(&arms, &vec![false, false], &scrutinee, Some(&name), &variants).0);
    let full_square = variant_pattern(
        "Square",
        1,
        vec![TPatternField {
            ty: Type::I64,
            pattern: TPattern::Wildcard,
        }],
    );
    let arms = vec![variant_pattern("Circle", 0, Vec::new()), full_square];
    assert!(match_coverage(&arms, &vec![false, false], &scrutinee, Some(&name), &variants).0);
}

#[test]
fn a_repeated_refutable_arm_is_reported() {
    let arms = vec![
        TPattern::Int(1),
        TPattern::Int(2),
        TPattern::Int(1),
        TPattern::Wildcard,
        TPattern::Wildcard,
    ];
    let (exhaustive, repeated) =
        match_coverage(&arms, &vec![false, false, false, false, false], &Type::I64, None, &Vec::new());
    assert!(exhaustive);
    assert_eq!(repeated, vec![2]);
    // Arms with guards are never repeats, nor repeated.
    let (_, repeated) =
        match_coverage(&arms, &vec![true, false, false, false, false], &Type::I64, None, &Vec::new());
    assert!(repeated.is_empty());
}

fn package_of(files: Vec<(&str, Option<&str>, &str, usize)>) -> PackageInput {
    PackageInput {
        name: "demo".to_string(),
        entry_module: "app".to_string(),
        files: files
            .into_iter()
            .map(|(path, namespace, module, len)| PackageSource {
                path: path.to_string(),
                namespace: namespace.map(|n| n.to_string()),
                module: module.to_string(),
                source: "x".repeat(len),
            })
            .collect(),
    }
}

#[test]
fn a_parsed_package_is_checked_resolved_and_linked() {
    let (app, lib) = two_modules();
    let input = package_of(vec![
        ("src/app.slp", None, "app", 10),
        ("deps/lib.slp", Some("dep"), "lib", 40),
    ]);
    let mut diagnostics = Vec::new();
    let (program, units, exports) = analyze_programs(&input, vec![app, lib], &mut diagnostics);
    assert!(diagnostics.is_empty());
    let program = program.expect("a clean package links");
    assert_eq!(units[1].module, "dep:lib");
    assert_eq!(exports.len(), 2);
    let names: Vec<&str> = program.functions.iter().map(|f| f.name.as_str()).collect();
    assert_eq!(names, vec!["main", "app:helper", "dep:lib:f"]);
    // The second file starts after the first one's ten bytes and one more.
    assert_eq!(program.functions[2].span.start, 12);
    // The dependency's tests are its own.
    assert_eq!(program.tests.len(), 1);
    assert_eq!(program.tests[0].name, "app:t");
}

#[test]
fn a_module_defined_twice_stops_the_package_before_resolution() {
    let (app, lib) = two_modules();
    let input = package_of(vec![("src/app.slp", None, "app", 10), ("src/app2.slp", None, "app", 5)]);
    let mut diagnostics = Vec::new();
    let (program, units, _) = analyze_programs(&input, vec![app, lib], &mut diagnostics);
    assert!(program.is_none());
    assert!(units.is_empty());
    assert_eq!(diagnostics.len(), 1);
    assert!(diagnostics[0].message.contains("is defined by more than one file"));
    assert_eq!(diagnostics[0].notes, vec!["the other source is `src/app.slp`".to_string()]);
}

#[test]
fn a_take_of_a_name_not_exported_stops_the_package() {
    let (mut app, lib) = two_modules();
    app.takes.push(TakeDecl {
        module: "lib".to_string(),
        items: vec![ImportItem {
            path: "g".to_string(),
            alias: "g".to_string(),
            span: at(40),
        }],
        span: at(39),
    });
    let mut units = units_of(&app, &lib);
    let mut diagnostics = Vec::new();
    let (program, _) =
        resolve_package(&mut units, vec![app, lib], "app", &vec![0, 100], &vec![true, false], &mut diagnostics);
    assert!(program.is_none());
    assert!(!diagnostics.is_empty());
    assert!(diagnostics.iter().all(|d| d.code == "SL0500"));
    assert!(diagnostics.iter().any(|d| d.message.contains("is private or does not exist")));
}

#[test]
fn a_double_colon_call_is_refused_when_rewriting() {
    let (mut app, lib) = two_modules();
    app.functions[1].body = call("lib::f", Vec::new(), 12);
    let mut units = units_of(&app, &lib);
    let mut diagnostics = Vec::new();
    let (program, _) =
        resolve_package(&mut units, vec![app, lib], "app", &vec![0, 100], &vec![true, false], &mut diagnostics);
    assert!(program.is_none());
    assert_eq!(diagnostics.len(), 1);
    assert!(diagnostics[0].message.contains("`::` is no longer a valid qualified-name separator"));
}
