use slopic_core::ast::{ImportItem, TakeDecl};
use slopic_core::diagnostic::{Applicability, Diagnostic, Label, Span};
use slopic_core::package::reject_cycles;
use slopic_core::package::resolve::{
    collect_declarations, dependency_edges, lex_lt, longest_module_prefix, module_path_for_unit,
    owning_unit, path_for_unit, remap_diagnostic, reported_warnings, resolve_exports,
    resolve_imports, resolve_public_path, sorted_bindings, summaries, DeclarationKind,
    ModuleUnit, Resolver, TopLevel,
};

fn at(start: usize) -> Span {
    Span {
        start,
        end: start + 1,
        line: 1,
        column: start + 1,
    }
}

fn item(name: &str, kind: DeclarationKind, start: usize) -> TopLevel {
    TopLevel {
        name: name.to_string(),
        kind,
        span: at(start),
    }
}

fn named(path: &str, alias: &str, start: usize) -> ImportItem {
    ImportItem {
        path: path.to_string(),
        alias: alias.to_string(),
        span: at(start),
    }
}

fn take(module: &str, items: Vec<ImportItem>, start: usize) -> TakeDecl {
    TakeDecl {
        module: module.to_string(),
        items,
        span: at(start),
    }
}

fn unit(module: &str, items: Vec<TopLevel>, exports: Vec<ImportItem>, takes: Vec<TakeDecl>) -> ModuleUnit {
    ModuleUnit {
        path: format!("src/{module}.slp"),
        module: module.to_string(),
        namespace: None,
        source_len: 100,
        base: 0,
        items,
        exports,
        takes,
        names: Vec::new(),
        declarations: Vec::new(),
        imports: Vec::new(),
    }
}

fn modules_of(units: &[ModuleUnit]) -> Vec<String> {
    units.iter().map(|unit| unit.module.clone()).collect()
}

fn messages(diagnostics: &[Diagnostic]) -> Vec<String> {
    diagnostics.iter().map(|d| d.message.clone()).collect()
}

/// Declarations, exports and takes of a whole package, as analysis runs them.
fn link(units: &mut Vec<ModuleUnit>) -> (Vec<String>, Vec<Vec<(String, String)>>, Vec<Diagnostic>) {
    let mut diagnostics = Vec::new();
    collect_declarations(units, "main", &mut diagnostics);
    let modules = modules_of(units);
    let exports = resolve_exports(units, &modules, &mut diagnostics);
    resolve_imports(units, &modules, &exports, &mut diagnostics);
    (modules, exports, diagnostics)
}

fn resolve(
    units: &[ModuleUnit],
    index: usize,
    modules: &Vec<String>,
    exports: &Vec<Vec<(String, String)>>,
    name: &str,
    diagnostics: &mut Vec<Diagnostic>,
) -> String {
    let resolver = Resolver {
        unit: &units[index],
        modules,
        exports,
    };
    resolver.resolve(name, at(90), diagnostics)
}

#[test]
fn a_taken_name_and_a_qualified_name_resolve_to_the_same_declaration() {
    let mut units = vec![
        unit(
            "geometry",
            vec![item("distance", DeclarationKind::Function, 18)],
            vec![named("distance", "distance", 8)],
            vec![],
        ),
        unit(
            "main",
            vec![item("main", DeclarationKind::Function, 40)],
            vec![],
            vec![take("geometry", vec![named("distance", "length", 16)], 1)],
        ),
    ];
    let (modules, exports, mut diagnostics) = link(&mut units);
    assert!(diagnostics.is_empty(), "{:?}", messages(&diagnostics));
    assert_eq!(resolve(&units, 1, &modules, &exports, "length", &mut diagnostics), "geometry:distance");
    assert_eq!(
        resolve(&units, 1, &modules, &exports, "geometry:distance", &mut diagnostics),
        "geometry:distance"
    );
    assert_eq!(resolve(&units, 1, &modules, &exports, "main", &mut diagnostics), "main");
    assert_eq!(resolve(&units, 0, &modules, &exports, "distance", &mut diagnostics), "geometry:distance");
    assert!(diagnostics.is_empty());
}

#[test]
fn a_qualified_name_that_is_not_exported_is_private() {
    let mut units = vec![
        unit("geometry", vec![item("hidden", DeclarationKind::Function, 1)], vec![], vec![]),
        unit("main", vec![item("main", DeclarationKind::Function, 1)], vec![], vec![]),
    ];
    let (modules, exports, mut diagnostics) = link(&mut units);
    assert!(diagnostics.is_empty());
    let name = resolve(&units, 1, &modules, &exports, "geometry:hidden", &mut diagnostics);
    assert_eq!(name, "geometry:hidden");
    assert_eq!(diagnostics.len(), 1);
    assert_eq!(diagnostics[0].message, "qualified name `geometry:hidden` is private or does not exist");
    assert_eq!(diagnostics[0].file, "src/main.slp");
    assert_eq!(diagnostics[0].code, "SL0500");
    assert_eq!(
        diagnostics[0].help.as_deref(),
        Some("export the name or introduce a valid alias with `take`")
    );
}

#[test]
fn an_unknown_unqualified_name_is_left_alone_and_not_reported() {
    let mut units = vec![unit("main", vec![], vec![], vec![])];
    let (modules, exports, mut diagnostics) = link(&mut units);
    assert_eq!(resolve(&units, 0, &modules, &exports, "print", &mut diagnostics), "print");
    assert!(diagnostics.is_empty());
}

#[test]
fn the_old_separator_is_refused_with_a_suggestion() {
    let mut units = vec![
        unit(
            "geometry",
            vec![item("distance", DeclarationKind::Function, 1)],
            vec![named("distance", "distance", 1)],
            vec![],
        ),
        unit("main", vec![], vec![], vec![]),
    ];
    let (modules, exports, mut diagnostics) = link(&mut units);
    let name = resolve(&units, 1, &modules, &exports, "geometry::distance", &mut diagnostics);
    assert_eq!(name, "geometry:distance");
    assert_eq!(diagnostics.len(), 1);
    assert_eq!(diagnostics[0].message, "`::` is no longer a valid qualified-name separator");
    assert_eq!(diagnostics[0].suggestions.len(), 1);
    assert_eq!(diagnostics[0].suggestions[0].replacement, "geometry:distance");
    assert_eq!(diagnostics[0].suggestions[0].message, "replace `::` with `:`");
    assert_eq!(diagnostics[0].suggestions[0].applicability, Applicability::MachineApplicable);
    assert_eq!(diagnostics[0].suggestions[0].span, at(90));
}

#[test]
fn a_qualified_name_through_a_local_declaration_keeps_its_tail() {
    let mut units = vec![unit(
        "shapes",
        vec![item("Shape", DeclarationKind::Enum, 1)],
        vec![named("Shape:Circle", "Circle", 5)],
        vec![],
    )];
    let (modules, exports, mut diagnostics) = link(&mut units);
    assert!(diagnostics.is_empty());
    assert_eq!(resolve(&units, 0, &modules, &exports, "Shape:Square", &mut diagnostics), "shapes:Shape:Square");
    assert_eq!(
        resolve_public_path("shapes:Circle", &modules, &exports).as_deref(),
        Some("shapes:Shape:Circle")
    );
    assert_eq!(
        resolve_public_path("shapes:Circle:more", &modules, &exports).as_deref(),
        Some("shapes:Shape:Circle:more")
    );
    assert_eq!(resolve_public_path("shapes:Shape", &modules, &exports), None);
    assert_eq!(resolve_public_path("nowhere:Shape", &modules, &exports), None);
}

#[test]
fn a_name_declared_twice_is_reported_with_the_first_declaration() {
    let mut units = vec![unit(
        "main",
        vec![
            item("area", DeclarationKind::Function, 1),
            item("area", DeclarationKind::Const, 30),
        ],
        vec![],
        vec![],
    )];
    let mut diagnostics = Vec::new();
    collect_declarations(&mut units, "main", &mut diagnostics);
    assert_eq!(messages(&diagnostics), ["top-level name `area` is defined more than once"]);
    assert_eq!(diagnostics[0].span, at(30));
    assert_eq!(
        diagnostics[0].labels,
        vec![Label {
            span: at(1),
            message: "previous definition is here".to_string(),
        }]
    );
    // The later declaration stands.
    assert_eq!(units[0].declarations.len(), 1);
    assert_eq!(units[0].declarations[0].1.kind, DeclarationKind::Const);
    assert_eq!(units[0].declarations[0].1.canonical, "main:area");
}

#[test]
fn an_extern_may_not_take_a_builtin_name() {
    let mut units = vec![unit(
        "sys",
        vec![
            item("len", DeclarationKind::Extern, 4),
            item("len2", DeclarationKind::Extern, 9),
            item("push", DeclarationKind::Function, 14),
        ],
        vec![],
        vec![],
    )];
    let mut diagnostics = Vec::new();
    collect_declarations(&mut units, "main", &mut diagnostics);
    assert_eq!(
        messages(&diagnostics),
        ["`len` is a builtin, and an `extern` cannot take its name"]
    );
    assert_eq!(diagnostics[0].span, at(4));
}

#[test]
fn only_the_entry_modules_main_keeps_its_bare_name() {
    let mut units = vec![
        unit("main", vec![item("main", DeclarationKind::Function, 1)], vec![], vec![]),
        unit("tool", vec![item("main", DeclarationKind::Function, 1)], vec![], vec![]),
        unit("other", vec![item("main", DeclarationKind::Const, 1)], vec![], vec![]),
    ];
    let mut diagnostics = Vec::new();
    collect_declarations(&mut units, "main", &mut diagnostics);
    assert!(diagnostics.is_empty());
    assert_eq!(units[0].declarations[0].1.canonical, "main");
    assert_eq!(units[1].declarations[0].1.canonical, "tool:main");
    assert_eq!(units[2].declarations[0].1.canonical, "other:main");
}

#[test]
fn a_chain_of_reexports_resolves_in_any_order() {
    // `top` re-exports what `middle` re-exports of `bottom`, and the modules
    // come in the order that makes the first pass miss it.
    let mut units = vec![
        unit("top", vec![], vec![named("middle:deep", "deep", 1)], vec![]),
        unit("middle", vec![], vec![named("bottom:deep", "deep", 1)], vec![]),
        unit(
            "bottom",
            vec![item("deep", DeclarationKind::Function, 1)],
            vec![named("deep", "deep", 1)],
            vec![],
        ),
    ];
    let (modules, exports, diagnostics) = link(&mut units);
    assert!(diagnostics.is_empty(), "{:?}", messages(&diagnostics));
    assert_eq!(resolve_public_path("top:deep", &modules, &exports).as_deref(), Some("bottom:deep"));
    assert_eq!(resolve_public_path("middle:deep", &modules, &exports).as_deref(), Some("bottom:deep"));
}

#[test]
fn export_errors_are_reported() {
    let mut units = vec![
        unit(
            "main",
            vec![item("area", DeclarationKind::Function, 1)],
            vec![
                named("area", "area", 2),
                named("area", "area", 3),
                named("volume", "volume", 4),
                named("other:secret", "secret", 5),
            ],
            vec![],
        ),
        unit("other", vec![item("secret", DeclarationKind::Function, 1)], vec![], vec![]),
    ];
    let (_, exports, diagnostics) = link(&mut units);
    assert_eq!(
        messages(&diagnostics),
        [
            "exported name `area` is defined more than once",
            "cannot export unknown local name `volume`",
            "cannot re-export private or unknown name `other:secret`",
        ]
    );
    assert_eq!(diagnostics[0].span, at(3));
    assert_eq!(
        diagnostics[2].help.as_deref(),
        Some("export the name from its defining module first")
    );
    assert_eq!(exports[0], vec![("area".to_string(), "main:area".to_string())]);
}

#[test]
fn take_errors_are_reported() {
    let mut units = vec![
        unit(
            "geometry",
            vec![item("distance", DeclarationKind::Function, 1), item("hidden", DeclarationKind::Function, 2)],
            vec![named("distance", "distance", 1)],
            vec![],
        ),
        unit(
            "main",
            vec![item("main", DeclarationKind::Function, 1)],
            vec![],
            vec![
                take("nowhere", vec![named("x", "x", 11)], 10),
                take("geometry", vec![named("hidden", "hidden", 21)], 20),
                take("geometry", vec![named("distance", "main", 31)], 30),
                take("geometry", vec![named("distance", "far", 41), named("distance", "far", 42)], 40),
            ],
        ),
    ];
    let (_, _, diagnostics) = link(&mut units);
    assert_eq!(
        messages(&diagnostics),
        [
            "unknown module `nowhere`",
            "`geometry:hidden` is private or does not exist",
            "import alias `main` collides with another name",
            "import alias `far` collides with another name",
        ]
    );
    assert_eq!(diagnostics[0].span, at(10));
    assert_eq!(diagnostics[1].help.as_deref(), Some("export the name from the source module"));
    assert_eq!(diagnostics[3].span, at(42));
    assert_eq!(units[1].imports, vec![("far".to_string(), "geometry:distance".to_string())]);
}

#[test]
fn a_namespace_reads_module_names_inside_it_first() {
    let mut units = vec![
        unit("io", vec![], vec![], vec![]),
        unit("std:io", vec![item("print", DeclarationKind::Function, 1)], vec![named("print", "print", 1)], vec![]),
        unit("std:fmt", vec![], vec![], vec![]),
    ];
    units[2].namespace = Some("std".to_string());
    let modules = modules_of(&units);
    assert_eq!(module_path_for_unit(&units[2], "io", &modules), "io");
    assert_eq!(module_path_for_unit(&units[2], "fmt", &modules), "std:fmt");
    assert_eq!(module_path_for_unit(&units[0], "fmt", &modules), "fmt");
    assert_eq!(path_for_unit(&units[2], "io:print", &modules), "io:print");
    assert_eq!(path_for_unit(&units[2], "fmt:write", &modules), "std:fmt:write");
    assert_eq!(path_for_unit(&units[2], "nothing:here", &modules), "nothing:here");
}

#[test]
fn the_longest_module_that_begins_a_path_names_it() {
    let modules = vec!["std".to_string(), "std:io".to_string(), "stdx".to_string()];
    assert_eq!(longest_module_prefix("std:io:print", &modules), Some(1));
    assert_eq!(longest_module_prefix("std:fmt", &modules), Some(0));
    assert_eq!(longest_module_prefix("stdx:y", &modules), Some(2));
    assert_eq!(longest_module_prefix("std", &modules), None);
    assert_eq!(longest_module_prefix("std:", &modules), Some(0));
    assert_eq!(longest_module_prefix("other:x", &modules), None);
}

#[test]
fn dependencies_come_from_takes_exports_and_qualified_names() {
    let mut units = vec![
        unit("a", vec![], vec![named("b:x", "x", 1)], vec![take("c", vec![], 1)]),
        unit("b", vec![], vec![], vec![]),
        unit("c", vec![], vec![], vec![take("c", vec![], 1)]),
        unit("d", vec![], vec![], vec![]),
    ];
    units[3].names = vec!["a:f".to_string(), "d:g".to_string(), "nowhere:h".to_string()];
    let modules = modules_of(&units);
    let edges = dependency_edges(&units, &modules);
    assert_eq!(edges, vec![vec![1, 2], vec![], vec![2], vec![0]]);
}

#[test]
fn a_module_dependency_cycle_is_found_through_takes() {
    let units = vec![
        unit("a", vec![], vec![], vec![take("b", vec![named("b", "b", 1)], 1)]),
        unit("b", vec![], vec![], vec![take("a", vec![named("a", "a", 1)], 1)]),
        unit("main", vec![], vec![], vec![take("a", vec![named("a", "a", 1)], 1)]),
    ];
    let modules = modules_of(&units);
    let paths: Vec<String> = units.iter().map(|unit| unit.path.clone()).collect();
    let edges = dependency_edges(&units, &modules);
    let mut diagnostics = Vec::new();
    reject_cycles(&modules, &paths, &edges, &mut diagnostics);
    assert_eq!(diagnostics.len(), 1);
    assert!(diagnostics[0].message.contains("cycle"));
    assert_eq!(diagnostics[0].message, "module dependency cycle: a -> b -> a");
}

#[test]
fn names_sort_in_the_order_of_str() {
    assert!(lex_lt("a", "b"));
    assert!(lex_lt("ab", "abc"));
    assert!(!lex_lt("abc", "ab"));
    assert!(!lex_lt("same", "same"));
    assert!(lex_lt("Z", "a"));
    assert!(lex_lt("", "x"));
}

#[test]
fn summaries_list_every_table_in_order_of_name() {
    let mut units = vec![
        unit(
            "lib",
            vec![
                item("zeta", DeclarationKind::Function, 1),
                item("alpha", DeclarationKind::Struct, 2),
                item("mid", DeclarationKind::Const, 3),
            ],
            vec![named("zeta", "z", 1), named("alpha", "a", 2)],
            vec![],
        ),
        unit(
            "main",
            vec![],
            vec![],
            vec![take("lib", vec![named("z", "last", 1), named("a", "first", 2)], 1)],
        ),
    ];
    let (_, exports, diagnostics) = link(&mut units);
    assert!(diagnostics.is_empty(), "{:?}", messages(&diagnostics));
    let summary = summaries(&units, &exports);
    assert_eq!(summary.len(), 2);
    assert_eq!(summary[0].path, "src/lib.slp");
    assert_eq!(summary[0].exports, ["a", "z"]);
    let bindings: Vec<(String, String)> = summary[0]
        .export_bindings
        .iter()
        .map(|b| (b.name.clone(), b.canonical.clone()))
        .collect();
    assert_eq!(
        bindings,
        [("a".to_string(), "lib:alpha".to_string()), ("z".to_string(), "lib:zeta".to_string())]
    );
    let declared: Vec<(String, DeclarationKind)> = summary[0]
        .declarations
        .iter()
        .map(|d| (d.name.clone(), d.kind))
        .collect();
    assert_eq!(
        declared,
        [
            ("alpha".to_string(), DeclarationKind::Struct),
            ("mid".to_string(), DeclarationKind::Const),
            ("zeta".to_string(), DeclarationKind::Function),
        ]
    );
    let imports: Vec<String> = summary[1].imports.iter().map(|b| b.name.clone()).collect();
    assert_eq!(imports, ["first", "last"]);
    let sorted = sorted_bindings(&vec![
        ("b".to_string(), "x:b".to_string()),
        ("a".to_string(), "x:a".to_string()),
    ]);
    assert_eq!(sorted[0].name, "a");
    assert_eq!(sorted[1].canonical, "x:b");
}

fn warning(start: usize) -> Diagnostic {
    let mut d = Diagnostic::error("W0001", "merged", Span { start, end: start + 3, line: 2, column: 4 }, "unused".to_string());
    d.labels.push(Label {
        span: Span { start: start + 1, end: start + 2, line: 2, column: 5 },
        message: "here".to_string(),
    });
    d
}

fn placed(module: &str, base: usize, source_len: usize) -> ModuleUnit {
    let mut u = unit(module, vec![], vec![], vec![]);
    u.base = base;
    u.source_len = source_len;
    u
}

#[test]
fn a_merged_span_goes_back_to_its_own_file() {
    let units = vec![placed("alpha", 0, 10), placed("beta", 11, 20), placed("main", 32, 5)];
    assert_eq!(owning_unit(&warning(0), &units), Some(0));
    assert_eq!(owning_unit(&warning(10), &units), Some(0));
    assert_eq!(owning_unit(&warning(11), &units), Some(1));
    assert_eq!(owning_unit(&warning(31), &units), Some(1));
    assert_eq!(owning_unit(&warning(32), &units), Some(2));
    assert_eq!(owning_unit(&warning(38), &units), None);

    let remapped = remap_diagnostic(warning(15), &units);
    assert_eq!(remapped.file, "src/beta.slp");
    assert_eq!(remapped.span, Span { start: 4, end: 7, line: 2, column: 4 });
    assert_eq!(remapped.labels[0].span, Span { start: 5, end: 6, line: 2, column: 5 });
    assert_eq!(remapped.message, "unused");

    // A span no module holds is told against the first file, clamped at 0.
    let lost = remap_diagnostic(warning(100), &units);
    assert_eq!(lost.file, "src/alpha.slp");
    assert_eq!(lost.span.start, 100);
}

#[test]
fn only_the_packages_own_warnings_are_shown() {
    let mut units = vec![placed("alpha", 0, 10), placed("beta", 11, 20), placed("dep", 32, 5)];
    units[2].namespace = Some("vendor".to_string());
    let warnings = vec![warning(2), warning(12), warning(33), warning(90)];
    let all = reported_warnings(warnings.clone(), &units, &None);
    assert_eq!(all.len(), 2);
    assert_eq!(all[0].file, "src/alpha.slp");
    assert_eq!(all[1].file, "src/beta.slp");
    assert_eq!(all[1].span.start, 1);

    let selected = reported_warnings(warnings, &units, &Some("beta".to_string()));
    assert_eq!(selected.len(), 1);
    assert_eq!(selected[0].file, "src/beta.slp");
}

fn file(path: &str, namespace: Option<&str>, module: &str) -> slopic_core::package::PackageSource {
    slopic_core::package::PackageSource {
        path: path.to_string(),
        namespace: namespace.map(|ns| ns.to_string()),
        module: module.to_string(),
        source: String::new(),
    }
}

#[test]
fn every_module_is_defined_by_one_file_under_a_valid_name() {
    let input = slopic_core::package::PackageInput {
        name: "demo".to_string(),
        entry_module: "main".to_string(),
        files: vec![
            file("src/main.slp", None, "main"),
            file("src/bad.slp", None, "no spaces"),
            file("src/again.slp", None, "main"),
            file("vendor/io.slp", Some("std"), "io"),
            file("src/third.slp", None, "main"),
        ],
    };
    let mut diagnostics = Vec::new();
    let kept = slopic_core::package::check_module_identities(&input, &mut diagnostics);
    assert_eq!(kept, vec![0, 3]);
    assert_eq!(
        messages(&diagnostics),
        [
            "invalid module identity `no spaces`",
            "module `main` is defined by more than one file",
            "module `main` is defined by more than one file",
        ]
    );
    assert_eq!(diagnostics[1].file, "src/again.slp");
    assert_eq!(diagnostics[1].notes, ["the other source is `src/main.slp`"]);
    // The map keeps the latest file, so the third definition names the second.
    assert_eq!(diagnostics[2].notes, ["the other source is `src/again.slp`"]);
}

#[test]
fn the_entry_module_must_exist() {
    let input = slopic_core::package::PackageInput {
        name: "demo".to_string(),
        entry_module: "main".to_string(),
        files: vec![file("src/lib.slp", None, "lib"), file("src/main.slp", Some("app"), "main")],
    };
    let mut diagnostics = Vec::new();
    let kept = slopic_core::package::check_module_identities(&input, &mut diagnostics);
    assert_eq!(kept, vec![0, 1]);
    assert_eq!(messages(&diagnostics), ["entry module `main` does not exist"]);
    assert_eq!(diagnostics[0].file, "demo");
}
