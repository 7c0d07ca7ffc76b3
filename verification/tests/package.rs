use slopic_core::diagnostic::Span;
use slopic_core::package::{
    find_cycle, is_builtin, reject_cycles, source_bases, source_map, valid_module_name,
    PackageInput, PackageSource,
};
use slopic_core::sema::{is_operator, operator, Arity, Domain};
use slopic_core::ast::Type;

fn source(module: &str, text: &str) -> PackageSource {
    PackageSource {
        path: format!("src/{module}.slp"),
        namespace: None,
        module: module.to_string(),
        source: text.to_string(),
    }
}

fn package(files: Vec<PackageSource>) -> PackageInput {
    PackageInput {
        name: "demo".into(),
        entry_module: "main".into(),
        files,
    }
}

fn at(start: usize) -> Span {
    Span {
        start,
        end: start,
        line: 1,
        column: 1,
    }
}

#[test]
fn each_file_starts_one_byte_after_the_one_before_ends() {
    let files = vec![
        source("alpha", "(fn one () -> i64 1)\n"),
        source("beta", "(fn two () -> i64 2)"),
        source("main", "é"),
        source("empty", ""),
    ];
    assert_eq!(source_bases(&files), vec![0, 22, 43, 46]);
    assert_eq!(source_bases(&[]), Vec::<usize>::new());
}

#[test]
fn the_source_map_places_every_offset_of_a_file_in_that_file() {
    let input = package(vec![
        source("alpha", "(fn one () -> i64 1)\n(export one)\n"),
        source("beta", "(fn two () -> i64\n  (+ (one) (one)))\n(take alpha one)\n(export two)\n"),
        source("main", "(fn main () -> i32\n  (let sum (two))\n  0)\n(take beta two)\n"),
    ]);
    let map = source_map(&input);
    assert_eq!(map.paths(), vec!["src/alpha.slp", "src/beta.slp", "src/main.slp"]);
    let bases = source_bases(&input.files);
    for (index, file) in input.files.iter().enumerate() {
        let first = bases[index];
        let past_last = first + file.source.len();
        assert_eq!(map.index_of(at(first)), Some(index));
        assert_eq!(map.index_of(at(first + 1)), Some(index));
        assert_eq!(map.index_of(at(past_last)), Some(index));
    }
    assert_eq!(map.index_of(at(1_000_000)), Some(2));
}

#[test]
fn an_empty_map_places_nothing() {
    let map = source_map(&package(Vec::new()));
    assert!(map.paths().is_empty());
    assert_eq!(map.index_of(at(0)), None);
}

#[test]
fn module_names_are_colon_separated_segments() {
    for good in ["main", "geometry:shapes", "a-b_c:D9", "x"] {
        assert!(valid_module_name(good), "{good}");
    }
    for bad in ["", ":main", "main:", "a::b", "sp ace", "dot.ted", "é"] {
        assert!(!valid_module_name(bad), "{bad}");
    }
}

#[test]
fn operators_and_builtins_belong_to_the_language() {
    for name in ["+", "-", "*", "/", "%", "<", ">", "<=", ">=", "=", "!=", "not", "bit-and", "bit-or", "bit-xor", "bit-not", "shl", "shr"] {
        assert!(is_operator(name), "{name}");
        assert!(is_builtin(name), "{name}");
    }
    for name in ["clone", "list", "array", "slice", "len", "push", "get", "get-ref", "pop", "remove", "replace", ".", "volatile-read", "volatile-write", "ptr-offset"] {
        assert!(!is_operator(name), "{name}");
        assert!(is_builtin(name), "{name}");
    }
    for name in ["main", "geometry:area", "==", "and"] {
        assert!(!is_builtin(name), "{name}");
    }
}

#[test]
fn each_operator_knows_its_operands() {
    let minus = operator("-").unwrap();
    assert_eq!(minus.arity, Arity::OneOrTwo);
    assert!(minus.arity.accepts(1) && minus.arity.accepts(2) && !minus.arity.accepts(3));
    assert_eq!(minus.arity.describe(), "one or two arguments");
    let equal = operator("=").unwrap();
    assert!(equal.answers_bool);
    assert!(equal.domain.accepts(&Type::Bool) && equal.domain.accepts(&Type::F64));
    assert!(!equal.domain.accepts(&Type::String));
    let shift = operator("shl").unwrap();
    assert!(shift.shift && shift.domain == Domain::Integer);
    assert!(shift.domain.accepts(&Type::U8) && !shift.domain.accepts(&Type::F64));
    assert_eq!(operator("not").unwrap().arity, Arity::One);
    assert!(Domain::Bool.accepts(&Type::Bool) && !Domain::Bool.accepts(&Type::I64));
    assert!(Domain::Numeric.accepts(&Type::F64) && !Domain::Numeric.accepts(&Type::Unit));
    assert_eq!(operator("=="), None);
}

/// `a` takes `b`, `b` takes `a`, `main` takes `a`.
#[test]
fn rejects_a_module_dependency_cycle() {
    let modules = vec!["a".to_string(), "b".to_string(), "main".to_string()];
    let paths = vec!["src/a.slp".to_string(), "src/b.slp".to_string(), "src/main.slp".to_string()];
    let edges = vec![vec![1], vec![0], vec![0]];
    let mut diagnostics = Vec::new();
    reject_cycles(&modules, &paths, &edges, &mut diagnostics);
    assert_eq!(diagnostics.len(), 1);
    assert!(diagnostics[0].message.contains("cycle"));
    assert_eq!(diagnostics[0].message, "module dependency cycle: a -> b -> a");
    assert_eq!(diagnostics[0].file, "src/a.slp");
    assert_eq!(diagnostics[0].code, "SL0500");
    assert_eq!(
        diagnostics[0].help.as_deref(),
        Some("move shared declarations into a third acyclic module")
    );
}

#[test]
fn an_acyclic_package_is_not_reported() {
    let modules = vec!["alpha".to_string(), "beta".to_string(), "main".to_string()];
    let paths = vec!["src/alpha.slp".to_string(), "src/beta.slp".to_string(), "src/main.slp".to_string()];
    // main -> beta -> alpha, and main -> alpha: a diamond, not a circle.
    let edges = vec![vec![], vec![0], vec![0, 1]];
    let mut diagnostics = Vec::new();
    reject_cycles(&modules, &paths, &edges, &mut diagnostics);
    assert!(diagnostics.is_empty());
    assert_eq!(find_cycle(&edges), None);
    assert_eq!(find_cycle(&Vec::new()), None);
}

#[test]
fn a_cycle_is_found_from_the_module_the_search_started_at() {
    // 0 -> 1 -> 2 -> 3 -> 1: the search from 0 meets the loop 1 -> 2 -> 3 -> 1.
    let edges = vec![vec![1], vec![2], vec![3], vec![1]];
    assert_eq!(find_cycle(&edges), Some((0, vec![1, 2, 3, 1])));
    // A module that takes itself.
    assert_eq!(find_cycle(&vec![vec![], vec![1]]), Some((1, vec![1, 1])));
}
