use slopic_core::ast::{push_type, Type, TypeList};
use slopic_core::sema::{
    contains_borrowed_type, contains_parameter, extern_parameter_is_expressible,
    extern_result_is_expressible, generic_instance_name, is_nothing_to_clone, is_text,
    pattern_irrefutable, substitute_type, unify_type, Instances, TPattern, TPatternBinding,
    TPatternField,
};

fn field(pattern: TPattern) -> TPatternField {
    TPatternField {
        ty: Type::I64,
        pattern,
    }
}

fn binding(name: &str) -> TPattern {
    TPattern::Binding(TPatternBinding {
        id: 7,
        name: name.to_string(),
        ty: Type::I64,
    })
}

fn shared(inner: Type) -> Type {
    Type::Ref {
        mutable: false,
        inner: Box::new(inner),
    }
}

fn unique(inner: Type) -> Type {
    Type::Ref {
        mutable: true,
        inner: Box::new(inner),
    }
}

#[test]
fn a_pattern_that_binds_or_ignores_everything_is_irrefutable() {
    assert!(pattern_irrefutable(&TPattern::Wildcard));
    assert!(pattern_irrefutable(&binding("x")));
    assert!(pattern_irrefutable(&TPattern::Struct {
        struct_name: "Point".to_string(),
        fields: vec![field(binding("x")), field(TPattern::Wildcard)],
    }));
    assert!(pattern_irrefutable(&TPattern::Struct {
        struct_name: "Empty".to_string(),
        fields: vec![],
    }));
}

#[test]
fn a_pattern_that_tests_a_value_is_refutable() {
    assert!(!pattern_irrefutable(&TPattern::Bool(true)));
    assert!(!pattern_irrefutable(&TPattern::Int(3)));
    assert!(!pattern_irrefutable(&TPattern::Enum {
        enum_name: "Option".to_string(),
        variant: "None".to_string(),
        tag: 0,
        fields: vec![],
    }));
    // One refutable field anywhere inside makes the whole pattern refutable.
    assert!(!pattern_irrefutable(&TPattern::Struct {
        struct_name: "Outer".to_string(),
        fields: vec![
            field(binding("a")),
            field(TPattern::Struct {
                struct_name: "Inner".to_string(),
                fields: vec![field(TPattern::Wildcard), field(TPattern::Int(0))],
            }),
        ],
    }));
}

#[test]
fn only_scalars_pointers_and_shared_text_or_slices_cross_as_extern_parameters() {
    for ty in [Type::I8, Type::U64, Type::I32, Type::F64, Type::Bool] {
        assert!(extern_parameter_is_expressible(&ty), "{ty:?}");
    }
    assert!(extern_parameter_is_expressible(&Type::Ptr(Box::new(Type::U8))));
    assert!(extern_parameter_is_expressible(&shared(Type::String)));
    assert!(extern_parameter_is_expressible(&shared(Type::Slice(Box::new(Type::I64)))));
    assert!(!extern_parameter_is_expressible(&unique(Type::String)));
    assert!(!extern_parameter_is_expressible(&shared(Type::I64)));
    assert!(!extern_parameter_is_expressible(&Type::String));
    assert!(!extern_parameter_is_expressible(&Type::Unit));
    assert!(!extern_parameter_is_expressible(&Type::Named("Point".to_string())));
}

#[test]
fn an_extern_returns_a_scalar_unit_text_or_a_pointer() {
    for ty in [Type::Unit, Type::Bool, Type::F64, Type::String, Type::U16, Type::I64] {
        assert!(extern_result_is_expressible(&ty), "{ty:?}");
    }
    assert!(extern_result_is_expressible(&Type::Ptr(Box::new(Type::I64))));
    assert!(!extern_result_is_expressible(&shared(Type::String)));
    assert!(!extern_result_is_expressible(&Type::List(Box::new(Type::I64))));
}

#[test]
fn text_is_a_string_behind_any_number_of_borrows() {
    assert!(is_text(&Type::String));
    assert!(is_text(&shared(Type::String)));
    assert!(is_text(&unique(shared(Type::String))));
    assert!(!is_text(&shared(Type::Slice(Box::new(Type::U8)))));
    assert!(!is_text(&Type::Named("String".to_string())));
}

#[test]
fn cloning_a_small_scalar_copies_nothing() {
    for ty in [Type::Unit, Type::Bool, Type::I32, Type::I64, Type::F64] {
        assert!(is_nothing_to_clone(&ty), "{ty:?}");
    }
    for ty in [Type::U8, Type::I16, Type::String, Type::Ptr(Box::new(Type::I64))] {
        assert!(!is_nothing_to_clone(&ty), "{ty:?}");
    }
}


fn named(name: &str) -> Type {
    Type::Named(name.to_string())
}

fn list(types: Vec<Type>) -> TypeList {
    TypeList::from_vec(types)
}

fn apply(name: &str, args: Vec<Type>) -> Type {
    Type::Apply {
        name: name.to_string(),
        args: list(args),
    }
}

fn function(params: Vec<Type>, result: Type) -> Type {
    Type::Fn {
        params: list(params),
        result: Box::new(result),
    }
}

fn spelled(ty: &Type) -> String {
    let mut out = String::new();
    push_type(&mut out, ty);
    out
}

fn no_instances() -> Instances {
    Instances {
        enums: Vec::new(),
        structs: Vec::new(),
    }
}

fn params(names: &[&str]) -> Vec<String> {
    names.iter().map(|name| name.to_string()).collect()
}

#[test]
fn types_are_written_as_the_source_writes_them() {
    assert_eq!(spelled(&apply("Option", vec![Type::I64])), "(Option i64)");
    assert_eq!(spelled(&apply("Pair", vec![Type::I64, Type::Bool])), "(Pair i64 bool)");
    assert_eq!(spelled(&function(vec![shared(Type::String)], Type::Bool)), "(Fn ((& String)) bool)");
    assert_eq!(spelled(&function(vec![], Type::Unit)), "(Fn () unit)");
    assert_eq!(
        spelled(&Type::Array {
            element: Box::new(Type::U8),
            length: 16
        }),
        "(Array u8 16)"
    );
}

#[test]
fn an_instance_is_named_after_its_arguments() {
    assert_eq!(generic_instance_name("map", &list(vec![Type::I64, Type::Bool])), "map$<i64,bool>");
    assert_eq!(generic_instance_name("Option", &list(vec![named("Point")])), "Option$<Point>");
    assert_eq!(generic_instance_name("none", &list(vec![])), "none$<>");
}

#[test]
fn a_parameter_is_found_wherever_an_argument_reaches() {
    let ps = params(&["T"]);
    assert!(contains_parameter(&named("T"), &ps));
    assert!(contains_parameter(&Type::List(Box::new(named("T"))), &ps));
    assert!(contains_parameter(&apply("Option", vec![Type::I64, shared(named("T"))]), &ps));
    assert!(contains_parameter(&function(vec![Type::I64], named("T")), &ps));
    assert!(!contains_parameter(&Type::Ptr(Box::new(named("T"))), &ps));
    assert!(!contains_parameter(&named("U"), &ps));
}

#[test]
fn a_borrow_is_held_by_borrows_slices_and_what_contains_them() {
    assert!(contains_borrowed_type(&shared(Type::I64)));
    assert!(contains_borrowed_type(&Type::Slice(Box::new(Type::I64))));
    assert!(contains_borrowed_type(&Type::List(Box::new(unique(Type::I64)))));
    assert!(contains_borrowed_type(&apply("Option", vec![shared(Type::String)])));
    assert!(!contains_borrowed_type(&function(vec![shared(Type::String)], Type::Bool)));
    assert!(!contains_borrowed_type(&Type::Ptr(Box::new(Type::I64))));
    assert!(!contains_borrowed_type(&named("Point")));
}

#[test]
fn unification_infers_each_parameter_once() {
    let ps = params(&["T", "U"]);
    let mut subs = Vec::new();
    let template = function(vec![named("T")], named("U"));
    let actual = function(vec![Type::I64], Type::Bool);
    assert_eq!(unify_type(&template, &actual, &ps, &mut subs, &no_instances()), Ok(()));
    assert_eq!(subs, vec![("T".to_string(), Type::I64), ("U".to_string(), Type::Bool)]);
    assert_eq!(substitute_type(&template, &subs), actual);

    let clash = apply("Pair", vec![named("T"), named("T")]);
    let mut subs = Vec::new();
    assert_eq!(
        unify_type(&clash, &apply("Pair", vec![Type::I64, Type::Bool]), &ps, &mut subs, &no_instances()),
        Err("generic parameter `T` was inferred as both `i64` and `bool`".to_string())
    );
    assert_eq!(subs, vec![("T".to_string(), Type::I64)]);
}

#[test]
fn a_shared_template_borrow_accepts_an_exclusive_one() {
    let ps = params(&["K"]);
    let mut subs = Vec::new();
    assert_eq!(
        unify_type(&shared(named("K")), &unique(Type::String), &ps, &mut subs, &no_instances()),
        Ok(())
    );
    assert_eq!(subs, vec![("K".to_string(), Type::String)]);
    let mut subs = Vec::new();
    assert_eq!(
        unify_type(&unique(named("K")), &shared(Type::String), &ps, &mut subs, &no_instances()),
        Err("expected `(&mut K)`, found `(& String)`".to_string())
    );
}

#[test]
fn an_application_unifies_with_the_name_of_its_instance() {
    let ps = params(&["T"]);
    let instances = Instances {
        enums: vec![(
            "Option$<i64>".to_string(),
            ("Option".to_string(), list(vec![Type::I64])),
        )],
        structs: Vec::new(),
    };
    let mut subs = Vec::new();
    assert_eq!(
        unify_type(&apply("Option", vec![named("T")]), &named("Option$<i64>"), &ps, &mut subs, &instances),
        Ok(())
    );
    assert_eq!(subs, vec![("T".to_string(), Type::I64)]);
    assert_eq!(
        unify_type(&apply("Result", vec![named("T")]), &named("Option$<i64>"), &ps, &mut Vec::new(), &instances),
        Err("expected `(Result T)`, found `Option$<i64>`".to_string())
    );
    assert_eq!(
        instances.application_of("Option$<i64>"),
        Some(("Option".to_string(), list(vec![Type::I64])))
    );
    assert_eq!(instances.application_of("Option$<bool>"), None);
}

#[test]
fn types_that_do_not_fit_are_reported() {
    let ps = params(&["T"]);
    let mut subs = Vec::new();
    assert_eq!(
        unify_type(&Type::List(Box::new(named("T"))), &Type::Slice(Box::new(Type::I64)), &ps, &mut subs, &no_instances()),
        Err("expected `(List T)`, found `(Slice i64)`".to_string())
    );
    assert_eq!(
        unify_type(
            &Type::Array { element: Box::new(named("T")), length: 2 },
            &Type::Array { element: Box::new(Type::I64), length: 3 },
            &ps,
            &mut subs,
            &no_instances()
        ),
        Err("expected `(Array T 2)`, found `(Array i64 3)`".to_string())
    );
    assert!(subs.is_empty());
    assert_eq!(unify_type(&Type::Bool, &Type::Bool, &ps, &mut subs, &no_instances()), Ok(()));
}

#[test]
fn substitution_leaves_what_is_behind_a_pointer() {
    let subs = vec![("T".to_string(), Type::I64)];
    assert_eq!(
        substitute_type(&apply("Box", vec![named("T"), Type::Ptr(Box::new(named("T")))]), &subs),
        apply("Box", vec![Type::I64, Type::Ptr(Box::new(named("T")))])
    );
    assert_eq!(substitute_type(&named("U"), &subs), named("U"));
}
