use slopic_core::diagnostic::codes;
use slopic_core::lexer::lex;
use slopic_core::parser::{parse, SExprKind, MAX_NESTING_DEPTH};

#[test]
fn parses_nested_forms() {
    let tokens = lex("test.slp", "(+ 1 (* 2 3))").unwrap();
    let forms = parse("test.slp", &tokens).unwrap();
    let SExprKind::List(items) = &forms[0].kind else {
        panic!()
    };
    assert_eq!(items.len(), 3);
}

#[test]
fn rejects_nesting_past_the_depth_limit() {
    // Deep enough to overflow the stack if the descent were unbounded.
    let source = "(".repeat(MAX_NESTING_DEPTH * 200);
    let tokens = lex("deep.slp", &source).unwrap();
    let errors = parse("deep.slp", &tokens).unwrap_err();
    assert_eq!(
        errors
            .iter()
            .filter(|error| error.code == codes::MAX_NESTING)
            .count(),
        1,
        "the nesting limit should be reported exactly once"
    );
}

#[test]
fn accepts_nesting_up_to_the_depth_limit() {
    let depth = MAX_NESTING_DEPTH - 1;
    let source = format!("{}{}", "(".repeat(depth), ")".repeat(depth));
    let tokens = lex("deep.slp", &source).unwrap();
    parse("deep.slp", &tokens).unwrap();
}

#[test]
fn reports_unclosed_list() {
    let tokens = lex("test.slp", "(+ 1").unwrap();
    assert!(parse("test.slp", &tokens).unwrap_err()[0]
        .message
        .contains("unclosed"));
}

#[test]
fn nesting_exactly_at_the_limit_is_accepted_and_one_more_is_not() {
    let depth = MAX_NESTING_DEPTH;
    let source = format!("{}{}", "(".repeat(depth), ")".repeat(depth));
    let tokens = lex("deep.slp", &source).unwrap();
    parse("deep.slp", &tokens).unwrap();
    let deeper = format!("{}{}", "(".repeat(depth + 1), ")".repeat(depth + 1));
    let tokens = lex("deep.slp", &deeper).unwrap();
    let errors = parse("deep.slp", &tokens).unwrap_err();
    assert_eq!(errors[0].code, codes::MAX_NESTING);
}

#[test]
fn a_close_with_nothing_open_is_unexpected() {
    let tokens = lex("test.slp", "(f x))").unwrap();
    let errors = parse("test.slp", &tokens).unwrap_err();
    assert_eq!(errors.len(), 1);
    assert_eq!(errors[0].code, codes::UNEXPECTED_CLOSE);
    assert_eq!(errors[0].span.start, 5);
}

#[test]
fn a_list_spans_from_its_open_to_its_close() {
    let source = "  (a (b c))";
    let tokens = lex("test.slp", source).unwrap();
    let forms = parse("test.slp", &tokens).unwrap();
    assert_eq!(forms.len(), 1);
    assert_eq!(&source[forms[0].span.start..forms[0].span.end], "(a (b c))");
    assert_eq!(forms[0].span.column, 3);
    let SExprKind::List(items) = &forms[0].kind else {
        panic!("the form is a list")
    };
    assert_eq!(&source[items[1].span.start..items[1].span.end], "(b c)");
}

#[test]
fn text_literals_are_decoded_to_bytes() {
    let tokens = lex("test.slp", "(println \"a\\n\u{e9}\")").unwrap();
    let forms = parse("test.slp", &tokens).unwrap();
    let SExprKind::List(items) = &forms[0].kind else {
        panic!("the form is a list")
    };
    assert_eq!(items[1].kind, SExprKind::String(vec![b'a', b'\n', 0xC3, 0xA9]));
}

#[test]
fn an_unterminated_text_literal_is_refused() {
    let errors = lex("test.slp", "(f \"abc").unwrap_err();
    assert_eq!(errors[0].code, codes::LEXICAL);
}
