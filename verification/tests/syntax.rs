use slopic_core::lexer::{lex, TokenKind};
use slopic_core::reader::expand;
use slopic_core::syntax::{
    format_source, lex_lossless, parse_lossless, FormatOptions, SyntaxElement, SyntaxKind,
};

#[test]
fn lossless_tokens_reconstruct_source() {
    let source = "(fn main () -> i32 ; comment\n  (println \"💥\\n\")\n  0)\n";
    let reconstructed = lex_lossless(source)
        .into_iter()
        .map(|token| token.text)
        .collect::<String>();
    assert_eq!(reconstructed, source);
    let syntax = parse_lossless(source);
    assert!(syntax
        .root
        .children
        .iter()
        .any(|child| matches!(child, SyntaxElement::List(_))));
}

#[test]
fn a_doc_block_survives_the_formatter_unchanged() {
    let source = ";; The answer.\n;; Two lines of it.\n(fn answer () -> i64 42)\n(fn main () -> i32 0)\n";
    let formatted = format_source("test.slp", source, &FormatOptions::default()).unwrap();
    assert_eq!(formatted, source);
}

/// What a layout may not change: the program the reader hands the parser,
/// and the comments, in the order they were written.
fn shape(source: &str) -> (Vec<String>, Vec<String>) {
    let tokens = lex("shape.slp", source).expect("a corpus source lexes");
    let expanded = expand("shape.slp", &tokens).expect("a corpus source expands");
    let program = expanded
        .iter()
        .map(|token| match &token.kind {
            TokenKind::LeftParen => "(".to_owned(),
            TokenKind::RightParen => ")".to_owned(),
            TokenKind::Atom(text) => text.clone(),
            TokenKind::String(bytes) => format!("{bytes:?}"),
        })
        .collect();
    let comments = lex_lossless(source)
        .into_iter()
        .filter(|token| token.kind == SyntaxKind::Comment)
        .map(|token| token.text.trim_end().to_owned())
        .collect();
    (program, comments)
}

#[test]
fn the_layout_neither_writes_a_dollar_nor_removes_one() {
    let options = FormatOptions::default();
    let nested = "(fn main () -> i32\n  (println-i64 $ len $ from-i64 12345)\n  0)\n";
    assert_eq!(format_source("test.slp", nested, &options).unwrap(), nested);
    let written = "(fn main () -> i32\n  (println-i64 (len (from-i64 12345)))\n  0)\n";
    assert_eq!(
        format_source("test.slp", written, &options).unwrap(),
        written
    );
}

#[test]
fn a_dollar_never_ends_a_line() {
    let source = "(fn main () -> i32\n  (println-i64 $ enormously-long-conversion-name-here $ another-long-name 1234567 7654321)\n  0)\n";
    let formatted = format_source("test.slp", source, &FormatOptions::default()).unwrap();
    assert!(
        formatted
            .lines()
            .all(|line| !line.trim_end().ends_with('$')),
        "{formatted}"
    );
}

#[test]
fn a_shape_tells_two_programs_apart() {
    let source = "(fn main () -> i32 (f x))\n";
    assert_ne!(shape(source), shape("(fn main () -> i32 (f y))\n"));
    assert_ne!(shape(source), shape("(fn main () -> i32 (f (g x)))\n"));
    assert_ne!(shape(source), shape("(fn main () -> i32 (f x)) ; note\n"));
    assert_ne!(shape(source), shape("(fn main () -> i32 (f \"x\"))\n"));
    // The one difference it is deliberately blind to, and the whole reason
    // it reads the expansion rather than the text.
    assert_eq!(
        shape("(fn main () -> i32 (f (& x)))\n"),
        shape("(fn main () -> i32 (f &x))\n")
    );
}

#[test]
fn preferred_width_breaks_long_forms_stably() {
    let source = "(fn main () -> i64 (+ 111111111111111 (+ 222222222222222 (+ 333333333333333 (+ 444444444444444 555555555555555)))))";
    let formatted = format_source("test.slp", source, &FormatOptions::default()).unwrap();
    assert!(formatted.lines().all(|line| line.chars().count() <= 88));
    assert_eq!(
        format_source("test.slp", &formatted, &FormatOptions::default()).unwrap(),
        formatted
    );
}

#[test]
fn formatting_writes_a_borrow_the_short_way_and_keeps_comments() {
    let source = "  (fn   main ()  -> i32 ; trailing\n\n (let message (& name))\n; leading\n  0 )";
    let formatted = format_source("test.slp", source, &FormatOptions::default()).unwrap();
    assert!(formatted.contains("; trailing"));
    assert!(formatted.contains("; leading"));
    assert!(formatted.contains("&name"));
    assert_eq!(
        format_source("test.slp", &formatted, &FormatOptions::default()).unwrap(),
        formatted
    );
    assert_eq!(shape(source), shape(&formatted));
}

#[test]
fn a_file_that_does_not_parse_is_refused_rather_than_rewritten() {
    assert!(format_source("test.slp", "(fn main", &FormatOptions::default()).is_err());
    assert!(format_source("test.slp", "(f 'x)", &FormatOptions::default()).is_err());
}

#[test]
fn an_unclosed_list_still_holds_every_token() {
    let source = "(a (b c";
    let syntax = parse_lossless(source);
    assert_eq!(syntax.tokens.len(), 7);
    let SyntaxElement::List(outer) = &syntax.root.children[0] else {
        panic!("the outer list")
    };
    assert_eq!(outer.span.start, 0);
    assert_eq!(outer.span.end, 7);
}

#[test]
fn formatting_is_idempotent_and_preserves_comments() {
    let source = "  (fn   main ()  -> i32 ; trailing\n\n (let message \"hello\")\n; leading\n  0 )";
    let formatted = format_source("test.slp", source, &FormatOptions::default()).unwrap();
    assert!(formatted.contains("; trailing"));
    assert!(formatted.contains("; leading"));
    assert_eq!(
        format_source("test.slp", &formatted, &FormatOptions::default()).unwrap(),
        formatted
    );
    // The program read back is the same program, spans aside.
    assert_eq!(shape(source), shape(&formatted));
}

fn spans(source: &str) -> Vec<(SyntaxKind, String, usize, usize, usize, usize)> {
    lex_lossless(source)
        .into_iter()
        .map(|t| (t.kind, t.text, t.span.start, t.span.end, t.span.line, t.span.column))
        .collect()
}

#[test]
fn lossless_spans_follow_bytes_lines_and_columns() {
    assert_eq!(
        spans("(f &x)"),
        vec![
            (SyntaxKind::LeftParen, "(".to_owned(), 0, 1, 1, 1),
            (SyntaxKind::Atom, "f".to_owned(), 1, 2, 1, 2),
            (SyntaxKind::Whitespace, " ".to_owned(), 2, 3, 1, 3),
            (SyntaxKind::Atom, "&".to_owned(), 3, 4, 1, 4),
            (SyntaxKind::Atom, "x".to_owned(), 4, 5, 1, 5),
            (SyntaxKind::RightParen, ")".to_owned(), 5, 6, 1, 6),
        ]
    );
    assert_eq!(
        spans("; c\n\"a\\\"b\""),
        vec![
            (SyntaxKind::Comment, "; c".to_owned(), 0, 3, 1, 1),
            (SyntaxKind::Whitespace, "\n".to_owned(), 3, 4, 1, 4),
            (SyntaxKind::String, "\"a\\\"b\"".to_owned(), 4, 10, 2, 1),
        ]
    );
}

#[test]
fn the_lossless_root_spans_the_whole_file() {
    let source = "(a é)\n(b";
    let syntax = parse_lossless(source);
    assert_eq!(syntax.root.span.start, 0);
    assert_eq!(syntax.root.span.end, source.len());
    assert_eq!(syntax.root.span.line, 1);
    assert_eq!(syntax.root.span.column, 1);
}
