use slopic_core::diagnostic::codes;
use slopic_core::lexer::{lex, TokenKind};
use slopic_core::parser::{parse, SExprKind, MAX_NESTING_DEPTH};
use slopic_core::reader::{expand, pieces, sigil_for_head, sigil_of, sigil_prefix};

fn read(source: &str) -> String {
    let tokens = lex("test.slp", source).expect("the source lexes");
    let expanded = expand("test.slp", &tokens).expect("the source expands");
    expanded
        .iter()
        .map(|token| match &token.kind {
            TokenKind::LeftParen => "(".to_owned(),
            TokenKind::RightParen => ")".to_owned(),
            TokenKind::Atom(text) => text.clone(),
            TokenKind::String(_) => "\"…\"".to_owned(),
        })
        .collect::<Vec<_>>()
        .join(" ")
}

#[test]
fn a_sigil_takes_the_next_form_with_or_without_a_space() {
    assert_eq!(read("(f &x)"), "( f ( & x ) )");
    assert_eq!(read("(f & x)"), "( f ( & x ) )");
    assert_eq!(read("(f &(g x))"), "( f ( & ( g x ) ) )");
    assert_eq!(read("(f &mut x)"), "( f ( &mut x ) )");
    assert_eq!(read("(f &&x)"), "( f ( & ( & x ) ) )");
}

#[test]
fn a_sigil_that_opens_a_list_is_the_atom_it_always_was() {
    assert_eq!(read("(& x)"), "( & x )");
    assert_eq!(read("(&mut x)"), "( &mut x )");
    assert_eq!(read("(& (f x))"), "( & ( f x ) )");
    // Written without the space, it still opens the list it heads.
    assert_eq!(read("(&x)"), "( & x )");
    // And a borrow of a borrow is the same form written twice.
    assert_eq!(read("(&&x)"), "( & ( & x ) )");
}

#[test]
fn a_list_of_borrowed_types_is_a_list_and_not_a_borrow() {
    // The parameter list of `(Fn (&T &T) bool)`: the head sigil takes one
    // form and something follows it, so nothing there opens the list.
    assert_eq!(read("(&T &T)"), "( ( & T ) ( & T ) )");
    assert_eq!(read("(&T x)"), "( ( & T ) x )");
    assert_eq!(
        read("(&mut (List T) (index i64))"),
        "( ( &mut ( List T ) ) ( index i64 ) )"
    );
}

#[test]
fn a_word_shaped_sigil_is_not_the_beginning_of_a_name() {
    assert_eq!(read("(f &mutable)"), "( f ( & mutable ) )");
}

#[test]
fn the_expansion_spans_the_text_that_was_written() {
    let source = "(f &value)";
    let tokens = lex("test.slp", source).unwrap();
    let forms = parse("test.slp", &expand("test.slp", &tokens).unwrap()).unwrap();
    let SExprKind::List(items) = &forms[0].kind else {
        panic!("the form is a list")
    };
    let borrow = &items[1];
    assert_eq!(&source[borrow.span.start..borrow.span.end], "&value");
    assert_eq!(borrow.span.column, 4);
}

#[test]
fn dollar_nests_the_rest_of_the_form_it_is_in() {
    assert_eq!(read("(a $ b c)"), "( a ( b c ) )");
    assert_eq!(read("(a $ b $ c d)"), "( a ( b ( c d ) ) )");
    assert_eq!(read("(a b $ c)"), "( a b ( c ) )");
    // A sigil after `$` heads the list `$` opened, so its operand ending
    // that list makes it the borrow it always was.
    assert_eq!(
        read("(note $ & disagreement)"),
        "( note ( & disagreement ) )"
    );
    assert_eq!(read("(f $ g &x y)"), "( f ( g ( & x ) y ) )");
    // Written without the space, exactly as `&` is.
    assert_eq!(read("(a $b c)"), "( a ( b c ) )");
}

#[test]
fn a_sigil_whose_operand_is_the_rest_closes_where_the_form_does() {
    assert_eq!(read("(f & $ g h)"), "( f ( & ( g h ) ) )");
    assert_eq!(read("(f && $ g h)"), "( f ( & ( & ( g h ) ) ) )");
    assert_eq!(read("(& $ f x)"), "( & ( f x ) )");
    // The line the issue is written around, which is both rows at once.
    assert_eq!(
        read("(note $ & $ disagreement &(want) &(got))"),
        "( note ( & ( disagreement ( & ( want ) ) ( & ( got ) ) ) ) )"
    );
}

#[test]
fn dollar_is_refused_where_it_nests_nothing() {
    for (source, expected) in [
        ("($ a b)", "a form's first element is its head"),
        ("(f $)", "there is none here"),
        ("$ a", "there is none here"),
    ] {
        let tokens = lex("test.slp", source).unwrap();
        let errors = expand("test.slp", &tokens).unwrap_err();
        assert_eq!(errors[0].code, codes::ABBREVIATION, "for `{source}`");
        assert!(
            errors[0].message.contains(expected),
            "`{source}` said `{}`",
            errors[0].message
        );
    }
}

#[test]
fn a_nested_list_spans_from_the_dollar_to_its_last_element() {
    let source = "(println $ from-i64 42)";
    let tokens = lex("test.slp", source).unwrap();
    let forms = parse("test.slp", &expand("test.slp", &tokens).unwrap()).unwrap();
    let SExprKind::List(items) = &forms[0].kind else {
        panic!("the form is a list")
    };
    let nested = &items[1];
    assert_eq!(&source[nested.span.start..nested.span.end], "$ from-i64 42");
    assert_eq!(nested.span.column, 10);
}

#[test]
fn one_token_closes_every_list_a_declaration_left_open() {
    assert_eq!(read("(a (b (c d|)"), "( a ( b ( c d ) ) )");
    assert_eq!(read("(a b|)"), "( a b )");
    assert_eq!(read("(a (b|)\n(c d)"), "( a ( b ) ) ( c d )");
    // It closes what `$` opened as well, because those are lists too.
    assert_eq!(read("(a $ b $ c d|)"), "( a ( b ( c d ) ) )");
}

#[test]
fn a_closer_with_nothing_open_is_refused() {
    let tokens = lex("test.slp", "(f x)\n|)\n").unwrap();
    let errors = expand("test.slp", &tokens).unwrap_err();
    assert_eq!(errors[0].code, codes::UNEXPECTED_CLOSE);
    assert!(errors[0].message.contains("|)"));
}

#[test]
fn a_bare_pipe_is_an_ordinary_name() {
    assert_eq!(read("(f | x)"), "( f | x )");
}

#[test]
fn a_reserved_sigil_says_what_it_is_held_for() {
    let tokens = lex("test.slp", "(f 'x)").unwrap();
    let errors = expand("test.slp", &tokens).unwrap_err();
    assert_eq!(errors[0].code, codes::RESERVED_SIGIL);
    assert!(errors[0]
        .notes
        .iter()
        .any(|note| note.contains("quotation")));
}

#[test]
fn a_sigil_with_no_operand_is_refused() {
    let tokens = lex("test.slp", "(f &)").unwrap();
    let errors = expand("test.slp", &tokens).unwrap_err();
    assert_eq!(errors[0].code, codes::ABBREVIATION);
}

#[test]
fn nesting_past_the_parser_limit_is_left_for_the_parser() {
    let source = "(".repeat(MAX_NESTING_DEPTH * 4);
    let tokens = lex("deep.slp", &source).unwrap();
    let expanded = expand("deep.slp", &tokens).expect("the reader does not refuse depth");
    assert_eq!(expanded.len(), tokens.len());
}

#[test]
fn a_program_without_abbreviations_reads_back_unchanged() {
    let source = "(fn main () -> i32 (println \"hi\") (+ 1 2))";
    let tokens = lex("test.slp", source).unwrap();
    let expanded = expand("test.slp", &tokens).unwrap();
    assert_eq!(expanded, tokens);
}

#[test]
fn pieces_divide_an_atom_and_lose_nothing() {
    assert_eq!(pieces("&&x"), vec!["&", "&", "x"]);
    assert_eq!(pieces("&"), vec!["&"]);
    assert_eq!(pieces("&mut"), vec!["&mut"]);
    assert_eq!(pieces("&mutable"), vec!["&", "mutable"]);
    assert_eq!(pieces("$b"), vec!["$", "b"]);
    assert_eq!(pieces("plain"), vec!["plain"]);
    assert_eq!(pieces("&&x").concat(), "&&x");
}

#[test]
fn the_table_knows_its_rows() {
    assert_eq!(sigil_of("&mut").unwrap().text, "&mut");
    assert!(sigil_of("&mutable").is_none());
    assert_eq!(sigil_prefix("&mutable").unwrap().text, "&");
    assert!(sigil_prefix("|").is_none());
    assert_eq!(sigil_prefix("|)").unwrap().text, "|)");
    assert_eq!(sigil_for_head("&").unwrap().prefix(), "&");
    assert_eq!(sigil_for_head("&mut").unwrap().prefix(), "&mut ");
    assert!(sigil_for_head("$").is_none());
    assert!(sigil_of("'").unwrap().means.contains("quotation"));
}

/// What the rest of the compiler is handed: the forms `source` reads as,
/// without the spans they were read from.
fn program(source: &str) -> Vec<String> {
    fn shape(kind: &SExprKind) -> String {
        match kind {
            SExprKind::Atom(text) => text.clone(),
            SExprKind::String(bytes) => format!("{bytes:?}"),
            SExprKind::List(items) => format!(
                "({})",
                items.iter().map(|item| shape(&item.kind)).collect::<Vec<_>>().join(" ")
            ),
        }
    }
    let tokens = lex("same.slp", source).expect("it lexes");
    let expanded = expand("same.slp", &tokens).expect("it expands");
    let forms = parse("same.slp", &expanded).expect("it parses");
    forms.iter().map(|form| shape(&form.kind)).collect()
}

/// An abbreviation is one when what the compiler is handed does not depend on
/// it; the objects compiled from the two spellings are then the same file.
#[test]
fn nesting_with_a_dollar_emits_the_same_object() {
    let written = [
        "(fn twice ((value i64)) -> i64 (* value 2))\n",
        "(fn main () -> i32\n",
        "  (as i32 (twice (twice (twice 1)))))\n",
    ]
    .concat();
    let nested = [
        "(fn twice ((value i64)) -> i64 (* value 2))\n",
        "(fn main () -> i32\n",
        "  (as i32 $ twice $ twice $ twice 1))\n",
    ]
    .concat();
    assert_eq!(program(&written), program(&nested));
}

#[test]
fn closing_with_one_token_emits_the_same_object() {
    let written = [
        "(fn describe ((value i64)) -> i64\n",
        "  (if (> value 0) (if (> value 10) 2 1) 0))\n",
        "(fn main () -> i32 (as i32 (describe 42)))\n",
    ]
    .concat();
    let closed = [
        "(fn describe ((value i64)) -> i64\n",
        "  (if (> value 0) (if (> value 10) 2 1) 0|)\n",
        "(fn main () -> i32 (as i32 (describe 42|)\n",
    ]
    .concat();
    assert_eq!(program(&written), program(&closed));
}

#[test]
fn respelling_a_borrow_emits_the_same_object() {
    let long = [
        "(struct Counter ((value i64)))\n",
        "(fn read ((counter (& Counter))) -> i64\n",
        "  (match counter ((Counter :value value) (clone value))))\n",
        "(fn bump ((counter (&mut Counter))) -> unit\n",
        "  (match counter ((Counter :value value) (set value (+ (clone value) 1)))))\n",
        "(fn main () -> i32\n",
        "  (let mut counter (Counter :value 0))\n",
        "  (bump (&mut counter))\n",
        "  (as i32 (read (& counter))))\n",
    ]
    .concat();
    let short = long
        .replace("(& Counter)", "&Counter")
        .replace("(&mut Counter)", "&mut Counter")
        .replace("(bump (&mut counter))", "(bump &mut counter)")
        .replace("(read (& counter))", "(read &counter)");
    assert_ne!(long, short);
    assert_eq!(program(&long), program(&short));
}
