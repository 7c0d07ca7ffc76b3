//! Source text to tokens: parentheses, atoms and text literals, with the
//! whitespace and comments between them dropped.
use crate::diagnostic::{codes, CompileResult, Diagnostic, Span};
use crate::parser::lexemes;
use crate::text::push_char;
use vstd::prelude::*;

verus! {

/// What a token is, as a value of the specification.
pub enum Lexeme {
    Open,
    Close,
    Word(Seq<char>),
    Text(Seq<u8>),
}

/// What a token is.
#[derive(Debug, PartialEq, Eq)]
pub enum TokenKind {
    LeftParen,
    RightParen,
    Atom(String),
    /// A text literal's bytes, with its escapes already decoded.
    String(Vec<u8>),
}

/// A token and the source text it was read from.
#[derive(Debug, PartialEq, Eq)]
pub struct Token {
    pub kind: TokenKind,
    pub span: Span,
}

impl View for TokenKind {
    type V = Lexeme;

    open spec fn view(&self) -> Lexeme {
        match self {
            TokenKind::LeftParen => Lexeme::Open,
            TokenKind::RightParen => Lexeme::Close,
            TokenKind::Atom(text) => Lexeme::Word(text@),
            TokenKind::String(bytes) => Lexeme::Text(bytes@),
        }
    }
}

impl View for Token {
    type V = (Lexeme, Span);

    open spec fn view(&self) -> (Lexeme, Span) {
        (self.kind@, self.span)
    }
}

/// The bytes of `bytes`, copied.
pub fn copy_bytes(bytes: &Vec<u8>) -> (r: Vec<u8>)
    ensures
        r@ == bytes@,
{
    let mut r: Vec<u8> = Vec::new();
    let mut k: usize = 0;
    while k < bytes.len()
        invariant
            k <= bytes@.len(),
            r@ == bytes@.subrange(0, k as int),
        decreases bytes@.len() - k,
    {
        r.push(bytes[k]);
        k += 1;
        assert(r@ =~= bytes@.subrange(0, k as int));
    }
    assert(bytes@.subrange(0, bytes@.len() as int) =~= bytes@);
    r
}

impl Clone for TokenKind {
    fn clone(&self) -> (r: TokenKind)
        ensures
            r@ == self@,
    {
        match self {
            TokenKind::LeftParen => TokenKind::LeftParen,
            TokenKind::RightParen => TokenKind::RightParen,
            TokenKind::Atom(text) => TokenKind::Atom(text.clone()),
            TokenKind::String(bytes) => TokenKind::String(copy_bytes(bytes)),
        }
    }
}

impl Clone for Token {
    fn clone(&self) -> (r: Token)
        ensures
            r@ == self@,
    {
        Token { kind: self.kind.clone(), span: self.span }
    }
}

/// The characters of `source`, one element each.
pub fn chars_of(source: &str) -> (v: Vec<char>)
    ensures
        v@ == source@,
{
    let mut v: Vec<char> = Vec::new();
    for c in it: source.chars()
        invariant
            v@ == it.seq().take(it.index() as int),
    {
        v.push(c);
    }
    v
}

/// Whether `c` is white space in Unicode's sense (`char::is_whitespace`).
pub open spec fn is_space(c: char) -> bool {
    ||| c == ' ' || c == '\t' || c == '\n' || c == '\r' || c == '\u{0B}' || c == '\u{0C}'
    ||| c == '\u{85}' || c == '\u{A0}' || c == '\u{1680}'
    ||| ('\u{2000}' <= c && c <= '\u{200A}')
    ||| c == '\u{2028}' || c == '\u{2029}' || c == '\u{202F}' || c == '\u{205F}'
    ||| c == '\u{3000}'
}

/// Whether `c` ends the atom it follows.
pub open spec fn ends_atom(c: char) -> bool {
    is_space(c) || c == '(' || c == ')' || c == ';' || c == '"'
}

/// `char::is_whitespace`.
pub fn space(c: char) -> (b: bool)
    ensures
        b == is_space(c),
{
    c == ' ' || c == '\t' || c == '\n' || c == '\r' || c == '\u{0B}' || c == '\u{0C}' || c
        == '\u{85}' || c == '\u{A0}' || c == '\u{1680}' || ('\u{2000}' <= c && c <= '\u{200A}')
        || c == '\u{2028}' || c == '\u{2029}' || c == '\u{202F}' || c == '\u{205F}' || c
        == '\u{3000}'
}

/// Whether `c` ends an atom.
pub fn delimiter(c: char) -> (b: bool)
    ensures
        b == ends_atom(c),
{
    space(c) || c == '(' || c == ')' || c == ';' || c == '"'
}

/// How many bytes `c` takes in UTF-8.
pub open spec fn utf8_len(c: char) -> nat {
    if (c as u32) < 0x80 {
        1
    } else if (c as u32) < 0x800 {
        2
    } else if (c as u32) < 0x10000 {
        3
    } else {
        4
    }
}

/// How many bytes `s` takes in UTF-8.
pub open spec fn byte_len(s: Seq<char>) -> nat
    decreases s.len(),
{
    if s.len() == 0 {
        0
    } else {
        byte_len(s.drop_last()) + utf8_len(s.last())
    }
}

/// `char::len_utf8`.
pub fn char_width(c: char) -> (w: usize)
    ensures
        w == utf8_len(c),
        1 <= w <= 4,
{
    let code = c as u32;
    if code < 0x80 {
        1
    } else if code < 0x800 {
        2
    } else if code < 0x10000 {
        3
    } else {
        4
    }
}

/// The UTF-8 encoding of `c`.
pub open spec fn utf8_bytes(c: char) -> Seq<u8> {
    let n = c as u32 as int;
    if n < 0x80 {
        seq![n as u8]
    } else if n < 0x800 {
        seq![(0xC0 + n / 64) as u8, (0x80 + n % 64) as u8]
    } else if n < 0x10000 {
        seq![(0xE0 + n / 4096) as u8, (0x80 + (n / 64) % 64) as u8, (0x80 + n % 64) as u8]
    } else {
        seq![
            (0xF0 + n / 262144) as u8,
            (0x80 + (n / 4096) % 64) as u8,
            (0x80 + (n / 64) % 64) as u8,
            (0x80 + n % 64) as u8,
        ]
    }
}

/// Appends the UTF-8 encoding of `c` to `out`.
pub fn push_utf8(out: &mut Vec<u8>, c: char)
    ensures
        final(out)@ == old(out)@ + utf8_bytes(c),
{
    let n = c as u32;
    assert(n <= 0x10FFFF);
    if n < 0x80 {
        out.push(n as u8);
    } else if n < 0x800 {
        out.push((0xC0 + n / 64) as u8);
        out.push((0x80 + n % 64) as u8);
    } else if n < 0x10000 {
        out.push((0xE0 + n / 4096) as u8);
        out.push((0x80 + (n / 64) % 64) as u8);
        out.push((0x80 + n % 64) as u8);
    } else {
        out.push((0xF0 + n / 262144) as u8);
        out.push((0x80 + (n / 4096) % 64) as u8);
        out.push((0x80 + (n / 64) % 64) as u8);
        out.push((0x80 + n % 64) as u8);
    }
    assert(final(out)@ =~= old(out)@ + utf8_bytes(c));
}

/// The character an escape `\c` in a text literal stands for, if `c` names one.
pub open spec fn escaped(c: char) -> Option<char> {
    if c == 'n' {
        Some('\n')
    } else if c == 't' {
        Some('\t')
    } else if c == 'r' {
        Some('\r')
    } else if c == '0' {
        Some('\0')
    } else if c == '\\' {
        Some('\\')
    } else if c == '"' {
        Some('"')
    } else {
        None
    }
}

fn escape(c: char) -> (r: Option<char>)
    ensures
        r == escaped(c),
{
    if c == 'n' {
        Some('\n')
    } else if c == 't' {
        Some('\t')
    } else if c == 'r' {
        Some('\r')
    } else if c == '0' {
        Some('\0')
    } else if c == '\\' {
        Some('\\')
    } else if c == '"' {
        Some('"')
    } else {
        None
    }
}

/// Every token starts no earlier than the one before it ends, and covers at
/// least one byte.
pub open spec fn in_order(tokens: Seq<Token>) -> bool {
    &&& forall|k: int| 0 <= k < tokens.len() ==> #[trigger] tokens[k].span.start < tokens[k].span.end
    &&& forall|k: int| 0 < k < tokens.len() ==> tokens[k - 1].span.end <= #[trigger] tokens[k].span.start
}

/// A parenthesis token is the one byte it was read from.
pub open spec fn parens_are_one_byte(tokens: Seq<Token>) -> bool {
    forall|k: int|
        0 <= k < tokens.len() && (tokens[k].kind is LeftParen || tokens[k].kind is RightParen)
            ==> #[trigger] tokens[k].span.end == tokens[k].span.start + 1
}

/// `|)`, the one atom that holds a character ending atoms.
pub open spec fn closer() -> Seq<char> {
    seq!['|', ')']
}

/// An atom is `|)`, or it is not empty and holds no character that ends one.
pub open spec fn atoms_are_words(tokens: Seq<Token>) -> bool {
    forall|k: int|
        0 <= k < tokens.len() && #[trigger] tokens[k].kind is Atom ==> {
            let w = tokens[k].kind->Atom_0@;
            w == closer() || (w.len() > 0 && forall|j: int| 0 <= j < w.len() ==> !ends_atom(#[trigger] w[j]))
        }
}

/// Where a comment whose text goes on at `i` ends: at the next line break, or
/// at the end of the file.
pub open spec fn comment_stop(cs: Seq<char>, i: int) -> int
    decreases cs.len() - i,
{
    if i >= cs.len() || cs[i] == '\n' || cs[i] == '\r' {
        i
    } else {
        comment_stop(cs, i + 1)
    }
}

/// Whether an atom running at `i` stops there: at the end, at a character
/// that ends atoms, or at `|)`.
pub open spec fn word_stops_at(cs: Seq<char>, i: int) -> bool {
    i >= cs.len() || ends_atom(cs[i]) || (cs[i] == '|' && i + 1 < cs.len() && cs[i + 1] == ')')
}

/// Where an atom that goes on at `i` stops.
pub open spec fn word_stop(cs: Seq<char>, i: int) -> int
    decreases cs.len() - i,
{
    if word_stops_at(cs, i) {
        i
    } else {
        word_stop(cs, i + 1)
    }
}

/// A text literal's body from `i` on: where reading it stops (just past the
/// closing `"`, or at the end of the file), the bytes it stands for, whether
/// a `"` closed it, and whether every escape in it names a character.
pub open spec fn text_body(cs: Seq<char>, i: int) -> (int, Seq<u8>, bool, bool)
    decreases cs.len() - i,
{
    if i >= cs.len() {
        (cs.len() as int, Seq::empty(), false, true)
    } else if cs[i] == '"' {
        (i + 1, Seq::empty(), true, true)
    } else if cs[i] == '\\' && i + 1 < cs.len() {
        let rest = text_body(cs, i + 2);
        match escaped(cs[i + 1]) {
            Some(e) => (rest.0, utf8_bytes(e) + rest.1, rest.2, rest.3),
            None => (rest.0, rest.1, rest.2, false),
        }
    } else {
        let rest = text_body(cs, i + 1);
        (rest.0, utf8_bytes(cs[i]) + rest.1, rest.2, rest.3)
    }
}

/// Comments, atoms and text literals that start inside the file end inside
/// it, past where they start.
pub proof fn lemma_stops(cs: Seq<char>, i: int)
    requires
        0 <= i <= cs.len(),
    ensures
        i <= comment_stop(cs, i) <= cs.len(),
        i <= word_stop(cs, i) <= cs.len(),
        i < text_body(cs, i).0 <= cs.len() || (i == cs.len() && text_body(cs, i).0 == i),
    decreases cs.len() - i,
{
    if i < cs.len() {
        lemma_stops(cs, i + 1);
        if i + 2 <= cs.len() {
            lemma_stops(cs, i + 2);
        }
    }
}

/// What the characters from `i` on read as: the tokens, and whether every
/// text literal among them could be read. Whitespace and comments separate
/// tokens and are dropped; a literal that cannot be read gives no token.
pub open spec fn scan(cs: Seq<char>, i: int) -> (Seq<Lexeme>, bool)
    decreases cs.len() - i,
{
    if i < 0 || i >= cs.len() {
        (Seq::empty(), true)
    } else {
        let c = cs[i];
        if c == '(' {
            let rest = scan(cs, i + 1);
            (seq![Lexeme::Open] + rest.0, rest.1)
        } else if c == ')' {
            let rest = scan(cs, i + 1);
            (seq![Lexeme::Close] + rest.0, rest.1)
        } else if c == ';' {
            proof {
                lemma_stops(cs, i + 1);
            }
            scan(cs, comment_stop(cs, i + 1))
        } else if c == '"' {
            proof {
                lemma_stops(cs, i + 1);
            }
            let t = text_body(cs, i + 1);
            let rest = scan(cs, t.0);
            if t.2 && t.3 {
                (seq![Lexeme::Text(t.1)] + rest.0, rest.1)
            } else {
                (rest.0, false)
            }
        } else if c == '|' && i + 1 < cs.len() && cs[i + 1] == ')' {
            let rest = scan(cs, i + 2);
            (seq![Lexeme::Word(closer())] + rest.0, rest.1)
        } else if is_space(c) {
            scan(cs, i + 1)
        } else {
            proof {
                lemma_stops(cs, i + 1);
            }
            let e = word_stop(cs, i + 1);
            let rest = scan(cs, e);
            (seq![Lexeme::Word(cs.subrange(i, e))] + rest.0, rest.1)
        }
    }
}

/// Reads `source` into tokens.
///
/// Whitespace and `;` comments separate tokens and are dropped. A text literal
/// runs from `"` to the next `"` that no `\` escapes, and its token holds the
/// UTF-8 bytes it stands for. `|)` is an atom of its own wherever it is
/// written. Anything else up to the next space, paren, `;`, `"` or `|)` is
/// one atom.
#[verifier::loop_isolation(false)]
pub fn lex(file: &str, source: &str) -> (r: CompileResult<Vec<Token>>)
    requires
        source@.len() <= usize::MAX / 4,
    ensures
        r matches Ok(tokens) ==> {
            &&& in_order(tokens@)
            &&& parens_are_one_byte(tokens@)
            &&& atoms_are_words(tokens@)
            &&& forall|k: int| 0 <= k < tokens@.len() ==> #[trigger] tokens@[k].span.end <= 4 * source@.len()
            &&& lexemes(tokens@) == scan(source@, 0).0
        },
        r is Ok <==> scan(source@, 0).1,
        r matches Err(errors) ==> errors@.len() > 0 && forall|k: int|
            0 <= k < errors@.len() ==> (#[trigger] errors@[k]).code@ == codes::LEXICAL@,
{
    let cs = chars_of(source);
    let n = cs.len();
    let mut tokens: Vec<Token> = Vec::new();
    let mut errors: Vec<Diagnostic> = Vec::new();
    let mut i: usize = 0;
    let mut byte: usize = 0;
    let mut line: usize = 1;
    let mut column: usize = 1;
    while i < n
        invariant
            n == cs@.len(),
            n <= usize::MAX / 4,
            i <= n,
            byte <= 4 * i,
            line <= i + 1,
            column <= i + 1,
            in_order(tokens@),
            parens_are_one_byte(tokens@),
            atoms_are_words(tokens@),
            forall|k: int| 0 <= k < tokens@.len() ==> #[trigger] tokens@[k].span.end <= byte,
            forall|k: int| 0 <= k < errors@.len() ==> (#[trigger] errors@[k]).code@ == codes::LEXICAL@,
            cs@ == source@,
            scan(cs@, 0).0 == lexemes(tokens@) + scan(cs@, i as int).0,
            scan(cs@, 0).1 == (errors@.len() == 0 && scan(cs@, i as int).1),
        decreases n - i,
    {
        let c = cs[i];
        let ghost i0 = i;
        let ghost before = tokens@;
        proof {
            lemma_stops(cs@, i + 1);
        }
        let start = byte;
        let start_line = line;
        let start_column = column;
        if c == '(' || c == ')' {
            let kind = if c == '(' { TokenKind::LeftParen } else { TokenKind::RightParen };
            tokens.push(Token { kind, span: Span { start, end: start + 1, line, column } });
            i += 1;
            byte += 1;
            column += 1;
            assert(lexemes(tokens@) =~= lexemes(before).push(kind@));
        } else if c == ';' {
            i += 1;
            byte += 1;
            column += 1;
            while i < n && cs[i] != '\n' && cs[i] != '\r'
                invariant
                    n == cs@.len(),
                    n <= usize::MAX / 4,
                    i <= n,
                    start <= byte <= 4 * i,
                    i0 < i,
                    line <= i + 1,
                    column <= i + 1,
                    comment_stop(cs@, i as int) == comment_stop(cs@, i0 + 1),
                decreases n - i,
            {
                byte += char_width(cs[i]);
                i += 1;
                column += 1;
            }
        } else if c == '"' {
            let mut bytes: Vec<u8> = Vec::new();
            let mut closed = false;
            let mut bad_escape = false;
            i += 1;
            byte += 1;
            column += 1;
            while i < n && !closed
                invariant
                    n == cs@.len(),
                    n <= usize::MAX / 4,
                    i <= n,
                    start < byte <= 4 * i,
                    i0 < i,
                    line <= i + 1,
                    column <= i + 1,
                    closed ==> text_body(cs@, i0 + 1) == (i as int, bytes@, true, !bad_escape),
                    !closed ==> text_body(cs@, i0 + 1) == (
                        text_body(cs@, i as int).0,
                        bytes@ + text_body(cs@, i as int).1,
                        text_body(cs@, i as int).2,
                        !bad_escape && text_body(cs@, i as int).3,
                    ),
                decreases n - i,
            {
                let d = cs[i];
                let ghost prior = bytes@;
                if d == '"' {
                    closed = true;
                    i += 1;
                    byte += 1;
                    column += 1;
                } else if d == '\\' && i + 1 < n {
                    match escape(cs[i + 1]) {
                        Some(e) => push_utf8(&mut bytes, e),
                        None => bad_escape = true,
                    }
                    assert(prior + (bytes@.subrange(prior.len() as int, bytes@.len() as int) + text_body(cs@, i + 2).1) =~= bytes@ + text_body(cs@, i + 2).1);
                    byte += 1 + char_width(cs[i + 1]);
                    if cs[i + 1] == '\n' {
                        line += 1;
                        column = 1;
                    } else {
                        column += 2;
                    }
                    i += 2;
                } else {
                    push_utf8(&mut bytes, d);
                    assert(prior + (utf8_bytes(d) + text_body(cs@, i + 1).1) =~= bytes@ + text_body(cs@, i + 1).1);
                    byte += char_width(d);
                    if d == '\n' {
                        line += 1;
                        column = 1;
                    } else {
                        column += 1;
                    }
                    i += 1;
                }
            }
            let span = Span { start, end: byte, line: start_line, column: start_column };
            if !closed {
                errors.push(
                    Diagnostic::error(
                        codes::LEXICAL,
                        file,
                        span,
                        "unterminated text literal".to_owned(),
                    ),
                );
            } else if bad_escape {
                errors.push(
                    Diagnostic::error(
                        codes::LEXICAL,
                        file,
                        span,
                        "unknown escape in a text literal".to_owned(),
                    ),
                );
            } else {
                tokens.push(Token { kind: TokenKind::String(bytes), span });
                assert(lexemes(tokens@) =~= lexemes(before).push(Lexeme::Text(text_body(cs@, i0 + 1).1)));
            }
        } else if c == '|' && i + 1 < n && cs[i + 1] == ')' {
            let mut word = String::new();
            push_char(&mut word, '|');
            push_char(&mut word, ')');
            assert(word@ =~= closer());
            tokens.push(Token { kind: TokenKind::Atom(word), span: Span { start, end: start + 2, line, column } });
            i += 2;
            byte += 2;
            column += 2;
            assert(lexemes(tokens@) =~= lexemes(before).push(Lexeme::Word(closer())));
        } else if space(c) {
            byte += char_width(c);
            i += 1;
            if c == '\n' {
                line += 1;
                column = 1;
            } else {
                column += 1;
            }
        } else {
            let mut word = String::new();
            let ghost first = i as int;
            push_char(&mut word, c);
            byte += char_width(c);
            i += 1;
            column += 1;
            assert(word@ =~= cs@.subrange(first, i as int));
            while i < n && !delimiter(cs[i]) && !(cs[i] == '|' && i + 1 < n && cs[i + 1] == ')')
                invariant
                    n == cs@.len(),
                    n <= usize::MAX / 4,
                    0 <= first < i <= n,
                    start + (i - first) <= byte <= 4 * i,
                    i0 < i,
                    line <= i + 1,
                    column <= i + 1,
                    word@ == cs@.subrange(first, i as int),
                    forall|j: int| first <= j < i ==> !ends_atom(#[trigger] cs@[j]),
                    word_stop(cs@, i as int) == word_stop(cs@, first + 1),
                decreases n - i,
            {
                push_char(&mut word, cs[i]);
                byte += char_width(cs[i]);
                i += 1;
                column += 1;
                assert(word@ =~= cs@.subrange(first, i as int));
            }
            assert(word@.len() > 0);
            assert forall|j: int| 0 <= j < word@.len() implies !ends_atom(#[trigger] word@[j]) by {
                assert(word@[j] == cs@[first + j]);
            }
            tokens.push(Token { kind: TokenKind::Atom(word), span: Span { start, end: byte, line: start_line, column: start_column } });
            assert(lexemes(tokens@) =~= lexemes(before).push(Lexeme::Word(cs@.subrange(first, i as int))));
        }
    }
    if errors.len() == 0 {
        Ok(tokens)
    } else {
        Err(errors)
    }
}

} // verus!
