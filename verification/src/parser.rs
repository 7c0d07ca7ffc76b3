//! Tokens to S-expressions.
use crate::diagnostic::{codes, Applicability, CompileResult, Diagnostic, Span};
use crate::lexer::{Lexeme, Token, TokenKind};
use vstd::prelude::*;

verus! {

/// What an S-expression is.
#[derive(Debug, PartialEq)]
pub enum SExprKind {
    Atom(String),
    /// A text literal's bytes (see `lexer::TokenKind::String`).
    String(Vec<u8>),
    List(Vec<SExpr>),
}

/// An S-expression and the source text it was read from.
#[derive(Debug, PartialEq)]
pub struct SExpr {
    pub kind: SExprKind,
    pub span: Span,
}

/// Deepest `(` nesting the parser will descend into.
///
/// Every later pass walks the same tree recursively, so this single limit is
/// what keeps the whole front end off the stack guard page. Hand-written
/// programs nest an order of magnitude less than this.
pub const MAX_NESTING_DEPTH: usize = 256;

/// The tokens `e` was read from, parentheses included.
pub open spec fn flat(e: SExpr) -> Seq<Lexeme>
    decreases e, 0int,
{
    match e.kind {
        SExprKind::Atom(text) => seq![Lexeme::Word(text@)],
        SExprKind::String(bytes) => seq![Lexeme::Text(bytes@)],
        SExprKind::List(items) => seq![Lexeme::Open] + flat_all(items@) + seq![Lexeme::Close],
    }
}

/// The tokens a run of forms was read from.
pub open spec fn flat_all(es: Seq<SExpr>) -> Seq<Lexeme>
    decreases es, 1int,
{
    if es.len() == 0 {
        Seq::empty()
    } else {
        flat_all(es.drop_last()) + flat(es.last())
    }
}

/// Where `e`, read from the tokens starting at `at`, was written: a word or
/// a text literal where its token was, a list from its `(` to its `)`.
pub open spec fn spanned(e: SExpr, tokens: Seq<Token>, at: int) -> bool
    decreases e, 0int,
{
    match e.kind {
        SExprKind::List(items) => {
            &&& e.span == crate::diagnostic::spec_join(tokens[at].span, tokens[at + flat(e).len() - 1].span)
            &&& spanned_all(items@, tokens, at + 1)
        },
        _ => e.span == tokens[at].span,
    }
}

/// Each of `es`, read one after another from `at`, is `spanned`.
pub open spec fn spanned_all(es: Seq<SExpr>, tokens: Seq<Token>, at: int) -> bool
    decreases es, 1int,
{
    if es.len() == 0 {
        true
    } else {
        spanned_all(es.drop_last(), tokens, at) && spanned(es.last(), tokens, at + flat_all(es.drop_last()).len())
    }
}

/// What each token is.
pub open spec fn lexemes(tokens: Seq<Token>) -> Seq<Lexeme> {
    Seq::new(tokens.len(), |k: int| tokens[k].kind@)
}

/// How many lists are open before the token at `i`.
pub open spec fn nest(ls: Seq<Lexeme>, i: int) -> int
    decreases i,
{
    if i <= 0 {
        0
    } else {
        nest(ls, i - 1) + match ls[i - 1] {
            Lexeme::Open => 1int,
            Lexeme::Close => -1int,
            _ => 0int,
        }
    }
}

/// Every `)` closes a `(` before it, every `(` is closed, and no list opens
/// more than `MAX_NESTING_DEPTH` deep.
pub open spec fn well_nested(ls: Seq<Lexeme>) -> bool {
    &&& forall|i: int| 0 <= i <= ls.len() ==> nest(ls, i) >= 0
    &&& nest(ls, ls.len() as int) == 0
    &&& forall|i: int| 0 <= i < ls.len() && ls[i] is Open ==> nest(ls, i) < MAX_NESTING_DEPTH
}

/// From token `lo` to token `hi`, at least `depth` lists stay open, and no
/// list opens `MAX_NESTING_DEPTH` deep.
spec fn nested_within(ls: Seq<Lexeme>, lo: int, hi: int, depth: int) -> bool {
    &&& forall|i: int| lo <= i <= hi ==> #[trigger] nest(ls, i) >= depth
    &&& forall|i: int| lo <= i < hi && ls[i] is Open ==> #[trigger] nest(ls, i) < MAX_NESTING_DEPTH
}

struct Parser<'a> {
    file: &'a str,
    tokens: &'a [Token],
    cursor: usize,
    depth: usize,
    reported_nesting: bool,
    diagnostics: Vec<Diagnostic>,
}

/// What holds of a parser at any point: once an error is reported, the tokens
/// are known not to be well nested.
/// The codes the parser reports under: a `)` with no open list, a `(` never
/// closed, a list nested too deeply.
pub open spec fn parser_codes(ds: Seq<Diagnostic>) -> bool {
    forall|k: int|
        0 <= k < ds.len() ==> {
            let c = (#[trigger] ds[k]).code@;
            c == codes::UNEXPECTED_CLOSE@ || c == codes::UNCLOSED_LIST@ || c == codes::MAX_NESTING@
        }
}

/// How many of `ds` report nesting past the limit.
pub open spec fn nesting_count(ds: Seq<Diagnostic>) -> nat
    decreases ds.len(),
{
    if ds.len() == 0 {
        0
    } else {
        nesting_count(ds.drop_last()) + if ds.last().code@ == codes::MAX_NESTING@ {
            1nat
        } else {
            0nat
        }
    }
}

spec fn sound(p: &Parser) -> bool {
    &&& p.cursor <= p.tokens@.len()
    &&& parser_codes(p.diagnostics@)
    &&& nesting_count(p.diagnostics@) <= if p.reported_nesting { 1nat } else { 0nat }
    &&& p.reported_nesting ==> p.diagnostics@.len() > 0
    &&& p.diagnostics@.len() > 0 ==> !well_nested(lexemes(p.tokens@))
}

/// Whether the token at `i` is a `)`.
fn closes(tokens: &[Token], i: usize) -> (b: bool)
    requires
        i < tokens@.len(),
    ensures
        b == tokens@[i as int].kind is RightParen,
{
    match tokens[i].kind {
        TokenKind::RightParen => true,
        _ => false,
    }
}

fn message(text: &str) -> (s: String)
    ensures
        s@ == text@,
{
    text.to_owned()
}

/// How many lists are open after the tokens from `from` up to `to`, starting
/// from the one whose `(` came just before `from`.
pub open spec fn open_after(tokens: Seq<Token>, from: int, to: int) -> int
    decreases to - from,
{
    if to <= from {
        1
    } else {
        open_after(tokens, from, to - 1) + match tokens[to - 1].kind {
            TokenKind::LeftParen => 1int,
            TokenKind::RightParen => -1int,
            _ => 0int,
        }
    }
}

impl<'a> Parser<'a> {
    /// Consume tokens through the `)` that closes the already-consumed `(`,
    /// without recursing, so an over-deep form still leaves the cursor at a
    /// sane place and the parser terminates.
    fn skip_balanced(&mut self)
        requires
            1 <= old(self).cursor <= old(self).tokens@.len(),
        ensures
            old(self).cursor <= final(self).cursor <= final(self).tokens@.len(),
            final(self).tokens == old(self).tokens,
            final(self).file == old(self).file,
            final(self).depth == old(self).depth,
            final(self).reported_nesting == old(self).reported_nesting,
            final(self).diagnostics == old(self).diagnostics,
            open_after(old(self).tokens@, old(self).cursor as int, final(self).cursor as int) == 0 || final(self).cursor
                == final(self).tokens@.len(),
            forall|c: int|
                old(self).cursor <= c < final(self).cursor ==> #[trigger] open_after(
                    old(self).tokens@,
                    old(self).cursor as int,
                    c,
                ) > 0,
    {
        let mut depth: usize = 1;
        while depth > 0 && self.cursor < self.tokens.len()
            invariant
                1 <= old(self).cursor <= self.cursor <= self.tokens@.len(),
                depth <= self.cursor - old(self).cursor + 1,
                depth == open_after(old(self).tokens@, old(self).cursor as int, self.cursor as int),
                forall|c: int|
                    old(self).cursor <= c < self.cursor ==> #[trigger] open_after(
                        old(self).tokens@,
                        old(self).cursor as int,
                        c,
                    ) > 0,
                self.tokens == old(self).tokens,
                self.file == old(self).file,
                self.depth == old(self).depth,
                self.reported_nesting == old(self).reported_nesting,
                self.diagnostics == old(self).diagnostics,
            decreases self.tokens@.len() - self.cursor,
        {
            let token = &self.tokens[self.cursor];
            self.cursor += 1;
            match token.kind {
                TokenKind::LeftParen => depth += 1,
                TokenKind::RightParen => depth -= 1,
                _ => {},
            }
        }
    }

    /// One form starting at the cursor, or `None` where it could not be read.
    fn form(&mut self) -> (r: Option<SExpr>)
        requires
            sound(old(self)),
            old(self).cursor < old(self).tokens@.len(),
            !(old(self).tokens@[old(self).cursor as int].kind is RightParen),
            old(self).diagnostics@.len() == 0 ==> nest(
                lexemes(old(self).tokens@),
                old(self).cursor as int,
            ) == old(self).depth,
            old(self).depth <= MAX_NESTING_DEPTH,
        ensures
            sound(final(self)),
            old(self).cursor < final(self).cursor,
            final(self).tokens == old(self).tokens,
            final(self).file == old(self).file,
            final(self).depth == old(self).depth,
            old(self).diagnostics@.len() <= final(self).diagnostics@.len(),
            old(self).diagnostics@.len() == 0 && final(self).diagnostics@.len() == 0 ==> {
                &&& r is Some
                &&& spanned(r->Some_0, final(self).tokens@, old(self).cursor as int)
                &&& flat(r->Some_0) == lexemes(final(self).tokens@).subrange(
                    old(self).cursor as int,
                    final(self).cursor as int,
                )
                &&& nest(lexemes(final(self).tokens@), final(self).cursor as int)
                    == final(self).depth
                &&& nested_within(
                    lexemes(final(self).tokens@),
                    old(self).cursor as int,
                    final(self).cursor as int,
                    final(self).depth as int,
                )
            },
        decreases old(self).tokens@.len() - old(self).cursor,
    {
        let ghost ls = lexemes(self.tokens@);
        let ghost c0 = self.cursor as int;
        let token = self.tokens[self.cursor].clone();
        self.cursor += 1;
        assert(ls[c0] == token.kind@);
        match token.kind {
            TokenKind::Atom(value) => {
                assert(ls.subrange(c0, c0 + 1) =~= seq![Lexeme::Word(value@)]);
                assert(nest(ls, c0 + 1) == nest(ls, c0));
                Some(SExpr { kind: SExprKind::Atom(value), span: token.span })
            },
            TokenKind::String(value) => {
                assert(ls.subrange(c0, c0 + 1) =~= seq![Lexeme::Text(value@)]);
                assert(nest(ls, c0 + 1) == nest(ls, c0));
                Some(SExpr { kind: SExprKind::String(value), span: token.span })
            },
            TokenKind::RightParen => None,
            TokenKind::LeftParen => {
                if self.depth >= MAX_NESTING_DEPTH {
                    if !self.reported_nesting {
                        self.reported_nesting = true;
                        let mut text = message("expression nesting is deeper than ");
                        crate::text::push_usize(&mut text, MAX_NESTING_DEPTH);
                        crate::text::push_str(&mut text, " levels");
                        let ghost before = self.diagnostics@;
                        self.diagnostics.push(
                            Diagnostic::error(codes::MAX_NESTING, self.file, token.span, text).with_help(
                                message("restructure the expression into named functions or bindings"),
                            ),
                        );
                        assert(self.diagnostics@.drop_last() =~= before);
                    }
                    self.skip_balanced();
                    return None;
                }
                self.depth += 1;
                let mut forms: Vec<SExpr> = Vec::new();
                assert(nest(ls, c0 + 1) == nest(ls, c0) + 1);
                while self.cursor < self.tokens.len() && !closes(self.tokens, self.cursor)
                    invariant
                        sound(self),
                        c0 == old(self).cursor,
                        c0 < self.cursor <= self.tokens@.len(),
                        self.depth <= MAX_NESTING_DEPTH,
                        self.tokens == old(self).tokens,
                        self.file == old(self).file,
                        self.depth == old(self).depth + 1,
                        ls == lexemes(self.tokens@),
                        old(self).diagnostics@.len() <= self.diagnostics@.len(),
                        old(self).diagnostics@.len() == 0 && self.diagnostics@.len() == 0 ==> {
                            &&& flat_all(forms@) == ls.subrange(c0 + 1, self.cursor as int)
                            &&& spanned_all(forms@, self.tokens@, c0 + 1)
                            &&& nest(ls, self.cursor as int) == self.depth
                            &&& nest(ls, c0) == old(self).depth
                            &&& nested_within(ls, c0 + 1, self.cursor as int, self.depth as int)
                        },
                    decreases self.tokens@.len() - self.cursor,
                {
                    let ghost before = self.cursor as int;
                    let item = self.form();
                    proof {
                        if old(self).diagnostics@.len() == 0 && self.diagnostics@.len() == 0 {
                            assert(nested_within(ls, c0 + 1, self.cursor as int, self.depth as int));
                        }
                    }
                    if let Some(form) = item {
                        proof {
                            if old(self).diagnostics@.len() == 0 && self.diagnostics@.len() == 0 {
                                assert(forms@.push(form).drop_last() =~= forms@);
                                assert(ls.subrange(c0 + 1, self.cursor as int) =~= ls.subrange(
                                    c0 + 1,
                                    before,
                                ) + ls.subrange(before, self.cursor as int));
                            }
                        }
                        forms.push(form);
                    }
                }
                self.depth -= 1;
                if self.cursor >= self.tokens.len() {
                    let span = token.span;
                    let ghost before = self.diagnostics@;
                    proof {
                        reveal_strlit("SL0101");
                        reveal_strlit("SL0103");
                        assert(codes::UNCLOSED_LIST@ == "SL0101"@);
                        assert(codes::MAX_NESTING@ == "SL0103"@);
                        assert("SL0101"@[5] != "SL0103"@[5]);
                        assert(codes::UNCLOSED_LIST@ != codes::MAX_NESTING@);
                    }
                    self.diagnostics.push(
                        Diagnostic::error(codes::UNCLOSED_LIST, self.file, span, message("unclosed `(`"))
                            .with_help(message("add a matching `)`"))
                            .with_suggestion(
                                Span {
                                    start: span.end,
                                    end: span.end,
                                    line: span.line,
                                    column: if span.column < usize::MAX { span.column + 1 } else { span.column },
                                },
                                message(")"),
                                message("close this list"),
                                Applicability::MaybeIncorrect,
                            ),
                    );
                    assert(self.diagnostics@.drop_last() =~= before);
                    assert(self.diagnostics@.last().code@ != codes::MAX_NESTING@);
                    return None;
                }
                let closing = self.tokens[self.cursor].span;
                let ghost c1 = self.cursor as int;
                self.cursor += 1;
                proof {
                    if old(self).diagnostics@.len() == 0 && self.diagnostics@.len() == 0 {
                        assert(ls[c1] is Close);
                        assert(nest(ls, c1 + 1) == nest(ls, c1) - 1);
                        assert(nested_within(ls, c0, c1 + 1, old(self).depth as int));
                        assert(ls.subrange(c0, c1 + 1) =~= seq![Lexeme::Open] + ls.subrange(c0 + 1, c1)
                            + seq![Lexeme::Close]);
                    }
                }
                let result = SExpr { kind: SExprKind::List(forms), span: token.span.join(closing) };
                proof {
                    if old(self).diagnostics@.len() == 0 && self.diagnostics@.len() == 0 {
                        assert(flat(result).len() == c1 - c0 + 1);
                        assert(self.tokens@[c0] == token);
                    }
                }
                Some(result)
            },
        }
    }
}

/// Reads every top-level form of `tokens`.
///
/// The forms are exactly the tokens, grouped: written back out, parentheses
/// included, they are the token sequence again. Reading fails exactly when the
/// tokens are not well nested: a `)` with no open list, a `(` never closed, or
/// a list deeper than `MAX_NESTING_DEPTH`.
pub fn parse(file: &str, tokens: &[Token]) -> (r: CompileResult<Vec<SExpr>>)
    ensures
        r matches Ok(forms) ==> flat_all(forms@) == lexemes(tokens@),
        r matches Ok(forms) ==> spanned_all(forms@, tokens@, 0),
        r matches Err(errors) ==> errors@.len() > 0 && parser_codes(errors@),
        r matches Err(errors) ==> nesting_count(errors@) <= 1,
        r is Ok <==> well_nested(lexemes(tokens@)),
{
    let mut parser = Parser {
        file,
        tokens,
        cursor: 0,
        depth: 0,
        reported_nesting: false,
        diagnostics: Vec::new(),
    };
    let ghost ls = lexemes(tokens@);
    let mut forms: Vec<SExpr> = Vec::new();
    assert(ls.subrange(0, 0) =~= Seq::<Lexeme>::empty());
    while parser.cursor < tokens.len()
        invariant
            sound(&parser),
            parser.tokens == tokens,
            parser.file == file,
            parser.depth == 0,
            ls == lexemes(tokens@),
            parser.diagnostics@.len() == 0 ==> {
                &&& flat_all(forms@) == ls.subrange(0, parser.cursor as int)
                &&& spanned_all(forms@, tokens@, 0)
                &&& nest(ls, parser.cursor as int) == 0
                &&& nested_within(ls, 0, parser.cursor as int, 0)
            },
        decreases tokens@.len() - parser.cursor,
    {
        if closes(tokens, parser.cursor) {
            let span = tokens[parser.cursor].span;
            proof {
                if parser.diagnostics@.len() == 0 {
                    assert(nest(ls, parser.cursor + 1) < 0);
                }
            }
            let ghost before = parser.diagnostics@;
            proof {
                reveal_strlit("SL0102");
                reveal_strlit("SL0103");
                assert(codes::UNEXPECTED_CLOSE@ == "SL0102"@);
                assert(codes::MAX_NESTING@ == "SL0103"@);
                assert("SL0102"@[5] != "SL0103"@[5]);
                assert(codes::UNEXPECTED_CLOSE@ != codes::MAX_NESTING@);
            }
            parser.diagnostics.push(
                Diagnostic::error(codes::UNEXPECTED_CLOSE, file, span, message("unexpected `)`")),
            );
            assert(parser.diagnostics@.drop_last() =~= before);
            assert(parser.diagnostics@.last().code@ != codes::MAX_NESTING@);
            parser.cursor += 1;
        } else {
            let ghost before = parser.cursor as int;
            let ghost was_clean = parser.diagnostics@.len() == 0;
            let item = parser.form();
            if let Some(form) = item {
                proof {
                    if parser.diagnostics@.len() == 0 {
                        assert(forms@.push(form).drop_last() =~= forms@);
                        assert(ls.subrange(0, parser.cursor as int) =~= ls.subrange(0, before)
                            + ls.subrange(before, parser.cursor as int));
                    }
                }
                forms.push(form);
            }
        }
    }
    if parser.diagnostics.len() == 0 {
        assert(ls.subrange(0, tokens@.len() as int) =~= ls);
        assert(well_nested(ls));
        Ok(forms)
    } else {
        Err(parser.diagnostics)
    }
}

} // verus!
