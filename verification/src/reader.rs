//! The abbreviation table: a token standing for structure nobody typed.
//!
//! An abbreviation expands here, between the lexer and the parser, so nothing
//! downstream learns it was written. The tree stays uniform S-expressions and
//! only the characters get shorter, which is what `'x` for `(quote x)` has
//! been in every Lisp for sixty years.
//!
//! The table has rows nothing expands yet. They are refused by name rather than
//! left free, so that the macros still to come inherit a mechanism instead of
//! claiming a character ad hoc.
use crate::diagnostic::{codes, CompileResult, Diagnostic, Span};
use crate::lexer::{chars_of, char_width, Lexeme, Token, TokenKind};
use crate::parser::{lexemes, MAX_NESTING_DEPTH};
use crate::text::{byte_count, push_char, push_str, saturating_add, string_of};
use vstd::prelude::*;

verus! {

/// What a row of the table stands for.
#[derive(Clone, Copy, Debug)]
pub enum Expands {
    /// A list whose head is this name and whose one argument is the next form:
    /// `&x` for `(& x)`.
    Around(&'static str),
    /// A list opened where the sigil is written and closed where the form
    /// holding it closes: `(a $ b c)` for `(a (b c))`.
    Rest,
    /// The `)` of every list still open, back to the top level.
    Everything,
    /// Nothing yet. The row is held so that what it is for cannot be beaten to
    /// the character by something else.
    Nothing,
}

/// A sigil: a token standing for structure nobody typed.
#[derive(Clone, Copy, Debug)]
pub struct Sigil {
    /// The characters that are written.
    pub text: &'static str,
    /// The structure it stands for.
    pub expansion: Expands,
    /// What the row is for, in a sentence a refusal can end with.
    pub means: &'static str,
}

/// How many rows the table has.
pub const ROWS: usize = 7;

/// The text of row `i` of the table, longest text first: `&mut`, `&`, `$`,
/// `|)`, `'`, `` ` `` and `,`.
pub open spec fn row_text(i: int) -> Seq<char> {
    if i == 0 {
        seq!['&', 'm', 'u', 't']
    } else if i == 1 {
        seq!['&']
    } else if i == 2 {
        seq!['$']
    } else if i == 3 {
        seq!['|', ')']
    } else if i == 4 {
        seq!['\'']
    } else if i == 5 {
        seq!['`']
    } else {
        seq![',']
    }
}

/// Which kind of expansion row `i` has: a borrow (the first two rows), the
/// rest of a form, every open list, or nothing yet.
pub open spec fn row_is_around(i: int) -> bool {
    i == 0 || i == 1
}

/// The kind of expansion `e` is, as a number: 0 around, 1 rest, 2 everything,
/// 3 nothing.
pub open spec fn kind_of(e: Expands) -> int {
    match e {
        Expands::Around(_) => 0,
        Expands::Rest => 1,
        Expands::Everything => 2,
        Expands::Nothing => 3,
    }
}

/// The kind of expansion row `i` has.
pub open spec fn row_kind(i: int) -> int {
    if i <= 1 {
        0
    } else if i == 2 {
        1
    } else if i == 3 {
        2
    } else {
        3
    }
}

/// Row `i` of the table, as the value `row` builds.
pub open spec fn is_row(s: Sigil, i: int) -> bool {
    &&& 0 <= i < ROWS
    &&& s.text@ == row_text(i)
    &&& kind_of(s.expansion) == row_kind(i)
    &&& (s.expansion matches Expands::Around(name) ==> name@ == row_text(i))
}

/// Row `i` of the table.
pub fn row(i: usize) -> (s: Sigil)
    requires
        i < ROWS,
    ensures
        is_row(s, i as int),
{
    proof {
        reveal_strlit("&mut");
        reveal_strlit("&");
        reveal_strlit("$");
        reveal_strlit("|)");
        reveal_strlit("'");
        reveal_strlit("`");
        reveal_strlit(",");
        assert("&mut"@ =~= row_text(0));
        assert("&"@ =~= row_text(1));
        assert("$"@ =~= row_text(2));
        assert("|)"@ =~= row_text(3));
        assert("'"@ =~= row_text(4));
        assert("`"@ =~= row_text(5));
        assert(","@ =~= row_text(6));
    }
    if i == 0 {
        Sigil { text: "&mut", expansion: Expands::Around("&mut"), means: "an exclusive borrow" }
    } else if i == 1 {
        Sigil { text: "&", expansion: Expands::Around("&"), means: "a shared borrow" }
    } else if i == 2 {
        Sigil { text: "$", expansion: Expands::Rest, means: "the rest of a form, nested" }
    } else if i == 3 {
        Sigil {
            text: "|)",
            expansion: Expands::Everything,
            means: "the close of every list a declaration left open",
        }
    } else if i == 4 {
        Sigil {
            text: "'",
            expansion: Expands::Nothing,
            means: "quotation, for the macros this language has not built yet",
        }
    } else if i == 5 {
        Sigil {
            text: "`",
            expansion: Expands::Nothing,
            means: "quasiquotation, for the macros this language has not built yet",
        }
    } else {
        Sigil {
            text: ",",
            expansion: Expands::Nothing,
            means: "unquotation, for the macros this language has not built yet",
        }
    }
}

/// Whether row `i` matches the beginning of `t`: a row of one character as a
/// prefix, a longer row only as the whole text.
pub open spec fn row_begins(i: int, t: Seq<char>) -> bool {
    if row_text(i).len() > 1 {
        t == row_text(i)
    } else {
        t.len() > 0 && t[0] == row_text(i)[0]
    }
}

/// The first row that `t` begins with, or `ROWS` where none does.
pub open spec fn prefix_row(t: Seq<char>) -> int {
    if row_begins(0, t) {
        0
    } else if row_begins(1, t) {
        1
    } else if row_begins(2, t) {
        2
    } else if row_begins(3, t) {
        3
    } else if row_begins(4, t) {
        4
    } else if row_begins(5, t) {
        5
    } else if row_begins(6, t) {
        6
    } else {
        7
    }
}

/// The row whose text is exactly `t`, or `ROWS` where none is.
pub open spec fn exact_row(t: Seq<char>) -> int {
    if t == row_text(0) {
        0
    } else if t == row_text(1) {
        1
    } else if t == row_text(2) {
        2
    } else if t == row_text(3) {
        3
    } else if t == row_text(4) {
        4
    } else if t == row_text(5) {
        5
    } else if t == row_text(6) {
        6
    } else {
        7
    }
}

/// The pieces an atom's text divides into: the sigils it begins with, each a
/// piece, and then the name they stand before.
pub open spec fn pieces_of(t: Seq<char>) -> Seq<Seq<char>>
    decreases t.len(),
{
    let i = prefix_row(t);
    if i < ROWS && row_text(i).len() < t.len() {
        seq![row_text(i)] + pieces_of(t.skip(row_text(i).len() as int))
    } else {
        seq![t]
    }
}

/// The pieces, written one after another.
pub open spec fn joined(ps: Seq<Seq<char>>) -> Seq<char>
    decreases ps.len(),
{
    if ps.len() == 0 {
        Seq::empty()
    } else {
        ps[0] + joined(ps.skip(1))
    }
}

/// Dividing an atom into pieces loses no character and adds none.
pub proof fn lemma_pieces_rejoin(t: Seq<char>)
    ensures
        joined(pieces_of(t)) == t,
    decreases t.len(),
{
    let i = prefix_row(t);
    if i < ROWS && row_text(i).len() < t.len() {
        let k = row_text(i).len() as int;
        lemma_pieces_rejoin(t.skip(k));
        let ps = pieces_of(t);
        assert(ps.skip(1) =~= pieces_of(t.skip(k)));
        assert(ps[0] == row_text(i));
        assert(row_text(i) =~= t.take(k)) by {
            if row_text(i).len() > 1 {
                assert(false);
            }
        }
        assert(t.take(k) + t.skip(k) =~= t);
        assert(joined(ps) == ps[0] + joined(ps.skip(1)));
    } else {
        let ps = pieces_of(t);
        assert(ps.skip(1) =~= Seq::<Seq<char>>::empty());
        assert(joined(ps.skip(1)) == Seq::<char>::empty());
        assert(joined(ps) == ps[0] + joined(ps.skip(1)));
        assert(t + Seq::<char>::empty() =~= t);
    }
}

/// An atom divides into at least one piece, and into one exactly when it is
/// that piece.
pub proof fn lemma_pieces_nonempty(t: Seq<char>)
    ensures
        pieces_of(t).len() >= 1,
        pieces_of(t).len() == 1 ==> pieces_of(t)[0] == t,
        prefix_row(t) == ROWS ==> pieces_of(t) == seq![t],
    decreases t.len(),
{
    let i = prefix_row(t);
    if i < ROWS && row_text(i).len() < t.len() {
        lemma_pieces_nonempty(t.skip(row_text(i).len() as int));
    }
}

/// The texts of `v`.
pub open spec fn texts(v: Seq<String>) -> Seq<Seq<char>> {
    Seq::new(v.len(), |k: int| v[k]@)
}

fn same_chars(a: &Vec<char>, b: &str) -> (r: bool)
    ensures
        r == (a@ == b@),
{
    let bs = chars_of(b);
    if a.len() != bs.len() {
        return false;
    }
    let mut k: usize = 0;
    while k < a.len()
        invariant
            a@.len() == bs@.len(),
            bs@ == b@,
            k <= a@.len(),
            forall|j: int| 0 <= j < k ==> a@[j] == bs@[j],
        decreases a@.len() - k,
    {
        if a[k] != bs[k] {
            return false;
        }
        k += 1;
    }
    assert(a@ =~= bs@);
    true
}

/// The row the characters `t` begin with, or `ROWS`.
fn prefix_row_of(t: &Vec<char>) -> (i: usize)
    ensures
        i == prefix_row(t@),
{
    proof {
        reveal_strlit("&mut");
        reveal_strlit("|)");
        assert("&mut"@ =~= row_text(0));
        assert("|)"@ =~= row_text(3));
    }
    if same_chars(t, "&mut") {
        0
    } else if t.len() > 0 && t[0] == '&' {
        1
    } else if t.len() > 0 && t[0] == '$' {
        2
    } else if same_chars(t, "|)") {
        3
    } else if t.len() > 0 && t[0] == '\'' {
        4
    } else if t.len() > 0 && t[0] == '`' {
        5
    } else if t.len() > 0 && t[0] == ',' {
        6
    } else {
        7
    }
}

/// The row whose text is exactly `t`, or `ROWS`.
fn exact_row_of(t: &Vec<char>) -> (i: usize)
    ensures
        i == exact_row(t@),
{
    proof {
        reveal_strlit("&mut");
        reveal_strlit("|)");
        assert("&mut"@ =~= row_text(0));
        assert("|)"@ =~= row_text(3));
    }
    if same_chars(t, "&mut") {
        0
    } else if t.len() == 1 && t[0] == '&' {
        assert(t@ =~= row_text(1));
        1
    } else if t.len() == 1 && t[0] == '$' {
        assert(t@ =~= row_text(2));
        2
    } else if same_chars(t, "|)") {
        3
    } else if t.len() == 1 && t[0] == '\'' {
        assert(t@ =~= row_text(4));
        4
    } else if t.len() == 1 && t[0] == '`' {
        assert(t@ =~= row_text(5));
        5
    } else if t.len() == 1 && t[0] == ',' {
        assert(t@ =~= row_text(6));
        6
    } else {
        7
    }
}

/// The sigil an atom's text begins with, if any.
///
/// A row of one character matches as a prefix, so `&x` and `&(f x)` are a
/// sigil and its operand. A longer row matches only the whole text, because a
/// word-shaped sigil cannot be told from the beginning of a name.
pub fn sigil_prefix(text: &str) -> (r: Option<Sigil>)
    ensures
        r is Some <==> prefix_row(text@) < ROWS,
        r matches Some(s) ==> is_row(s, prefix_row(text@)),
{
    let i = prefix_row_of(&chars_of(text));
    if i < ROWS {
        Some(row(i))
    } else {
        None
    }
}

/// The sigil an atom *is*, if any.
pub fn sigil_of(text: &str) -> (r: Option<Sigil>)
    ensures
        r is Some <==> exact_row(text@) < ROWS,
        r matches Some(s) ==> is_row(s, exact_row(text@)),
{
    let i = exact_row_of(&chars_of(text));
    if i < ROWS {
        Some(row(i))
    } else {
        None
    }
}

/// The sigil a list's head is the expansion of, if any: `&` for `(& x)` and
/// `&mut` for `(&mut x)`.
///
/// This is what lets the formatter write `(& x)` back as `&x`: the layout
/// recognises the list an abbreviation stands for rather than remembering
/// which spelling arrived, so all three spellings leave as one.
pub fn sigil_for_head(head: &str) -> (r: Option<Sigil>)
    ensures
        r is Some <==> (head@ == row_text(0) || head@ == row_text(1)),
        r matches Some(s) ==> s.text@ == head@ && s.expansion is Around,
        r matches Some(s) ==> (s.expansion matches Expands::Around(name) && name@ == head@),
{
    let i = exact_row_of(&chars_of(head));
    if i <= 1 {
        Some(row(i))
    } else {
        None
    }
}

impl Sigil {
    /// How the sigil is written before its operand.
    ///
    /// A sigil of one character binds to what follows with nothing between
    /// them. A word-shaped one keeps the space, because `&mut` is a sigil only
    /// as a whole atom and `&mutx` reads back as a shared borrow of `mutx`.
    pub fn prefix(&self) -> (p: String)
        ensures
            self.text@.len() > 1 ==> p@ == self.text@.push(' '),
            self.text@.len() <= 1 ==> p@ == self.text@,
    {
        let mut p = self.text.to_owned();
        if chars_of(self.text).len() > 1 {
            push_char(&mut p, ' ');
        }
        p
    }
}

/// Divides an atom's text into the sigils it begins with and the name they
/// stand before, so that `&x` is two pieces and `&` alone stays one.
///
/// Both readers call this - the one that builds a tree and the lossless one
/// the formatter lays out - because a spelling the two disagreed about would be
/// a program the formatter could change the meaning of.
pub fn pieces(text: &str) -> (v: Vec<String>)
    ensures
        texts(v@) == pieces_of(text@),
{
    let cs = chars_of(text);
    let mut v: Vec<String> = Vec::new();
    let mut at: usize = 0;
    assert(cs@.skip(0) =~= cs@);
    assert(texts(v@) + pieces_of(cs@.skip(0)) =~= pieces_of(cs@.skip(0)));
    loop
        invariant
            cs@ == text@,
            at < cs@.len() || (at == 0 && cs@.len() == 0),
            texts(v@) + pieces_of(cs@.skip(at as int)) == pieces_of(text@),
        decreases cs@.len() - at,
    {
        let rest = string_of(&cs, at, cs.len());
        let rest_chars = chars_of(rest.as_str());
        assert(rest_chars@ =~= cs@.skip(at as int));
        let i = prefix_row_of(&rest_chars);
        if i < ROWS {
            let sigil = row(i);
            let width = chars_of(sigil.text).len();
            if width < rest_chars.len() {
                let ghost t = cs@.skip(at as int);
                assert(pieces_of(t) == seq![row_text(i as int)] + pieces_of(t.skip(width as int)));
                assert(t.skip(width as int) =~= cs@.skip(at + width));
                let ghost before = v@;
                v.push(sigil.text.to_owned());
                assert(texts(v@) =~= texts(before).push(row_text(i as int)));
                assert(texts(before).push(row_text(i as int)) + pieces_of(t.skip(width as int))
                    =~= texts(before) + (seq![row_text(i as int)] + pieces_of(t.skip(width as int))));
                at += width;
                continue;
            }
        }
        let ghost before = v@;
        v.push(rest);
        assert(texts(v@) =~= texts(before).push(cs@.skip(at as int)));
        return v;
    }
}

/// No atom of `tokens` begins with a sigil: nothing in them is an
/// abbreviation.
pub open spec fn plain(tokens: Seq<Token>) -> bool {
    forall|k: int|
        0 <= k < tokens.len() && (#[trigger] tokens[k]).kind is Atom ==> prefix_row(
            tokens[k].kind->Atom_0@,
        ) == ROWS
}

/// What each token is, and where.
pub open spec fn views(tokens: Seq<Token>) -> Seq<(Lexeme, Span)> {
    Seq::new(tokens.len(), |k: int| tokens[k]@)
}

/// `views` of a sequence grown by one token.
pub proof fn lemma_views_push(s: Seq<Token>, t: Token)
    ensures
        views(s.push(t)) == views(s).push(t@),
{
    assert(views(s.push(t)) =~= views(s).push(t@));
}

/// A text that is a row of the table is that row's text.
pub proof fn lemma_row_text(t: Seq<char>)
    ensures
        exact_row(t) < ROWS ==> t == row_text(exact_row(t)),
{
}

/// A run of sigils ends no earlier than it starts.
pub proof fn lemma_run_end(ls: Seq<Lexeme>, i: int)
    ensures
        around_run_end(ls, i) >= i,
        0 <= i <= ls.len() ==> around_run_end(ls, i) <= ls.len(),
    decreases ls.len() - i,
{
    if 0 <= i < ls.len() && row_is_around(row_at(ls, i)) {
        lemma_run_end(ls, i + 1);
    }
}

/// What a sequence of tokens grown by one token is.
pub proof fn lemma_lexemes_push(s: Seq<Token>, t: Token)
    ensures
        lexemes(s.push(t)) == lexemes(s).push(t.kind@),
{
    assert(lexemes(s.push(t)) =~= lexemes(s).push(t.kind@));
}

/// `views` of two sequences, one after the other.
pub proof fn lemma_views_add(a: Seq<Token>, b: Seq<Token>)
    ensures
        views(a + b) == views(a) + views(b),
{
    assert(views(a + b) =~= views(a) + views(b));
}

/// The codes the reader reports under.
pub open spec fn reader_codes(ds: Seq<Diagnostic>) -> bool {
    forall|k: int|
        0 <= k < ds.len() ==> {
            let c = (#[trigger] ds[k]).code@;
            c == codes::RESERVED_SIGIL@ || c == codes::UNEXPECTED_CLOSE@ || c
                == codes::ABBREVIATION@
        }
}

/// A text that is a sigil also begins with one.
pub proof fn lemma_exact_is_prefix(t: Seq<char>)
    ensures
        exact_row(t) < ROWS ==> prefix_row(t) < ROWS,
{
}

/// [`pieces`], applied to one lexed atom: each piece becomes a token of its
/// own, and the last one ends where the atom did.
fn split_atom(token: &Token, out: &mut Vec<Token>)
    ensures
        (token.kind is Atom ==> prefix_row(token.kind->Atom_0@) == ROWS) ==> views(final(out)@)
            == views(old(out)@).push(token@),
        lexemes(final(out)@) == lexemes(old(out)@) + split_token(*token),
{
    match &token.kind {
        TokenKind::Atom(text) => {
            let ps = pieces(text.as_str());
            proof {
                lemma_pieces_nonempty(text@);
            }
            let ghost before = out@;
            let mut start = token.span.start;
            let mut column = token.span.column;
            let mut idx: usize = 0;
            while idx < ps.len()
                invariant
                    idx <= ps@.len(),
                    token.kind@ == Lexeme::Word(text@),
                    texts(ps@) == pieces_of(text@),
                    pieces_of(text@).len() == 1 ==> pieces_of(text@)[0] == text@,
                    prefix_row(text@) == ROWS ==> pieces_of(text@) == seq![text@],
                    idx == 0 ==> out@ == before && start == token.span.start && column
                        == token.span.column,
                    idx > 0 && idx == ps@.len() && ps@.len() == 1 ==> views(out@) == views(
                        before,
                    ).push(token@),
                    lexemes(out@) == lexemes(before) + texts(ps@).take(idx as int).map_values(
                        |p: Seq<char>| Lexeme::Word(p),
                    ),
                decreases ps@.len() - idx,
            {
                let piece = &ps[idx];
                let last = idx + 1 == ps.len();
                let pc = chars_of(piece.as_str());
                let bytes = byte_count(&pc);
                let end = if last {
                    token.span.end
                } else {
                    saturating_add(start, bytes)
                };
                assert(piece@ == texts(ps@)[idx as int]);
                proof {
                    if ps@.len() == 1 {
                        assert(piece@ == text@);
                    }
                }
                let made = Token {
                    kind: TokenKind::Atom(piece.clone()),
                    span: Span { start, end, line: token.span.line, column },
                };
                let ghost prior = out@;
                out.push(made);
                proof {
                    lemma_lexemes_push(prior, made);
                    assert(texts(ps@).take(idx + 1).map_values(|p: Seq<char>| Lexeme::Word(p)) =~= texts(
                        ps@,
                    ).take(idx as int).map_values(|p: Seq<char>| Lexeme::Word(p)).push(Lexeme::Word(piece@)));
                    lemma_views_push(prior, made);
                    if idx == 0 && ps@.len() == 1 {
                        assert(made.span == token.span);
                        assert(piece@ == text@);
                        assert(made.kind@ == Lexeme::Word(piece@));
                        assert(token.kind@ == Lexeme::Word(text@));
                        assert(made@ == token@);
                    }
                }
                start = saturating_add(start, bytes);
                column = saturating_add(column, pc.len());
                idx += 1;
            }
            assert(texts(ps@).take(ps@.len() as int) =~= texts(ps@));
        },
        _ => {
            let copy = token.clone();
            out.push(copy);
            assert(views(out@) =~= views(old(out)@).push(token@));
            proof {
                lemma_lexemes_push(old(out)@, copy);
            }
        },
    }
}

// ------------------------------------------------------- what reading yields

/// The row of the table token `i` is, or `ROWS` when it is no sigil.
pub open spec fn row_at(ls: Seq<Lexeme>, i: int) -> int {
    if 0 <= i < ls.len() && ls[i] is Word {
        exact_row(ls[i]->Word_0)
    } else {
        ROWS as int
    }
}

/// Whether token `i` is a `(`, or a `)`.
pub open spec fn opens_at(ls: Seq<Lexeme>, i: int) -> bool {
    0 <= i < ls.len() && ls[i] is Open
}

pub open spec fn closes_at(ls: Seq<Lexeme>, i: int) -> bool {
    0 <= i < ls.len() && ls[i] is Close
}

/// Where the run of borrow sigils that goes on at `i` ends.
pub open spec fn around_run_end(ls: Seq<Lexeme>, i: int) -> int
    decreases ls.len() - i,
{
    if 0 <= i < ls.len() && row_is_around(row_at(ls, i)) {
        around_run_end(ls, i + 1)
    } else {
        i
    }
}

/// Just past the `)` that brings `depth` open lists, counted from `i`, back to
/// none; `None` when the tokens run out first.
pub open spec fn balanced_end(ls: Seq<Lexeme>, i: int, depth: int) -> Option<int>
    decreases ls.len() - i,
{
    if i < 0 || i >= ls.len() {
        None
    } else {
        let d = if ls[i] is Open {
            depth + 1
        } else if ls[i] is Close {
            depth - 1
        } else {
            depth
        };
        if d == 0 {
            Some(i + 1)
        } else {
            balanced_end(ls, i + 1, d)
        }
    }
}

/// Whether the sigil at `i`, at the head of a list, is the list's head: the
/// form after its run of sigils is all that follows it, or a `$` makes it so.
pub open spec fn head_opens(ls: Seq<Lexeme>, i: int) -> bool {
    let c = around_run_end(ls, i);
    if c >= ls.len() {
        false
    } else if row_at(ls, c) == 2 {
        true
    } else if ls[c] is Open {
        match balanced_end(ls, c + 1, 1) {
            Some(e) => closes_at(ls, e),
            None => false,
        }
    } else if ls[c] is Close {
        false
    } else {
        closes_at(ls, c + 1)
    }
}

/// Where copying a list past the depth limit stops: just past its `)`, or at
/// the end.
pub open spec fn copy_end(ls: Seq<Lexeme>, i: int) -> int {
    match balanced_end(ls, i + 1, 1) {
        Some(e) => e,
        None => ls.len() as int,
    }
}

/// `n` closing parens.
pub open spec fn closes(n: nat) -> Seq<Lexeme> {
    Seq::new(n, |_k: int| Lexeme::Close)
}

/// The lists a run of borrow sigils from `from` to `to` opens: each a `(`
/// and the sigil as the list's head.
pub open spec fn opened_by(ls: Seq<Lexeme>, from: int, to: int) -> Seq<Lexeme>
    decreases to - from,
{
    if to <= from {
        Seq::empty()
    } else {
        opened_by(ls, from, to - 1) + seq![Lexeme::Open, ls[to - 1]]
    }
}

/// What reading one element at `at` yields: the tokens written out, where
/// reading goes on, whether a `|)` is closing every list, how many lists a
/// `$` left for the form around to close, and whether it read without error.
pub open spec fn read_element(ls: Seq<Lexeme>, at: int, depth: int, closing: bool, head: bool) -> (
    Seq<Lexeme>,
    int,
    bool,
    nat,
    bool,
)
    decreases ls.len() - at, 2int,
{
    if at < 0 || at >= ls.len() {
        (Seq::empty(), at, closing, 0, true)
    } else {
        let r = row_at(ls, at);
        if r < ROWS && row_kind(r) != 0 {
            (Seq::empty(), at + 1, closing, 0, false)
        } else if r < ROWS && !head {
            read_abbreviation(ls, at, depth, closing)
        } else if !(ls[at] is Open) {
            (seq![ls[at]], at + 1, closing, 0, true)
        } else if depth >= MAX_NESTING_DEPTH {
            (ls.subrange(at, copy_end(ls, at)), copy_end(ls, at), closing, 0, true)
        } else {
            read_list(ls, at, depth, closing)
        }
    }
}

/// A run of borrow sigils at `at` and the form they stand before.
pub open spec fn read_abbreviation(ls: Seq<Lexeme>, at: int, depth: int, closing: bool) -> (
    Seq<Lexeme>,
    int,
    bool,
    nat,
    bool,
)
    decreases ls.len() - at, 1int,
{
    let j = around_run_end(ls, at + 1);
    if at < 0 || j <= at || j >= ls.len() || ls[j] is Close {
        (Seq::empty(), j, closing, 0, false)
    } else if row_at(ls, j) == 2 {
        (opened_by(ls, at, j), j, closing, (j - at) as nat, true)
    } else {
        let e = read_element(ls, j, depth, closing, false);
        (opened_by(ls, at, j) + e.0 + closes((j - at) as nat), e.1, e.2, 0, e.4)
    }
}

/// The list that opens at `at`, one deeper than `depth`.
pub open spec fn read_list(ls: Seq<Lexeme>, at: int, depth: int, closing: bool) -> (
    Seq<Lexeme>,
    int,
    bool,
    nat,
    bool,
)
    decreases ls.len() - at, 1int,
{
    if at < 0 || at >= ls.len() {
        (Seq::empty(), at, closing, 0, false)
    } else {
        let inner = read_items(ls, at + 1, depth + 1, closing, true, 0);
        let body = seq![Lexeme::Open] + inner.0 + closes(inner.3);
        if inner.2 {
            (body + seq![Lexeme::Close], inner.1, depth != 0, 0, inner.4)
        } else if inner.1 < ls.len() {
            (body + seq![ls[inner.1]], inner.1 + 1, inner.2, 0, inner.4)
        } else {
            (body, inner.1, inner.2, 0, inner.4)
        }
    }
}

/// The elements of a list at `depth` from `at` on, until its `)`, the end,
/// or a `|)`. `first` says the next element is the list's head, and `nested`
/// counts the lists `$` has opened in it so far.
pub open spec fn read_items(
    ls: Seq<Lexeme>,
    at: int,
    depth: int,
    closing: bool,
    first: bool,
    nested: nat,
) -> (Seq<Lexeme>, int, bool, nat, bool)
    decreases ls.len() - at, 3int,
{
    if at < 0 || at >= ls.len() || closing || ls[at] is Close {
        (Seq::empty(), at, closing, nested, true)
    } else if row_at(ls, at) == 3 {
        (Seq::empty(), at + 1, true, nested, true)
    } else if row_at(ls, at) == 2 {
        if first || at + 1 >= ls.len() || ls[at + 1] is Close {
            (Seq::empty(), at + 1, closing, nested, false)
        } else {
            let rest = read_items(ls, at + 1, depth, closing, true, nested + 1);
            (seq![Lexeme::Open] + rest.0, rest.1, rest.2, rest.3, rest.4)
        }
    } else {
        let e = read_element(ls, at, depth, closing, first && head_opens(ls, at));
        if !e.4 || e.1 <= at || e.1 > ls.len() {
            (e.0, e.1, e.2, nested, false)
        } else {
            let rest = read_items(ls, e.1, depth, e.2, false, nested + e.3);
            (e.0 + rest.0, rest.1, rest.2, rest.3, rest.4)
        }
    }
}

/// Everything read at the top level from `at` on, and whether it read without
/// error.
pub open spec fn read_all(ls: Seq<Lexeme>, at: int, closing: bool) -> (Seq<Lexeme>, bool)
    decreases ls.len() - at,
{
    if at < 0 || at >= ls.len() {
        (Seq::empty(), true)
    } else {
        let e = read_element(ls, at, 0, closing, false);
        if !e.4 || e.1 <= at || e.1 > ls.len() {
            (e.0, false)
        } else {
            let rest = read_all(ls, e.1, e.2);
            (e.0 + rest.0, rest.1)
        }
    }
}

/// What a token is once an atom is divided into its pieces.
pub open spec fn split_token(token: Token) -> Seq<Lexeme> {
    match token.kind {
        TokenKind::Atom(text) => pieces_of(text@).map_values(|p: Seq<char>| Lexeme::Word(p)),
        _ => seq![token.kind@],
    }
}

/// What the tokens are once every atom is divided into its pieces.
pub open spec fn split_lexemes(tokens: Seq<Token>) -> Seq<Lexeme>
    decreases tokens.len(),
{
    if tokens.len() == 0 {
        Seq::empty()
    } else {
        split_lexemes(tokens.drop_last()) + split_token(tokens.last())
    }
}

struct Reader<'a> {
    file: &'a str,
    tokens: Vec<Token>,
    out: Vec<Token>,
    cursor: usize,
    depth: usize,
    /// The span of a `|)` being unwound, held until depth reaches zero.
    closing: Option<Span>,
    diagnostics: Vec<Diagnostic>,
}

/// A reader that has read through `to` from `from`, copying each token as it
/// was: its output grew by exactly those tokens, and nothing else changed.
spec fn copied(old: &Reader, new: &Reader) -> bool {
    &&& views(new.out@) == views(old.out@) + views(new.tokens@.subrange(old.cursor as int, new.cursor as int))
    &&& new.closing is None
    &&& new.diagnostics@ == old.diagnostics@
}

/// What every step of the reader keeps.
spec fn stepped(old: &Reader, new: &Reader) -> bool {
    &&& old.cursor < new.cursor <= new.tokens@.len()
    &&& new.tokens@ == old.tokens@
    &&& new.file == old.file
    &&& new.depth == old.depth
    &&& old.out@.len() <= new.out@.len()
    &&& old.diagnostics@.len() <= new.diagnostics@.len()
    &&& reader_codes(old.diagnostics@) ==> reader_codes(new.diagnostics@)
}

fn atom_text(token: &Token) -> (r: Option<Vec<char>>)
    ensures
        r is Some <==> token.kind is Atom,
        r matches Some(cs) ==> cs@ == token.kind->Atom_0@,
{
    match &token.kind {
        TokenKind::Atom(text) => Some(chars_of(text.as_str())),
        _ => None,
    }
}

/// The sigil `token` is, if it is one.
fn sigil_at(token: &Token) -> (r: Option<Sigil>)
    ensures
        r is Some <==> token.kind is Atom && exact_row(token.kind->Atom_0@) < ROWS,
        r matches Some(s) ==> is_row(s, exact_row(token.kind->Atom_0@)),
{
    match atom_text(token) {
        Some(cs) => {
            let i = exact_row_of(&cs);
            if i < ROWS {
                Some(row(i))
            } else {
                None
            }
        },
        None => None,
    }
}

fn is_open(token: &Token) -> (b: bool)
    ensures
        b == token.kind is LeftParen,
{
    match token.kind {
        TokenKind::LeftParen => true,
        _ => false,
    }
}

fn is_close(token: &Token) -> (b: bool)
    ensures
        b == token.kind is RightParen,
{
    match token.kind {
        TokenKind::RightParen => true,
        _ => false,
    }
}

fn text_of(t: &str) -> (s: String)
    ensures
        s@ == t@,
{
    t.to_owned()
}

fn dollar_help() -> (s: String)
    ensures
        s@ == "`$` stands between a form's head and the rest of it, as in `(println $ from-i64 42)`"@,
{
    text_of("`$` stands between a form's head and the rest of it, as in `(println $ from-i64 42)`")
}

impl<'a> Reader<'a> {
    /// What the tokens being read are.
    spec fn ls(&self) -> Seq<Lexeme> {
        lexemes(self.tokens@)
    }

    /// The borrow sigil under the cursor, if that is what is there.
    fn around_at(&self, at: usize) -> (r: Option<Sigil>)
        requires
            at < self.tokens@.len(),
        ensures
            r is Some ==> self.tokens@[at as int].kind is Atom && row_is_around(
                exact_row(self.tokens@[at as int].kind->Atom_0@),
            ),
            r is Some <==> row_is_around(row_at(self.ls(), at as int)),
            r matches Some(s) ==> is_row(s, exact_row(self.tokens@[at as int].kind->Atom_0@)),
    {
        match sigil_at(&self.tokens[at]) {
            Some(s) => match s.expansion {
                Expands::Around(_) => Some(s),
                _ => None,
            },
            None => None,
        }
    }

    /// Whether the sigil under the cursor opens the list it is the head of.
    ///
    /// It does when the form it would take is all that follows it: the parens
    /// an abbreviation would add there are the ones already written, so `(& x)`
    /// is the borrow it has always been and not a call through one. With
    /// anything after that form the sigil abbreviates like any other, which is
    /// what makes a list of borrowed types - `(&T &T)`, the parameter list of a
    /// `Fn` - read as the two elements it looks like.
    fn head_opens_the_list(&self) -> (r: bool)
        requires
            self.cursor <= self.tokens@.len(),
        ensures
            r == head_opens(self.ls(), self.cursor as int),
    {
        let ghost ls = self.ls();
        let n = self.tokens.len();
        let mut cursor = self.cursor;
        while cursor < n && self.around_at(cursor).is_some()
            invariant
                self.cursor <= cursor <= n == self.tokens@.len(),
                ls == self.ls(),
                around_run_end(ls, cursor as int) == around_run_end(ls, self.cursor as int),
            decreases n - cursor,
        {
            cursor += 1;
        }
        let ghost c = cursor as int;
        assert(c == around_run_end(ls, self.cursor as int));
        if cursor >= n {
            return false;
        }
        // `$` makes everything after it one form, so the run's operand is
        // all that follows and the head opens the list after all:
        // `(& $ f x)` is `(& (f x))`.
        match sigil_at(&self.tokens[cursor]) {
            Some(s) => match s.expansion {
                Expands::Rest => return true,
                _ => {},
            },
            None => {},
        }
        assert(self.tokens@[c].kind@ == ls[c]);
        assert(row_at(ls, c) != 2);
        if is_open(&self.tokens[cursor]) {
            let mut depth: usize = 1;
            cursor += 1;
            while depth > 0
                invariant
                    cursor <= n == self.tokens@.len(),
                    depth <= cursor,
                    ls == self.ls(),
                    depth > 0 ==> balanced_end(ls, cursor as int, depth as int) == balanced_end(ls, c + 1, 1),
                    depth == 0 ==> balanced_end(ls, c + 1, 1) == Some(cursor as int),
                    c == around_run_end(ls, self.cursor as int),
                    0 <= c < ls.len(),
                    row_at(ls, c) != 2,
                    ls[c] is Open,
                decreases n - cursor,
            {
                if cursor >= n {
                    return false;
                }
                assert(self.tokens@[cursor as int].kind@ == ls[cursor as int]);
                if is_open(&self.tokens[cursor]) {
                    depth += 1;
                } else if is_close(&self.tokens[cursor]) {
                    depth -= 1;
                }
                cursor += 1;
            }
        } else if is_close(&self.tokens[cursor]) {
            return false;
        } else {
            cursor += 1;
        }
        proof {
            if cursor < n {
                assert(self.tokens@[cursor as int].kind@ == ls[cursor as int]);
            }
        }
        cursor < n && is_close(&self.tokens[cursor])
    }

    /// Whether the token under the cursor is the row that closes everything.
    fn closes_everything(&self) -> (b: bool)
        requires
            self.cursor < self.tokens@.len(),
        ensures
            b ==> self.tokens@[self.cursor as int].kind is Atom && exact_row(
                self.tokens@[self.cursor as int].kind->Atom_0@,
            ) == 3,
            b <==> row_at(self.ls(), self.cursor as int) == 3,
    {
        match sigil_at(&self.tokens[self.cursor]) {
            Some(s) => match s.expansion {
                Expands::Everything => true,
                _ => false,
            },
            None => false,
        }
    }

    /// Whether the token under the cursor is the row that nests.
    fn nests_here(&self) -> (b: bool)
        requires
            self.cursor < self.tokens@.len(),
        ensures
            b ==> self.tokens@[self.cursor as int].kind is Atom && exact_row(
                self.tokens@[self.cursor as int].kind->Atom_0@,
            ) == 2,
            b <==> row_at(self.ls(), self.cursor as int) == 2,
    {
        match sigil_at(&self.tokens[self.cursor]) {
            Some(s) => match s.expansion {
                Expands::Rest => true,
                _ => false,
            },
            None => false,
        }
    }

    /// Opens the list `$` stands for, and says whether one was opened.
    ///
    /// `first` says `$` is where a form's head belongs, which is the one place
    /// it cannot go: the list it opens would have nothing to be the rest of.
    fn nest(&mut self, first: bool) -> (opened: bool)
        requires
            old(self).cursor < old(self).tokens.len(),
        ensures
            stepped(old(self), final(self)),
            final(self).cursor == old(self).cursor + 1,
            final(self).closing == old(self).closing,
            opened == !(first || old(self).cursor + 1 >= old(self).ls().len() || old(self).ls()[old(
                self,
            ).cursor + 1] is Close),
            !opened ==> final(self).diagnostics@.len() > old(self).diagnostics@.len(),
            opened ==> final(self).diagnostics == old(self).diagnostics && lexemes(final(self).out@)
                == lexemes(old(self).out@).push(Lexeme::Open),
    {
        let span = self.tokens[self.cursor].span;
        self.cursor += 1;
        let empty = self.cursor >= self.tokens.len() || is_close(&self.tokens[self.cursor]);
        if first || empty {
            let message = if first {
                text_of("`$` nests the rest of a form, and a form's first element is its head")
            } else {
                text_of("`$` nests the rest of a form, and there is none here")
            };
            self.diagnostics.push(
                Diagnostic::error(codes::ABBREVIATION, self.file, span, message).with_help(
                    dollar_help(),
                ),
            );
            return false;
        }
        let ghost prior = self.out@;
        self.out.push(Token { kind: TokenKind::LeftParen, span });
        proof {
            lemma_lexemes_push(prior, Token { kind: TokenKind::LeftParen, span });
        }
        true
    }

    /// Copies tokens through the `)` that closes the `(` under the cursor.
    fn copy_balanced(&mut self)
        requires
            old(self).cursor < old(self).tokens.len(),
            old(self).tokens@[old(self).cursor as int].kind is LeftParen,
        ensures
            stepped(old(self), final(self)),
            final(self).closing == old(self).closing,
            final(self).diagnostics == old(self).diagnostics,
            views(final(self).out@) == views(old(self).out@) + views(
                final(self).tokens@.subrange(old(self).cursor as int, final(self).cursor as int),
            ),
            final(self).cursor == copy_end(old(self).ls(), old(self).cursor as int),
            lexemes(final(self).out@) == lexemes(old(self).out@) + old(self).ls().subrange(
                old(self).cursor as int,
                final(self).cursor as int,
            ),
    {
        let ghost c0 = self.cursor as int;
        let first = self.tokens[self.cursor].clone();
        assert(first@ == self.tokens@[c0]@);
        self.out.push(first);
        self.cursor += 1;
        assert(self.tokens@.subrange(c0, self.cursor as int) =~= seq![self.tokens@[c0]]);
        assert(views(self.out@) =~= views(old(self).out@) + views(
            self.tokens@.subrange(c0, self.cursor as int),
        ));
        let ghost ls = old(self).ls();
        proof {
            lemma_lexemes_push(old(self).out@, first);
            assert(ls.subrange(c0, c0 + 1) =~= seq![first.kind@]);
        }
        let mut depth: usize = 1;
        while depth > 0 && self.cursor < self.tokens.len()
            invariant
                c0 == old(self).cursor,
                c0 < self.cursor <= self.tokens@.len(),
                depth <= self.cursor - c0,
                ls == self.ls(),
                ls.len() == self.tokens@.len(),
                lexemes(self.out@) == lexemes(old(self).out@) + ls.subrange(c0, self.cursor as int),
                depth > 0 ==> (match balanced_end(ls, self.cursor as int, depth as int) {
                    Some(e) => e,
                    None => ls.len() as int,
                }) == copy_end(ls, c0),
                depth == 0 ==> self.cursor == copy_end(ls, c0),
                self.tokens == old(self).tokens,
                self.file == old(self).file,
                self.depth == old(self).depth,
                self.closing == old(self).closing,
                self.diagnostics == old(self).diagnostics,
                views(self.out@) == views(old(self).out@) + views(
                    self.tokens@.subrange(c0, self.cursor as int),
                ),
            decreases self.tokens@.len() - self.cursor,
        {
            let token = self.tokens[self.cursor].clone();
            let ghost at = self.cursor as int;
            assert(token@ == self.tokens@[at]@);
            if is_open(&token) {
                depth += 1;
            } else if is_close(&token) {
                depth -= 1;
            }
            let ghost prior = self.out@;
            proof {
                lemma_views_push(prior, token);
                lemma_views_push(self.tokens@.subrange(c0, at), self.tokens@[at]);
                lemma_lexemes_push(prior, token);
                assert(ls.subrange(c0, at + 1) =~= ls.subrange(c0, at).push(ls[at]));
                assert(ls[at] == token.kind@);
            }
            self.out.push(token);
            self.cursor += 1;
            assert(self.tokens@.subrange(c0, self.cursor as int) =~= self.tokens@.subrange(c0, at).push(
                self.tokens@[at],
            ));
            assert(views(self.out@) =~= views(old(self).out@) + views(
                self.tokens@.subrange(c0, self.cursor as int),
            ));
        }
    }
}

impl<'a> Reader<'a> {
    fn push_close_at(&mut self, end: Span)
        ensures
            final(self).out@ == old(self).out@.push(
                Token {
                    kind: TokenKind::RightParen,
                    span: Span { start: end.end, end: end.end, line: end.line, column: end.column },
                },
            ),
            final(self).tokens == old(self).tokens,
            final(self).file == old(self).file,
            final(self).cursor == old(self).cursor,
            final(self).depth == old(self).depth,
            final(self).closing == old(self).closing,
            final(self).diagnostics == old(self).diagnostics,
    {
        self.out.push(
            Token {
                kind: TokenKind::RightParen,
                span: Span { start: end.end, end: end.end, line: end.line, column: end.column },
            },
        );
    }

    /// Copies one element to the output, expanding the abbreviation it begins
    /// with.
    ///
    /// `head` says the sigil opens the list rather than standing inside it,
    /// where there is nothing to abbreviate and `&` is the ordinary atom
    /// `(& value)` has always been written with.
    /// The answer is how many lists the element left open for the form around
    /// it to close, which is what `$` after a sigil produces.
    #[verifier::spinoff_prover]
    #[verifier::rlimit(80)]
    fn element(&mut self, head: bool) -> (nested: usize)
        requires
            old(self).cursor < old(self).tokens.len(),
            old(self).closing is None,
        ensures
            stepped(old(self), final(self)),
            nested <= final(self).cursor - old(self).cursor,
            plain(old(self).tokens@) && old(self).closing is None ==> nested == 0 && copied(
                old(self),
                final(self),
            ),
            old(self).depth == 0 ==> final(self).closing is None,
            old(self).diagnostics@.len() == 0 ==> {
                let e = read_element(old(self).ls(), old(self).cursor as int, old(self).depth as int, false, head);
                &&& (final(self).diagnostics@.len() == 0 <==> e.4)
                &&& e.4 ==> {
                    &&& lexemes(final(self).out@) == lexemes(old(self).out@) + e.0
                    &&& final(self).cursor == e.1
                    &&& (final(self).closing is Some) == e.2
                    &&& nested == e.3
                }
            },
        decreases old(self).tokens@.len() - old(self).cursor, 1int,
    {
        let ghost ls = old(self).ls();
        let ghost c0 = self.cursor as int;
        let token = self.tokens[self.cursor].clone();
        assert(token@ == self.tokens@[c0]@);
        let sigil = sigil_at(&token);
        proof {
            if sigil is Some {
                lemma_exact_is_prefix(token.kind->Atom_0@);
                assert(!plain(self.tokens@) || !(self.tokens@[c0].kind is Atom));
            }
        }
        if let Some(sigil) = sigil {
            match sigil.expansion {
                Expands::Nothing => {
                    let mut message = text_of("`");
                    push_str(&mut message, sigil.text);
                    push_str(&mut message, "` is reserved");
                    let mut note = text_of("it is held for ");
                    push_str(&mut note, sigil.means);
                    self.diagnostics.push(
                        Diagnostic::error(codes::RESERVED_SIGIL, self.file, token.span, message).with_note(note),
                    );
                    self.cursor += 1;
                    return 0;
                },
                // `|)` is read by the loop over the list it closes, so reaching one
                // here means there is no list open for it to close.
                Expands::Everything => {
                    self.diagnostics.push(
                        Diagnostic::error(
                            codes::UNEXPECTED_CLOSE,
                            self.file,
                            token.span,
                            text_of("unexpected `|)`"),
                        ).with_help(
                            text_of(
                                "`|)` ends a declaration by closing every list it left open, and there is none open here",
                            ),
                        ),
                    );
                    self.cursor += 1;
                    return 0;
                },
                // `$` nests what follows into the list around it, so it is read by
                // the loop over that list and never as an element of its own.
                // Reaching one here means there is no list for it to nest in.
                Expands::Rest => {
                    self.diagnostics.push(
                        Diagnostic::error(
                            codes::ABBREVIATION,
                            self.file,
                            token.span,
                            text_of(
                                "`$` nests the rest of the form it is written in, and there is none here",
                            ),
                        ).with_help(dollar_help()),
                    );
                    self.cursor += 1;
                    return 0;
                },
                Expands::Around(_) => {
                    if !head {
                        return self.abbreviation(sigil);
                    }
                },
            }
        }
        assert(ls[c0] == token.kind@);
        if !is_open(&token) {
            let ghost prior = self.out@;
            proof {
                lemma_views_push(prior, token);
                lemma_lexemes_push(prior, token);
            }
            assert(prior == old(self).out@);
            self.out.push(token);
            self.cursor += 1;
            assert(self.tokens@.subrange(c0, c0 + 1) =~= seq![self.tokens@[c0]]);
            assert(views(seq![self.tokens@[c0]]) =~= seq![token@]);
            assert(views(self.out@) =~= views(old(self).out@) + views(
                self.tokens@.subrange(c0, c0 + 1),
            ));
            return 0;
        }
        // Past the parser's own limit the file is refused anyway, and
        // recursing beside it is what the limit exists to prevent.
        if self.depth >= MAX_NESTING_DEPTH {
            self.copy_balanced();
            return 0;
        }
        let ghost out0 = self.out@;
        let ghost diags0 = self.diagnostics@;
        let ghost clean = plain(self.tokens@) && self.closing is None;
        proof {
            lemma_views_push(out0, token);
            lemma_lexemes_push(out0, token);
        }
        self.out.push(token);
        self.cursor += 1;
        assert(self.tokens@.subrange(c0, c0 + 1) =~= seq![self.tokens@[c0]]);
        assert(views(seq![self.tokens@[c0]]) =~= seq![token@]);
        self.depth += 1;
        let mut first = true;
        let mut nested: usize = 0;
        let ghost d1 = self.depth as int;
        let ghost target = read_items(ls, c0 + 1, d1, false, true, 0);
        let ghost mut produced: Seq<Lexeme> = Seq::empty();
        assert(lexemes(self.out@) =~= lexemes(out0).push(Lexeme::Open) + produced);
        while self.cursor < self.tokens.len() && self.closing.is_none() && !is_close(
            &self.tokens[self.cursor],
        )
            invariant
                c0 == old(self).cursor,
                c0 < self.cursor <= self.tokens@.len(),
                self.tokens@ == old(self).tokens@,
                self.file == old(self).file,
                self.depth == old(self).depth + 1,
                old(self).out@.len() < self.out@.len(),
                old(self).diagnostics@.len() <= self.diagnostics@.len(),
                reader_codes(old(self).diagnostics@) ==> reader_codes(self.diagnostics@),
                nested <= self.cursor - c0,
                clean == (plain(old(self).tokens@) && old(self).closing is None),
                clean ==> {
                    &&& nested == 0
                    &&& self.closing is None
                    &&& self.diagnostics@ == old(self).diagnostics@
                    &&& views(self.out@) == views(old(self).out@) + views(
                        self.tokens@.subrange(c0, self.cursor as int),
                    )
                },
                ls == self.ls(),
                ls.len() == self.tokens@.len(),
                d1 == self.depth,
                old(self).depth < MAX_NESTING_DEPTH,
                target == read_items(ls, c0 + 1, d1, false, true, 0),
                old(self).diagnostics@.len() == 0 && self.diagnostics@.len() == 0 ==> lexemes(self.out@)
                    == lexemes(out0).push(Lexeme::Open) + produced,
                out0 == old(self).out@,
                old(self).diagnostics@.len() == 0 && self.diagnostics@.len() == 0 ==> {
                    let r = read_items(ls, self.cursor as int, d1, self.closing is Some, first, nested as nat);
                    target == (produced + r.0, r.1, r.2, r.3, r.4)
                },
                old(self).diagnostics@.len() == 0 && self.diagnostics@.len() > 0 ==> !target.4,
            ensures
                self.cursor >= self.tokens@.len() || self.closing is Some || ls[self.cursor as int] is Close,
            decreases self.tokens@.len() - self.cursor,
        {
            let ghost at = self.cursor as int;
            let ghost prior = self.out@;
            let ghost r0 = read_items(ls, at, d1, false, first, nested as nat);
            if self.closes_everything() {
                self.closing = Some(self.tokens[self.cursor].span);
                self.cursor += 1;
                break;
            }
            if self.nests_here() {
                let ghost pre_out = self.out@;
                if self.nest(first) {
                    nested += 1;
                    first = true;
                    proof {
                        produced = produced.push(Lexeme::Open);
                        if old(self).diagnostics@.len() == 0 && self.diagnostics@.len() == 0 {
                            assert(lexemes(self.out@) =~= lexemes(out0).push(Lexeme::Open) + produced);
                            let r1 = read_items(ls, self.cursor as int, d1, false, true, nested as nat);
                            assert(r0 == (seq![Lexeme::Open] + r1.0, r1.1, r1.2, r1.3, r1.4));
                            assert(produced + r1.0 =~= produced.drop_last() + (seq![Lexeme::Open] + r1.0));
                        }
                    }
                }
                continue;
            }
            let head = first && self.head_opens_the_list();
            let ghost pre_out = self.out@;
            let ghost pre_diags = self.diagnostics@.len();
            let more = self.element(head);
            proof {
                if old(self).diagnostics@.len() == 0 && pre_diags == 0 && self.diagnostics@.len() == 0 {
                    let e = read_element(ls, at, d1, false, head);
                    assert(head == (first && head_opens(ls, at)));
                    assert(ls[at] == self.tokens@[at].kind@);
                    assert(row_at(ls, at) != 3 && row_at(ls, at) != 2);
                    assert(e.4 && at < e.1 <= ls.len());
                    let r1 = read_items(ls, self.cursor as int, d1, self.closing is Some, false, (nested + more) as nat);
                    assert(r0 == (e.0 + r1.0, r1.1, r1.2, r1.3, r1.4));
                    assert(lexemes(self.out@) == lexemes(pre_out) + e.0);
                    assert(lexemes(pre_out).len() == pre_out.len());
                    assert(lexemes(self.out@).len() == self.out@.len());
                    assert(lexemes(self.out@).subrange(pre_out.len() as int, self.out@.len() as int) =~= e.0);
                    assert(produced + (e.0 + r1.0) =~= (produced + e.0) + r1.0);
                }
                produced = produced + lexemes(self.out@).subrange(pre_out.len() as int, self.out@.len() as int);
            }
            nested += more;
            first = false;
            proof {
                if clean {
                    lemma_views_add(prior, self.tokens@.subrange(at, self.cursor as int));
                    assert(self.tokens@.subrange(c0, self.cursor as int) =~= self.tokens@.subrange(
                        c0,
                        at,
                    ) + self.tokens@.subrange(at, self.cursor as int));
                    lemma_views_add(
                        self.tokens@.subrange(c0, at),
                        self.tokens@.subrange(at, self.cursor as int),
                    );
                }
            }
        }
        self.depth -= 1;
        proof {
            if old(self).diagnostics@.len() == 0 && self.diagnostics@.len() == 0 {
                assert(produced + Seq::<Lexeme>::empty() =~= produced);
                assert(target == (produced, self.cursor as int, self.closing is Some, nested as nat, true));
            }
        }
        let ghost exit_cursor = self.cursor;
        let ghost exit_closing = self.closing;
        // Every list `$` opened closes where this one does, innermost
        // first, and each ends at the last form written into it.
        let end = self.out[self.out.len() - 1].span;
        let mut k: usize = 0;
        assert(produced + closes(0) =~= produced);
        while k < nested
            invariant
                ls == self.ls(),
                exit_cursor == self.cursor,
                exit_closing == self.closing,
                target == read_items(ls, c0 + 1, d1, false, true, 0),
                old(self).diagnostics@.len() == 0 && self.diagnostics@.len() == 0 ==> {
                    &&& target == (produced, self.cursor as int, self.closing is Some, nested as nat, true)
                    &&& lexemes(self.out@) == lexemes(out0).push(Lexeme::Open) + produced + closes(k as nat)
                },
                old(self).diagnostics@.len() == 0 && self.diagnostics@.len() > 0 ==> !target.4,
                out0 == old(self).out@,
                old(self).depth < MAX_NESTING_DEPTH,
                k <= nested,
                c0 == old(self).cursor,
                c0 < self.cursor <= self.tokens@.len(),
                self.tokens@ == old(self).tokens@,
                self.file == old(self).file,
                self.depth == old(self).depth,
                old(self).out@.len() < self.out@.len(),
                old(self).diagnostics@.len() <= self.diagnostics@.len(),
                reader_codes(old(self).diagnostics@) ==> reader_codes(self.diagnostics@),
                clean == (plain(old(self).tokens@) && old(self).closing is None),
                clean ==> {
                    &&& nested == 0
                    &&& self.closing is None
                    &&& self.diagnostics@ == old(self).diagnostics@
                    &&& views(self.out@) == views(old(self).out@) + views(
                        self.tokens@.subrange(c0, self.cursor as int),
                    )
                },
            decreases nested - k,
        {
            let ghost prior = self.out@;
            self.push_close_at(end);
            proof {
                lemma_lexemes_push(prior, self.out@.last());
                assert(self.out@ == prior.push(self.out@.last()));
                assert(produced + closes((k + 1) as nat) =~= (produced + closes(k as nat)).push(Lexeme::Close));
            }
            k += 1;
        }
        let ghost closed_out = self.out@;
        proof {
            if old(self).diagnostics@.len() == 0 && self.diagnostics@.len() == 0 {
                assert(lexemes(closed_out) =~= lexemes(out0) + (seq![Lexeme::Open] + produced + closes(nested as nat)));
            }
        }
        // A `|)` closes this list too, and every one outside it, with
        // a `)` whose span is the closer that was written.
        if let Some(span) = self.closing {
            let closer = Token { kind: TokenKind::RightParen, span };
            self.out.push(closer);
            proof {
                lemma_lexemes_push(closed_out, closer);
                if old(self).diagnostics@.len() == 0 && self.diagnostics@.len() == 0 {
                    assert(lexemes(self.out@) =~= lexemes(out0) + (seq![Lexeme::Open] + produced + closes(nested as nat) + seq![Lexeme::Close]));
                }
            }
            if self.depth == 0 {
                self.closing = None;
            }
        } else if self.cursor < self.tokens.len() {
            let ghost at = self.cursor as int;
            let close = self.tokens[self.cursor].clone();
            assert(close@ == self.tokens@[at]@);
            let ghost prior = self.out@;
            proof {
                lemma_views_push(prior, close);
                lemma_views_push(self.tokens@.subrange(c0, at), self.tokens@[at]);
                assert(self.tokens@.subrange(c0, at + 1) =~= self.tokens@.subrange(c0, at).push(
                    self.tokens@[at],
                ));
            }
            self.out.push(close);
            self.cursor += 1;
            proof {
                if clean {
                    assert(views(self.out@) =~= views(old(self).out@) + views(
                        self.tokens@.subrange(c0, self.cursor as int),
                    ));
                }
                lemma_lexemes_push(closed_out, close);
                assert(ls[at] == close.kind@);
                if old(self).diagnostics@.len() == 0 && self.diagnostics@.len() == 0 {
                    assert(lexemes(self.out@) =~= lexemes(out0) + (seq![Lexeme::Open] + produced + closes(nested as nat) + seq![ls[at]]));
                }
            }
        }
        0
    }

    /// Expands a run of sigils and the one form they stand before.
    ///
    /// The run is taken whole rather than one sigil at a time, so `&&value`
    /// costs the reader no stack: what nests is the output, which the parser
    /// bounds already.
    fn abbreviation(&mut self, first: Sigil) -> (nested: usize)
        requires
            old(self).cursor < old(self).tokens.len(),
            old(self).closing is None,
            row_is_around(row_at(old(self).ls(), old(self).cursor as int)),
            is_row(first, row_at(old(self).ls(), old(self).cursor as int)),
        ensures
            stepped(old(self), final(self)),
            nested <= final(self).cursor - old(self).cursor,
            old(self).depth == 0 ==> final(self).closing is None,
            old(self).diagnostics@.len() == 0 ==> {
                let e = read_abbreviation(old(self).ls(), old(self).cursor as int, old(self).depth as int, false);
                &&& (final(self).diagnostics@.len() == 0 <==> e.4)
                &&& e.4 ==> {
                    &&& lexemes(final(self).out@) == lexemes(old(self).out@) + e.0
                    &&& final(self).cursor == e.1
                    &&& (final(self).closing is Some) == e.2
                    &&& nested == e.3
                }
            },
        decreases old(self).tokens@.len() - old(self).cursor, 0int,
    {
        let ghost ls = old(self).ls();
        let ghost at = old(self).cursor as int;
        let mut run: Vec<(Sigil, Span)> = Vec::new();
        run.push((first, self.tokens[self.cursor].span));
        self.cursor += 1;
        proof {
            lemma_run_end(ls, at + 1);
        }
        loop
            invariant
                old(self).cursor < self.cursor <= self.tokens@.len(),
                run@.len() == self.cursor - old(self).cursor,
                self.tokens == old(self).tokens,
                self.file == old(self).file,
                self.depth == old(self).depth,
                self.out == old(self).out,
                self.closing == old(self).closing,
                self.diagnostics == old(self).diagnostics,
                ls == self.ls(),
                at == old(self).cursor,
                ls.len() == self.tokens@.len(),
                around_run_end(ls, self.cursor as int) == around_run_end(ls, at + 1),
                forall|k: int| 0 <= k < run@.len() ==> {
                    &&& row_at(ls, at + k) < ROWS
                    &&& (#[trigger] run@[k]).0.text@ == row_text(row_at(ls, at + k))
                },
            ensures
                self.cursor >= self.tokens@.len() || !row_is_around(row_at(ls, self.cursor as int)),
            decreases self.tokens@.len() - self.cursor,
        {
            if self.cursor >= self.tokens.len() {
                break;
            }
            match self.around_at(self.cursor) {
                Some(sigil) => {
                    run.push((sigil, self.tokens[self.cursor].span));
                    self.cursor += 1;
                },
                None => break,
            }
        }
        let ghost j = self.cursor as int;
        assert(j == around_run_end(ls, at + 1));
        let count = run.len();
        let missing = self.cursor >= self.tokens.len() || is_close(&self.tokens[self.cursor]);
        if missing {
            let span = run[0].1.join(run[count - 1].1);
            let text = run[count - 1].0.text;
            let mut message = text_of("`");
            push_str(&mut message, text);
            push_str(&mut message, "` stands before a form, and there is none here");
            let mut help = text_of("write the form it applies to, as in `");
            push_str(&mut help, text);
            push_str(&mut help, "value`");
            self.diagnostics.push(
                Diagnostic::error(codes::ABBREVIATION, self.file, span, message).with_help(help),
            );
            return 0;
        }
        let mut k: usize = 0;
        assert(lexemes(self.out@) =~= lexemes(old(self).out@) + opened_by(ls, at, at));
        while k < count
            invariant
                k <= count == run@.len(),
                old(self).cursor < self.cursor < self.tokens@.len(),
                count == self.cursor - old(self).cursor,
                self.tokens == old(self).tokens,
                self.file == old(self).file,
                self.depth == old(self).depth,
                old(self).out@.len() + 2 * k <= self.out@.len(),
                self.diagnostics == old(self).diagnostics,
                self.closing == old(self).closing,
                ls == self.ls(),
                at == old(self).cursor,
                ls.len() == self.tokens@.len(),
                forall|m: int| 0 <= m < run@.len() ==> {
                    &&& row_at(ls, at + m) < ROWS
                    &&& (#[trigger] run@[m]).0.text@ == row_text(row_at(ls, at + m))
                },
                lexemes(self.out@) == lexemes(old(self).out@) + opened_by(ls, at, at + k),
            decreases count - k,
        {
            let (sigil, span) = run[k];
            let ghost prior = self.out@;
            let opener = Token { kind: TokenKind::LeftParen, span };
            self.out.push(opener);
            let head = Token { kind: TokenKind::Atom(sigil.text.to_owned()), span };
            self.out.push(head);
            proof {
                lemma_lexemes_push(prior, opener);
                lemma_lexemes_push(prior.push(opener), head);
                assert(run@[k as int].0.text@ == row_text(row_at(ls, at + k)));
                lemma_row_text(ls[at + k]->Word_0);
                assert(ls[at + k] == Lexeme::Word(sigil.text@));
                assert(opened_by(ls, at, at + k + 1) == opened_by(ls, at, at + k) + seq![Lexeme::Open, ls[at + k]]);
            }
            k += 1;
        }
        // `$` is the operand: what the sigil applies to is the rest of the
        // form around it, so these lists close where that form closes and the
        // loop over it is what counts them.
        if self.nests_here() {
            return count;
        }
        let ghost before = self.out@;
        assert(at + count == j);
        self.element(false);
        let ghost after = self.out@;
        let ghost after_diags = self.diagnostics@;
        let ghost after_closing = self.closing;
        let ghost after_cursor = self.cursor;
        // The synthesized list ends where its operand does: text that exists.
        let end = self.out[self.out.len() - 1].span;
        let mut k: usize = 0;
        assert(lexemes(self.out@) =~= lexemes(after) + closes(0));
        while k < count
            invariant
                k <= count,
                old(self).cursor < self.cursor <= self.tokens@.len(),
                self.tokens@ == old(self).tokens@,
                self.file == old(self).file,
                self.depth == old(self).depth,
                old(self).out@.len() <= self.out@.len(),
                old(self).diagnostics@.len() <= self.diagnostics@.len(),
                reader_codes(old(self).diagnostics@) ==> reader_codes(self.diagnostics@),
                lexemes(self.out@) == lexemes(after) + closes(k as nat),
                self.closing == after_closing,
                self.diagnostics@ == after_diags,
                self.cursor == after_cursor,
            decreases count - k,
        {
            let ghost prior = self.out@;
            self.push_close_at(end);
            proof {
                lemma_lexemes_push(prior, self.out@.last());
                assert(self.out@ == prior.push(self.out@.last()));
                assert(closes((k + 1) as nat) =~= closes(k as nat).push(Lexeme::Close));
            }
            k += 1;
        }
        proof {
            if old(self).diagnostics@.len() == 0 && self.diagnostics@.len() == 0 {
                let e = read_element(ls, j, old(self).depth as int, false, false);
                assert(lexemes(self.out@) =~= lexemes(old(self).out@) + (opened_by(ls, at, j) + e.0 + closes(count as nat)));
            }
        }
        0
    }
}

/// Rewrites every abbreviation into the form it stands for.
///
/// What comes back is exactly what `read_all` reads from the tokens, atoms
/// divided into their pieces, and reading fails exactly when `read_all` meets
/// an abbreviation it cannot expand. Tokens with no abbreviation in them come
/// back exactly as they were.
pub fn expand(file: &str, tokens: &[Token]) -> (r: CompileResult<Vec<Token>>)
    ensures
        r matches Err(errors) ==> errors@.len() > 0 && reader_codes(errors@),
        plain(tokens@) ==> (r matches Ok(out) && views(out@) == views(tokens@)),
        r is Ok <==> read_all(split_lexemes(tokens@), 0, false).1,
        r matches Ok(out) ==> lexemes(out@) == read_all(split_lexemes(tokens@), 0, false).0,
{
    let mut split: Vec<Token> = Vec::new();
    let mut k: usize = 0;
    while k < tokens.len()
        invariant
            k <= tokens@.len(),
            plain(tokens@) ==> views(split@) == views(tokens@.subrange(0, k as int)) && plain(
                split@,
            ),
            lexemes(split@) == split_lexemes(tokens@.subrange(0, k as int)),
        decreases tokens@.len() - k,
    {
        let ghost prior = split@;
        split_atom(&tokens[k], &mut split);
        proof {
            assert(tokens@.subrange(0, k + 1).drop_last() =~= tokens@.subrange(0, k as int));
            assert(tokens@.subrange(0, k + 1).last() == tokens@[k as int]);
            if plain(tokens@) {
                assert(tokens@[k as int].kind is Atom ==> prefix_row(tokens@[k as int].kind->Atom_0@)
                    == ROWS);
                assert(views(split@) == views(prior).push(tokens@[k as int]@));
                assert(views(split@).len() == split@.len());
                assert(views(prior).len() == prior.len());
                assert(views(tokens@.subrange(0, k as int)).len() == k);
                assert(split@.len() == k + 1);
                lemma_views_push(tokens@.subrange(0, k as int), tokens@[k as int]);
                assert(tokens@.subrange(0, k + 1) =~= tokens@.subrange(0, k as int).push(
                    tokens@[k as int],
                ));
                assert forall|j: int|
                    0 <= j < split@.len() && (#[trigger] split@[j]).kind is Atom implies prefix_row(
                    split@[j].kind->Atom_0@,
                ) == ROWS by {
                    assert(views(split@)[j] == split@[j]@);
                    assert(tokens@.subrange(0, k + 1)[j] == tokens@[j]);
                    assert(views(tokens@.subrange(0, k + 1))[j] == tokens@[j]@);
                    assert(split@[j].kind@ == tokens@[j].kind@);
                }
            }
        }
        k += 1;
    }
    assert(tokens@.subrange(0, tokens@.len() as int) =~= tokens@);
    let ghost ls = lexemes(split@);
    let mut reader = Reader {
        file,
        out: Vec::new(),
        tokens: split,
        cursor: 0,
        depth: 0,
        closing: None,
        diagnostics: Vec::new(),
    };
    assert(lexemes(reader.out@) + read_all(ls, 0, false).0 =~= read_all(ls, 0, false).0);
    assert(reader.tokens@.subrange(0, 0) =~= Seq::<Token>::empty());
    assert(views(reader.out@) =~= views(reader.tokens@.subrange(0, 0)));
    while reader.cursor < reader.tokens.len()
        invariant
            reader.cursor <= reader.tokens@.len(),
            reader.depth == 0,
            reader_codes(reader.diagnostics@),
            plain(tokens@) ==> {
                &&& plain(reader.tokens@)
                &&& views(reader.tokens@) == views(tokens@)
                &&& reader.closing is None
                &&& reader.diagnostics@.len() == 0
                &&& views(reader.out@) == views(reader.tokens@.subrange(0, reader.cursor as int))
            },
            reader.closing is None,
            ls == reader.ls(),
            ls == split_lexemes(tokens@),
            ls.len() == reader.tokens@.len(),
            reader.diagnostics@.len() == 0 ==> read_all(ls, 0, false) == (
                lexemes(reader.out@) + read_all(ls, reader.cursor as int, false).0,
                read_all(ls, reader.cursor as int, false).1,
            ),
            reader.diagnostics@.len() > 0 ==> !read_all(ls, 0, false).1,
        decreases reader.tokens@.len() - reader.cursor,
    {
        let ghost before = reader.cursor as int;
        let ghost prior = reader.out@;
        let ghost prior_diags = reader.diagnostics@.len();
        reader.element(false);
        proof {
            if prior_diags == 0 {
                let e = read_element(ls, before, 0, false, false);
                if reader.diagnostics@.len() == 0 {
                    let rest = read_all(ls, reader.cursor as int, false);
                    assert(read_all(ls, before, false) == (e.0 + rest.0, rest.1));
                    assert(lexemes(reader.out@) + rest.0 =~= lexemes(prior) + (e.0 + rest.0));
                }
            }
        }
        proof {
            if plain(tokens@) {
                lemma_views_add(reader.tokens@.subrange(0, before), reader.tokens@.subrange(before, reader.cursor as int));
                assert(reader.tokens@.subrange(0, reader.cursor as int) =~= reader.tokens@.subrange(
                    0,
                    before,
                ) + reader.tokens@.subrange(before, reader.cursor as int));
            }
        }
    }
    if reader.diagnostics.len() == 0 {
        assert(reader.tokens@.subrange(0, reader.tokens@.len() as int) =~= reader.tokens@);
        assert(lexemes(reader.out@) + Seq::<Lexeme>::empty() =~= lexemes(reader.out@));
        Ok(reader.out)
    } else {
        Err(reader.diagnostics)
    }
}

} // verus!
