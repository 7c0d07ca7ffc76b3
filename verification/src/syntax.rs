//! The lossless syntax tree: every character of a file, comments and
//! whitespace included, grouped by its parentheses - and the layout that
//! writes a file back out from it.
use crate::diagnostic::{CompileResult, Span};
use crate::lexer::{
    char_width, chars_of, comment_stop, delimiter, ends_atom, is_space, lemma_stops, lex, space,
};
use crate::parser::MAX_NESTING_DEPTH;
use crate::reader::{
    expand, joined, lemma_pieces_nonempty, lemma_pieces_rejoin, pieces, pieces_of, sigil_for_head, sigil_of, texts, Expands,
};
use crate::text::{
    begins_with, byte_count, line_feeds, push_char, push_str, same_text, saturating_add, spaces,
    string_of, trim_end, width_of,
};
use vstd::prelude::*;
use vstd::string::StringSliceAdditionalSpecFns;

verus! {

/// What a lossless token is.
#[derive(Clone, Copy, Debug, Eq, PartialEq, Structural)]
pub enum SyntaxKind {
    LeftParen,
    RightParen,
    Atom,
    String,
    Comment,
    Whitespace,
}

/// A token and the exact text it was read from.
#[derive(Debug, Eq, PartialEq)]
pub struct SyntaxToken {
    pub kind: SyntaxKind,
    pub text: String,
    pub span: Span,
}

impl Clone for SyntaxToken {
    fn clone(&self) -> (r: SyntaxToken)
        ensures
            r == *self,
    {
        SyntaxToken { kind: self.kind, text: self.text.clone(), span: self.span }
    }
}

/// A token, or a parenthesized list of elements.
#[derive(Debug, Eq, PartialEq)]
pub enum SyntaxElement {
    Token(SyntaxToken),
    List(SyntaxNode),
}

/// A list: its parentheses, and everything between them.
#[derive(Debug, Eq, PartialEq)]
pub struct SyntaxNode {
    pub span: Span,
    pub children: Vec<SyntaxElement>,
}

/// A file's tokens, and the tree they group into.
#[derive(Debug, Eq, PartialEq)]
pub struct LosslessSyntax {
    pub tokens: Vec<SyntaxToken>,
    pub root: SyntaxNode,
}

/// How the layout writes a file out.
#[derive(Clone, Copy, Debug, Eq, PartialEq, Structural)]
pub struct FormatOptions {
    pub indent_width: usize,
    pub preferred_width: usize,
}

impl Default for FormatOptions {
    fn default() -> (o: FormatOptions)
        ensures
            o == (FormatOptions { indent_width: 2, preferred_width: 88 }),
    {
        FormatOptions { indent_width: 2, preferred_width: 88 }
    }
}

/// The tokens' texts, one after another.
pub open spec fn text_of(tokens: Seq<SyntaxToken>) -> Seq<char>
    decreases tokens.len(),
{
    if tokens.len() == 0 {
        Seq::empty()
    } else {
        text_of(tokens.drop_last()) + tokens.last().text@
    }
}

/// Where a text literal whose body goes on at `j` ends: just past the first
/// `"` that no `\\` escapes, or at the end of the file. `escaped` says whether
/// the character before `j` was an escaping backslash.
pub open spec fn literal_stop(cs: Seq<char>, j: int, escaped: bool) -> int
    decreases cs.len() - j,
{
    if j >= cs.len() {
        cs.len() as int
    } else if !escaped && cs[j] == '"' {
        j + 1
    } else {
        literal_stop(cs, j + 1, !escaped && cs[j] == '\\')
    }
}

/// Where a run of white space that goes on at `j` ends.
pub open spec fn space_stop(cs: Seq<char>, j: int) -> int
    decreases cs.len() - j,
{
    if j >= cs.len() || !is_space(cs[j]) {
        j
    } else {
        space_stop(cs, j + 1)
    }
}

/// Where an atom that goes on at `j` ends: at the end, or at a character
/// that ends atoms.
pub open spec fn atom_stop(cs: Seq<char>, j: int) -> int
    decreases cs.len() - j,
{
    if j >= cs.len() || ends_atom(cs[j]) {
        j
    } else {
        atom_stop(cs, j + 1)
    }
}

/// Runs that start inside the file end inside it, no earlier than they start.
pub proof fn lemma_runs_stop(cs: Seq<char>, j: int, escaped: bool)
    requires
        0 <= j <= cs.len(),
    ensures
        j <= literal_stop(cs, j, escaped) <= cs.len(),
        j <= space_stop(cs, j) <= cs.len(),
        j <= atom_stop(cs, j) <= cs.len(),
        j <= comment_stop(cs, j) <= cs.len(),
    decreases cs.len() - j,
{
    if j < cs.len() {
        lemma_runs_stop(cs, j + 1, !escaped && cs[j] == '\\');
        lemma_runs_stop(cs, j + 1, false);
        lemma_stops(cs, j);
    }
}

/// What kind of token starts at `i`, and where it ends.
pub open spec fn token_at(cs: Seq<char>, i: int) -> (SyntaxKind, int) {
    let c = cs[i];
    if c == '(' {
        (SyntaxKind::LeftParen, i + 1)
    } else if c == ')' {
        (SyntaxKind::RightParen, i + 1)
    } else if c == ';' {
        (SyntaxKind::Comment, comment_stop(cs, i + 1))
    } else if c == '"' {
        (SyntaxKind::String, literal_stop(cs, i + 1, false))
    } else if is_space(c) {
        (SyntaxKind::Whitespace, space_stop(cs, i + 1))
    } else {
        (SyntaxKind::Atom, atom_stop(cs, i + 1))
    }
}

/// The lossless tokens of the characters from `i` on, each as its kind and
/// its text: an atom comes as the sigils it begins with and the name after
/// them, each a token of its own.
pub open spec fn lossless(cs: Seq<char>, i: int) -> Seq<(SyntaxKind, Seq<char>)>
    decreases cs.len() - i,
{
    if i < 0 || i >= cs.len() {
        Seq::empty()
    } else {
        proof {
            lemma_runs_stop(cs, i + 1, false);
        }
        let (kind, j) = token_at(cs, i);
        let here = if kind is Atom {
            pieces_of(cs.subrange(i, j)).map_values(|p: Seq<char>| (SyntaxKind::Atom, p))
        } else {
            seq![(kind, cs.subrange(i, j))]
        };
        here + lossless(cs, j)
    }
}

/// The texts of `v` from `a` up to `b`.
pub open spec fn run_texts(v: Seq<(SyntaxKind, Seq<char>)>, a: int, b: int) -> Seq<Seq<char>> {
    v.subrange(a, b).map_values(|t: (SyntaxKind, Seq<char>)| t.1)
}

/// `v` from `a` up to `b` is a run of atoms that no atom extends on either
/// side.
pub open spec fn atom_run(v: Seq<(SyntaxKind, Seq<char>)>, a: int, b: int) -> bool {
    &&& 0 <= a < b <= v.len()
    &&& forall|k: int| a <= k < b ==> (#[trigger] v[k]).0 is Atom
    &&& (a == 0 || !(v[a - 1].0 is Atom))
    &&& (b == v.len() || !(v[b].0 is Atom))
}

proof fn lemma_atom_stop_ends(cs: Seq<char>, j: int)
    requires
        0 <= j <= cs.len(),
    ensures
        atom_stop(cs, j) < cs.len() ==> ends_atom(cs[atom_stop(cs, j)]),
    decreases cs.len() - j,
{
    if j < cs.len() && !ends_atom(cs[j]) {
        lemma_atom_stop_ends(cs, j + 1);
    }
}

/// What follows an atom in the lossless stream is not an atom.
proof fn lemma_after_atom(cs: Seq<char>, i: int)
    requires
        0 <= i < cs.len(),
        token_at(cs, i).0 is Atom,
    ensures
        lossless(cs, token_at(cs, i).1).len() == 0 || !(lossless(cs, token_at(cs, i).1)[0].0 is Atom),
{
    let j = token_at(cs, i).1;
    lemma_runs_stop(cs, i + 1, false);
    lemma_atom_stop_ends(cs, i + 1);
    if j < cs.len() {
        lemma_runs_stop(cs, j + 1, false);
        let (kind, k) = token_at(cs, j);
        assert(!(kind is Atom));
        let here = seq![(kind, cs.subrange(j, k))];
        assert(lossless(cs, j) == here + lossless(cs, k));
        assert(lossless(cs, j)[0] == here[0]);
    }
}

/// Atoms divide as the reader divides them: every run of atom tokens in the
/// lossless stream that no atom extends is exactly the pieces of the text
/// the run spells.
pub proof fn lemma_atom_runs(cs: Seq<char>, i: int, a: int, b: int)
    requires
        0 <= i,
        atom_run(lossless(cs, i), a, b),
    ensures
        run_texts(lossless(cs, i), a, b) == pieces_of(joined(run_texts(lossless(cs, i), a, b))),
    decreases cs.len() - i,
{
    let v = lossless(cs, i);
    if i < cs.len() {
        lemma_runs_stop(cs, i + 1, false);
        let (kind, j) = token_at(cs, i);
        let rest = lossless(cs, j);
        if kind is Atom {
            let w = cs.subrange(i, j);
            let here = pieces_of(w).map_values(|p: Seq<char>| (SyntaxKind::Atom, p));
            let n = here.len() as int;
            lemma_pieces_nonempty(w);
            lemma_after_atom(cs, i);
            assert(v == here + rest);
            if a < n {
                if a > 0 {
                    assert(v[a - 1] == here[a - 1]);
                }
                assert(a == 0);
                if b < n {
                    assert(v[b] == here[b]);
                }
                if b > n {
                    assert(v[n] == rest[0]);
                    assert(v[n].0 is Atom);
                }
                assert(b == n);
                assert(run_texts(v, a, b) =~= pieces_of(w));
                lemma_pieces_rejoin(w);
            } else {
                if a == n {
                    assert(v[a] == rest[0]);
                    assert(v[a].0 is Atom);
                }
                assert(a > n);
                assert forall|k: int| a - n <= k < b - n implies (#[trigger] rest[k]).0 is Atom by {
                    assert(v[k + n] == rest[k]);
                }
                assert(v[a - 1] == rest[a - n - 1]);
                if b < v.len() {
                    assert(v[b] == rest[b - n]);
                }
                assert(atom_run(rest, a - n, b - n));
                lemma_atom_runs(cs, j, a - n, b - n);
                assert(run_texts(v, a, b) =~= run_texts(rest, a - n, b - n));
            }
        } else {
            let here = seq![(kind, cs.subrange(i, j))];
            assert(v == here + rest);
            if a == 0 {
                assert(v[0] == here[0]);
            }
            assert(a >= 1);
            assert forall|k: int| a - 1 <= k < b - 1 implies (#[trigger] rest[k]).0 is Atom by {
                assert(v[k + 1] == rest[k]);
            }
            if a >= 2 {
                assert(v[a - 1] == rest[a - 2]);
            }
            if b < v.len() {
                assert(v[b] == rest[b - 1]);
            }
            assert(atom_run(rest, a - 1, b - 1));
            lemma_atom_runs(cs, j, a - 1, b - 1);
            assert(run_texts(v, a, b) =~= run_texts(rest, a - 1, b - 1));
        }
    }
}

proof fn lemma_joined_has(ps: Seq<Seq<char>>, m: int, x: int)
    requires
        0 <= m < ps.len(),
        0 <= x < ps[m].len(),
    ensures
        exists|y: int| 0 <= y < joined(ps).len() && joined(ps)[y] == ps[m][x],
    decreases ps.len(),
{
    if m == 0 {
        assert(joined(ps)[x] == ps[0][x]);
    } else {
        lemma_joined_has(ps.skip(1), m - 1, x);
        assert(ps.skip(1)[m - 1] == ps[m]);
        let y = choose|y: int| 0 <= y < joined(ps.skip(1)).len() && joined(ps.skip(1))[y] == ps[m][x];
        assert(joined(ps)[ps[0].len() + y] == joined(ps.skip(1))[y]);
    }
}

proof fn lemma_atom_stop_inner(cs: Seq<char>, j: int)
    requires
        0 <= j <= cs.len(),
    ensures
        forall|x: int| j <= x < atom_stop(cs, j) ==> !ends_atom(#[trigger] cs[x]),
    decreases cs.len() - j,
{
    if j < cs.len() && !ends_atom(cs[j]) {
        lemma_atom_stop_inner(cs, j + 1);
    }
}

/// No atom token of the lossless stream holds white space.
proof fn lemma_atoms_unspaced(cs: Seq<char>, i: int)
    requires
        0 <= i,
    ensures
        forall|k: int, x: int|
            0 <= k < lossless(cs, i).len() && lossless(cs, i)[k].0 is Atom && 0 <= x < lossless(cs, i)[k].1.len()
                ==> !is_space(#[trigger] lossless(cs, i)[k].1[x]),
    decreases cs.len() - i,
{
    if i < cs.len() {
        lemma_runs_stop(cs, i + 1, false);
        let (kind, j) = token_at(cs, i);
        let rest = lossless(cs, j);
        let v = lossless(cs, i);
        lemma_atoms_unspaced(cs, j);
        if kind is Atom {
            let w = cs.subrange(i, j);
            let ps = pieces_of(w);
            let here = ps.map_values(|p: Seq<char>| (SyntaxKind::Atom, p));
            assert(v == here + rest);
            lemma_atom_stop_inner(cs, i + 1);
            lemma_pieces_rejoin(w);
            assert forall|k: int, x: int|
                0 <= k < v.len() && v[k].0 is Atom && 0 <= x < v[k].1.len() implies !is_space(#[trigger] v[k].1[x]) by {
                if k < here.len() {
                    assert(v[k] == here[k]);
                    lemma_joined_has(ps, k, x);
                    let y = choose|y: int| 0 <= y < joined(ps).len() && joined(ps)[y] == ps[k][x];
                    assert(w[y] == cs[i + y]);
                    if y > 0 {
                        assert(!ends_atom(cs[i + y]));
                    }
                } else {
                    assert(v[k] == rest[k - here.len()]);
                }
            }
        } else {
            let here = seq![(kind, cs.subrange(i, j))];
            assert(v == here + rest);
            assert forall|k: int, x: int|
                0 <= k < v.len() && v[k].0 is Atom && 0 <= x < v[k].1.len() implies !is_space(#[trigger] v[k].1[x]) by {
                if k >= 1 {
                    assert(v[k] == rest[k - 1]);
                }
            }
        }
    }
}

proof fn lemma_text_of_concat(a: Seq<SyntaxToken>, b: Seq<SyntaxToken>)
    ensures
        text_of(a + b) == text_of(a) + text_of(b),
    decreases b.len(),
{
    if b.len() == 0 {
        assert(a + b =~= a);
        assert(text_of(a) + text_of(b) =~= text_of(a));
    } else {
        lemma_text_of_concat(a, b.drop_last());
        assert((a + b).drop_last() =~= a + b.drop_last());
        assert((a + b).last() == b.last());
        assert(text_of(a) + text_of(b) =~= text_of(a) + text_of(b.drop_last()) + b.last().text@);
    }
}

proof fn lemma_column_run(cs: Seq<char>, at: int, m: int)
    requires
        0 <= at,
        0 <= m,
        at + m <= cs.len(),
        forall|x: int| at <= x < at + m ==> #[trigger] cs[x] != '\n',
    ensures
        column_at(cs, at + m) == column_at(cs, at) + m,
        line_at(cs, at + m) == line_at(cs, at),
    decreases m,
{
    if m > 0 {
        lemma_column_run(cs, at, m - 1);
        assert(cs[at + m - 1] != '\n');
    }
}

/// An atom token and the token after it stand on one line, the second
/// starting where the atom's characters end: atoms hold no line feed.
pub proof fn lemma_atom_neighbours(source: Seq<char>, tokens: Seq<SyntaxToken>, k: int)
    requires
        text_of(tokens) == source,
        token_views(tokens) == lossless(source, 0),
        spans_placed(source, tokens),
        0 <= k,
        k + 1 < tokens.len(),
        tokens[k].kind is Atom,
    ensures
        tokens[k + 1].span.line == tokens[k].span.line,
        tokens[k + 1].span.column == tokens[k].span.column + tokens[k].text@.len(),
{
    let t = tokens[k].text@;
    let at = token_offset(tokens, k);
    assert(tokens.subrange(0, k + 1).drop_last() =~= tokens.subrange(0, k));
    assert(tokens.subrange(0, k + 1).last() == tokens[k]);
    let head = text_of(tokens.subrange(0, k));
    assert(text_of(tokens.subrange(0, k + 1)) == head + t);
    assert(token_offset(tokens, k + 1) == at + t.len());
    lemma_text_of_concat(tokens.subrange(0, k + 1), tokens.subrange(k + 1, tokens.len() as int));
    assert(tokens.subrange(0, k + 1) + tokens.subrange(k + 1, tokens.len() as int) =~= tokens);
    lemma_atoms_unspaced(source, 0);
    assert(token_views(tokens)[k] == (tokens[k].kind, t));
    assert forall|x: int| at <= x < at + t.len() implies #[trigger] source[x] != '\n' by {
        assert(source[x] == (head + t)[x]);
        assert((head + t)[x] == t[x - at]);
        assert(!is_space(lossless(source, 0)[k].1[x - at]));
    }
    lemma_column_run(source, at, t.len() as int);
}

/// Each token as its kind and its text.
pub open spec fn token_views(tokens: Seq<SyntaxToken>) -> Seq<(SyntaxKind, Seq<char>)> {
    tokens.map_values(|t: SyntaxToken| (t.kind, t.text@))
}

/// Pieces written one after another, grown by one more.
proof fn lemma_joined_push(ps: Seq<Seq<char>>, p: Seq<char>)
    ensures
        joined(ps.push(p)) == joined(ps) + p,
    decreases ps.len(),
{
    if ps.len() == 0 {
        assert(ps.push(p).skip(1) =~= Seq::<Seq<char>>::empty());
        assert(joined(Seq::<Seq<char>>::empty()) == Seq::<char>::empty());
        assert(p + Seq::<char>::empty() =~= p);
        assert(Seq::<char>::empty() + p =~= p);
    } else {
        assert(ps.push(p).skip(1) =~= ps.skip(1).push(p));
        lemma_joined_push(ps.skip(1), p);
        assert(ps[0] + (joined(ps.skip(1)) + p) =~= (ps[0] + joined(ps.skip(1))) + p);
    }
}

/// Where the characters `cs[i..]` run until a line ends.
fn comment_end(cs: &Vec<char>, i: usize) -> (j: usize)
    requires
        i < cs.len(),
    ensures
        i < j <= cs@.len(),
        j == comment_stop(cs@, i + 1),
{
    let mut j = i + 1;
    while j < cs.len() && cs[j] != '\n' && cs[j] != '\r'
        invariant
            i < j <= cs@.len(),
            comment_stop(cs@, j as int) == comment_stop(cs@, i + 1),
        decreases cs@.len() - j,
    {
        j += 1;
    }
    j
}

/// Where the text literal that opens at `i` ends: just past the first `"`
/// that no `\` escapes, or at the end of the file.
fn string_end(cs: &Vec<char>, i: usize) -> (j: usize)
    requires
        i < cs.len(),
    ensures
        i < j <= cs@.len(),
        j == literal_stop(cs@, i + 1, false),
{
    let mut j = i + 1;
    let mut escaped = false;
    while j < cs.len()
        invariant
            i < j <= cs@.len(),
            literal_stop(cs@, j as int, escaped) == literal_stop(cs@, i + 1, false),
        decreases cs@.len() - j,
    {
        let next = cs[j];
        j += 1;
        if !escaped && next == '"' {
            return j;
        }
        escaped = !escaped && next == '\\';
        if next != '\\' {
            escaped = false;
        }
    }
    j
}

/// Where the run of white space at `i` ends.
fn space_end(cs: &Vec<char>, i: usize) -> (j: usize)
    requires
        i < cs.len(),
    ensures
        i < j <= cs@.len(),
        j == space_stop(cs@, i + 1),
{
    let mut j = i + 1;
    while j < cs.len() && space(cs[j])
        invariant
            i < j <= cs@.len(),
            space_stop(cs@, j as int) == space_stop(cs@, i + 1),
        decreases cs@.len() - j,
    {
        j += 1;
    }
    j
}

/// Where the atom at `i` ends.
fn atom_end(cs: &Vec<char>, i: usize) -> (j: usize)
    requires
        i < cs.len(),
    ensures
        i < j <= cs@.len(),
        j == atom_stop(cs@, i + 1),
        forall|x: int| i < x < j ==> !ends_atom(#[trigger] cs@[x]),
{
    let mut j = i + 1;
    while j < cs.len() && !delimiter(cs[j])
        invariant
            i < j <= cs@.len(),
            atom_stop(cs@, j as int) == atom_stop(cs@, i + 1),
            forall|x: int| i < x < j ==> !ends_atom(#[trigger] cs@[x]),
        decreases cs@.len() - j,
    {
        j += 1;
    }
    j
}

/// The byte offset of character `i` of `cs`.
pub open spec fn byte_at(cs: Seq<char>, i: int) -> int {
    crate::lexer::byte_len(cs.subrange(0, i)) as int
}

/// The line character `i` of `cs` is on, from 1: only a line feed starts one.
pub open spec fn line_at(cs: Seq<char>, i: int) -> int
    decreases i,
{
    if i <= 0 {
        1
    } else {
        line_at(cs, i - 1) + if cs[i - 1] == '\n' {
            1int
        } else {
            0int
        }
    }
}

/// The column of character `i` of `cs`, from 1, counted in characters.
pub open spec fn column_at(cs: Seq<char>, i: int) -> int
    decreases i,
{
    if i <= 0 {
        1
    } else if cs[i - 1] == '\n' {
        1
    } else {
        column_at(cs, i - 1) + 1
    }
}

/// Where in `cs` the text of token `k` begins, in characters.
pub open spec fn token_offset(tokens: Seq<SyntaxToken>, k: int) -> int {
    text_of(tokens.subrange(0, k)).len() as int
}

/// Each token's span is where its text stands in `cs`: the byte offsets of
/// its first character and of the one after its last, and the line and
/// column it begins at.
pub open spec fn spans_placed(cs: Seq<char>, tokens: Seq<SyntaxToken>) -> bool {
    forall|k: int|
        0 <= k < tokens.len() ==> {
            let at = token_offset(tokens, k);
            &&& (#[trigger] tokens[k]).span.start == byte_at(cs, at)
            &&& tokens[k].span.end == byte_at(cs, at + tokens[k].text@.len())
            &&& tokens[k].span.line == line_at(cs, at)
            &&& tokens[k].span.column == column_at(cs, at)
        }
}

proof fn lemma_position_step(cs: Seq<char>, k: int)
    requires
        0 <= k < cs.len(),
    ensures
        byte_at(cs, k + 1) == byte_at(cs, k) + crate::lexer::utf8_len(cs[k]),
        line_at(cs, k + 1) == line_at(cs, k) + if cs[k] == '\n' { 1int } else { 0int },
        column_at(cs, k + 1) == if cs[k] == '\n' { 1 } else { column_at(cs, k) + 1 },
{
    assert(cs.subrange(0, k + 1).drop_last() =~= cs.subrange(0, k));
}

proof fn lemma_position_bounds(cs: Seq<char>, k: int)
    requires
        0 <= k <= cs.len(),
    ensures
        0 <= byte_at(cs, k) <= 4 * k,
        1 <= line_at(cs, k) <= k + 1,
        1 <= column_at(cs, k) <= k + 1,
    decreases k,
{
    if k > 0 {
        lemma_position_bounds(cs, k - 1);
        lemma_position_step(cs, k - 1);
    }
}

/// Across characters with no line feed, the line stays, the column and the
/// byte offset advance.
proof fn lemma_no_feed(cs: Seq<char>, a: int, m: int)
    requires
        0 <= a,
        0 <= m,
        a + m <= cs.len(),
        forall|x: int| a <= x < a + m ==> #[trigger] cs[x] != '\n',
    ensures
        line_at(cs, a + m) == line_at(cs, a),
        column_at(cs, a + m) == column_at(cs, a) + m,
        byte_at(cs, a + m) == byte_at(cs, a) + crate::lexer::byte_len(cs.subrange(a, a + m)),
    decreases m,
{
    if m == 0 {
        assert(cs.subrange(a, a) =~= Seq::<char>::empty());
    } else {
        lemma_no_feed(cs, a, m - 1);
        lemma_position_step(cs, a + m - 1);
        assert(cs.subrange(a, a + m).drop_last() =~= cs.subrange(a, a + m - 1));
    }
}

/// Pieces written out are the first `m` written out, then the rest.
proof fn lemma_joined_split(ps: Seq<Seq<char>>, m: int)
    requires
        0 <= m <= ps.len(),
    ensures
        joined(ps) == joined(ps.take(m)) + joined(ps.skip(m)),
    decreases m,
{
    if m == 0 {
        assert(ps.take(0) =~= Seq::<Seq<char>>::empty());
        assert(ps.skip(0) =~= ps);
        assert(joined(Seq::<Seq<char>>::empty()) == Seq::<char>::empty());
        assert(Seq::<char>::empty() + joined(ps) =~= joined(ps));
    } else {
        lemma_joined_split(ps, m - 1);
        assert(ps.take(m) =~= ps.take(m - 1).push(ps[m - 1]));
        lemma_joined_push(ps.take(m - 1), ps[m - 1]);
        assert(ps.skip(m - 1).skip(1) =~= ps.skip(m));
        assert(ps.skip(m - 1)[0] == ps[m - 1]);
        assert(joined(ps.take(m - 1)) + (ps[m - 1] + joined(ps.skip(m))) =~= (joined(ps.take(m - 1)) + ps[m
            - 1]) + joined(ps.skip(m)));
    }
}

/// Pushing a token keeps where each earlier one stands.
proof fn lemma_offsets_push(tokens: Seq<SyntaxToken>, t: SyntaxToken)
    ensures
        forall|k: int| 0 <= k <= tokens.len() ==> #[trigger] token_offset(tokens.push(t), k) == token_offset(tokens, k),
        token_offset(tokens.push(t), tokens.len() as int) == text_of(tokens).len(),
{
    assert forall|k: int| 0 <= k <= tokens.len() implies #[trigger] token_offset(tokens.push(t), k) == token_offset(tokens, k) by {
        assert(tokens.push(t).subrange(0, k) =~= tokens.subrange(0, k));
    }
    assert(tokens.subrange(0, tokens.len() as int) =~= tokens);
}

/// Reads `source` into tokens that lose nothing: whitespace and comments are
/// tokens too, and an atom is divided into the sigils it begins with and the
/// name they stand before, exactly as the reader divides it.
///
/// The tokens' texts, written one after another, are the source again.
#[verifier::spinoff_prover]
#[verifier::rlimit(100)]
pub fn lex_lossless(source: &str) -> (tokens: Vec<SyntaxToken>)
    requires
        source@.len() <= usize::MAX / 4,
    ensures
        text_of(tokens@) == source@,
        token_views(tokens@) == lossless(source@, 0),
        spans_placed(source@, tokens@),
{
    let cs = chars_of(source);
    let n = cs.len();
    let mut tokens: Vec<SyntaxToken> = Vec::new();
    let mut i: usize = 0;
    let mut byte: usize = 0;
    let mut line: usize = 1;
    let mut column: usize = 1;
    assert(cs@.subrange(0, 0) =~= Seq::<char>::empty());
    while i < n
        invariant
            n == cs@.len(),
            cs@ == source@,
            n <= usize::MAX / 4,
            i <= n,
            byte <= 4 * i,
            line <= i + 1,
            column <= i + 1,
            text_of(tokens@) == cs@.subrange(0, i as int),
            lossless(cs@, 0) == token_views(tokens@) + lossless(cs@, i as int),
            spans_placed(cs@, tokens@),
            byte == byte_at(cs@, i as int),
            line == line_at(cs@, i as int),
            column == column_at(cs@, i as int),
        decreases n - i,
    {
        let c = cs[i];
        proof {
            lemma_runs_stop(cs@, i + 1, false);
        }
        let (kind, j) = if c == '(' {
            (SyntaxKind::LeftParen, i + 1)
        } else if c == ')' {
            (SyntaxKind::RightParen, i + 1)
        } else if c == ';' {
            (SyntaxKind::Comment, comment_end(&cs, i))
        } else if c == '"' {
            (SyntaxKind::String, string_end(&cs, i))
        } else if space(c) {
            (SyntaxKind::Whitespace, space_end(&cs, i))
        } else {
            (SyntaxKind::Atom, atom_end(&cs, i))
        };
        let start = byte;
        let token_line = line;
        let token_column = column;
        let mut k = i;
        while k < j
            invariant
                i <= k <= j <= n,
                n == cs@.len(),
                n <= usize::MAX / 4,
                byte <= 4 * k,
                line <= k + 1,
                column <= k + 1,
                byte == byte_at(cs@, k as int),
                line == line_at(cs@, k as int),
                column == column_at(cs@, k as int),
            decreases j - k,
        {
            proof {
                lemma_position_step(cs@, k as int);
                lemma_position_bounds(cs@, k + 1);
            }
            byte += char_width(cs[k]);
            if cs[k] == '\n' {
                line += 1;
                column = 1;
            } else {
                column += 1;
            }
            k += 1;
        }
        let text = string_of(&cs, i, j);
        let ghost before = tokens@;
        if kind == SyntaxKind::Atom {
            let ps = pieces(text.as_str());
            proof {
                lemma_pieces_rejoin(text@);
            }
            let mut piece_start = start;
            let mut piece_column = token_column;
            let mut idx: usize = 0;
            proof {
                assert forall|x: int| i <= x < j implies #[trigger] cs@[x] != '\n' by {
                    if x > i {
                        assert(!ends_atom(cs@[x]));
                    }
                }
                assert(text@ =~= cs@.subrange(i as int, j as int));
                assert(joined(texts(ps@).take(0)) =~= Seq::<char>::empty());
            }
            assert(texts(ps@).take(0) =~= Seq::<Seq<char>>::empty());
            assert(text_of(tokens@) =~= text_of(before) + joined(texts(ps@).take(0)));
            while idx < ps.len()
                invariant
                    idx <= ps@.len(),
                    texts(ps@) == pieces_of(text@),
                    joined(pieces_of(text@)) == text@,
                    text_of(tokens@) == text_of(before) + joined(texts(ps@).take(idx as int)),
                    token_views(tokens@) == token_views(before) + texts(ps@).take(idx as int).map_values(
                        |p: Seq<char>| (SyntaxKind::Atom, p),
                    ),
                    text@ == cs@.subrange(i as int, j as int),
                    n == cs@.len(),
                    n <= usize::MAX / 4,
                    i < j <= n,
                    text_of(before) == cs@.subrange(0, i as int),
                    spans_placed(cs@, tokens@),
                    forall|x: int| i <= x < j ==> #[trigger] cs@[x] != '\n',
                    piece_start == byte_at(cs@, i + joined(texts(ps@).take(idx as int)).len()),
                    piece_column == column_at(cs@, i + joined(texts(ps@).take(idx as int)).len()),
                    token_line == line_at(cs@, i + joined(texts(ps@).take(idx as int)).len()),
                    token_line == line_at(cs@, i as int),
                    byte == byte_at(cs@, j as int),
                decreases ps@.len() - idx,
            {
                let ghost off = i + joined(texts(ps@).take(idx as int)).len();
                let ghost p = texts(ps@)[idx as int];
                proof {
                    lemma_joined_split(texts(ps@), idx as int);
                    lemma_joined_split(texts(ps@), idx + 1);
                    assert(texts(ps@).take(idx + 1) =~= texts(ps@).take(idx as int).push(p));
                    lemma_joined_push(texts(ps@).take(idx as int), p);
                    let pre = joined(texts(ps@).take(idx as int));
                    assert(text@ =~= pre + p + joined(texts(ps@).skip(idx + 1)));
                    assert(cs@.subrange(off, off + p.len()) =~= p) by {
                        assert forall|x: int| 0 <= x < p.len() implies cs@.subrange(off, off + p.len())[x] == p[x] by {
                            assert(text@[pre.len() + x] == p[x]);
                            assert(cs@[off + x] == text@[pre.len() + x]);
                        }
                    }
                    lemma_no_feed(cs@, off, p.len() as int);
                    lemma_position_bounds(cs@, off + p.len());
                    if idx + 1 == ps@.len() {
                        assert(texts(ps@).take(idx + 1) =~= texts(ps@));
                    }
                }
                let piece = ps[idx].clone();
                let bytes = byte_count(&chars_of(piece.as_str()));
                let last = idx + 1 == ps.len();
                let end = if last {
                    byte
                } else {
                    saturating_add(piece_start, bytes)
                };
                let width = chars_of(piece.as_str()).len();
                let ghost prior = tokens@;
                assert(piece@ == p);
                let token = SyntaxToken {
                    kind: SyntaxKind::Atom,
                    text: piece,
                    span: Span { start: piece_start, end, line: token_line, column: piece_column },
                };
                tokens.push(token);
                proof {
                    assert(tokens@.drop_last() =~= prior);
                    lemma_offsets_push(prior, token);
                    assert(text_of(prior) == text_of(before) + joined(texts(ps@).take(idx as int)));
                    assert(tokens@ == prior.push(token));
                    assert forall|k: int| 0 <= k < tokens@.len() implies {
                        let at = token_offset(tokens@, k);
                        &&& (#[trigger] tokens@[k]).span.start == byte_at(cs@, at)
                        &&& tokens@[k].span.end == byte_at(cs@, at + tokens@[k].text@.len())
                        &&& tokens@[k].span.line == line_at(cs@, at)
                        &&& tokens@[k].span.column == column_at(cs@, at)
                    } by {
                        if k < prior.len() {
                            assert(tokens@[k] == prior[k]);
                        }
                    }
                    assert(texts(ps@).take(idx + 1) =~= texts(ps@).take(idx as int).push(texts(ps@)[idx as int]));
                    lemma_joined_push(texts(ps@).take(idx as int), texts(ps@)[idx as int]);
                    assert(text_of(tokens@) =~= text_of(before) + joined(texts(ps@).take(idx + 1)));
                    assert(token_views(tokens@) =~= token_views(prior).push((SyntaxKind::Atom, texts(ps@)[idx as int])));
                    assert(texts(ps@).take(idx + 1).map_values(|p: Seq<char>| (SyntaxKind::Atom, p))
                        =~= texts(ps@).take(idx as int).map_values(|p: Seq<char>| (SyntaxKind::Atom, p)).push(
                        (SyntaxKind::Atom, texts(ps@)[idx as int]),
                    ));
                    assert(token_views(tokens@) =~= token_views(before) + texts(ps@).take(idx + 1).map_values(
                        |p: Seq<char>| (SyntaxKind::Atom, p),
                    ));
                }
                piece_start = saturating_add(piece_start, bytes);
                piece_column = saturating_add(piece_column, width);
                idx += 1;
            }
            assert(texts(ps@).take(ps@.len() as int) =~= texts(ps@));
            assert(token_views(tokens@) =~= token_views(before) + pieces_of(text@).map_values(
                |p: Seq<char>| (SyntaxKind::Atom, p),
            ));
        } else {
            let token = SyntaxToken {
                kind,
                text,
                span: Span { start, end: byte, line: token_line, column: token_column },
            };
            tokens.push(token);
            assert(tokens@.drop_last() =~= before);
            proof {
                assert(text@ =~= cs@.subrange(i as int, j as int));
                lemma_offsets_push(before, token);
                assert(tokens@ == before.push(token));
                assert forall|k: int| 0 <= k < tokens@.len() implies {
                    let at = token_offset(tokens@, k);
                    &&& (#[trigger] tokens@[k]).span.start == byte_at(cs@, at)
                    &&& tokens@[k].span.end == byte_at(cs@, at + tokens@[k].text@.len())
                    &&& tokens@[k].span.line == line_at(cs@, at)
                    &&& tokens@[k].span.column == column_at(cs@, at)
                } by {
                    if k < before.len() {
                        assert(tokens@[k] == before[k]);
                    }
                }
            }
            assert(token_views(tokens@) =~= token_views(before) + seq![(kind, text@)]);
        }
        assert(cs@.subrange(0, j as int) =~= cs@.subrange(0, i as int) + cs@.subrange(i as int, j as int));
        assert(token_at(cs@, i as int) == (kind, j as int));
        i = j;
    }
    assert(cs@.subrange(0, n as int) =~= cs@);
    tokens
}


/// The tokens an element holds, in order.
pub open spec fn element_tokens(e: SyntaxElement) -> Seq<SyntaxToken>
    decreases e, 0int,
{
    match e {
        SyntaxElement::Token(t) => seq![t],
        SyntaxElement::List(node) => children_tokens(node.children@),
    }
}

/// The tokens a run of elements holds, in order.
pub open spec fn children_tokens(es: Seq<SyntaxElement>) -> Seq<SyntaxToken>
    decreases es, 1int,
{
    if es.len() == 0 {
        Seq::empty()
    } else {
        children_tokens(es.drop_last()) + element_tokens(es.last())
    }
}

/// Whether `e` is a `(` (or `)`, as `kind` says) token.
pub open spec fn is_paren(e: SyntaxElement, kind: SyntaxKind) -> bool {
    e matches SyntaxElement::Token(t) && t.kind == kind
}

/// How many more `(` tokens than `)` tokens a list holds among its elements
/// after its own `(` and before the element at `to`.
pub open spec fn paren_balance(es: Seq<SyntaxElement>, to: int) -> int
    decreases to,
{
    if to <= 1 {
        0
    } else {
        paren_balance(es, to - 1) + if is_paren(es[to - 1], SyntaxKind::LeftParen) {
            1int
        } else if is_paren(es[to - 1], SyntaxKind::RightParen) {
            -1int
        } else {
            0int
        }
    }
}

/// Whether a list at `depth` ends with the `)` that closes it. Past
/// `MAX_NESTING_DEPTH` parens are plain tokens, so there the closing `)` is
/// the one that finds none of them open.
pub open spec fn closed(node: SyntaxNode, depth: int) -> bool {
    let es = node.children@;
    &&& es.len() >= 2
    &&& is_paren(es.last(), SyntaxKind::RightParen)
    &&& (depth < MAX_NESTING_DEPTH || paren_balance(es, es.len() - 1) == 0)
}

/// Whether element `j` of a list at `depth` holding `total` elements is where
/// the grouping puts it: a list only below the depth limit, and grouped
/// itself, and unclosed only at the end; a `(` token only past the limit; a
/// `)` token at the top, or past the limit inside the plain parens, or as
/// the list's last element, closing it.
pub open spec fn element_placed(es: Seq<SyntaxElement>, depth: int, total: int, j: int) -> bool
    decreases es[j], 2int,
{
    match es[j] {
        SyntaxElement::List(sub) => {
            &&& depth < MAX_NESTING_DEPTH
            &&& sub.children@.len() > 0
            &&& is_paren(sub.children@[0], SyntaxKind::LeftParen)
            &&& children_grouped(sub.children@, depth + 1, sub.children@.len() as int, 1)
            &&& (!closed(sub, depth + 1) ==> j == total - 1)
        },
        SyntaxElement::Token(t) => {
            &&& (t.kind == SyntaxKind::LeftParen ==> depth == MAX_NESTING_DEPTH)
            &&& (t.kind == SyntaxKind::RightParen ==> {
                ||| depth == 0
                ||| (depth == MAX_NESTING_DEPTH && paren_balance(es, j) > 0)
                ||| (j == total - 1 && (depth < MAX_NESTING_DEPTH || paren_balance(es, j) == 0))
            })
        },
    }
}

/// Whether the elements of a list at `depth` that holds `total` elements, from
/// `first` on, are grouped by their parentheses: every element placed as
/// `element_placed` says.
pub open spec fn children_grouped(es: Seq<SyntaxElement>, depth: int, total: int, first: int) -> bool
    decreases es, 3int,
{
    if es.len() == 0 {
        true
    } else {
        &&& children_grouped(es.drop_last(), depth, total, first)
        &&& (es.len() - 1 >= first ==> element_placed(es, depth, total, es.len() - 1))
    }
}

/// The tokens of the lists still open, outermost first.
spec fn stack_tokens(stack: Seq<SyntaxNode>) -> Seq<SyntaxToken>
    decreases stack.len(),
{
    if stack.len() == 0 {
        Seq::empty()
    } else {
        stack_tokens(stack.drop_last()) + children_tokens(stack.last().children@)
    }
}

proof fn lemma_grouped_push(es: Seq<SyntaxElement>, x: SyntaxElement, depth: int, total: int, first: int)
    ensures
        children_grouped(es.push(x), depth, total, first) == (children_grouped(es, depth, total, first)
            && (es.len() >= first ==> element_placed(es.push(x), depth, total, es.len() as int))),
{
    assert(es.push(x).drop_last() =~= es);
}

/// A grouping in which no element is the last of its list stays one when
/// the list is known to end after its last element.
proof fn lemma_grouped_total(es: Seq<SyntaxElement>, depth: int, t1: int, t2: int, first: int)
    requires
        children_grouped(es, depth, t1, first),
        t1 > es.len(),
        t2 >= es.len(),
    ensures
        children_grouped(es, depth, t2, first),
    decreases es.len(),
{
    if es.len() > 0 {
        lemma_grouped_total(es.drop_last(), depth, t1, t2, first);
        let j = es.len() - 1;
        if j >= first {
            assert(element_placed(es, depth, t1, j));
            assert(element_placed(es, depth, t2, j));
        }
    }
}

proof fn lemma_balance_prefix(es: Seq<SyntaxElement>, x: SyntaxElement, m: int)
    requires
        0 <= m <= es.len(),
    ensures
        paren_balance(es.push(x), m) == paren_balance(es, m),
    decreases m,
{
    if m > 1 {
        lemma_balance_prefix(es, x, m - 1);
    }
}

/// The stack of open lists after an element was added to the top list: only
/// the top changed.
proof fn lemma_open_lists_top(before: Seq<SyntaxNode>, after: Seq<SyntaxNode>, top_total: int)
    requires
        open_lists(before, before.last().children@.len() + 1int),
        after.len() == before.len(),
        after.drop_last() == before.drop_last(),
        after.last().children@.len() > 0,
        after.last().children@[0] == before.last().children@[0] || after.len() == 1,
        before.len() > 1 ==> before.last().children@.len() > 0,
        children_grouped(after.last().children@, after.len() - 1, top_total, first_of(after.len() - 1)),
    ensures
        open_lists(after, top_total),
{
    assert forall|m: int| 0 <= m < after.len() - 1 implies children_grouped(
        (#[trigger] after[m]).children@,
        m,
        after[m].children@.len() + 1int,
        first_of(m),
    ) by {
        assert(after[m] == after.drop_last()[m]);
        assert(before[m] == before.drop_last()[m]);
    }
    assert forall|m: int| 1 <= m < after.len() implies (#[trigger] after[m]).children@.len() > 0
        && is_paren(after[m].children@[0], SyntaxKind::LeftParen) by {
        if m < after.len() - 1 {
            assert(after[m] == after.drop_last()[m]);
            assert(before[m] == before.drop_last()[m]);
        } else {
            assert(before[m] == before.last());
        }
    }
}

/// The list at nesting `k` of the stack of open lists: its elements from
/// `first` on are grouped by their parentheses.
spec fn first_of(k: int) -> int {
    if k == 0 {
        0
    } else {
        1
    }
}

/// What holds of the lists still open while the tokens are grouped: each
/// opens with its `(`, none deeper than the limit; every list below the top
/// is grouped as one more element will follow, and the top as a list of
/// `top_total` elements.
spec fn open_lists(stack: Seq<SyntaxNode>, top_total: int) -> bool {
    &&& 1 <= stack.len() <= MAX_NESTING_DEPTH + 1
    &&& forall|k: int| 1 <= k < stack.len() ==> (#[trigger] stack[k]).children@.len() > 0
        && is_paren(stack[k].children@[0], SyntaxKind::LeftParen)
    &&& forall|k: int| 0 <= k < stack.len() - 1 ==> children_grouped(
        (#[trigger] stack[k]).children@,
        k,
        stack[k].children@.len() + 1int,
        first_of(k),
    )
    &&& children_grouped(stack.last().children@, stack.len() - 1, top_total, first_of(stack.len() - 1))
}

/// How many plain parens are open in the top list, past the depth limit.
spec fn plain_open(stack: Seq<SyntaxNode>) -> int {
    if stack.len() - 1 == MAX_NESTING_DEPTH {
        paren_balance(stack.last().children@, stack.last().children@.len() as int)
    } else {
        0
    }
}

fn span_of(e: &SyntaxElement) -> (r: Span)
    ensures
        r == match *e {
            SyntaxElement::Token(token) => token.span,
            SyntaxElement::List(node) => node.span,
        },
{
    match e {
        SyntaxElement::Token(token) => token.span,
        SyntaxElement::List(node) => node.span,
    }
}

/// Adds `e` to the innermost open list.
fn push_child(stack: &mut Vec<SyntaxNode>, e: SyntaxElement)
    requires
        old(stack)@.len() > 0,
    ensures
        final(stack)@.len() == old(stack)@.len(),
        stack_tokens(final(stack)@) == stack_tokens(old(stack)@) + element_tokens(e),
        final(stack)@.drop_last() == old(stack)@.drop_last(),
        final(stack)@.last().children@ == old(stack)@.last().children@.push(e),
{
    let ghost rest = old(stack)@.drop_last();
    let mut top = stack.pop().unwrap();
    let ghost children = top.children@;
    top.children.push(e);
    assert(top.children@.drop_last() =~= children);
    stack.push(top);
    assert(stack@.drop_last() =~= rest);
    assert(old(stack)@.drop_last() =~= rest);
}

/// Closes the innermost open list into the one around it.
fn close_list(stack: &mut Vec<SyntaxNode>, end: Option<Span>)
    requires
        old(stack)@.len() > 1,
    ensures
        final(stack)@.len() == old(stack)@.len() - 1,
        stack_tokens(final(stack)@) == stack_tokens(old(stack)@),
        final(stack)@.drop_last() == old(stack)@.drop_last().drop_last(),
        final(stack)@.last().children@.drop_last() == old(stack)@[old(stack)@.len() - 2].children@,
        final(stack)@.last().children@.len() == old(stack)@[old(stack)@.len() - 2].children@.len() + 1,
        final(stack)@.last().children@.last() matches SyntaxElement::List(n) && n.children
            == old(stack)@.last().children,
{
    let ghost whole = old(stack)@;
    let mut list = stack.pop().unwrap();
    assert(stack@ =~= whole.drop_last());
    match end {
        Some(span) => {
            list.span = list.span.join(span);
        },
        None => {},
    }
    let ghost inner = children_tokens(list.children@);
    assert(element_tokens(SyntaxElement::List(list)) == inner);
    push_child(stack, SyntaxElement::List(list));
    assert(stack_tokens(whole) == stack_tokens(whole.drop_last()) + inner);
}

/// Groups the tokens of `source` into a tree by their parentheses.
///
/// Nothing is lost: the tree holds every token, in order, and so every
/// character of the file. Past `MAX_NESTING_DEPTH`, parens are kept as plain
/// tokens of the list around them, for input the parser refuses anyway; an
/// unclosed list ends at its last element.
#[verifier::spinoff_prover]
#[verifier::rlimit(60)]
pub fn parse_lossless(source: &str) -> (syntax: LosslessSyntax)
    requires
        source@.len() <= usize::MAX / 4,
    ensures
        text_of(syntax.tokens@) == source@,
        token_views(syntax.tokens@) == lossless(source@, 0),
        children_tokens(syntax.root.children@) == syntax.tokens@,
        children_grouped(syntax.root.children@, 0, syntax.root.children@.len() as int, 0),
        spans_placed(source@, syntax.tokens@),
        syntax.root.span == (Span { start: 0, end: source.spec_bytes().len() as usize, line: 1, column: 1 }),
{
    let tokens = lex_lossless(source);
    let root_span = Span { start: 0, end: source.len(), line: 1, column: 1 };
    let mut stack: Vec<SyntaxNode> = Vec::new();
    stack.push(SyntaxNode { span: root_span, children: Vec::new() });
    assert(stack@.drop_last() =~= Seq::<SyntaxNode>::empty());
    assert(stack@.last().children@ =~= Seq::<SyntaxElement>::empty());
    assert(children_tokens(Seq::<SyntaxElement>::empty()) == Seq::<SyntaxToken>::empty());
    assert(stack_tokens(Seq::<SyntaxNode>::empty()) == Seq::<SyntaxToken>::empty());
    assert(stack_tokens(stack@) =~= Seq::<SyntaxToken>::empty());
    let mut suppressed: usize = 0;
    let mut k: usize = 0;
    assert(tokens@.subrange(0, 0) =~= Seq::<SyntaxToken>::empty());
    assert(open_lists(stack@, 1));
    while k < tokens.len()
        invariant
            k <= tokens@.len(),
            stack@.len() > 0,
            suppressed <= k,
            stack_tokens(stack@) == tokens@.subrange(0, k as int),
            open_lists(stack@, stack@.last().children@.len() + 1int),
            suppressed == plain_open(stack@),
        decreases tokens@.len() - k,
    {
        let token = tokens[k].clone();
        let span = token.span;
        let kind = token.kind;
        let ghost old_stack = stack@;
        let ghost top = stack@.last().children@;
        let ghost depth = stack@.len() - 1;
        let ghost element = SyntaxElement::Token(token);
        proof {
            lemma_grouped_total(top, depth, top.len() + 1int, top.len() + 2int, first_of(depth));
            lemma_grouped_push(top, element, depth, top.len() + 2int, first_of(depth));
            lemma_grouped_push(top, element, depth, top.len() + 1int, first_of(depth));
            if depth > 0 {
                assert(old_stack[depth] == old_stack.last());
            }
        }
        assert(tokens@.subrange(0, k + 1) =~= tokens@.subrange(0, k as int) + seq![token]);
        if kind == SyntaxKind::LeftParen && stack.len() > MAX_NESTING_DEPTH {
            suppressed += 1;
            push_child(&mut stack, SyntaxElement::Token(token));
            proof {
                assert(stack@.last().children@ == top.push(element));
                assert(paren_balance(top.push(element), top.len() + 1int) == paren_balance(top, top.len() as int) + 1) by {
                    assert forall|m: int| 0 <= m <= top.len() implies paren_balance(top.push(element), m) == paren_balance(top, m) by {
                        lemma_balance_prefix(top, element, m);
                    }
                }
                lemma_open_lists_top(old_stack, stack@, stack@.last().children@.len() + 1int);
            }
        } else if kind == SyntaxKind::LeftParen {
            let mut children: Vec<SyntaxElement> = Vec::new();
            children.push(SyntaxElement::Token(token));
            let node = SyntaxNode { span, children };
            let ghost before = stack@;
            stack.push(node);
            proof {
                assert(stack@.drop_last() =~= before);
                assert(node.children@.drop_last() =~= Seq::<SyntaxElement>::empty());
                assert(children_tokens(Seq::<SyntaxElement>::empty()) == Seq::<SyntaxToken>::empty());
                assert(node.children@.last() == SyntaxElement::Token(token));
                assert(element_tokens(SyntaxElement::Token(token)) == seq![token]);
                assert(children_tokens(node.children@) =~= seq![token]);
                assert(children_grouped(Seq::<SyntaxElement>::empty(), depth + 1, 2, 1));
                assert(children_grouped(node.children@, depth + 1, 2, 1));
                assert forall|m: int| 0 <= m < stack@.len() - 1 implies children_grouped(
                    (#[trigger] stack@[m]).children@,
                    m,
                    stack@[m].children@.len() + 1int,
                    first_of(m),
                ) by {
                    assert(stack@[m] == before[m]);
                }
                assert forall|m: int| 1 <= m < stack@.len() implies (#[trigger] stack@[m]).children@.len() > 0
                    && is_paren(stack@[m].children@[0], SyntaxKind::LeftParen) by {
                    if m < stack@.len() - 1 {
                        assert(stack@[m] == before[m]);
                    }
                }
            }
        } else if kind == SyntaxKind::RightParen && suppressed > 0 {
            suppressed -= 1;
            push_child(&mut stack, SyntaxElement::Token(token));
            proof {
                assert(stack@.last().children@ == top.push(element));
                assert(paren_balance(top.push(element), top.len() as int) == paren_balance(top, top.len() as int)) by {
                    lemma_balance_prefix(top, element, top.len() as int);
                }
                assert(paren_balance(top.push(element), top.len() + 1int) == paren_balance(top, top.len() as int) - 1);
                lemma_open_lists_top(old_stack, stack@, stack@.last().children@.len() + 1int);
            }
        } else if kind == SyntaxKind::RightParen && stack.len() > 1 {
            push_child(&mut stack, SyntaxElement::Token(token));
            let ghost pushed = stack@;
            proof {
                assert(paren_balance(top.push(element), top.len() as int) == paren_balance(top, top.len() as int)) by {
                    lemma_balance_prefix(top, element, top.len() as int);
                }
                assert(children_grouped(top.push(element), depth, top.len() + 1int, 1));
            }
            close_list(&mut stack, Some(span));
            proof {
                let parent = old_stack[depth - 1].children@;
                let closed_list = stack@.last().children@.last();
                assert(old_stack[depth - 1] == old_stack.drop_last()[depth - 1]);
                assert(pushed[depth - 1] == pushed.drop_last()[depth - 1]);
                assert(old_stack[depth - 1] == pushed[depth - 1]);
                assert(stack@.last().children@ =~= parent.push(closed_list));
                lemma_grouped_total(parent, depth - 1, parent.len() + 1int, parent.len() + 2int, first_of(depth - 1));
                lemma_grouped_push(parent, closed_list, depth - 1, parent.len() + 2int, first_of(depth - 1));
                assert(element_placed(parent.push(closed_list), depth - 1, parent.len() + 2int, parent.len() as int));
                assert forall|m: int| 0 <= m < stack@.len() - 1 implies children_grouped(
                    (#[trigger] stack@[m]).children@,
                    m,
                    stack@[m].children@.len() + 1int,
                    first_of(m),
                ) by {
                    assert(stack@[m] == stack@.drop_last()[m]);
                    assert(pushed[m] == pushed.drop_last().drop_last()[m]);
                    assert(pushed[m] == pushed.drop_last()[m]);
                    assert(old_stack[m] == old_stack.drop_last()[m]);
                }
                assert forall|m: int| 1 <= m < stack@.len() implies (#[trigger] stack@[m]).children@.len() > 0
                    && is_paren(stack@[m].children@[0], SyntaxKind::LeftParen) by {
                    if m < stack@.len() - 1 {
                        assert(stack@[m] == stack@.drop_last()[m]);
                        assert(pushed[m] == pushed.drop_last().drop_last()[m]);
                        assert(pushed[m] == pushed.drop_last()[m]);
                        assert(old_stack[m] == old_stack.drop_last()[m]);
                    } else {
                        assert(stack@[m].children@[0] == parent[0]);
                    }
                }
            }
        } else {
            push_child(&mut stack, SyntaxElement::Token(token));
            proof {
                assert(stack@.last().children@ == top.push(element));
                assert(paren_balance(top.push(element), top.len() as int) == paren_balance(top, top.len() as int)) by {
                    lemma_balance_prefix(top, element, top.len() as int);
                }
                lemma_open_lists_top(old_stack, stack@, stack@.last().children@.len() + 1int);
            }
        }
        k += 1;
    }
    proof {
        let top = stack@.last().children@;
        lemma_grouped_total(top, stack@.len() - 1, top.len() + 1int, top.len() as int, first_of(stack@.len() - 1));
    }
    while stack.len() > 1
        invariant
            stack@.len() > 0,
            stack_tokens(stack@) == tokens@.subrange(0, tokens@.len() as int),
            open_lists(stack@, stack@.last().children@.len() as int),
        decreases stack@.len(),
    {
        let ghost old_stack = stack@;
        let ghost depth = stack@.len() - 1;
        let last = stack.len() - 1;
        let n = stack[last].children.len();
        let end = if n > 0 {
            Some(span_of(&stack[last].children[n - 1]))
        } else {
            None
        };
        close_list(&mut stack, end);
        proof {
            assert(old_stack[depth] == old_stack.last());
            let parent = old_stack[depth - 1].children@;
            let closed_list = stack@.last().children@.last();
            assert(stack@.last().children@ =~= parent.push(closed_list));
            lemma_grouped_push(parent, closed_list, depth - 1, parent.len() + 1int, first_of(depth - 1));
            assert(element_placed(parent.push(closed_list), depth - 1, parent.len() + 1int, parent.len() as int));
            assert forall|m: int| 0 <= m < stack@.len() - 1 implies children_grouped(
                (#[trigger] stack@[m]).children@,
                m,
                stack@[m].children@.len() + 1int,
                first_of(m),
            ) by {
                assert(stack@[m] == stack@.drop_last()[m]);
                assert(old_stack[m] == old_stack.drop_last().drop_last()[m]);
            }
            assert forall|m: int| 1 <= m < stack@.len() implies (#[trigger] stack@[m]).children@.len() > 0
                && is_paren(stack@[m].children@[0], SyntaxKind::LeftParen) by {
                if m < stack@.len() - 1 {
                    assert(stack@[m] == stack@.drop_last()[m]);
                    assert(old_stack[m] == old_stack.drop_last().drop_last()[m]);
                } else {
                    assert(stack@[m].children@[0] == parent[0]);
                }
            }
        }
    }
    let root = stack.pop().unwrap();
    proof {
        assert(stack@ =~= Seq::<SyntaxNode>::empty());
        assert(tokens@.subrange(0, tokens@.len() as int) =~= tokens@);
    }
    let root = SyntaxNode { span: root_span, children: root.children };
    LosslessSyntax { tokens, root }
}


// ------------------------------------------------------------------ layout

/// One element of a form, with the trivia the layout has to place.
///
/// The lossless tree carries whitespace and comments as tokens; this carries
/// only the two facts a layout needs from them - whether the author left a
/// blank line above an element, and whether a comment sat at the end of an
/// element's line rather than above the next one.
#[derive(Debug)]
enum Item {
    Atom(String),
    Comment(String),
    List(Vec<Entry>),
}

#[derive(Debug)]
struct Entry {
    item: Item,
    blank_before: bool,
    trailing: Vec<String>,
    /// A sigil that may not be written short, because the list it heads holds
    /// nothing else: `(&T)` is the borrow `(& T)` and always was, so a lone
    /// borrowed type inside a parameter list keeps its parentheses.
    spelled_out: bool,
    /// An arm of a `match`: a pattern, and then a body. Nothing about the arm
    /// itself says so, so the form above it is what marks it.
    arm: bool,
}

/// How deeply an item nests lists.
spec fn item_height(item: Item) -> nat
    decreases item, 0int,
{
    match item {
        Item::List(es) => 1 + entries_height(es@),
        _ => 0,
    }
}

/// How deeply the deepest of `es` nests lists.
spec fn entries_height(es: Seq<Entry>) -> nat
    decreases es, 1int,
{
    if es.len() == 0 {
        0
    } else {
        let a = entries_height(es.drop_last());
        let b = item_height(es.last().item);
        if a >= b {
            a
        } else {
            b
        }
    }
}

proof fn lemma_entry_height(es: Seq<Entry>, k: int)
    requires
        0 <= k < es.len(),
    ensures
        item_height(es[k].item) <= entries_height(es),
    decreases es.len(),
{
    if k < es.len() - 1 {
        lemma_entry_height(es.drop_last(), k);
    }
}

/// How deeply an element nests lists.
spec fn element_height(e: SyntaxElement) -> nat
    decreases e, 0int,
{
    match e {
        SyntaxElement::List(node) => 1 + elements_height(node.children@),
        _ => 0,
    }
}

/// How deeply the deepest of `es` nests lists.
spec fn elements_height(es: Seq<SyntaxElement>) -> nat
    decreases es, 1int,
{
    if es.len() == 0 {
        0
    } else {
        let a = elements_height(es.drop_last());
        let b = element_height(es.last());
        if a >= b {
            a
        } else {
            b
        }
    }
}

proof fn lemma_element_height(es: Seq<SyntaxElement>, k: int)
    requires
        0 <= k < es.len(),
    ensures
        element_height(es[k]) <= elements_height(es),
    decreases es.len(),
{
    if k < es.len() - 1 {
        lemma_element_height(es.drop_last(), k);
    }
}

fn is_comment(item: &Item) -> (b: bool)
    ensures
        b == item is Comment,
{
    match item {
        Item::Comment(_) => true,
        _ => false,
    }
}

fn is_atom(item: &Item) -> (b: bool)
    ensures
        b == item is Atom,
{
    match item {
        Item::Atom(_) => true,
        _ => false,
    }
}

/// `item` is the atom `text`.
spec fn atom_named(item: Item, text: Seq<char>) -> bool {
    item matches Item::Atom(t) && t@ == text
}

fn atom_is(item: &Item, text: &str) -> (r: bool)
    ensures
        r == atom_named(*item, text@),
{
    match item {
        Item::Atom(t) => same_text(t.as_str(), text),
        _ => false,
    }
}

/// An atom that binds to what follows it, so the two are never split across
/// two lines: `->` before a return type, `:` before a declared one, a field
/// keyword before the value it names, and `$` before the form it nests.
spec fn glue(item: Item) -> bool {
    item matches Item::Atom(t) && (t@ == "->"@ || t@ == "$"@ || (t@.len() > 0 && t@[0] == ':')
        || crate::reader::exact_row(t@) < crate::reader::ROWS)
}

fn is_glue(item: &Item) -> (r: bool)
    ensures
        r == glue(*item),
{
    match item {
        Item::Atom(text) => same_text(text.as_str(), "->") || same_text(text.as_str(), "$")
            || begins_with(text.as_str(), ':') || sigil_of(text.as_str()).is_some(),
        _ => false,
    }
}

/// The list an abbreviation stands for: how its sigil is written, when the
/// list is that sigil and the one form it applies to.
///
/// `(& x)`, `& x` and `&x` all reach the layout as this shape, and all three
/// leave it written `&x`.
/// The entries are a head sigil and the one form it applies to, written the
/// ordinary way.
spec fn abbreviates(entries: Seq<Entry>) -> bool {
    &&& entries.len() == 2
    &&& entries[0].item matches Item::Atom(t) && (t@ == crate::reader::row_text(0) || t@
        == crate::reader::row_text(1))
    &&& !entries[0].spelled_out
    &&& entries[0].trailing@.len() == 0
    &&& entries[1].trailing@.len() == 0
    &&& !(entries[1].item is Comment)
}

/// How a sigil `t` is written in front of its operand.
spec fn sigil_prefix(t: Seq<char>) -> Seq<char> {
    if t.len() > 1 {
        t.push(' ')
    } else {
        t
    }
}

fn abbreviated(entries: &Vec<Entry>) -> (r: Option<String>)
    ensures
        r is Some <==> abbreviates(entries@),
        r matches Some(p) ==> entries@[0].item matches Item::Atom(t) && p@ == sigil_prefix(t@),
{
    if entries.len() != 2 {
        return None;
    }
    let head = &entries[0];
    let operand = &entries[1];
    match &head.item {
        Item::Atom(text) => match sigil_for_head(text.as_str()) {
            Some(sigil) => {
                let ordinary = !head.spelled_out && head.trailing.len() == 0
                    && operand.trailing.len() == 0 && !is_comment(&operand.item);
                if ordinary {
                    Some(sigil.prefix())
                } else {
                    None
                }
            },
            None => None,
        },
        _ => None,
    }
}

fn plain_entry(item: Item, blank_before: bool) -> (r: Entry)
    ensures
        r.item == item,
        r.blank_before == blank_before,
        r.trailing@.len() == 0,
        !r.spelled_out,
        !r.arm,
{
    Entry { item, blank_before, trailing: Vec::new(), spelled_out: false, arm: false }
}

/// Folds each sigil into the form it stands before, so that the layout has one
/// shape to lay out however the source spelled it.
///
/// A sigil that opens a list with nothing after its operand is left alone:
/// there it is the head of the form itself, and `(& x)` is the borrow it has
/// always been. This is the reader's `head_opens_the_list` read off the
/// entries rather than off the tokens, and the two have to agree or the
/// formatter writes a program back as a different one.
/// How many of `es` are not comments.
spec fn written_count(es: Seq<Entry>) -> int
    decreases es.len(),
{
    if es.len() == 0 {
        0
    } else {
        written_count(es.drop_last()) + if es.last().item is Comment {
            0int
        } else {
            1int
        }
    }
}

/// `item` is an atom that is a borrow sigil.
spec fn around_atom(item: Item) -> bool {
    item matches Item::Atom(t) && crate::reader::exact_row(t@) < crate::reader::ROWS && crate::reader::row_is_around(
        crate::reader::exact_row(t@),
    )
}

/// `e` is the list `(sigil operand)` that the sigil entry `sigil`, whose
/// text is the row `row`, makes of the entry `operand` after it.
spec fn folded_pair(sigil: Entry, row: int, operand: Entry, e: Entry) -> bool {
    &&& e.blank_before == sigil.blank_before
    &&& e.trailing == operand.trailing
    &&& !e.spelled_out
    &&& !e.arm
    &&& e.item matches Item::List(pair)
    &&& pair@.len() == 2
    &&& pair@[0].item matches Item::Atom(h) && h@ == crate::reader::row_text(row)
    &&& !pair@[0].blank_before
    &&& pair@[0].trailing@.len() == 0
    &&& !pair@[0].spelled_out
    &&& !pair@[0].arm
    &&& pair@[1].item == operand.item
    &&& !pair@[1].blank_before
    &&& pair@[1].trailing@.len() == 0
    &&& pair@[1].spelled_out == operand.spelled_out
    &&& pair@[1].arm == operand.arm
}

/// Folding `entry`, at `index` of its list, into `prev` (what follows it,
/// back to front) gives `next`: a borrow sigil takes the entry after it as
/// its operand, unless it heads the list, is followed by a comment or `$`,
/// or has a comment after it.
spec fn fold_step(prev: Seq<Entry>, entry: Entry, index: int, in_list: bool, next: Seq<Entry>) -> bool {
    let opens = in_list && index == 0 && written_count(prev) <= 1;
    let sigil = !opens && entry.trailing@.len() == 0 && around_atom(entry.item);
    let takes = prev.len() > 0 && !(prev.last().item is Comment) && !atom_named(prev.last().item, "$"@);
    if sigil && takes {
        &&& next.len() == prev.len()
        &&& next.drop_last() == prev.drop_last()
        &&& folded_pair(entry, crate::reader::exact_row(entry.item->Atom_0@), prev.last(), next.last())
    } else {
        next == prev.push(entry)
    }
}

/// `states` fold the entries of `es` from the last back: `states[i]` is what
/// the last `i` of them became, back to front.
spec fn folding(es: Seq<Entry>, in_list: bool, states: Seq<Seq<Entry>>) -> bool {
    &&& states.len() == es.len() + 1
    &&& states[0].len() == 0
    &&& forall|i: int|
        0 <= i < es.len() ==> #[trigger] fold_step(
            states[i],
            es[es.len() - 1 - i],
            es.len() - 1 - i,
            in_list,
            states[i + 1],
        )
}

fn glue_sigils(entries: Vec<Entry>, in_list: bool) -> (out: Vec<Entry>)
    ensures
        exists|states: Seq<Seq<Entry>>|
            #[trigger] folding(entries@, in_list, states) && out@ == states.last().reverse(),
{
    let ghost original = entries@;
    let ghost n = entries@.len() as int;
    let mut rest = entries;
    let mut folded: Vec<Entry> = Vec::new();
    let ghost mut states: Seq<Seq<Entry>> = seq![Seq::empty()];
    while rest.len() > 0
        invariant
            rest@ == original.subrange(0, rest@.len() as int),
            n == original.len(),
            rest@.len() <= n,
            states.len() == n - rest@.len() + 1,
            states[0].len() == 0,
            states.last() == folded@,
            forall|i: int|
                0 <= i < n - rest@.len() ==> #[trigger] fold_step(states[i], original[n - 1 - i], n - 1 - i, in_list, states[i + 1]),
        decreases rest@.len(),
    {
        let ghost prev = folded@;
        let ghost rb = rest@;
        let entry = rest.pop().unwrap();
        let index = rest.len();
        assert(rb == original.subrange(0, rb.len() as int));
        assert(rest@ == rb.drop_last());
        assert(rb.len() == index + 1);
        assert(rb[index as int] == original[index as int]);
        assert(entry == original[index as int]);
        assert(rest@ =~= original.subrange(0, index as int));
        let mut written: usize = 0;
        let mut k: usize = 0;
        while k < folded.len()
            invariant
                k <= folded@.len(),
                written <= k,
                written == written_count(folded@.subrange(0, k as int)),
            decreases folded@.len() - k,
        {
            assert(folded@.subrange(0, k + 1).drop_last() =~= folded@.subrange(0, k as int));
            if !is_comment(&folded[k].item) {
                written += 1;
            }
            k += 1;
        }
        assert(folded@.subrange(0, k as int) =~= folded@);
        let opens = in_list && index == 0 && written <= 1;
        let head: Option<&'static str> = if opens || entry.trailing.len() > 0 {
            None
        } else {
            match &entry.item {
                Item::Atom(text) => match sigil_of(text.as_str()) {
                    Some(sigil) => match sigil.expansion {
                        Expands::Around(name) => Some(name),
                        _ => None,
                    },
                    None => None,
                },
                _ => None,
            }
        };
        let ghost is_sigil = !opens && entry.trailing@.len() == 0 && around_atom(entry.item);
        assert(head is Some <==> is_sigil);
        assert(head matches Some(name) ==> name@ == crate::reader::row_text(crate::reader::exact_row(entry.item->Atom_0@)));
        let head = match head {
            Some(name) => name,
            None => {
                folded.push(entry);
                proof {
                    let next_states = states.push(folded@);
                    assert forall|i: int|
                        0 <= i < n - rest@.len() implies #[trigger] fold_step(next_states[i], original[n - 1 - i], n - 1 - i, in_list, next_states[i + 1]) by {
                        if i < n - rest@.len() - 1 {
                            assert(next_states[i] == states[i]);
                            assert(next_states[i + 1] == states[i + 1]);
                        }
                    }
                    states = next_states;
                }
                continue;
            },
        };
        // A sigil whose operand is `$` applies to everything after it rather
        // than to the `$`, so the two stay the separate tokens they are.
        let takes = folded.len() > 0 && !is_comment(&folded[folded.len() - 1].item) && !atom_is(
            &folded[folded.len() - 1].item,
            "$",
        );
        if !takes {
            folded.push(entry);
            proof {
                let next_states = states.push(folded@);
                assert forall|i: int|
                    0 <= i < n - rest@.len() implies #[trigger] fold_step(next_states[i], original[n - 1 - i], n - 1 - i, in_list, next_states[i + 1]) by {
                    if i < n - rest@.len() - 1 {
                        assert(next_states[i] == states[i]);
                        assert(next_states[i + 1] == states[i + 1]);
                    }
                }
                states = next_states;
            }
            continue;
        }
        let operand = folded.pop().unwrap();
        assert(operand == prev.last());
        let Entry { item, blank_before: _, trailing, spelled_out, arm } = operand;
        let mut pair: Vec<Entry> = Vec::new();
        pair.push(plain_entry(Item::Atom(head.to_owned()), false));
        pair.push(Entry { item, blank_before: false, trailing: Vec::new(), spelled_out, arm });
        folded.push(
            Entry {
                item: Item::List(pair),
                blank_before: entry.blank_before,
                trailing,
                spelled_out: false,
                arm: false,
            },
        );
        proof {
            assert(folded@.drop_last() =~= prev.drop_last());
            let next_states = states.push(folded@);
            assert forall|i: int|
                0 <= i < n - rest@.len() implies #[trigger] fold_step(next_states[i], original[n - 1 - i], n - 1 - i, in_list, next_states[i + 1]) by {
                if i < n - rest@.len() - 1 {
                    assert(next_states[i] == states[i]);
                    assert(next_states[i + 1] == states[i + 1]);
                }
            }
            states = next_states;
        }
    }
    let out = crate::mir::reversed(folded);
    assert(folding(original, in_list, states));
    out
}

/// Keeps the parentheses on a borrow that is all its list holds.
///
/// `((& T))` is a parameter list of one borrowed type and `(&T)` is a borrow of
/// `T`: the reader reads a head sigil whose operand ends the list as the list
/// itself, so this is the one place the short spelling says something else.
/// Entry `i` is the one entry of `es` that is not a comment.
spec fn lone_at(es: Seq<Entry>, i: int) -> bool {
    &&& 0 <= i < es.len()
    &&& !(es[i].item is Comment)
    &&& forall|j: int| 0 <= j < es.len() && j != i ==> (#[trigger] es[j]).item is Comment
}

/// Entry `i` of `es` is alone in its list and an abbreviation.
spec fn lone_borrow(es: Seq<Entry>, i: int) -> bool {
    &&& lone_at(es, i)
    &&& es[i].item matches Item::List(inner) && abbreviates(inner@)
}

/// `new` is `old`, a list whose head is now marked as spelled out.
spec fn spelled(old: Entry, new: Entry) -> bool {
    &&& new.blank_before == old.blank_before
    &&& new.trailing == old.trailing
    &&& new.spelled_out == old.spelled_out
    &&& new.arm == old.arm
    &&& old.item matches Item::List(a)
    &&& new.item matches Item::List(b)
    &&& b@.len() == a@.len()
    &&& b@[0].item == a@[0].item
    &&& b@[0].blank_before == a@[0].blank_before
    &&& b@[0].trailing == a@[0].trailing
    &&& b@[0].arm == a@[0].arm
    &&& b@[0].spelled_out
    &&& forall|k: int| 1 <= k < a@.len() ==> #[trigger] b@[k] == a@[k]
}

fn spell_out_a_lone_borrow(entries: Vec<Entry>) -> (out: Vec<Entry>)
    ensures
        forall|i: int|
            #[trigger] lone_borrow(entries@, i) ==> {
                &&& out@.len() == entries@.len()
                &&& spelled(entries@[i], out@[i])
                &&& forall|j: int| 0 <= j < entries@.len() && j != i ==> #[trigger] out@[j] == entries@[j]
            },
        (forall|i: int| !#[trigger] lone_borrow(entries@, i)) ==> out@ == entries@,
{
    let mut only: Option<usize> = None;
    let mut count: usize = 0;
    let mut k: usize = 0;
    while k < entries.len()
        invariant
            k <= entries@.len(),
            count <= k,
            only matches Some(i) ==> i < k,
            count == 0 ==> forall|j: int| 0 <= j < k ==> (#[trigger] entries@[j]).item is Comment,
            count == 1 ==> (only matches Some(i) && !(entries@[i as int].item is Comment) && forall|j: int|
                0 <= j < k && j != i ==> (#[trigger] entries@[j]).item is Comment),
            count >= 2 ==> exists|a: int, b: int|
                0 <= a < b < k && (#[trigger] entries@[a]).item !is Comment && (#[trigger] entries@[b]).item !is Comment,
        decreases entries@.len() - k,
    {
        if !is_comment(&entries[k].item) {
            proof {
                if count == 1 {
                    let i = only->0 as int;
                    assert(entries@[i].item !is Comment && entries@[k as int].item !is Comment);
                }
            }
            count += 1;
            only = Some(k);
        }
        k += 1;
    }
    proof {
        if count >= 2 {
            let (a, b) = choose|a: int, b: int|
                0 <= a < b < k && (#[trigger] entries@[a]).item !is Comment && (#[trigger] entries@[b]).item !is Comment;
            assert forall|i: int| !#[trigger] lone_borrow(entries@, i) by {
                if lone_at(entries@, i) {
                    if i != a {
                        assert(entries@[a].item is Comment);
                    } else {
                        assert(entries@[b].item is Comment);
                    }
                }
            }
        }
        if count == 0 {
            assert forall|i: int| !#[trigger] lone_borrow(entries@, i) by {
                if 0 <= i < entries@.len() {
                    assert(entries@[i].item is Comment);
                }
            }
        }
    }
    if count != 1 {
        return entries;
    }
    let index = match only {
        Some(i) => i,
        None => {
            return entries;
        },
    };
    let lone = match &entries[index].item {
        Item::List(inner) => abbreviated(inner).is_some(),
        _ => false,
    };
    proof {
        assert(lone_at(entries@, index as int));
        assert forall|i: int| #[trigger] lone_borrow(entries@, i) implies i == index by {
            if i != index {
                assert(entries@[i].item is Comment);
            }
        }
    }
    if !lone {
        return entries;
    }
    assert(lone_borrow(entries@, index as int));
    let ghost original = entries@;
    let mut entries = entries;
    let entry = entries.remove(index);
    let Entry { item, blank_before, trailing, spelled_out, arm } = entry;
    let item = match item {
        Item::List(inner) => {
            let mut inner = inner;
            if inner.len() > 0 {
                let head = inner.remove(0);
                let Entry { item: head_item, blank_before: b, trailing: t, spelled_out: _, arm: a } = head;
                inner.insert(0, Entry { item: head_item, blank_before: b, trailing: t, spelled_out: true, arm: a });
            }
            Item::List(inner)
        },
        other => other,
    };
    entries.insert(index, Entry { item, blank_before, trailing, spelled_out, arm });
    proof {
        assert forall|j: int| 0 <= j < original.len() && j != index implies #[trigger] entries@[j] == original[j] by {
            if j < index {
            } else {
                assert(entries@[j] == original[j]);
            }
        }
    }
    entries
}

/// How many of an arm's entries are its head: the pattern, and the `when` and
/// the guard when it has one. What follows is the body.
fn arm_head(entries: &Vec<Entry>) -> (n: usize)
    ensures
        n == if entries@.len() > 3 && atom_named(entries@[1].item, "when"@) {
            3usize
        } else {
            1usize
        },
{
    if entries.len() > 3 && atom_is(&entries[1].item, "when") {
        3
    } else {
        1
    }
}

/// `new` is `old` with its arm mark set to `arm`.
spec fn remarked(old: Entry, new: Entry, arm: bool) -> bool {
    &&& new.item == old.item
    &&& new.blank_before == old.blank_before
    &&& new.trailing == old.trailing
    &&& new.spelled_out == old.spelled_out
    &&& new.arm == arm
}

/// Marks the arms of every `match` in a form's own children.
fn mark_arms(entries: Vec<Entry>) -> (out: Vec<Entry>)
    ensures
        out@.len() == entries@.len(),
        forall|i: int|
            0 <= i < entries@.len() ==> remarked(
                entries@[i],
                #[trigger] out@[i],
                atom_named(entries@[0].item, "match"@) && i > 1 && entries@[i].item is List,
            ),
{
    let ghost original = entries@;
    let is_match = entries.len() > 0 && atom_is(&entries[0].item, "match");
    let mut rest = crate::mir::reversed(entries);
    let total = rest.len();
    let mut out: Vec<Entry> = Vec::new();
    let mut index: usize = 0;
    while rest.len() > 0
        invariant
            index == out@.len(),
            index + rest@.len() == total,
            total == original.len(),
            is_match == (original.len() > 0 && atom_named(original[0].item, "match"@)),
            forall|j: int| 0 <= j < rest@.len() ==> #[trigger] rest@[j] == original[total - 1 - j],
            forall|i: int|
                0 <= i < index ==> remarked(
                    original[i],
                    #[trigger] out@[i],
                    atom_named(original[0].item, "match"@) && i > 1 && original[i].item is List,
                ),
        decreases rest@.len(),
    {
        assert(rest@[rest@.len() - 1] == original[index as int]);
        let entry = rest.pop().unwrap();
        let Entry { item, blank_before, trailing, spelled_out, arm: _ } = entry;
        let arm = is_match && index > 1 && match &item {
            Item::List(_) => true,
            _ => false,
        };
        out.push(Entry { item, blank_before, trailing, spelled_out, arm });
        index += 1;
    }
    out
}

/// `s` is `a` without the white space it ends with.
spec fn trims(a: Seq<char>, s: Seq<char>) -> bool {
    &&& s.len() <= a.len()
    &&& s == a.subrange(0, s.len() as int)
    &&& (s.len() == 0 || !is_space(s.last()))
    &&& forall|j: int| s.len() <= j < a.len() ==> is_space(#[trigger] a[j])
}

/// `e` is `last` with the comment `text` at the end of its line.
spec fn commented(last: Entry, text: Seq<char>, e: Entry) -> bool {
    &&& e.item == last.item
    &&& e.blank_before == last.blank_before
    &&& e.trailing@.len() == last.trailing@.len() + 1
    &&& e.trailing@.drop_last() == last.trailing@
    &&& trims(text, e.trailing@.last()@)
    &&& e.spelled_out == last.spelled_out
    &&& e.arm == last.arm
}

/// `e` holds `item` alone, with a blank line above it or not.
spec fn plain(e: Entry, blank_before: bool) -> bool {
    &&& e.blank_before == blank_before
    &&& e.trailing@.len() == 0
    &&& !e.spelled_out
    &&& !e.arm
}

/// Reading `children` from the `k`th on, with `newlines` line feeds since the
/// last element, after `acc`, can give the entries `result`.
spec fn scanned(
    children: Seq<SyntaxElement>,
    k: int,
    newlines: int,
    started: bool,
    acc: Seq<Entry>,
    result: Seq<Entry>,
) -> bool
    decreases elements_height(children), 0int, children.len() - k,
{
    if k < 0 || k >= children.len() {
        result == acc
    } else {
        let blank = started && newlines >= 2;
        proof {
            lemma_element_height(children, k);
        }
        match children[k] {
            SyntaxElement::Token(token) => if token.kind is Whitespace {
                scanned(children, k + 1, sat(newlines, crate::text::feeds(token.text@, token.text@.len() as int)), started, acc, result)
            } else if token.kind is LeftParen || token.kind is RightParen {
                scanned(children, k + 1, newlines, started, acc, result)
            } else if token.kind is Comment {
                if acc.len() > 0 && newlines == 0 {
                    exists|e: Entry|
                        #![trigger acc.drop_last().push(e)]
                        commented(acc.last(), token.text@, e) && scanned(
                            children,
                            k + 1,
                            0,
                            true,
                            acc.drop_last().push(e),
                            result,
                        )
                } else {
                    exists|e: Entry|
                        #![trigger acc.push(e)]
                        {
                            &&& plain(e, blank)
                            &&& e.item matches Item::Comment(t) && trims(token.text@, t@)
                            &&& scanned(children, k + 1, 0, true, acc.push(e), result)
                        }
                }
            } else {
                exists|e: Entry|
                    #![trigger acc.push(e)]
                    {
                        &&& plain(e, blank)
                        &&& e.item matches Item::Atom(t) && t@ == token.text@
                        &&& scanned(children, k + 1, 0, true, acc.push(e), result)
                    }
            },
            SyntaxElement::List(node) => exists|e: Entry|
                #![trigger acc.push(e)]
                {
                    &&& plain(e, blank)
                    &&& e.item matches Item::List(v) && entries_rel(node.children@, true, v@)
                    &&& scanned(children, k + 1, 0, true, acc.push(e), result)
                },
        }
    }
}

/// `out` is what `spell_out_a_lone_borrow` makes of `es`.
spec fn spelled_rel(es: Seq<Entry>, out: Seq<Entry>) -> bool {
    &&& forall|i: int|
        #[trigger] lone_borrow(es, i) ==> {
            &&& out.len() == es.len()
            &&& spelled(es[i], out[i])
            &&& forall|j: int| 0 <= j < es.len() && j != i ==> #[trigger] out[j] == es[j]
        }
    &&& (forall|i: int| !#[trigger] lone_borrow(es, i)) ==> out == es
}

/// `out` is what `mark_arms` makes of `es`.
spec fn arms_rel(es: Seq<Entry>, out: Seq<Entry>) -> bool {
    &&& out.len() == es.len()
    &&& forall|i: int|
        0 <= i < es.len() ==> remarked(
            es[i],
            #[trigger] out[i],
            atom_named(es[0].item, "match"@) && i > 1 && es[i].item is List,
        )
}

/// `out` are the entries of a list with the children `children`: read, with
/// sigils folded, a lone borrow spelled out inside a list, and arms marked.
spec fn entries_rel(children: Seq<SyntaxElement>, in_list: bool, out: Seq<Entry>) -> bool
    decreases elements_height(children), 1int, 0int,
{
    exists|raw: Seq<Entry>, states: Seq<Seq<Entry>>, mid: Seq<Entry>|
        #![trigger folding(raw, in_list, states), arms_rel(mid, out)]
        {
            &&& scanned(children, 0, 0, false, Seq::empty(), raw)
            &&& folding(raw, in_list, states)
            &&& (if in_list {
                spelled_rel(states.last().reverse(), mid)
            } else {
                mid == states.last().reverse()
            })
            &&& arms_rel(mid, out)
        }
}

/// The entries of a list's children: atoms, comments and nested lists, with
/// the blank lines and line-end comments around them.
fn entries_of(children: &Vec<SyntaxElement>, in_list: bool) -> (out: Vec<Entry>)
    ensures
        entries_rel(children@, in_list, out@),
    decreases elements_height(children@),
{
    let mut entries: Vec<Entry> = Vec::new();
    let mut newlines: usize = 0;
    let mut started = false;
    let mut k: usize = 0;
    while k < children.len()
        invariant
            k <= children@.len(),
            forall|r: Seq<Entry>|
                #[trigger] scanned(children@, k as int, newlines as int, started, entries@, r) ==> scanned(
                    children@,
                    0,
                    0,
                    false,
                    Seq::empty(),
                    r,
                ),
        decreases children@.len() - k,
    {
        let ghost acc = entries@;
        let ghost nl = newlines as int;
        let ghost st = started;
        let blank_before = started && newlines >= 2;
        proof {
            lemma_element_height(children@, k as int);
        }
        match &children[k] {
            SyntaxElement::Token(token) => {
                if token.kind == SyntaxKind::Whitespace {
                    newlines = saturating_add(newlines, line_feeds(token.text.as_str()));
                    proof {
                        assert forall|r: Seq<Entry>|
                            #[trigger] scanned(children@, k + 1, newlines as int, started, entries@, r) implies scanned(
                                children@,
                                k as int,
                                nl,
                                st,
                                acc,
                                r,
                            ) by {
                            assert(children@[k as int] == SyntaxElement::Token(*token));
                        }
                    }
                    k += 1;
                    continue;
                }
                if token.kind == SyntaxKind::LeftParen || token.kind == SyntaxKind::RightParen {
                    proof {
                        assert forall|r: Seq<Entry>|
                            #[trigger] scanned(children@, k + 1, newlines as int, started, entries@, r) implies scanned(
                                children@,
                                k as int,
                                nl,
                                st,
                                acc,
                                r,
                            ) by {
                            assert(children@[k as int] == SyntaxElement::Token(*token));
                        }
                    }
                    k += 1;
                    continue;
                }
                if token.kind == SyntaxKind::Comment {
                    let text = trim_end(token.text.as_str());
                    if entries.len() > 0 && newlines == 0 {
                        let previous = entries.pop().unwrap();
                        let Entry { item, blank_before: b, trailing, spelled_out, arm } = previous;
                        let mut trailing = trailing;
                        trailing.push(text);
                        entries.push(Entry { item, blank_before: b, trailing, spelled_out, arm });
                        proof {
                            let e = entries@.last();
                            assert(e.trailing@.drop_last() =~= acc.last().trailing@);
                            assert(entries@ =~= acc.drop_last().push(e));
                            assert forall|r: Seq<Entry>|
                                #[trigger] scanned(children@, k + 1, 0, true, entries@, r) implies scanned(
                                    children@,
                                    k as int,
                                    nl,
                                    st,
                                    acc,
                                    r,
                                ) by {
                                assert(children@[k as int] == SyntaxElement::Token(*token));
                                assert(trims(token.text@, text@));
                                assert(commented(acc.last(), token.text@, e));
                                assert(scanned(children@, k + 1, 0, true, acc.drop_last().push(e), r));
                            }
                        }
                    } else {
                        entries.push(plain_entry(Item::Comment(text), blank_before));
                        proof {
                            let e = entries@.last();
                            assert(entries@ =~= acc.push(e));
                            assert forall|r: Seq<Entry>|
                                #[trigger] scanned(children@, k + 1, 0, true, entries@, r) implies scanned(
                                    children@,
                                    k as int,
                                    nl,
                                    st,
                                    acc,
                                    r,
                                ) by {
                                assert(plain(e, blank_before));
                            }
                        }
                    }
                } else {
                    entries.push(plain_entry(Item::Atom(token.text.clone()), blank_before));
                    proof {
                        let e = entries@.last();
                        assert(entries@ =~= acc.push(e));
                        assert forall|r: Seq<Entry>|
                            #[trigger] scanned(children@, k + 1, 0, true, entries@, r) implies scanned(
                                children@,
                                k as int,
                                nl,
                                st,
                                acc,
                                r,
                            ) by {
                            assert(plain(e, blank_before));
                        }
                    }
                }
            },
            SyntaxElement::List(node) => {
                let inner = entries_of(&node.children, true);
                entries.push(plain_entry(Item::List(inner), blank_before));
                proof {
                    let e = entries@.last();
                    assert(entries@ =~= acc.push(e));
                    assert forall|r: Seq<Entry>|
                        #[trigger] scanned(children@, k + 1, 0, true, entries@, r) implies scanned(
                            children@,
                            k as int,
                            nl,
                            st,
                            acc,
                            r,
                        ) by {
                        assert(plain(e, blank_before));
                        assert(children@[k as int] == SyntaxElement::List(*node));
                        assert(e.item == Item::List(inner));
                        assert(entries_rel(node.children@, true, inner@));
                        assert(scanned(children@, k + 1, 0, true, acc.push(e), r));
                    }
                }
            },
        }
        newlines = 0;
        started = true;
        k += 1;
    }
    let ghost raw = entries@;
    assert(scanned(children@, k as int, newlines as int, started, entries@, raw));
    let entries = glue_sigils(entries, in_list);
    let ghost states = choose|states: Seq<Seq<Entry>>|
        #[trigger] folding(raw, in_list, states) && entries@ == states.last().reverse();
    let entries = if in_list {
        spell_out_a_lone_borrow(entries)
    } else {
        entries
    };
    let ghost mid = entries@;
    let out = mark_arms(entries);
    assert(arms_rel(mid, out@));
    assert(scanned(children@, 0, 0, false, Seq::empty(), raw));
    assert(folding(raw, in_list, states));
    assert(if in_list {
        spelled_rel(states.last().reverse(), mid)
    } else {
        mid == states.last().reverse()
    });
    assert(entries_rel(children@, in_list, out@)) by {
        reveal_with_fuel(entries_rel, 2);
    }
    out
}

/// Joins `parts` with single spaces between them.
/// The first `n` of `parts`, with single spaces between them.
spec fn spaced(parts: Seq<Seq<char>>, n: int) -> Seq<char>
    decreases n,
{
    if n <= 0 {
        Seq::empty()
    } else if n == 1 {
        parts[0]
    } else {
        spaced(parts, n - 1) + seq![' '] + parts[n - 1]
    }
}

/// The texts of `parts`.
spec fn texts_of(parts: Seq<String>) -> Seq<Seq<char>> {
    parts.map_values(|p: String| p@)
}

fn join_spaced(parts: &Vec<String>) -> (r: String)
    ensures
        r@ == spaced(texts_of(parts@), parts@.len() as int),
{
    let mut out = String::new();
    let mut k: usize = 0;
    while k < parts.len()
        invariant
            k <= parts@.len(),
            out@ == spaced(texts_of(parts@), k as int),
        decreases parts@.len() - k,
    {
        if k > 0 {
            push_char(&mut out, ' ');
        }
        push_str(&mut out, parts[k].as_str());
        k += 1;
    }
    out
}

/// The one-line shape of `item`, where it has one.
spec fn flat_of(item: Item) -> Option<Seq<char>>
    decreases item_height(item), 1int, 0int,
{
    match item {
        Item::Atom(text) => Some(text@),
        Item::Comment(_) => None,
        Item::List(entries) => if breaks(entries@) {
            None
        } else if abbreviates(entries@) {
            proof {
                lemma_entry_height(entries@, 1);
            }
            match flat_of(entries@[1].item) {
                Some(operand) => match entries@[0].item {
                    Item::Atom(t) => Some(sigil_prefix(t@) + operand),
                    _ => None,
                },
                None => None,
            }
        } else {
            match flat_entries(entries@) {
                Some(parts) => Some(seq!['('] + spaced(parts, parts.len() as int) + seq![')']),
                None => None,
            }
        },
    }
}

/// The one-line shapes of `es`, where each has one and none is followed by a
/// comment.
spec fn flat_entries(es: Seq<Entry>) -> Option<Seq<Seq<char>>>
    decreases entries_height(es), 2int, es.len(),
{
    if es.len() == 0 {
        Some(Seq::empty())
    } else {
        proof {
            lemma_entry_height(es, es.len() - 1);
            lemma_height_prefix(es);
        }
        match flat_entries(es.drop_last()) {
            Some(parts) => if es.last().trailing@.len() > 0 {
                None
            } else {
                match flat_of(es.last().item) {
                    Some(part) => Some(parts.push(part)),
                    None => None,
                }
            },
            None => None,
        }
    }
}

proof fn lemma_height_prefix(es: Seq<Entry>)
    requires
        es.len() > 0,
    ensures
        entries_height(es.drop_last()) <= entries_height(es),
{
}

/// A prefix without a flat shape leaves the whole without one.
proof fn lemma_flat_prefix(es: Seq<Entry>, k: int)
    requires
        0 <= k <= es.len(),
        flat_entries(es.subrange(0, k)) is None,
    ensures
        flat_entries(es) is None,
    decreases es.len() - k,
{
    if k < es.len() {
        assert(es.subrange(0, k + 1).drop_last() =~= es.subrange(0, k));
        lemma_flat_prefix(es, k + 1);
    } else {
        assert(es.subrange(0, k) =~= es);
    }
}

/// The form on one line, or `None` when it holds a comment - a comment ends a
/// line by definition, so nothing containing one has a flat shape.
fn flat(item: &Item) -> (r: Option<String>)
    ensures
        match flat_of(*item) {
            Some(t) => r matches Some(s) && s@ == t,
            None => r is None,
        },
    decreases item_height(*item),
{
    match item {
        Item::Atom(text) => Some(text.clone()),
        Item::Comment(_) => None,
        Item::List(entries) => {
            if must_break(entries) {
                return None;
            }
            if let Some(sigil) = abbreviated(entries) {
                proof {
                    lemma_entry_height(entries@, 1);
                }
                return match flat(&entries[1].item) {
                    Some(operand) => {
                        let mut out = sigil;
                        push_str(&mut out, operand.as_str());
                        Some(out)
                    },
                    None => None,
                };
            }
            let mut parts: Vec<String> = Vec::new();
            let mut k: usize = 0;
            while k < entries.len()
                invariant
                    k <= entries@.len(),
                    *item == Item::List(*entries),
                    !breaks(entries@),
                    !abbreviates(entries@),
                    flat_entries(entries@.subrange(0, k as int)) == Some(texts_of(parts@)),
                decreases entries@.len() - k,
            {
                assert(entries@.subrange(0, k + 1).drop_last() =~= entries@.subrange(0, k as int));
                assert(entries@.subrange(0, k + 1).last() == entries@[k as int]);
                if entries[k].trailing.len() > 0 {
                    proof {
                        lemma_flat_prefix(entries@, k + 1);
                    }
                    return None;
                }
                proof {
                    lemma_entry_height(entries@, k as int);
                }
                match flat(&entries[k].item) {
                    Some(part) => {
                        let ghost before = parts@;
                        parts.push(part);
                        assert(texts_of(parts@) =~= texts_of(before).push(part@));
                    },
                    None => {
                        proof {
                            lemma_flat_prefix(entries@, k + 1);
                        }
                        return None;
                    },
                }
                k += 1;
            }
            assert(entries@.subrange(0, k as int) =~= entries@);
            let mut out = String::new();
            push_char(&mut out, '(');
            push_str(&mut out, join_spaced(&parts).as_str());
            push_char(&mut out, ')');
            Some(out)
        },
    }
}

/// An argument with no structure under it: an atom, or a list of atoms. These
/// are what a form packs several of onto a line instead of breaking one per
/// line.
/// An atom, or a list of atoms with no comment at the end of a line.
spec fn simple(item: Item) -> bool {
    match item {
        Item::Atom(_) => true,
        Item::Comment(_) => false,
        Item::List(entries) => forall|k: int|
            0 <= k < entries@.len() ==> (#[trigger] entries@[k]).trailing@.len() == 0 && entries@[k].item is Atom,
    }
}

fn is_simple(item: &Item) -> (r: bool)
    ensures
        r == simple(*item),
{
    match item {
        Item::Atom(_) => true,
        Item::Comment(_) => false,
        Item::List(entries) => {
            let mut k: usize = 0;
            while k < entries.len()
                invariant
                    k <= entries@.len(),
                    forall|j: int| 0 <= j < k ==> (#[trigger] entries@[j]).trailing@.len() == 0 && entries@[j].item is Atom,
                    *item == Item::List(*entries),
                decreases entries@.len() - k,
            {
                if entries[k].trailing.len() > 0 || !is_atom(&entries[k].item) {
                    assert(!((entries@[k as int]).trailing@.len() == 0 && entries@[k as int].item is Atom));
                    return false;
                }
                k += 1;
            }
            true
        },
    }
}

/// A type's parameter list: `(T)`, `(K V)`.
spec fn parameter_list(item: Item) -> bool {
    item matches Item::List(entries) && entries@.len() > 0 && simple(item)
}

fn is_parameter_list(item: &Item) -> (r: bool)
    ensures
        r == parameter_list(*item),
{
    match item {
        Item::List(entries) => entries.len() > 0 && is_simple(item),
        _ => false,
    }
}

/// One or two entries laid out as a unit: `-> i64` and `: i64` are two.
#[derive(Clone, Copy)]
struct Group {
    start: usize,
    len: usize,
}

spec fn groups_within(groups: Seq<Group>, n: int) -> bool {
    forall|g: int| 0 <= g < groups.len() ==> 1 <= (#[trigger] groups[g]).len && groups[g].start + groups[g].len <= n
}

/// How many entries the group starting at `i` takes: a glue atom with no
/// comment after it takes the entry that follows it too.
spec fn group_width(entries: Seq<Entry>, i: int) -> int {
    if glue(entries[i].item) && entries[i].trailing@.len() == 0 && i + 1 < entries.len() {
        2
    } else {
        1
    }
}

/// The entries from `i` on, grouped.
spec fn groups_from(entries: Seq<Entry>, i: int) -> Seq<Group>
    decreases entries.len() - i,
{
    if i < 0 || i >= entries.len() {
        Seq::empty()
    } else {
        seq![Group { start: i as usize, len: group_width(entries, i) as usize }] + groups_from(
            entries,
            i + group_width(entries, i),
        )
    }
}

/// The entries from `from` on, grouped.
fn group(entries: &Vec<Entry>, from: usize) -> (groups: Vec<Group>)
    ensures
        groups_within(groups@, entries.len() as int),
        groups@ == groups_from(entries@, from as int),
{
    let mut groups: Vec<Group> = Vec::new();
    let mut index = from;
    while index < entries.len()
        invariant
            groups_within(groups@, entries.len() as int),
            groups_from(entries@, from as int) == groups@ + groups_from(entries@, index as int),
        decreases entries@.len() - index,
    {
        let ghost before = groups@;
        let mut width: usize = 1;
        if is_glue(&entries[index].item) && entries[index].trailing.len() == 0 && index + 1
            < entries.len() {
            width = 2;
        }
        groups.push(Group { start: index, len: width });
        proof {
            assert(groups_from(entries@, index as int) == seq![Group { start: index, len: width }] + groups_from(entries@, index + width));
            assert(groups@ + groups_from(entries@, index + width) =~= before + groups_from(entries@, index as int));
        }
        index += width;
    }
    assert(groups@ + groups_from(entries@, index as int) =~= groups@);
    groups
}

/// Whether a group ends with a line comment, so nothing may follow it on its
/// line.
fn ends_open(entries: &Vec<Entry>, g: Group) -> (r: bool)
    requires
        1 <= g.len,
        g.start + g.len <= entries.len(),
    ensures
        r == (entries@[g.start + g.len - 1].trailing@.len() > 0 || entries@[g.start + g.len - 1].item is Comment),
{
    let last = &entries[g.start + g.len - 1];
    last.trailing.len() > 0 || is_comment(&last.item)
}

/// The group `g` of `entries` on one line, where it has a flat shape.
spec fn group_flat_of(entries: Seq<Entry>, g: Group) -> Option<Seq<char>> {
    match flat_entries(entries.subrange(g.start as int, g.start + g.len)) {
        Some(parts) => Some(spaced(parts, parts.len() as int)),
        None => None,
    }
}

/// The group on one line, if it has a flat shape.
fn group_flat(entries: &Vec<Entry>, g: Group) -> (r: Option<String>)
    requires
        g.start + g.len <= entries.len(),
    ensures
        match group_flat_of(entries@, g) {
            Some(t) => r matches Some(s) && s@ == t,
            None => r is None,
        },
{
    let ghost whole = entries@.subrange(g.start as int, g.start + g.len);
    let mut parts: Vec<String> = Vec::new();
    let mut k: usize = 0;
    while k < g.len
        invariant
            g.start + g.len <= entries.len(),
            k <= g.len,
            whole == entries@.subrange(g.start as int, g.start + g.len),
            flat_entries(whole.subrange(0, k as int)) == Some(texts_of(parts@)),
        decreases g.len - k,
    {
        let entry = &entries[g.start + k];
        assert(whole.subrange(0, k + 1).drop_last() =~= whole.subrange(0, k as int));
        assert(whole.subrange(0, k + 1).last() == entries@[g.start + k]);
        if entry.trailing.len() > 0 {
            proof {
                lemma_flat_prefix(whole, k + 1);
            }
            return None;
        }
        match flat(&entry.item) {
            Some(part) => {
                let ghost before = parts@;
                parts.push(part);
                assert(texts_of(parts@) =~= texts_of(before).push(part@));
            },
            None => {
                proof {
                    lemma_flat_prefix(whole, k + 1);
                }
                return None;
            },
        }
        k += 1;
    }
    assert(whole.subrange(0, k as int) =~= whole);
    assert(parts@.len() == texts_of(parts@).len());
    Some(join_spaced(&parts))
}

/// How many argument groups stay beside the head when a form breaks.
///
/// A declaration's first line is its signature and a body is what follows it,
/// which is the one thing a layout cannot work out from the shape of the tree.
/// Everything absent from this table is laid out by where its arguments fit.
/// The groups a signature keeps on its head line: up to and including the
/// first `->` from group `g` on, or two when there is none.
spec fn arrow_group(entries: Seq<Entry>, groups: Seq<Group>, g: int) -> int
    decreases groups.len() - g,
{
    if g < 0 || g >= groups.len() {
        if groups.len() < 2 {
            groups.len() as int
        } else {
            2
        }
    } else if atom_named(entries[groups[g].start as int].item, "->"@) {
        g + 1
    } else {
        arrow_group(entries, groups, g + 1)
    }
}

/// The last of the first `g` groups that is not led by glue, or 0.
spec fn last_unglued(entries: Seq<Entry>, groups: Seq<Group>, g: int) -> int
    decreases g,
{
    if g <= 0 {
        0
    } else if !glue(entries[groups[g - 1].start as int].item) {
        g - 1
    } else {
        last_unglued(entries, groups, g - 1)
    }
}

/// How many argument groups stay beside the head `head` when its form breaks.
spec fn head_line(head: Seq<char>, entries: Seq<Entry>, groups: Seq<Group>) -> Option<int> {
    if head == "fn"@ || head == "lambda"@ {
        Some(arrow_group(entries, groups, 0))
    } else if head == "extern"@ {
        Some(1)
    } else if head == "let"@ || head == "set"@ || head == "const"@ {
        Some(last_unglued(entries, groups, groups.len() as int))
    } else if head == "if"@ || head == "while"@ || head == "when"@ || head == "match"@ || head == "test"@ {
        Some(1)
    } else if head == "struct"@ || head == "enum"@ {
        if groups.len() > 1 && parameter_list(entries[groups[1].start as int].item) {
            Some(2)
        } else {
            Some(1)
        }
    } else if head == "do"@ || head == "loop"@ || head == "defer"@ || head == "unsafe"@ {
        Some(0)
    } else {
        None
    }
}

fn head_line_groups(head: &str, entries: &Vec<Entry>, groups: &Vec<Group>) -> (r: Option<usize>)
    requires
        groups_within(groups@, entries.len() as int),
    ensures
        match head_line(head@, entries@, groups@) {
            Some(n) => r == Some(n as usize),
            None => r is None,
        },
{
    if same_text(head, "fn") || same_text(head, "lambda") {
        let mut g: usize = 0;
        while g < groups.len()
            invariant
                groups_within(groups@, entries.len() as int),
                arrow_group(entries@, groups@, 0) == arrow_group(entries@, groups@, g as int),
                head@ == "fn"@ || head@ == "lambda"@,
            decreases groups@.len() - g,
        {
            if atom_is(&entries[groups[g].start].item, "->") {
                return Some(g + 1);
            }
            g += 1;
        }
        Some(if groups.len() < 2 { groups.len() } else { 2 })
    } else if same_text(head, "extern") {
        Some(1)
    } else if same_text(head, "let") || same_text(head, "set") || same_text(head, "const") {
        let mut g = groups.len();
        while g > 0
            invariant
                g <= groups@.len(),
                groups_within(groups@, entries.len() as int),
                last_unglued(entries@, groups@, groups@.len() as int) == last_unglued(entries@, groups@, g as int),
                head_line(head@, entries@, groups@) == Some(last_unglued(entries@, groups@, groups@.len() as int)),
            decreases g,
        {
            if !is_glue(&entries[groups[g - 1].start].item) {
                return Some(g - 1);
            }
            g -= 1;
        }
        Some(0)
    } else if same_text(head, "if") || same_text(head, "while") || same_text(head, "when")
        || same_text(head, "match") || same_text(head, "test") {
        Some(1)
    } else if same_text(head, "struct") || same_text(head, "enum") {
        // A type's parameter list belongs beside its name, and its fields or
        // its variants are what follows.
        if groups.len() > 1 && is_parameter_list(&entries[groups[1].start].item) {
            Some(2)
        } else {
            Some(1)
        }
    } else if same_text(head, "do") || same_text(head, "loop") || same_text(head, "defer")
        || same_text(head, "unsafe") {
        Some(0)
    } else {
        None
    }
}

/// A body begins on its own line, however short it is.
///
/// Everywhere else a form fits or it does not. These are the exception
/// because what follows their head line is a sequence of statements rather
/// than an argument. `if` breaks once it takes a fourth argument, because with
/// three it is the expression `(if flag 1 0)` and reads as an argument.
spec fn bodied(name: Seq<char>) -> bool {
    name == "fn"@ || name == "test"@ || name == "when"@ || name == "while"@ || name == "loop"@ || name
        == "do"@ || name == "match"@ || name == "enum"@
}

/// Whether a form's arguments must start below its head line.
spec fn breaks(entries: Seq<Entry>) -> bool {
    if entries.len() == 0 {
        false
    } else {
        match entries[0].item {
            Item::Atom(name) => if entries[0].trailing@.len() > 0 {
                true
            } else {
                let groups = groups_from(entries, 1);
                if name@ == "if"@ {
                    groups.len() > 3
                } else if !bodied(name@) {
                    false
                } else {
                    let kept = match head_line(name@, entries, groups) {
                        Some(k) => k,
                        None => 0,
                    };
                    if groups.len() < kept {
                        false
                    } else if groups.len() - kept == 1 {
                        !(entries[groups[kept].start as int].item is Atom)
                    } else {
                        groups.len() - kept > 1
                    }
                }
            },
            _ => false,
        }
    }
}

proof fn lemma_head_line_bounded(head: Seq<char>, entries: Seq<Entry>, groups: Seq<Group>)
    ensures
        head_line(head, entries, groups) matches Some(n) ==> 0 <= n && (n <= groups.len() || n <= 2),
{
    lemma_arrow_bounded(entries, groups, 0);
    lemma_unglued_bounded(entries, groups, groups.len() as int);
}

proof fn lemma_arrow_bounded(entries: Seq<Entry>, groups: Seq<Group>, g: int)
    requires
        0 <= g,
    ensures
        0 <= arrow_group(entries, groups, g) <= groups.len(),
    decreases groups.len() - g,
{
    if g < groups.len() && !atom_named(entries[groups[g].start as int].item, "->"@) {
        lemma_arrow_bounded(entries, groups, g + 1);
    }
}

proof fn lemma_unglued_bounded(entries: Seq<Entry>, groups: Seq<Group>, g: int)
    ensures
        0 <= last_unglued(entries, groups, g) <= if g < 0 { 0 } else { g },
    decreases g,
{
    if g > 0 && glue(entries[groups[g - 1].start as int].item) {
        lemma_unglued_bounded(entries, groups, g - 1);
    }
}

fn must_break(entries: &Vec<Entry>) -> (r: bool)
    ensures
        r == breaks(entries@),
{
    if entries.len() == 0 {
        return false;
    }
    let head = &entries[0];
    let name = match &head.item {
        Item::Atom(name) => name,
        _ => {
            return false;
        },
    };
    if head.trailing.len() > 0 {
        return true;
    }
    let groups = group(entries, 1);
    if same_text(name.as_str(), "if") {
        return groups.len() > 3;
    }
    let bodied = same_text(name.as_str(), "fn") || same_text(name.as_str(), "test") || same_text(
        name.as_str(),
        "when",
    ) || same_text(name.as_str(), "while") || same_text(name.as_str(), "loop") || same_text(
        name.as_str(),
        "do",
    ) || same_text(name.as_str(), "match") || same_text(name.as_str(), "enum");
    if !bodied {
        return false;
    }
    proof {
        lemma_head_line_bounded(name@, entries@, groups@);
    }
    let kept = match head_line_groups(name.as_str(), entries, &groups) {
        Some(k) => k,
        None => 0,
    };
    if groups.len() < kept {
        return false;
    }
    let more = groups.len() - kept;
    if more == 1 {
        // A body that is a single literal is not a body: a function that
        // names a constant keeps it on its signature's line.
        !is_atom(&entries[groups[kept].start].item)
    } else {
        more > 1
    }
}

/// The width of the last line of `out`.
/// Where the line of `s` that position `k` is on begins.
spec fn line_start(s: Seq<char>, k: int) -> int
    decreases k,
{
    if k <= 0 || s[k - 1] == '\n' {
        k
    } else {
        line_start(s, k - 1)
    }
}

fn last_line_width(out: &String) -> (r: usize)
    ensures
        r == out@.len() - line_start(out@, out@.len() as int),
{
    let cs = chars_of(out.as_str());
    let mut k = cs.len();
    while k > 0 && cs[k - 1] != '\n'
        invariant
            k <= cs@.len(),
            cs@ == out@,
            line_start(out@, out@.len() as int) == line_start(out@, k as int),
        decreases k,
    {
        k -= 1;
    }
    cs.len() - k
}

/// A closing paren hugs the last argument, unless a comment is what the line
/// ends with - then it goes below, because anything after a `;` is the comment.
fn close(out: &mut String, indent: usize, open: bool)
    ensures
        final(out)@ == old(out)@ + (if open {
            seq!['\n'] + Seq::new(indent as nat, |_i: int| ' ')
        } else {
            Seq::empty()
        }) + seq![')'],
{
    if open {
        push_char(out, '\n');
        push_str(out, spaces(indent).as_str());
    }
    push_char(out, ')');
}

/// `a + b`, or the largest word where that does not fit.
spec fn sat(a: int, b: int) -> int {
    if a + b <= usize::MAX {
        a + b
    } else {
        usize::MAX as int
    }
}

/// `n` spaces.
spec fn pad(n: int) -> Seq<char> {
    Seq::new(n as nat, |_i: int| ' ')
}

/// `base` followed by the first `n` of `trailing`, each after a space.
spec fn trailed(base: Seq<char>, trailing: Seq<String>, n: int) -> Seq<char>
    decreases n,
{
    if n <= 0 {
        base
    } else {
        trailed(base, trailing, n - 1) + seq![' '] + trailing[n - 1]@
    }
}

/// A closing paren, below the line when that line ends in a comment.
spec fn close_text(indent: int, open: bool) -> Seq<char> {
    (if open {
        seq!['\n'] + pad(indent)
    } else {
        Seq::empty()
    }) + seq![')']
}

/// How many of an arm's entries are its head (see `arm_head`).
spec fn arm_count(es: Seq<Entry>) -> int {
    if es.len() > 3 && atom_named(es[1].item, "when"@) {
        3
    } else {
        1
    }
}

/// The group `g` ends with a line comment.
spec fn group_open(es: Seq<Entry>, g: Group) -> bool {
    es[g.start + g.len - 1].trailing@.len() > 0 || es[g.start + g.len - 1].item is Comment
}

/// How `item` is laid out at `indent` with `closers` parens after it.
spec fn rendered_item(item: Item, indent: int, opts: FormatOptions, closers: int) -> Seq<char>
    decreases item_height(item), 4int, 0int,
{
    match item {
        Item::Atom(text) => text@,
        Item::Comment(text) => text@,
        Item::List(es) => if es@.len() == 0 {
            seq!['(', ')']
        } else if flat_of(item) is Some && sat(sat(indent, flat_of(item)->0.len() as int), closers)
            <= opts.preferred_width {
            flat_of(item)->0
        } else if abbreviates(es@) {
            proof {
                lemma_entry_height(es@, 1);
            }
            match es@[0].item {
                Item::Atom(t) => sigil_prefix(t@) + rendered_item(
                    es@[1].item,
                    sat(indent, sigil_prefix(t@).len() as int),
                    opts,
                    closers,
                ),
                _ => Seq::empty(),
            }
        } else {
            rendered_broken(es@, indent, opts, false, closers)
        },
    }
}

/// The entries of group `g` from the `k`th on, laid out after `out`.
spec fn group_from(
    es: Seq<Entry>,
    g: Group,
    indent: int,
    opts: FormatOptions,
    closers: int,
    k: int,
    out: Seq<char>,
) -> Seq<char>
    decreases entries_height(es) + 1, 1int, g.len - k,
{
    if k < 0 || k >= g.len || g.start + k >= es.len() {
        out
    } else {
        let entry = es[g.start + k];
        let out1 = if k > 0 {
            out.push(' ')
        } else {
            out
        };
        let column = sat(indent, out1.len() as int);
        let tail = if k == g.len - 1 && entry.trailing@.len() == 0 {
            closers
        } else {
            0
        };
        proof {
            lemma_entry_height(es, g.start + k);
        }
        let text = match entry.item {
            Item::List(inner) => if entry.arm && inner@.len() > 0 && inner@.len() > arm_count(inner@) + 1 {
                rendered_broken(inner@, column, opts, true, tail)
            } else {
                rendered_item(entry.item, column, opts, tail)
            },
            _ => rendered_item(entry.item, column, opts, tail),
        };
        group_from(es, g, indent, opts, closers, k + 1, trailed(out1 + text, entry.trailing@, entry.trailing@.len() as int))
    }
}

/// The groups from the `g`th on, packed onto lines after `out`.
spec fn packed_from(
    es: Seq<Entry>,
    groups: Seq<Group>,
    g: int,
    out: Seq<char>,
    column: int,
    body: int,
    opts: FormatOptions,
    closers: int,
) -> Seq<char>
    decreases entries_height(es) + 1, 2int, groups.len() - g,
{
    if g < 0 || g >= groups.len() {
        out
    } else {
        let tail = if g == groups.len() - 1 {
            sat(closers, 1)
        } else {
            0
        };
        let text = match group_flat_of(es, groups[g]) {
            Some(t) => t,
            None => group_from(es, groups[g], body, opts, tail, 0, Seq::empty()),
        };
        let width = text.len() as int;
        if sat(sat(sat(column, 1), width), tail) > opts.preferred_width {
            packed_from(es, groups, g + 1, out + seq!['\n'] + pad(body) + text, sat(body, width), body, opts, closers)
        } else {
            packed_from(es, groups, g + 1, out + seq![' '] + text, sat(sat(column, 1), width), body, opts, closers)
        }
    }
}

/// Every group has a flat shape that fits from `column`.
spec fn all_fit(es: Seq<Entry>, groups: Seq<Group>, column: int, opts: FormatOptions, closers: int) -> bool {
    forall|g: int|
        0 <= g < groups.len() ==> match #[trigger] group_flat_of(es, groups[g]) {
            Some(t) => sat(sat(column, t.len() as int), if g == groups.len() - 1 {
                sat(closers, 1)
            } else {
                0
            }) <= opts.preferred_width,
            None => false,
        }
}

/// The width of the head line with the groups from the `g`th up to `kept`
/// beside it, and whether each of those has a flat shape.
spec fn measure(es: Seq<Entry>, groups: Seq<Group>, g: int, kept: int, width: int, measured: bool) -> (int, bool)
    decreases groups.len() - g,
{
    if g < 0 || g >= kept || g >= groups.len() {
        (width, measured)
    } else {
        match group_flat_of(es, groups[g]) {
            Some(t) => measure(es, groups, g + 1, kept, sat(width, sat(1, t.len() as int)), measured),
            None => measure(es, groups, g + 1, kept, width, false),
        }
    }
}

/// How many groups a signature keeps on its head line, from `kept` down.
spec fn shrunk(es: Seq<Entry>, groups: Seq<Group>, kept: int, name: Seq<char>, indent: int, opts: FormatOptions, closers: int) -> int
    decreases kept,
{
    if kept <= 1 {
        kept
    } else {
        let start = sat(sat(indent, 1), name.len() as int);
        let width = if kept == groups.len() {
            sat(start, sat(closers, 1))
        } else {
            start
        };
        let m = measure(es, groups, 0, kept, width, true);
        if !m.1 || m.0 <= opts.preferred_width {
            kept
        } else {
            shrunk(es, groups, kept - 1, name, indent, opts, closers)
        }
    }
}

/// The groups from the `g`th on, after `out`: the first `kept` on the head
/// line, the rest one per line at `continuation`; and whether the last line
/// ends in a comment.
spec fn broken_from(
    es: Seq<Entry>,
    groups: Seq<Group>,
    g: int,
    out: Seq<char>,
    open: bool,
    kept: int,
    continuation: int,
    indent: int,
    opts: FormatOptions,
    closers: int,
) -> (Seq<char>, bool)
    decreases entries_height(es) + 1, 2int, groups.len() - g,
{
    if g < 0 || g >= groups.len() {
        (out, open)
    } else {
        let group = groups[g];
        let opens = group_open(es, group);
        let tail = if g == groups.len() - 1 && !opens {
            sat(closers, 1)
        } else {
            0
        };
        if g < kept && !open {
            let o1 = out.push(' ');
            let column = sat(indent, o1.len() - line_start(o1, o1.len() as int));
            let text = group_from(es, group, column, opts, tail, 0, Seq::empty());
            broken_from(es, groups, g + 1, o1 + text, opens, kept, continuation, indent, opts, closers)
        } else {
            let o1 = out.push('\n');
            let o2 = if es[group.start as int].blank_before && g >= kept {
                o1.push('\n')
            } else {
                o1
            };
            let text = group_from(es, group, continuation, opts, tail, 0, Seq::empty());
            broken_from(es, groups, g + 1, o2 + pad(continuation) + text, opens, kept, continuation, indent, opts, closers)
        }
    }
}

/// The name a form is headed by, where its head is an atom with no comment
/// after it.
spec fn head_name_of(es: Seq<Entry>) -> Option<Seq<char>> {
    match es[0].item {
        Item::Atom(t) => if es[0].trailing@.len() == 0 {
            Some(t@)
        } else {
            None
        },
        _ => None,
    }
}

/// The arguments are packed onto shared lines.
spec fn packs(es: Seq<Entry>, groups: Seq<Group>, table: Option<int>, arm: bool) -> bool {
    &&& table is None
    &&& head_name_of(es) is Some
    &&& !arm
    &&& forall|g: int|
        0 <= g < groups.len() ==> (#[trigger] groups[g]).len == 1 && simple(es[groups[g].start as int].item)
            && es[groups[g].start as int].trailing@.len() == 0
}

/// How many groups stay on the head line, and where the others go, before a
/// signature gives up any.
spec fn layout_of(es: Seq<Entry>, groups: Seq<Group>, table: Option<int>, indent: int, opts: FormatOptions, arm: bool, closers: int) -> (int, int) {
    let body = sat(indent, opts.indent_width as int);
    let aligned: Option<int> = match head_name_of(es) {
        Some(name) => if table is None && all_fit(es, groups, sat(sat(sat(indent, 1), name.len() as int), 1), opts, closers) {
            Some(sat(sat(sat(indent, 1), name.len() as int), 1))
        } else {
            None
        },
        None => None,
    };
    if arm && arm_count(es) == 3 {
        (2, body)
    } else if table is Some {
        (table->0, body)
    } else if aligned is Some {
        (1, aligned->0)
    } else {
        let tail = if groups.len() == 1 {
            sat(closers, 1)
        } else {
            0
        };
        let first = match head_name_of(es) {
            Some(name) => !arm && match group_flat_of(es, groups[0]) {
                Some(t) => sat(sat(sat(sat(sat(indent, 1), name.len() as int), 1), t.len() as int), tail)
                    <= opts.preferred_width,
                None => false,
            },
            None => false,
        };
        (if first {
            1
        } else {
            0
        }, body)
    }
}

/// A form that does not fit, laid out at `indent`.
spec fn rendered_broken(es: Seq<Entry>, indent: int, opts: FormatOptions, arm: bool, closers: int) -> Seq<char>
    decreases entries_height(es) + 1, 3int, 0int,
{
    if es.len() == 0 {
        Seq::empty()
    } else {
        proof {
            lemma_entry_height(es, 0);
        }
        let head = es[0];
        let groups = groups_from(es, 1);
        let head_closers = if groups.len() == 0 {
            sat(closers, 1)
        } else {
            0
        };
        let out = trailed(
            seq!['('] + rendered_item(head.item, sat(indent, 1), opts, head_closers),
            head.trailing@,
            head.trailing@.len() as int,
        );
        let head_open = head.trailing@.len() > 0;
        if groups.len() == 0 {
            out + close_text(indent, head_open)
        } else {
            let body = sat(indent, opts.indent_width as int);
            let table: Option<int> = match head_name_of(es) {
                Some(name) => head_line(name, es, groups),
                None => None,
            };
            if packs(es, groups, table, arm) {
                packed_from(es, groups, 0, out, sat(indent, out.len() as int), body, opts, closers) + close_text(indent, false)
            } else {
                let (kept0, continuation) = layout_of(es, groups, table, indent, opts, arm, closers);
                let kept = match head_name_of(es) {
                    Some(name) => if name == "fn"@ || name == "lambda"@ || name == "extern"@ {
                        shrunk(es, groups, kept0, name, indent, opts, closers)
                    } else {
                        kept0
                    },
                    None => kept0,
                };
                let (text, open) = broken_from(es, groups, 0, out, head_open, kept, continuation, indent, opts, closers);
                text + close_text(indent, open)
            }
        }
    }
}

/// Lays out one group at `indent`, knowing how many closing parens follow it
/// on its last line.
fn render_group(entries: &Vec<Entry>, g: Group, indent: usize, options: &FormatOptions, closers: usize) -> (r: String)
    requires
        1 <= g.len,
        g.start + g.len <= entries.len(),
    ensures
        r@ == group_from(entries@, g, indent as int, *options, closers as int, 0, Seq::empty()),
    decreases entries_height(entries@) + 1, 0int,
{
    let mut out = String::new();
    let last = g.len - 1;
    let mut k: usize = 0;
    while k < g.len
        invariant
            1 <= g.len,
            g.start + g.len <= entries.len(),
            last == g.len - 1,
            k <= g.len,
            group_from(entries@, g, indent as int, *options, closers as int, 0, Seq::empty()) == group_from(
                entries@,
                g,
                indent as int,
                *options,
                closers as int,
                k as int,
                out@,
            ),
        decreases g.len - k,
    {
        let entry = &entries[g.start + k];
        let ghost before = out@;
        if k > 0 {
            push_char(&mut out, ' ');
        }
        let ghost out1 = out@;
        let column = saturating_add(indent, width_of(out.as_str()));
        let tail = if k == last && entry.trailing.len() == 0 {
            closers
        } else {
            0
        };
        proof {
            lemma_entry_height(entries@, g.start + k);
        }
        let text = match &entry.item {
            Item::List(inner) => {
                if entry.arm && inner.len() > 0 && inner.len() > arm_head(inner) + 1 {
                    render_broken(inner, column, options, true, tail)
                } else {
                    render_item(&entry.item, column, options, tail)
                }
            },
            _ => render_item(&entry.item, column, options, tail),
        };
        push_str(&mut out, text.as_str());
        let ghost base = out@;
        let mut c: usize = 0;
        while c < entry.trailing.len()
            invariant
                c <= entry.trailing@.len(),
                out@ == trailed(base, entry.trailing@, c as int),
            decreases entry.trailing@.len() - c,
        {
            push_char(&mut out, ' ');
            push_str(&mut out, entry.trailing[c].as_str());
            c += 1;
            assert(out@ =~= trailed(base, entry.trailing@, c as int));
        }
        proof {
            assert(base == out1 + text@);
        }
        k += 1;
    }
    out
}

/// Lays one form out at `indent`, knowing how many closing parens will follow
/// it on the same line.
///
/// A form's last line ends with its own `)` and every ancestor's that closes
/// with it, so the width it has to fit in is the preferred width less that run.
fn render_item(item: &Item, indent: usize, options: &FormatOptions, closers: usize) -> (r: String)
    ensures
        r@ == rendered_item(*item, indent as int, *options, closers as int),
    decreases item_height(*item), 2int,
{
    match item {
        Item::Atom(text) => text.clone(),
        Item::Comment(text) => text.clone(),
        Item::List(entries) => {
            if entries.len() == 0 {
                proof {
                    reveal_strlit("()");
                }
                return "()".to_owned();
            }
            if let Some(one_line) = flat(item) {
                if saturating_add(saturating_add(indent, width_of(one_line.as_str())), closers)
                    <= options.preferred_width {
                    return one_line;
                }
            }
            if let Some(sigil) = abbreviated(entries) {
                proof {
                    lemma_entry_height(entries@, 1);
                }
                let rest = render_item(
                    &entries[1].item,
                    saturating_add(indent, width_of(sigil.as_str())),
                    options,
                    closers,
                );
                let mut out = sigil;
                push_str(&mut out, rest.as_str());
                return out;
            }
            render_broken(entries, indent, options, false, closers)
        },
    }
}

/// Whether `name` heads a declaration whose signature may drop below it.
fn is_signature(name: &str) -> (r: bool)
    ensures
        r == (name@ == "fn"@ || name@ == "lambda"@ || name@ == "extern"@),
{
    same_text(name, "fn") || same_text(name, "lambda") || same_text(name, "extern")
}

/// A form that does not fit, in the four shapes it can take.
#[verifier::spinoff_prover]
#[verifier::rlimit(60)]
fn render_broken(entries: &Vec<Entry>, indent: usize, options: &FormatOptions, arm: bool, closers: usize) -> (r: String)
    requires
        entries@.len() > 0,
    ensures
        r@ == rendered_broken(entries@, indent as int, *options, arm, closers as int),
    decreases entries_height(entries@) + 1, 1int,
{
    let ghost es = entries@;
    let ghost opts = *options;
    let head = &entries[0];
    let guard = arm && arm_head(entries) == 3;
    let groups = group(entries, 1);
    let mut out = String::new();
    push_char(&mut out, '(');
    let head_closers = if groups.len() == 0 {
        saturating_add(closers, 1)
    } else {
        0
    };
    proof {
        lemma_entry_height(entries@, 0);
    }
    let head_text = render_item(&head.item, saturating_add(indent, 1), options, head_closers);
    push_str(&mut out, head_text.as_str());
    let ghost base = out@;
    let mut c: usize = 0;
    while c < head.trailing.len()
        invariant
            c <= head.trailing@.len(),
            out@ == trailed(base, head.trailing@, c as int),
        decreases head.trailing@.len() - c,
    {
        push_char(&mut out, ' ');
        push_str(&mut out, head.trailing[c].as_str());
        c += 1;
        assert(out@ =~= trailed(base, head.trailing@, c as int));
    }
    assert(base =~= seq!['('] + head_text@);
    let ghost head_out = out@;
    let head_open = head.trailing.len() > 0;
    if groups.len() == 0 {
        close(&mut out, indent, head_open);
        return out;
    }
    let body = saturating_add(indent, options.indent_width);
    let head_name: Option<&String> = match &head.item {
        Item::Atom(text) => if head.trailing.len() == 0 {
            Some(text)
        } else {
            None
        },
        _ => None,
    };
    assert(match head_name {
        Some(name) => head_name_of(es) == Some(name@),
        None => head_name_of(es) is None,
    });
    let table = match head_name {
        Some(name) => head_line_groups(name.as_str(), entries, &groups),
        None => None,
    };
    let ghost table_spec: Option<int> = match head_name_of(es) {
        Some(name) => head_line(name, es, groups@),
        None => None,
    };
    proof {
        if head_name_of(es) is Some {
            lemma_head_line_bounded(head_name_of(es)->0, es, groups@);
        }
    }
    assert(match table_spec {
        Some(n) => table == Some(n as usize) && 0 <= n,
        None => table is None,
    });
    let last = groups.len() - 1;
    // Packing is for a form that names a list of things - an `export`, a
    // `take`, a literal. A form headed by a list is a pattern and a body, and
    // filling those onto shared lines loses the one distinction it has.
    let mut packed = table.is_none() && head_name.is_some() && !arm;
    let mut g: usize = 0;
    while packed && g < groups.len()
        invariant
            groups_within(groups@, entries.len() as int),
            g <= groups@.len(),
            packed == (table_spec is None && head_name_of(es) is Some && !arm && forall|j: int|
                0 <= j < g ==> (#[trigger] groups@[j]).len == 1 && simple(es[groups@[j].start as int].item)
                    && es[groups@[j].start as int].trailing@.len() == 0),
            es == entries@,
            table_spec is None <==> table is None,
            head_name_of(es) is Some <==> head_name is Some,
        decreases groups@.len() - g,
    {
        let lead = &entries[groups[g].start];
        if groups[g].len != 1 || !is_simple(&lead.item) || lead.trailing.len() > 0 {
            packed = false;
        }
        g += 1;
    }
    assert(packed == packs(es, groups@, table_spec, arm)) by {
        if !packed && packs(es, groups@, table_spec, arm) {
            assert(g < groups@.len() || !(table_spec is None && head_name_of(es) is Some && !arm));
        }
    }
    if packed {
        let mut column = saturating_add(indent, width_of(out.as_str()));
        let mut g: usize = 0;
        while g < groups.len()
            invariant
                groups_within(groups@, entries.len() as int),
                last == groups@.len() - 1,
                g <= groups@.len(),
                es == entries@,
                opts == *options,
                body == sat(indent as int, opts.indent_width as int),
                packed_from(es, groups@, 0, head_out, sat(indent as int, head_out.len() as int), body as int, opts, closers as int)
                    == packed_from(es, groups@, g as int, out@, column as int, body as int, opts, closers as int),
            decreases groups@.len() - g,
        {
            let tail = if g == last {
                saturating_add(closers, 1)
            } else {
                0
            };
            let ghost before = out@;
            let text = match group_flat(entries, groups[g]) {
                Some(text) => text,
                None => render_group(entries, groups[g], body, options, tail),
            };
            assert(text@ == match group_flat_of(es, groups@[g as int]) {
                Some(t) => t,
                None => group_from(es, groups@[g as int], body as int, opts, tail as int, 0, Seq::empty()),
            });
            let width = width_of(text.as_str());
            if saturating_add(saturating_add(saturating_add(column, 1), width), tail)
                > options.preferred_width {
                push_char(&mut out, '\n');
                push_str(&mut out, spaces(body).as_str());
                column = body;
                push_str(&mut out, text.as_str());
                assert(out@ =~= before + seq!['\n'] + pad(body as int) + text@);
            } else {
                push_char(&mut out, ' ');
                column = saturating_add(column, 1);
                push_str(&mut out, text.as_str());
                assert(out@ =~= before + seq![' '] + text@);
            }
            column = saturating_add(column, width);
            g += 1;
        }
        close(&mut out, indent, false);
        return out;
    }
    // Aligned under the head: only when every argument has a flat shape that
    // fits there, which is exactly when the alignment reads as one column and
    // not as a staircase.
    let mut aligned: Option<usize> = None;
    if table.is_none() {
        if let Some(name) = head_name {
            let column = saturating_add(
                saturating_add(saturating_add(indent, 1), width_of(name.as_str())),
                1,
            );
            let mut fits = true;
            let mut g: usize = 0;
            while fits && g < groups.len()
                invariant
                    groups_within(groups@, entries.len() as int),
                    last == groups@.len() - 1,
                    g <= groups@.len(),
                    es == entries@,
                    opts == *options,
                    fits == forall|j: int|
                        0 <= j < g ==> match #[trigger] group_flat_of(es, groups@[j]) {
                            Some(t) => sat(sat(column as int, t.len() as int), if j == groups@.len() - 1 {
                                sat(closers as int, 1)
                            } else {
                                0
                            }) <= opts.preferred_width,
                            None => false,
                        },
                decreases groups@.len() - g,
            {
                let tail = if g == last {
                    saturating_add(closers, 1)
                } else {
                    0
                };
                fits = match group_flat(entries, groups[g]) {
                    Some(text) => saturating_add(saturating_add(column, width_of(text.as_str())), tail)
                        <= options.preferred_width,
                    None => false,
                };
                g += 1;
            }
            assert(fits == all_fit(es, groups@, column as int, opts, closers as int)) by {
                if !fits {
                    let j = choose|j: int| 0 <= j < g && !(match #[trigger] group_flat_of(es, groups@[j]) {
                        Some(t) => sat(sat(column as int, t.len() as int), if j == groups@.len() - 1 {
                            sat(closers as int, 1)
                        } else {
                            0
                        }) <= opts.preferred_width,
                        None => false,
                    });
                }
            }
            if fits {
                aligned = Some(column);
            }
        }
    }
    let (mut kept, continuation) = if guard {
        // An arm's guard is part of the question it answers, not part of the
        // answer, so `when` and what it tests stay on the pattern's line.
        (2, body)
    } else if let Some(k) = table {
        (k, body)
    } else if let Some(column) = aligned {
        (1, column)
    } else {
        // A call whose last argument is a whole `lambda` still reads as a
        // call, so an argument that fits beside the head stays beside it and
        // only what does not fit goes below.
        let tail = if groups.len() == 1 {
            saturating_add(closers, 1)
        } else {
            0
        };
        let first = match head_name {
            Some(name) => !arm && match group_flat(entries, groups[0]) {
                Some(text) => saturating_add(
                    saturating_add(
                        saturating_add(
                            saturating_add(saturating_add(indent, 1), width_of(name.as_str())),
                            1,
                        ),
                        width_of(text.as_str()),
                    ),
                    tail,
                ) <= options.preferred_width,
                None => false,
            },
            None => false,
        };
        (if first { 1usize } else { 0usize }, body)
    };
    let ghost layout = layout_of(es, groups@, table_spec, indent as int, opts, arm, closers as int);
    assert(kept as int == layout.0 && continuation as int == layout.1);
    // A signature that does not fit its head line is not squeezed onto one:
    // the parameter list drops to the body indent, where it has the whole
    // width.
    if let Some(name) = head_name {
        if is_signature(name.as_str()) {
            let ghost k0 = kept as int;
            while kept > 1
                invariant
                    groups_within(groups@, entries.len() as int),
                    es == entries@,
                    opts == *options,
                    shrunk(es, groups@, k0, name@, indent as int, opts, closers as int) == shrunk(
                        es,
                        groups@,
                        kept as int,
                        name@,
                        indent as int,
                        opts,
                        closers as int,
                    ),
                ensures
                    kept as int == shrunk(es, groups@, k0, name@, indent as int, opts, closers as int),
                decreases kept,
            {
                let mut width = saturating_add(saturating_add(indent, 1), width_of(name.as_str()));
                if kept == groups.len() {
                    width = saturating_add(width, saturating_add(closers, 1));
                }
                let ghost width0 = width as int;
                let mut measured = true;
                let mut g: usize = 0;
                while g < kept && g < groups.len()
                    invariant
                        groups_within(groups@, entries.len() as int),
                        es == entries@,
                        measure(es, groups@, 0, kept as int, width0, true) == measure(
                            es,
                            groups@,
                            g as int,
                            kept as int,
                            width as int,
                            measured,
                        ),
                    decreases groups@.len() - g,
                {
                    match group_flat(entries, groups[g]) {
                        Some(text) => {
                            width = saturating_add(width, saturating_add(1, width_of(text.as_str())));
                        },
                        None => {
                            measured = false;
                        },
                    }
                    g += 1;
                }
                if !measured || width <= options.preferred_width {
                    break;
                }
                kept -= 1;
            }
        }
    }
    let ghost kept_spec: int = match head_name_of(es) {
        Some(name) => if name == "fn"@ || name == "lambda"@ || name == "extern"@ {
            shrunk(es, groups@, layout.0, name, indent as int, opts, closers as int)
        } else {
            layout.0
        },
        None => layout.0,
    };
    assert(kept as int == kept_spec);
    let ghost start_out = out@;
    let mut open = head_open;
    let mut g: usize = 0;
    while g < groups.len()
        invariant
            groups_within(groups@, entries.len() as int),
            last == groups@.len() - 1,
            g <= groups@.len(),
            es == entries@,
            opts == *options,
            broken_from(es, groups@, 0, start_out, head_open, kept as int, continuation as int, indent as int, opts, closers as int)
                == broken_from(es, groups@, g as int, out@, open, kept as int, continuation as int, indent as int, opts, closers as int),
        decreases groups@.len() - g,
    {
        let group = groups[g];
        let group_open = ends_open(entries, group);
        let tail = if g == last && !group_open {
            saturating_add(closers, 1)
        } else {
            0
        };
        if g < kept && !open {
            push_char(&mut out, ' ');
            let column = saturating_add(indent, last_line_width(&out));
            let text = render_group(entries, group, column, options, tail);
            push_str(&mut out, text.as_str());
        } else {
            push_char(&mut out, '\n');
            if entries[group.start].blank_before && g >= kept {
                push_char(&mut out, '\n');
            }
            push_str(&mut out, spaces(continuation).as_str());
            let text = render_group(entries, group, continuation, options, tail);
            push_str(&mut out, text.as_str());
        }
        open = group_open;
        g += 1;
    }
    close(&mut out, indent, open);
    out
}

fn render_entry(entry: &Entry, indent: usize, options: &FormatOptions) -> (r: String)
    ensures
        r@ == trailed(rendered_item(entry.item, indent as int, *options, 0), entry.trailing@, entry.trailing@.len() as int),
{
    let mut out = render_item(&entry.item, indent, options, 0);
    let ghost base = out@;
    let mut c: usize = 0;
    while c < entry.trailing.len()
        invariant
            c <= entry.trailing@.len(),
            out@ == trailed(base, entry.trailing@, c as int),
        decreases entry.trailing@.len() - c,
    {
        push_char(&mut out, ' ');
        push_str(&mut out, entry.trailing[c].as_str());
        c += 1;
        assert(out@ =~= trailed(base, entry.trailing@, c as int));
    }
    out
}

/// What lexemes are once every word is divided into its pieces.
pub open spec fn split_words(ls: Seq<crate::lexer::Lexeme>) -> Seq<crate::lexer::Lexeme>
    decreases ls.len(),
{
    if ls.len() == 0 {
        Seq::empty()
    } else {
        split_words(ls.drop_last()) + match ls.last() {
            crate::lexer::Lexeme::Word(text) => pieces_of(text).map_values(|p: Seq<char>| crate::lexer::Lexeme::Word(p)),
            other => seq![other],
        }
    }
}

proof fn lemma_split_words(tokens: Seq<crate::lexer::Token>)
    ensures
        crate::reader::split_lexemes(tokens) == split_words(crate::parser::lexemes(tokens)),
    decreases tokens.len(),
{
    if tokens.len() > 0 {
        lemma_split_words(tokens.drop_last());
        assert(crate::parser::lexemes(tokens.drop_last()) =~= crate::parser::lexemes(tokens).drop_last());
    }
}

/// What the reader makes of `source`'s lexemes.
pub open spec fn read_source(source: Seq<char>) -> (Seq<crate::lexer::Lexeme>, bool) {
    crate::reader::read_all(split_words(crate::lexer::scan(source, 0).0), 0, false)
}

/// `source` lexes, reads and parses: it describes a program.
pub open spec fn describes_a_program(source: Seq<char>) -> bool {
    &&& crate::lexer::scan(source, 0).1
    &&& read_source(source).1
    &&& crate::parser::well_nested(read_source(source).0)
}

/// The top-level entries laid out one after another, the first `k` of them.
spec fn layout_lines(es: Seq<Entry>, opts: FormatOptions, k: int) -> Seq<char>
    decreases k,
{
    if k <= 0 {
        Seq::empty()
    } else {
        layout_lines(es, opts, k - 1) + (if k - 1 > 0 {
            seq!['\n'] + if es[k - 1].blank_before {
                seq!['\n']
            } else {
                Seq::empty()
            }
        } else {
            Seq::empty()
        }) + trailed(rendered_item(es[k - 1].item, 0, opts, 0), es[k - 1].trailing@, es[k - 1].trailing@.len() as int)
    }
}

/// `syntax` is the lossless tree of `source` (see `parse_lossless`).
pub open spec fn lossless_tree(source: Seq<char>, syntax: LosslessSyntax) -> bool {
    &&& text_of(syntax.tokens@) == source
    &&& token_views(syntax.tokens@) == lossless(source, 0)
    &&& children_tokens(syntax.root.children@) == syntax.tokens@
    &&& children_grouped(syntax.root.children@, 0, syntax.root.children@.len() as int, 0)
    &&& spans_placed(source, syntax.tokens@)
}

/// `text` is the layout of `source` under `opts`: its top-level entries laid
/// out in turn, trailing white space trimmed, and one line feed.
pub closed spec fn laid_out(source: Seq<char>, opts: FormatOptions, text: Seq<char>) -> bool {
    exists|syntax: LosslessSyntax, entries: Seq<Entry>|
        #![trigger lossless_tree(source, syntax), entries_rel(syntax.root.children@, false, entries)]
        {
            &&& lossless_tree(source, syntax)
            &&& entries_rel(syntax.root.children@, false, entries)
            &&& text.len() > 0
            &&& text.last() == '\n'
            &&& trims(layout_lines(entries, opts, entries.len() as int), text.drop_last())
        }
}

/// A layout is not empty and ends in a line feed.
pub proof fn lemma_laid_out_ends(source: Seq<char>, opts: FormatOptions, text: Seq<char>)
    requires
        laid_out(source, opts, text),
    ensures
        text.len() > 0,
        text.last() == '\n',
{
}

/// `t` without the white space at its end.
pub open spec fn trim_spaces(t: Seq<char>) -> Seq<char>
    decreases t.len(),
{
    if t.len() > 0 && crate::lexer::is_space(t.last()) {
        trim_spaces(t.drop_last())
    } else {
        t
    }
}

/// The comments among lossless tokens, in order, each without the white
/// space at its end.
pub open spec fn comment_texts(v: Seq<(SyntaxKind, Seq<char>)>) -> Seq<Seq<char>>
    decreases v.len(),
{
    if v.len() == 0 {
        Seq::empty()
    } else if v.last().0 == SyntaxKind::Comment {
        comment_texts(v.drop_last()).push(trim_spaces(v.last().1))
    } else {
        comment_texts(v.drop_last())
    }
}

/// `text`, laid out from `source`, says what `source` says: it is short
/// enough to read, it describes a program, its reading is that of `source`
/// token for token (spans aside), it keeps `source`'s comments in order,
/// and laying it out again gives it back.
pub open spec fn faithful(source: Seq<char>, opts: FormatOptions, text: Seq<char>) -> bool {
    &&& text.len() <= usize::MAX / 4
    &&& describes_a_program(text)
    &&& read_source(text).0 == read_source(source).0
    &&& comment_texts(lossless(text, 0)) == comment_texts(lossless(source, 0))
    &&& laid_out(text, opts, text)
}

/// `text`, laid out from `source`, fails to say what `source` says: it is
/// too long to read, or does not describe a program, or reads otherwise,
/// or loses or changes a comment, or lays out to something else.
pub open spec fn unfaithful(source: Seq<char>, opts: FormatOptions, text: Seq<char>) -> bool {
    ||| text.len() > usize::MAX / 4
    ||| !describes_a_program(text)
    ||| read_source(text).0 != read_source(source).0
    ||| comment_texts(lossless(text, 0)) != comment_texts(lossless(source, 0))
    ||| exists|other: Seq<char>| laid_out(text, opts, other) && other != text
}

/// Lexes, expands and parses `source`, and answers the expanded tokens
/// where all three succeed.
fn program_reading(file: &str, source: &str) -> (r: Result<Vec<crate::lexer::Token>, Vec<crate::diagnostic::Diagnostic>>)
    requires
        source@.len() <= usize::MAX / 4,
    ensures
        r is Ok <==> describes_a_program(source@),
        r matches Ok(ts) ==> crate::parser::lexemes(ts@) == read_source(source@).0,
        r matches Err(errors) ==> errors@.len() > 0,
        r matches Err(errors) ==> (!crate::lexer::scan(source@, 0).1 ==> forall|k: int|
            0 <= k < errors@.len() ==> (#[trigger] errors@[k]).code@ == crate::diagnostic::codes::LEXICAL@),
        r matches Err(errors) ==> (crate::lexer::scan(source@, 0).1 && !read_source(source@).1
            ==> crate::reader::reader_codes(errors@)),
        r matches Err(errors) ==> (crate::lexer::scan(source@, 0).1 && read_source(source@).1
            ==> crate::parser::parser_codes(errors@)),
{
    let tokens = match lex(file, source) {
        Ok(tokens) => tokens,
        Err(errors) => {
            return Err(errors);
        },
    };
    proof {
        lemma_split_words(tokens@);
    }
    let semantic = match expand(file, &tokens) {
        Ok(semantic) => semantic,
        Err(errors) => {
            return Err(errors);
        },
    };
    match crate::parser::parse(file, &semantic) {
        Ok(_) => {},
        Err(errors) => {
            return Err(errors);
        },
    }
    Ok(semantic)
}

fn same_bytes(a: &Vec<u8>, b: &Vec<u8>) -> (r: bool)
    ensures
        r == (a@ == b@),
{
    if a.len() != b.len() {
        return false;
    }
    let mut i: usize = 0;
    while i < a.len()
        invariant
            i <= a@.len() == b@.len(),
            forall|j: int| 0 <= j < i ==> a@[j] == b@[j],
        decreases a@.len() - i,
    {
        if a[i] != b[i] {
            return false;
        }
        i += 1;
    }
    assert(a@ =~= b@);
    true
}

fn same_kind(a: &crate::lexer::TokenKind, b: &crate::lexer::TokenKind) -> (r: bool)
    ensures
        r == (a@ == b@),
{
    match (a, b) {
        (crate::lexer::TokenKind::LeftParen, crate::lexer::TokenKind::LeftParen) => true,
        (crate::lexer::TokenKind::RightParen, crate::lexer::TokenKind::RightParen) => true,
        (crate::lexer::TokenKind::Atom(x), crate::lexer::TokenKind::Atom(y)) => same_text(x.as_str(), y.as_str()),
        (crate::lexer::TokenKind::String(x), crate::lexer::TokenKind::String(y)) => same_bytes(x, y),
        _ => false,
    }
}

/// Whether two token lists read alike, token for token, spans aside.
fn same_lexemes(a: &Vec<crate::lexer::Token>, b: &Vec<crate::lexer::Token>) -> (r: bool)
    ensures
        r == (crate::parser::lexemes(a@) == crate::parser::lexemes(b@)),
{
    if a.len() != b.len() {
        assert(crate::parser::lexemes(a@).len() != crate::parser::lexemes(b@).len());
        return false;
    }
    let mut i: usize = 0;
    while i < a.len()
        invariant
            i <= a@.len() == b@.len(),
            forall|j: int| 0 <= j < i ==> a@[j].kind@ == b@[j].kind@,
        decreases a@.len() - i,
    {
        if !same_kind(&a[i].kind, &b[i].kind) {
            assert(crate::parser::lexemes(a@)[i as int] != crate::parser::lexemes(b@)[i as int]);
            return false;
        }
        i += 1;
    }
    assert(crate::parser::lexemes(a@) =~= crate::parser::lexemes(b@));
    true
}

/// The comments of `tokens`, each without the white space at its end.
fn comments_of(tokens: &Vec<SyntaxToken>) -> (r: Vec<Vec<char>>)
    ensures
        r@.map_values(|c: Vec<char>| c@) == comment_texts(token_views(tokens@)),
{
    let mut out: Vec<Vec<char>> = Vec::new();
    let mut k: usize = 0;
    while k < tokens.len()
        invariant
            k <= tokens@.len(),
            out@.map_values(|c: Vec<char>| c@) == comment_texts(token_views(tokens@).take(k as int)),
        decreases tokens@.len() - k,
    {
        let ghost v = token_views(tokens@);
        assert(v.take(k + 1).drop_last() =~= v.take(k as int));
        assert(v.take(k + 1).last() == v[k as int]);
        if tokens[k].kind == SyntaxKind::Comment {
            let mut cs = chars_of(tokens[k].text.as_str());
            let ghost full = cs@;
            proof {
                assert(trim_spaces(full) == trim_spaces(cs@));
            }
            while cs.len() > 0 && space(cs[cs.len() - 1])
                invariant
                    trim_spaces(full) == trim_spaces(cs@),
                decreases cs@.len(),
            {
                let ghost before = cs@;
                cs.pop();
                assert(cs@ =~= before.drop_last());
            }
            let ghost before = out@;
            out.push(cs);
            assert(out@.map_values(|c: Vec<char>| c@) =~= before.map_values(|c: Vec<char>| c@).push(trim_spaces(full)));
        }
        k += 1;
    }
    assert(token_views(tokens@).take(tokens@.len() as int) =~= token_views(tokens@));
    out
}

fn same_char_lists(a: &Vec<Vec<char>>, b: &Vec<Vec<char>>) -> (r: bool)
    ensures
        r == (a@.map_values(|c: Vec<char>| c@) == b@.map_values(|c: Vec<char>| c@)),
{
    let ghost va = a@.map_values(|c: Vec<char>| c@);
    let ghost vb = b@.map_values(|c: Vec<char>| c@);
    if a.len() != b.len() {
        assert(va.len() != vb.len());
        return false;
    }
    let mut i: usize = 0;
    while i < a.len()
        invariant
            i <= a@.len() == b@.len(),
            va == a@.map_values(|c: Vec<char>| c@),
            vb == b@.map_values(|c: Vec<char>| c@),
            forall|j: int| 0 <= j < i ==> va[j] == vb[j],
        decreases a@.len() - i,
    {
        let x = &a[i];
        let y = &b[i];
        assert(va[i as int] == x@ && vb[i as int] == y@);
        if x.len() != y.len() {
            assert(va[i as int].len() != vb[i as int].len());
            return false;
        }
        let mut j: usize = 0;
        while j < x.len()
            invariant
                j <= x@.len() == y@.len(),
                i < a@.len() == b@.len(),
                va == a@.map_values(|c: Vec<char>| c@),
                vb == b@.map_values(|c: Vec<char>| c@),
                va[i as int] == x@,
                vb[i as int] == y@,
                forall|t: int| 0 <= t < j ==> x@[t] == y@[t],
            decreases x@.len() - j,
        {
            if x[j] != y[j] {
                assert(x@[j as int] != y@[j as int]);
                assert(va[i as int] != vb[i as int]);
                return false;
            }
            j += 1;
        }
        assert(x@ =~= y@);
        i += 1;
    }
    assert(va =~= vb);
    true
}

/// Lays `source` out: its top-level entries in turn, trailing white space
/// trimmed, and one line feed.
fn layout(source: &str, options: &FormatOptions) -> (text: String)
    requires
        source@.len() <= usize::MAX / 4,
    ensures
        laid_out(source@, *options, text@),
        text@.len() > 0 && text@.last() == '\n' && (text@.len() == 1 || !crate::lexer::is_space(text@[text@.len() - 2])),
{
    let syntax = parse_lossless(source);
    let entries = entries_of(&syntax.root.children, false);
    let ghost opts = *options;
    let mut output = String::new();
    let mut k: usize = 0;
    while k < entries.len()
        invariant
            k <= entries@.len(),
            opts == *options,
            output@ == layout_lines(entries@, opts, k as int),
        decreases entries@.len() - k,
    {
        if k > 0 {
            push_char(&mut output, '\n');
            if entries[k].blank_before {
                push_char(&mut output, '\n');
            }
        }
        let text = render_entry(&entries[k], 0, options);
        push_str(&mut output, text.as_str());
        k += 1;
        assert(output@ =~= layout_lines(entries@, opts, k as int));
    }
    let mut output = trim_end(output.as_str());
    let ghost trimmed = output@;
    push_char(&mut output, '\n');
    assert(output@.drop_last() =~= trimmed);
    assert(lossless_tree(source@, syntax));
    assert(laid_out(source@, opts, output@));
    output
}

/// Whether `text`, laid out from `source` (read as `reading`, with
/// lossless tokens `tokens`), says what `source` says.
fn check_layout(
    file: &str,
    source: &str,
    tokens: &Vec<SyntaxToken>,
    reading: &Vec<crate::lexer::Token>,
    text: &String,
    options: &FormatOptions,
) -> (r: bool)
    requires
        token_views(tokens@) == lossless(source@, 0),
        crate::parser::lexemes(reading@) == read_source(source@).0,
    ensures
        r ==> faithful(source@, *options, text@),
        !r ==> unfaithful(source@, *options, text@),
{
    let n = chars_of(text.as_str()).len();
    if n > usize::MAX / 4 {
        return false;
    }
    let again = match program_reading(file, text.as_str()) {
        Ok(again) => again,
        Err(_) => {
            return false;
        },
    };
    if !same_lexemes(&again, reading) {
        return false;
    }
    let relexed = lex_lossless(text.as_str());
    if !same_char_lists(&comments_of(&relexed), &comments_of(tokens)) {
        return false;
    }
    let second = layout(text.as_str(), options);
    if !same_text(second.as_str(), text.as_str()) {
        return false;
    }
    true
}

/// Lays a source file out again from the tree the lossless parse built.
///
/// A file that does not lex, expand and parse is refused rather than
/// rewritten, with the errors that refused it. The layout is checked before
/// it is answered: it must describe the same program, token for token, keep
/// every comment in order, and be its own layout; one that would not is
/// refused with an internal error rather than answered. What comes back
/// ends in exactly one line feed, with no white space before it.
pub fn format_source(file: &str, source: &str, options: &FormatOptions) -> (r: CompileResult<String>)
    requires
        source@.len() <= usize::MAX / 4,
    ensures
        r matches Err(errors) ==> errors@.len() > 0,
        r matches Ok(text) ==> text@.len() > 0 && text@.last() == '\n' && (text@.len() == 1
            || !crate::lexer::is_space(text@[text@.len() - 2])),
        r is Ok ==> describes_a_program(source@),
        r matches Ok(text) ==> laid_out(source@, *options, text@) && faithful(source@, *options, text@),
        r matches Err(errors) ==> (!crate::lexer::scan(source@, 0).1 ==> forall|k: int|
            0 <= k < errors@.len() ==> (#[trigger] errors@[k]).code@ == crate::diagnostic::codes::LEXICAL@),
        r matches Err(errors) ==> (crate::lexer::scan(source@, 0).1 && !read_source(source@).1
            ==> crate::reader::reader_codes(errors@)),
        r matches Err(errors) ==> (crate::lexer::scan(source@, 0).1 && read_source(source@).1
            && !crate::parser::well_nested(read_source(source@).0) ==> crate::parser::parser_codes(errors@)),
        r matches Err(errors) ==> (describes_a_program(source@) ==> {
            &&& errors@.len() == 1
            &&& errors@[0].code@ == crate::diagnostic::codes::INTERNAL@
            &&& exists|text: Seq<char>| laid_out(source@, *options, text) && unfaithful(source@, *options, text)
        }),
{
    let reading = match program_reading(file, source) {
        Ok(reading) => reading,
        Err(errors) => {
            return Err(errors);
        },
    };
    let text = layout(source, options);
    let syntax_tokens = lex_lossless(source);
    if !check_layout(file, source, &syntax_tokens, &reading, &text, options) {
        let diagnostic = crate::diagnostic::Diagnostic::error(
            crate::diagnostic::codes::INTERNAL,
            file,
            Span::none(),
            "internal compiler error: the layout of this file would change what it says".to_owned(),
        );
        return Err(vec![diagnostic]);
    }
    Ok(text)
}

} // verus!
