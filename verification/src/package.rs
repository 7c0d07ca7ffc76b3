//! Packages: several module files compiled as one program.
//!
//! Analysis merges the modules into one virtual concatenation, so a span in
//! the merged program is an offset into it; what is here turns such an offset
//! back into its file, checks module names, and refuses module dependency
//! cycles.
use crate::diagnostic::{codes, last_at_or_before, Diagnostic, SourceMap, Span};
use crate::sema::{is_operator, operator_named};
use crate::mir_print::joined;
use crate::text::{push_str, same_text};
use vstd::prelude::*;
use vstd::utf8::encode_utf8;

pub mod qualified;
pub mod shift;
pub mod resolve;
pub mod rewrite;
pub mod unit;
pub mod pipeline;

verus! {

/// One module file of a package.
#[derive(Clone, Debug)]
pub struct PackageSource {
    pub path: String,
    pub namespace: Option<String>,
    pub module: String,
    pub source: String,
}

/// A package: its name, the module its program starts in, and its files.
#[derive(Clone, Debug)]
pub struct PackageInput {
    pub name: String,
    pub entry_module: String,
    pub files: Vec<PackageSource>,
}

/// How many bytes a file's source takes: what `str::len` answers.
pub open spec fn source_len(file: PackageSource) -> int {
    encode_utf8(file.source@).len() as usize as int
}

/// Where file `i` starts in the concatenation of the first `i` files, each
/// followed by one byte of its own.
pub open spec fn base_of(files: Seq<PackageSource>, i: int) -> int
    decreases i,
{
    if i <= 0 {
        0
    } else {
        base_of(files, i - 1) + source_len(files[i - 1]) + 1
    }
}

/// Where each source starts in the virtual concatenation that package
/// analysis merges the modules into.
///
/// The extra byte per file keeps the ranges from touching, so a span at the
/// very start of a module cannot be read as the end of the one before it.
pub fn source_bases(files: &[PackageSource]) -> (r: Vec<usize>)
    requires
        base_of(files@, files@.len() as int) <= usize::MAX,
    ensures
        r@.len() == files@.len(),
        forall|i: int| 0 <= i < r@.len() ==> r@[i] == base_of(files@, i),
{
    let mut r: Vec<usize> = Vec::new();
    let mut base: usize = 0;
    let mut i: usize = 0;
    while i < files.len()
        invariant
            i <= files@.len(),
            base_of(files@, files@.len() as int) <= usize::MAX,
            r@.len() == i,
            base == base_of(files@, i as int),
            forall|j: int| 0 <= j < i ==> r@[j] == base_of(files@, j),
        decreases files@.len() - i,
    {
        proof {
            lemma_bases_grow(files@, i as int + 1, files@.len() as int);
        }
        r.push(base);
        base = base + files[i].source.as_str().len() + 1;
        i += 1;
    }
    r
}

proof fn lemma_bases_grow(files: Seq<PackageSource>, i: int, j: int)
    requires
        0 <= i <= j,
    ensures
        base_of(files, i) <= base_of(files, j),
    decreases j - i,
{
    if i < j {
        lemma_bases_grow(files, i, j - 1);
        assert(source_len(files[j - 1]) >= 0);
    }
}

proof fn lemma_offset_in_its_file(files: Seq<PackageSource>, bases: Seq<usize>, i: int, offset: usize, count: int)
    requires
        0 <= i < count <= files.len(),
        bases.len() == files.len(),
        forall|k: int| 0 <= k < bases.len() ==> bases[k] == base_of(files, k),
        base_of(files, i) <= offset <= base_of(files, i) + source_len(files[i]),
    ensures
        last_at_or_before(bases, offset, count) == Some(i),
    decreases count,
{
    if count - 1 > i {
        lemma_bases_grow(files, i + 1, count - 1);
        lemma_offset_in_its_file(files, bases, i, offset, count - 1);
    }
}

/// The file each offset of a merged package belongs to.
///
/// Every offset from where a file starts to one past its last byte is found
/// in that file, the first byte included: the byte between two files keeps a
/// span at the start of one from being read as the end of the one before it.
pub fn source_map(input: &PackageInput) -> (m: SourceMap)
    requires
        base_of(input.files@, input.files@.len() as int) <= usize::MAX,
    ensures
        m.bases().len() == input.files@.len(),
        forall|i: int| 0 <= i < input.files@.len() ==> m.bases()[i] == base_of(input.files@, i),
        m.file_paths() == input.files@.map_values(|f: PackageSource| f.path@),
        forall|i: int, offset: usize|
            #![trigger m.locate(offset), base_of(input.files@, i)]
            0 <= i < input.files@.len() && base_of(input.files@, i) <= offset <= base_of(
                input.files@,
                i,
            ) + source_len(input.files@[i]) ==> m.locate(offset) == Some(i),
{
    let bases = source_bases(input.files.as_slice());
    let mut files: Vec<(usize, String)> = Vec::new();
    let mut i: usize = 0;
    while i < input.files.len()
        invariant
            i <= input.files@.len(),
            bases@.len() == input.files@.len(),
            forall|k: int| 0 <= k < bases@.len() ==> bases@[k] == base_of(input.files@, k),
            files@.len() == i,
            forall|k: int| 0 <= k < i ==> (#[trigger] files@[k]).0 == bases@[k] && files@[k].1@ == input.files@[k].path@,
        decreases input.files@.len() - i,
    {
        files.push((bases[i], input.files[i].path.clone()));
        i += 1;
    }
    let m = SourceMap::new(files);
    proof {
        let n = input.files@.len() as int;
        assert(m.bases() =~= bases@);
        assert(m.file_paths() =~= input.files@.map_values(|f: PackageSource| f.path@));
        assert forall|i: int, offset: usize|
            #![trigger m.locate(offset), base_of(input.files@, i)]
            0 <= i < n && base_of(input.files@, i) <= offset <= base_of(input.files@, i) + source_len(
                input.files@[i],
            ) implies m.locate(offset) == Some(i) by {
            lemma_offset_in_its_file(input.files@, bases@, i, offset, n);
        }
    }
    m
}

/// A character a module name segment may hold: an ASCII letter or digit,
/// `_` or `-`.
pub open spec fn module_name_char(c: char) -> bool {
    ('a' <= c <= 'z') || ('A' <= c <= 'Z') || ('0' <= c <= '9') || c == '_' || c == '-'
}

/// A module name: one or more segments joined by `:`, each segment one or
/// more of the characters `module_name_char` allows.
pub open spec fn module_name(name: Seq<char>) -> bool {
    &&& name.len() > 0
    &&& forall|i: int| 0 <= i < name.len() ==> module_name_char(#[trigger] name[i]) || name[i] == ':'
    &&& name[0] != ':'
    &&& name.last() != ':'
    &&& forall|i: int| 0 <= i < name.len() - 1 && #[trigger] name[i] == ':' ==> name[i + 1] != ':'
}

/// Whether `name` is a module name.
pub fn valid_module_name(name: &str) -> (r: bool)
    ensures
        r == module_name(name@),
{
    let chars = crate::lexer::chars_of(name);
    if chars.len() == 0 {
        return false;
    }
    let mut i: usize = 0;
    while i < chars.len()
        invariant
            chars@ == name@,
            chars@.len() > 0,
            i <= chars@.len(),
            forall|j: int| 0 <= j < i ==> module_name_char(#[trigger] chars@[j]) || chars@[j] == ':',
            i > 0 ==> chars@[0] != ':',
            forall|j: int| 0 <= j < i - 1 && #[trigger] chars@[j] == ':' ==> chars@[j + 1] != ':',
            forall|j: int| 0 <= j < i && #[trigger] chars@[j] == ':' ==> j + 1 < chars@.len(),
        decreases chars@.len() - i,
    {
        let c = chars[i];
        if c == ':' {
            if i == 0 || i + 1 == chars.len() || chars[i - 1] == ':' {
                return false;
            }
        } else if !(('a' <= c && c <= 'z') || ('A' <= c && c <= 'Z') || ('0' <= c && c <= '9')
            || c == '_' || c == '-') {
            return false;
        }
        i += 1;
    }
    assert(chars@.last() == chars@[chars@.len() - 1]);
    true
}

/// Whether a name in head position belongs to the language rather than to a
/// module: an operator, or one of the built-in operations on values.
pub open spec fn builtin_named(name: Seq<char>) -> bool {
    ||| operator_named(name) is Some
    ||| name == "clone"@ || name == "list"@ || name == "array"@ || name == "slice"@ || name == "len"@
    ||| name == "push"@ || name == "get"@ || name == "get-ref"@ || name == "pop"@ || name == "remove"@
    ||| name == "replace"@ || name == "."@ || name == "volatile-read"@ || name == "volatile-write"@
    ||| name == "ptr-offset"@
}

/// Whether a name in head position belongs to the language rather than to a
/// module.
pub fn is_builtin(name: &str) -> (r: bool)
    ensures
        r == builtin_named(name@),
{
    is_operator(name) || same_text(name, "clone") || same_text(name, "list") || same_text(name, "array")
        || same_text(name, "slice") || same_text(name, "len") || same_text(name, "push")
        || same_text(name, "get") || same_text(name, "get-ref") || same_text(name, "pop")
        || same_text(name, "remove") || same_text(name, "replace") || same_text(name, ".")
        || same_text(name, "volatile-read") || same_text(name, "volatile-write") || same_text(
        name,
        "ptr-offset",
    )
}

// ---------------------------------------------------------- module names

/// The full name of a file's module: `namespace:module` where it has a
/// namespace.
pub open spec fn full_module(f: PackageSource) -> Seq<char> {
    match f.namespace {
        Some(ns) => ns@ + seq![':'] + f.module@,
        None => f.module@,
    }
}

/// Checking the module names of `files`, in order: which names are taken
/// and by the path of which file, which files keep their module, and what
/// is reported (file, message, note). A name that is not a module name is
/// refused; so is a module a file before defined, with that file's path.
pub open spec fn identities(
    files: Seq<PackageSource>,
) -> (Map<Seq<char>, Seq<char>>, Seq<int>, Seq<(Seq<char>, Seq<char>, Option<Seq<char>>)>)
    decreases files.len(),
{
    if files.len() == 0 {
        (Map::empty(), seq![], seq![])
    } else {
        let (seen, kept, rs) = identities(files.drop_last());
        let f = files.last();
        let name = full_module(f);
        if !module_name(name) {
            (seen, kept, rs.push((f.path@, "invalid module identity `"@ + name + "`"@, None)))
        } else if seen.dom().contains(name) {
            (
                seen.insert(name, f.path@),
                kept,
                rs.push((f.path@, "module `"@ + name + "` is defined by more than one file"@, Some("the other source is `"@ + seen[name] + "`"@))),
            )
        } else {
            (seen.insert(name, f.path@), kept.push(files.len() - 1), rs)
        }
    }
}

/// `d` is an error of the module kind in file `r.0` at no span saying
/// `r.1`, with the note `r.2` where one is given and nothing else attached.
pub open spec fn shows_identity(d: Diagnostic, r: (Seq<char>, Seq<char>, Option<Seq<char>>)) -> bool {
    &&& d.code@ == codes::MODULE@
    &&& d.file@ == r.0
    &&& d.span == crate::diagnostic::no_span()
    &&& d.message@ == r.1
    &&& d.labels@.len() == 0
    &&& match r.2 {
        None => d.notes@.len() == 0,
        Some(n) => d.notes@.len() == 1 && d.notes@[0]@ == n,
    }
    &&& d.help is None
    &&& d.suggestions@.len() == 0
}

/// Checks the module of each file of a package: its full name must be a
/// module name, no two files may define one module, and the entry module
/// must be one of them. Answers the files whose modules stand, in order.
pub fn check_module_identities(input: &PackageInput, diagnostics: &mut Vec<Diagnostic>) -> (kept: Vec<usize>)
    ensures
        ({
            let (seen, ks, rs) = identities(input.files@);
            let entry_missing = !seen.dom().contains(input.entry_module@);
            &&& kept@.len() == ks.len()
            &&& forall|i: int| 0 <= i < ks.len() ==> kept@[i] == ks[i]
            &&& final(diagnostics)@.len() == old(diagnostics)@.len() + rs.len() + if entry_missing { 1int } else { 0int }
            &&& final(diagnostics)@.take(old(diagnostics)@.len() as int) == old(diagnostics)@
            &&& forall|j: int| 0 <= j < rs.len() ==> shows_identity(#[trigger] final(diagnostics)@[old(diagnostics)@.len() + j], rs[j])
            &&& entry_missing ==> shows_identity(
                final(diagnostics)@.last(),
                (input.name@, "entry module `"@ + input.entry_module@ + "` does not exist"@, None),
            )
        }),
{
    let ghost files = input.files@;
    let ghost d0 = diagnostics@;
    let mut seen: Vec<(String, String)> = Vec::new();
    let mut kept: Vec<usize> = Vec::new();
    proof {
        assert(files.take(0) =~= seq![]);
        assert(d0.take(d0.len() as int) =~= d0);
        assert(crate::names::bindings(seen@) =~= Map::empty());
    }
    let mut k: usize = 0;
    while k < input.files.len()
        invariant
            files == input.files@,
            k <= files.len(),
            crate::names::distinct_names(seen@),
            ({
                let (s, ks, rs) = identities(files.take(k as int));
                &&& crate::names::bindings(seen@) == s
                &&& kept@.len() == ks.len()
                &&& forall|i: int| 0 <= i < ks.len() ==> kept@[i] == ks[i]
                &&& forall|i: int| 0 <= i < ks.len() ==> ks[i] < k
                &&& diagnostics@.len() == d0.len() + rs.len()
                &&& diagnostics@.take(d0.len() as int) == d0
                &&& forall|j: int| 0 <= j < rs.len() ==> shows_identity(#[trigger] diagnostics@[d0.len() + j], rs[j])
            }),
        decreases files.len() - k,
    {
        assert(files.take(k + 1).drop_last() =~= files.take(k as int));
        assert(files.take(k + 1).last() == files[k as int]);
        let ghost before = diagnostics@;
        let ghost old_kept = kept@;
        let source = &input.files[k];
        let full = match &source.namespace {
            Some(namespace) => resolve::qualify(namespace.as_str(), source.module.as_str()),
            None => source.module.clone(),
        };
        assert(full@ == full_module(files[k as int]));
        if !valid_module_name(full.as_str()) {
            let mut message = String::new();
            push_str(&mut message, "invalid module identity `");
            push_str(&mut message, full.as_str());
            push_str(&mut message, "`");
            diagnostics.push(Diagnostic::error(codes::MODULE, source.path.as_str(), Span::none(), message));
        } else {
            let previous = crate::names::lookup(&seen, full.as_str());
            crate::names::bind(&mut seen, full.as_str(), source.path.clone());
            match previous {
                Some(previous) => {
                    let mut message = String::new();
                    push_str(&mut message, "module `");
                    push_str(&mut message, full.as_str());
                    push_str(&mut message, "` is defined by more than one file");
                    let mut note = String::new();
                    push_str(&mut note, "the other source is `");
                    push_str(&mut note, previous.as_str());
                    push_str(&mut note, "`");
                    diagnostics.push(
                        Diagnostic::error(codes::MODULE, source.path.as_str(), Span::none(), message).with_note(note),
                    );
                },
                None => {
                    kept.push(k);
                },
            }
        }
        proof {
            let (s, ks, rs) = identities(files.take(k + 1));
            assert(diagnostics@.take(d0.len() as int) =~= d0) by {
                assert forall|i: int| 0 <= i < d0.len() implies diagnostics@[i] == d0[i] by {
                    assert(before.take(d0.len() as int)[i] == d0[i]);
                }
            }
            assert forall|j: int| 0 <= j < rs.len() implies shows_identity(#[trigger] diagnostics@[d0.len() + j], rs[j]) by {
                let (s0, ks0, rs0) = identities(files.take(k as int));
                if j < rs0.len() {
                    assert(diagnostics@[d0.len() + j] == before[d0.len() + j]);
                }
            }
        }
        k += 1;
    }
    assert(files.take(files.len() as int) =~= files);
    if crate::names::lookup(&seen, input.entry_module.as_str()).is_none() {
        let ghost before = diagnostics@;
        let mut message = String::new();
        push_str(&mut message, "entry module `");
        push_str(&mut message, input.entry_module.as_str());
        push_str(&mut message, "` does not exist");
        diagnostics.push(Diagnostic::error(codes::MODULE, input.name.as_str(), Span::none(), message));
        proof {
            let (s, ks, rs) = identities(files);
            assert(diagnostics@.take(d0.len() as int) =~= d0) by {
                assert forall|i: int| 0 <= i < d0.len() implies diagnostics@[i] == d0[i] by {
                    assert(before.take(d0.len() as int)[i] == d0[i]);
                }
            }
            assert forall|j: int| 0 <= j < rs.len() implies shows_identity(#[trigger] diagnostics@[d0.len() + j], rs[j]) by {
                assert(diagnostics@[d0.len() + j] == before[d0.len() + j]);
            }
        }
    }
    kept
}

// ------------------------------------------------------------------ cycles

/// The module graph: for each module, the modules it depends on.
pub open spec fn graph(edges: Seq<Vec<usize>>) -> Seq<Seq<usize>> {
    edges.map_values(|targets: Vec<usize>| targets@)
}

/// Every edge of `g` leads to a module of `g`.
pub open spec fn edges_in_range(g: Seq<Seq<usize>>) -> bool {
    forall|u: int, k: int| 0 <= u < g.len() && 0 <= k < g[u].len() ==> #[trigger] g[u][k] < g.len()
}

/// A walk along the edges of `g` that ends where it began.
pub open spec fn is_cycle(g: Seq<Seq<usize>>, path: Seq<usize>) -> bool {
    &&& path.len() >= 2
    &&& path[0] == path.last()
    &&& forall|k: int| 0 <= k < path.len() ==> #[trigger] path[k] < g.len()
    &&& forall|k: int| 0 <= k < path.len() - 1 ==> g[#[trigger] path[k] as int].contains(path[k + 1])
}

/// Whether some modules of `g` depend on each other in a circle.
pub open spec fn has_cycle(g: Seq<Seq<usize>>) -> bool {
    exists|path: Seq<usize>| is_cycle(g, path)
}

/// How many modules the search has not reached yet.
spec fn whites(state: Seq<u8>) -> nat
    decreases state.len(),
{
    if state.len() == 0 {
        0
    } else {
        whites(state.drop_last()) + if state.last() == 0 { 1nat } else { 0nat }
    }
}

proof fn lemma_whites_shrink(before: Seq<u8>, after: Seq<u8>, j: int)
    requires
        before.len() == after.len(),
        forall|v: int| 0 <= v < after.len() && after[v] == 0 ==> before[v] == 0,
    ensures
        whites(after) <= whites(before),
        0 <= j < before.len() && before[j] == 0 && after[j] != 0 ==> whites(after) < whites(before),
    decreases before.len(),
{
    if before.len() > 0 {
        let n = before.len() - 1;
        lemma_whites_shrink(before.drop_last(), after.drop_last(), if j < n { j } else { -1 });
    }
}

/// What holds between steps of the search. A module is white (0) until the
/// search reaches it, gray (1) while it is on the stack, and black (2) once
/// everything it reaches has been searched; every edge out of a black module
/// leads to a black module finished earlier, which is what rules out a
/// cycle among them.
spec fn searching(g: Seq<Seq<usize>>, state: Seq<u8>, stack: Seq<usize>, ranks: Seq<int>, clock: int) -> bool {
    &&& state.len() == g.len()
    &&& ranks.len() == g.len()
    &&& edges_in_range(g)
    &&& forall|v: int| 0 <= v < g.len() ==> #[trigger] state[v] <= 2
    &&& forall|v: usize| v < g.len() ==> (state[v as int] == 1 <==> #[trigger] stack.contains(v))
    &&& forall|k: int| 0 <= k < stack.len() ==> #[trigger] stack[k] < g.len()
    &&& forall|k: int| 0 <= k < stack.len() - 1 ==> g[#[trigger] stack[k] as int].contains(stack[k + 1])
    &&& forall|u: int| 0 <= u < g.len() && #[trigger] state[u] == 2 ==> ranks[u] < clock
    &&& forall|u: int, k: int|
        0 <= u < g.len() && state[u] == 2 && 0 <= k < g[u].len() ==> state[#[trigger] g[u][k] as int] == 2
            && ranks[g[u][k] as int] < ranks[u]
}

proof fn lemma_push_contains(s: Seq<usize>, x: usize, v: usize)
    ensures
        s.push(x).contains(v) <==> (s.contains(v) || v == x),
{
    if s.contains(v) {
        let k = choose|k: int| 0 <= k < s.len() && s[k] == v;
        assert(s.push(x)[k] == v);
    }
    if v == x {
        assert(s.push(x)[s.len() as int] == v);
    }
    if s.push(x).contains(v) {
        let k = choose|k: int| 0 <= k < s.push(x).len() && s.push(x)[k] == v;
        if k < s.len() {
            assert(s[k] == v);
        }
    }
}

proof fn lemma_ranks_fall(g: Seq<Seq<usize>>, ranks: Seq<int>, path: Seq<usize>, m: int)
    requires
        is_cycle(g, path),
        ranks.len() == g.len(),
        forall|u: int, k: int| 0 <= u < g.len() && 0 <= k < g[u].len() ==> ranks[#[trigger] g[u][k] as int] < ranks[u],
        1 <= m < path.len(),
    ensures
        ranks[path[m] as int] < ranks[path[0] as int],
    decreases m,
{
    let u = path[m - 1] as int;
    assert(g[u].contains(path[m]));
    let k = choose|k: int| 0 <= k < g[u].len() && g[u][k] == path[m];
    assert(ranks[g[u][k] as int] < ranks[u]);
    if m > 1 {
        lemma_ranks_fall(g, ranks, path, m - 1);
    }
}

/// A graph whose every edge goes from a higher rank to a lower one has no
/// cycle.
proof fn lemma_ranked_is_acyclic(g: Seq<Seq<usize>>, ranks: Seq<int>)
    requires
        ranks.len() == g.len(),
        forall|u: int, k: int| 0 <= u < g.len() && 0 <= k < g[u].len() ==> ranks[#[trigger] g[u][k] as int] < ranks[u],
    ensures
        !has_cycle(g),
{
    if has_cycle(g) {
        let path = choose|path: Seq<usize>| is_cycle(g, path);
        lemma_ranks_fall(g, ranks, path, path.len() - 1);
    }
}

/// Searches depth first from `node`, which the search has not reached yet.
/// Answers a cycle as soon as an edge leads back to a module on the stack;
/// otherwise leaves `node` black and everything else as the search found it.
fn visit(
    node: usize,
    edges: &Vec<Vec<usize>>,
    state: &mut Vec<u8>,
    stack: &mut Vec<usize>,
    ranks: &mut Ghost<Seq<int>>,
    clock: &mut Ghost<int>,
) -> (r: Option<Vec<usize>>)
    requires
        searching(graph(edges@), old(state)@, old(stack)@, old(ranks)@, old(clock)@),
        node < edges@.len(),
        old(state)@[node as int] == 0,
        old(stack)@.len() > 0 ==> graph(edges@)[old(stack)@.last() as int].contains(node),
    ensures
        final(state)@.len() == old(state)@.len(),
        forall|v: int| 0 <= v < final(state)@.len() && final(state)@[v] == 0 ==> old(state)@[v] == 0,
        r matches Some(cycle) ==> is_cycle(graph(edges@), cycle@),
        r is None ==> {
            &&& searching(graph(edges@), final(state)@, final(stack)@, final(ranks)@, final(clock)@)
            &&& final(stack)@ == old(stack)@
            &&& final(state)@[node as int] == 2
            &&& forall|v: int| 0 <= v < old(state)@.len() && old(state)@[v] != 0 ==> #[trigger] final(state)@[v] == old(state)@[v]
            &&& forall|v: int| 0 <= v < old(state)@.len() && old(state)@[v] == 2 ==> #[trigger] final(ranks)@[v] == old(ranks)@[v]
            &&& final(clock)@ >= old(clock)@
        },
    decreases whites(old(state)@),
{
    let ghost g = graph(edges@);
    let ghost entry_state = state@;
    let ghost entry_stack = stack@;
    let ghost entry_ranks = ranks@;
    let ghost entry_clock = clock@;
    state.set(node, 1);
    stack.push(node);
    proof {
        lemma_whites_shrink(entry_state, state@, node as int);
        assert forall|v: usize| v < g.len() implies (state@[v as int] == 1 <==> #[trigger] stack@.contains(v)) by {
            lemma_push_contains(entry_stack, node, v);
        }
        assert forall|k: int| 0 <= k < stack@.len() - 1 implies g[#[trigger] stack@[k] as int].contains(stack@[k + 1]) by {
            if k < stack@.len() - 2 {
                assert(entry_stack[k] == stack@[k] && entry_stack[k + 1] == stack@[k + 1]);
            } else {
                assert(stack@[k] == entry_stack.last());
            }
        }
    }
    let targets = &edges[node];
    let mut k: usize = 0;
    while k < targets.len()
        invariant
            g == graph(edges@),
            targets@ == g[node as int],
            node < g.len(),
            k <= targets@.len(),
            searching(g, state@, stack@, ranks@, clock@),
            stack@ == entry_stack.push(node),
            state@.len() == entry_state.len(),
            state@[node as int] == 1,
            entry_state[node as int] == 0,
            forall|v: int| 0 <= v < entry_state.len() && entry_state[v] != 0 ==> #[trigger] state@[v] == entry_state[v],
            forall|v: int| 0 <= v < state@.len() && state@[v] == 0 ==> entry_state[v] == 0,
            forall|v: int| 0 <= v < entry_state.len() && entry_state[v] == 2 ==> #[trigger] ranks@[v] == entry_ranks[v],
            clock@ >= entry_clock,
            forall|j: int| 0 <= j < k ==> state@[#[trigger] targets@[j] as int] == 2,
            whites(state@) < whites(entry_state),
            entry_state == old(state)@,
        decreases targets@.len() - k,
    {
        let next = targets[k];
        assert(next < g.len());
        if state[next] == 0 {
            assert(stack@.last() == node);
            assert(g[node as int].contains(next));
            let ghost before = state@;
            match visit(next, edges, state, stack, ranks, clock) {
                Some(cycle) => {
                    return Some(cycle);
                },
                None => {},
            }
            proof {
                lemma_whites_shrink(before, state@, -1);
                assert forall|j: int| 0 <= j <= k implies state@[#[trigger] targets@[j] as int] == 2 by {
                    if j < k {
                        assert(before[targets@[j] as int] == 2);
                    }
                }
            }
        } else if state[next] == 1 {
            assert(stack@.contains(next));
            let mut start: usize = 0;
            while start < stack.len() && stack[start] != next
                invariant
                    start <= stack@.len(),
                    forall|j: int| 0 <= j < start ==> stack@[j] != next,
                decreases stack@.len() - start,
            {
                start += 1;
            }
            proof {
                let j = choose|j: int| 0 <= j < stack@.len() && stack@[j] == next;
                assert(start < stack@.len());
            }
            let mut cycle: Vec<usize> = Vec::new();
            let mut s: usize = start;
            while s < stack.len()
                invariant
                    start <= s <= stack@.len(),
                    cycle@ == stack@.subrange(start as int, s as int),
                decreases stack@.len() - s,
            {
                cycle.push(stack[s]);
                s += 1;
                assert(cycle@ =~= stack@.subrange(start as int, s as int));
            }
            cycle.push(next);
            proof {
                let c = cycle@;
                assert(c =~= stack@.subrange(start as int, stack@.len() as int).push(next));
                assert(stack@.last() == node);
                assert(g[node as int].contains(next));
                assert forall|j: int| 0 <= j < c.len() - 1 implies g[#[trigger] c[j] as int].contains(c[j + 1]) by {
                    if j < c.len() - 2 {
                        assert(c[j] == stack@[start + j] && c[j + 1] == stack@[start + j + 1]);
                    } else {
                        assert(c[j] == stack@[stack@.len() - 1]);
                    }
                }
                assert forall|j: int| 0 <= j < c.len() implies #[trigger] c[j] < g.len() by {
                    if j < c.len() - 1 {
                        assert(c[j] == stack@[start + j]);
                    }
                }
            }
            return Some(cycle);
        }
        k += 1;
    }
    stack.pop();
    state.set(node, 2);
    proof {
        ranks@ = ranks@.update(node as int, clock@);
        clock@ = clock@ + 1;
    }
    proof {
        assert(stack@ =~= entry_stack);
        assert forall|v: usize| v < g.len() implies (state@[v as int] == 1 <==> #[trigger] stack@.contains(v)) by {
            lemma_push_contains(entry_stack, node, v);
            assert(entry_state[node as int] == 0);
        }
        assert forall|u: int, j: int|
            0 <= u < g.len() && state@[u] == 2 && 0 <= j < g[u].len() implies state@[#[trigger] g[u][j] as int] == 2
                && ranks@[g[u][j] as int] < ranks@[u] by {
            if u == node as int {
                assert(targets@[j] == g[u][j]);
            }
        }
        lemma_whites_shrink(entry_state, state@, node as int);
    }
    None
}

/// The first module dependency cycle a depth-first search meets, searching
/// from each module in turn, with the module the search started from.
///
/// `None` exactly when the modules depend on each other in no circle.
pub fn find_cycle(edges: &Vec<Vec<usize>>) -> (r: Option<(usize, Vec<usize>)>)
    requires
        edges_in_range(graph(edges@)),
    ensures
        r matches Some((root, cycle)) ==> root < edges@.len() && is_cycle(graph(edges@), cycle@),
        r is None <==> !has_cycle(graph(edges@)),
{
    let ghost g = graph(edges@);
    let n = edges.len();
    let mut state: Vec<u8> = Vec::new();
    while state.len() < n
        invariant
            state@.len() <= n,
            n == edges@.len(),
            forall|v: int| 0 <= v < state@.len() ==> state@[v] == 0,
        decreases n - state@.len(),
    {
        state.push(0);
    }
    let mut ranks: Ghost<Seq<int>> = Ghost(Seq::new(n as nat, |_v: int| 0int));
    let mut clock: Ghost<int> = Ghost(0int);
    let mut node: usize = 0;
    while node < n
        invariant
            g == graph(edges@),
            n == g.len(),
            node <= n,
            searching(g, state@, Seq::empty(), ranks@, clock@),
            forall|v: int| 0 <= v < node ==> #[trigger] state@[v] == 2,
            forall|v: int| 0 <= v < n ==> #[trigger] state@[v] != 1,
        decreases n - node,
    {
        if state[node] == 0 {
            let mut stack: Vec<usize> = Vec::new();
            let ghost before = state@;
            match visit(node, edges, &mut state, &mut stack, &mut ranks, &mut clock) {
                Some(cycle) => {
                    proof {
                        assert(has_cycle(g));
                    }
                    return Some((node, cycle));
                },
                None => {},
            }
            proof {
                assert(stack@ =~= Seq::<usize>::empty());
                assert forall|v: int| 0 <= v < n implies #[trigger] state@[v] != 1 by {
                    if state@[v] == 1 {
                        assert(stack@.contains(v as usize));
                    }
                }
            }
        }
        node += 1;
    }
    proof {
        assert forall|u: int, k: int| 0 <= u < g.len() && 0 <= k < g[u].len() implies ranks@[#[trigger] g[u][k] as int] < ranks@[u] by {
            assert(state@[u] == 2);
        }
        lemma_ranked_is_acyclic(g, ranks@);
    }
    None
}

/// How a cycle of modules is written: their names, joined by ` -> `.
pub open spec fn cycle_text(modules: Seq<String>, cycle: Seq<usize>) -> Seq<char> {
    joined(cycle.map_values(|m: usize| modules[m as int]@), " -> "@)
}

/// `d` reports `cycle`, found by a search that started from module `root`.
pub open spec fn reports_cycle(
    d: Diagnostic,
    modules: Seq<String>,
    paths: Seq<String>,
    g: Seq<Seq<usize>>,
    root: int,
    cycle: Seq<usize>,
) -> bool {
    &&& 0 <= root < g.len()
    &&& is_cycle(g, cycle)
    &&& d.code@ == codes::MODULE@
    &&& d.file@ == paths[root]@
    &&& d.span == crate::diagnostic::no_span()
    &&& d.message@ == "module dependency cycle: "@ + cycle_text(modules, cycle)
    &&& d.help matches Some(h) && h@ == "move shared declarations into a third acyclic module"@
}

/// Reports a module dependency cycle, if there is one, against the file of
/// the module the search that found it started from.
pub fn reject_cycles(
    modules: &Vec<String>,
    paths: &Vec<String>,
    edges: &Vec<Vec<usize>>,
    diagnostics: &mut Vec<Diagnostic>,
)
    requires
        modules@.len() == edges@.len(),
        paths@.len() == edges@.len(),
        edges_in_range(graph(edges@)),
    ensures
        !has_cycle(graph(edges@)) ==> final(diagnostics)@ == old(diagnostics)@,
        has_cycle(graph(edges@)) ==> {
            &&& final(diagnostics)@.len() == old(diagnostics)@.len() + 1
            &&& final(diagnostics)@.drop_last() == old(diagnostics)@
            &&& exists|root: int, cycle: Seq<usize>|
                #[trigger] reports_cycle(final(diagnostics)@.last(), modules@, paths@, graph(edges@), root, cycle)
        },
{
    match find_cycle(edges) {
        None => {},
        Some((root, cycle)) => {
            let mut message = String::new();
            push_str(&mut message, "module dependency cycle: ");
            let ghost start = message@;
            let ghost parts = cycle@.map_values(|m: usize| modules@[m as int]@);
            let mut i: usize = 0;
            while i < cycle.len()
                invariant
                    i <= cycle@.len(),
                    is_cycle(graph(edges@), cycle@),
                    modules@.len() == edges@.len(),
                    parts == cycle@.map_values(|m: usize| modules@[m as int]@),
                    message@ == start + joined(parts.subrange(0, i as int), " -> "@),
                decreases cycle@.len() - i,
            {
                proof {
                    crate::mir_print::lemma_joined_step(parts, " -> "@, i as int);
                }
                if i > 0 {
                    push_str(&mut message, " -> ");
                }
                push_str(&mut message, modules[cycle[i]].as_str());
                i += 1;
                assert(message@ =~= start + joined(parts.subrange(0, i as int), " -> "@));
            }
            assert(parts.subrange(0, cycle@.len() as int) =~= parts);
            let help = "move shared declarations into a third acyclic module".to_owned();
            let diagnostic = Diagnostic::error(codes::MODULE, paths[root].as_str(), Span::none(), message).with_help(help);
            diagnostics.push(diagnostic);
            proof {
                assert(final(diagnostics)@.drop_last() =~= old(diagnostics)@);
                let d = diagnostics@.last();
                assert(d.message@ == "module dependency cycle: "@ + cycle_text(modules@, cycle@));
                assert(reports_cycle(d, modules@, paths@, graph(edges@), root as int, cycle@));
            }
        },
    }
}

} // verus!
