//! Names across the modules of a package: what each module declares, exports
//! and takes, and the canonical name that a name written in a module means.
//!
//! A module is known by its full name, `namespace:module` where it has a
//! namespace. A declaration's canonical name is `module:name`, except the
//! entry module's `main`, which stays `main`.
use crate::ast::{ImportItem, TakeDecl};
use crate::diagnostic::{codes, Applicability, Diagnostic, Span};
use crate::lexer::chars_of;
use crate::names::{
    bind, bindings, distinct_names, find_name, lemma_table, lemma_table_push, lemma_table_update, lookup,
    table,
};
use crate::text::{push_char, push_str, same_text};
use vstd::prelude::*;

verus! {

// ----------------------------------------------------------------- modules

/// `module` followed by `:` begins `path`.
pub open spec fn heads(module: Seq<char>, path: Seq<char>) -> bool {
    &&& path.len() > module.len()
    &&& path.take(module.len() as int) == module
    &&& path[module.len() as int] == ':'
}

/// Module `i` is the longest of `modules` that begins `path`.
pub open spec fn longest_head(modules: Seq<String>, path: Seq<char>, i: int) -> bool {
    &&& 0 <= i < modules.len()
    &&& heads(modules[i]@, path)
    &&& forall|j: int| 0 <= j < modules.len() && heads(#[trigger] modules[j]@, path) ==> modules[j]@.len() <= modules[i]@.len()
}

/// The module a qualified `path` names: the longest module that begins it.
pub open spec fn module_of(modules: Seq<String>, path: Seq<char>) -> Option<int> {
    if exists|i: int| longest_head(modules, path, i) {
        Some(choose|i: int| longest_head(modules, path, i))
    } else {
        None
    }
}

/// No module name occurs twice.
pub open spec fn distinct_modules(modules: Seq<String>) -> bool {
    forall|i: int, j: int| 0 <= i < j < modules.len() ==> modules[i]@ != modules[j]@
}

/// `name` is one of `modules`.
pub open spec fn is_module(modules: Seq<String>, name: Seq<char>) -> bool {
    exists|i: int| 0 <= i < modules.len() && modules[i]@ == name
}

/// Of distinct modules, at most one is the longest to begin a path.
proof fn lemma_longest_unique(modules: Seq<String>, path: Seq<char>, i: int, j: int)
    requires
        distinct_modules(modules),
        longest_head(modules, path, i),
        longest_head(modules, path, j),
    ensures
        i == j,
{
    assert(heads(modules[j]@, path) && heads(modules[i]@, path));
    assert(modules[i]@.len() == modules[j]@.len());
    assert(modules[i]@ =~= modules[j]@) by {
        assert(modules[i]@ == path.take(modules[i]@.len() as int));
    }
    if i < j {
        assert(modules[i]@ != modules[j]@);
    } else if j < i {
        assert(modules[j]@ != modules[i]@);
    }
}

/// Whether `module` followed by `:` begins `path`.
fn is_head(module: &str, path: &Vec<char>) -> (r: bool)
    ensures
        r == heads(module@, path@),
{
    let m = chars_of(module);
    if path.len() <= m.len() {
        return false;
    }
    let mut k: usize = 0;
    while k < m.len()
        invariant
            m@ == module@,
            m@.len() < path@.len(),
            k <= m@.len(),
            forall|j: int| 0 <= j < k ==> path@[j] == m@[j],
        decreases m@.len() - k,
    {
        if path[k] != m[k] {
            assert(path@.take(m@.len() as int)[k as int] != m@[k as int]);
            return false;
        }
        k += 1;
    }
    assert(path@.take(m@.len() as int) =~= m@);
    path[m.len()] == ':'
}

/// The module a qualified `path` names: of the modules that, followed by
/// `:`, begin it, the longest.
pub fn longest_module_prefix(path: &str, modules: &Vec<String>) -> (r: Option<usize>)
    requires
        distinct_modules(modules@),
    ensures
        r matches Some(i) ==> module_of(modules@, path@) == Some(i as int),
        r is None ==> module_of(modules@, path@) is None,
{
    let cs = chars_of(path);
    let mut best: Option<usize> = None;
    let mut i: usize = 0;
    while i < modules.len()
        invariant
            cs@ == path@,
            i <= modules@.len(),
            best matches Some(b) ==> b < i && heads(modules@[b as int]@, path@) && forall|j: int|
                0 <= j < i && heads(#[trigger] modules@[j]@, path@) ==> modules@[j]@.len() <= modules@[b as int]@.len(),
            best is None ==> forall|j: int| 0 <= j < i ==> !heads(#[trigger] modules@[j]@, path@),
        decreases modules@.len() - i,
    {
        if is_head(modules[i].as_str(), &cs) {
            match best {
                Some(b) => {
                    if width(&modules[i]) > width(&modules[b]) {
                        best = Some(i);
                    }
                },
                None => {
                    best = Some(i);
                },
            }
        }
        i += 1;
    }
    proof {
        match best {
            Some(b) => {
                assert(longest_head(modules@, path@, b as int));
                let c = choose|c: int| longest_head(modules@, path@, c);
                lemma_longest_unique(modules@, path@, b as int, c);
            },
            None => {
                assert(!exists|c: int| longest_head(modules@, path@, c));
            },
        }
    }
    best
}

/// How many characters `s` has.
fn width(s: &String) -> (n: usize)
    ensures
        n == s@.len(),
{
    crate::text::width_of(s.as_str())
}

/// Where `name` is among `modules`.
pub fn module_index(modules: &Vec<String>, name: &str) -> (r: Option<usize>)
    ensures
        r matches Some(i) ==> i < modules@.len() && modules@[i as int]@ == name@,
        r is None ==> !is_module(modules@, name@),
{
    let mut i: usize = 0;
    while i < modules.len()
        invariant
            i <= modules@.len(),
            forall|j: int| 0 <= j < i ==> modules@[j]@ != name@,
        decreases modules@.len() - i,
    {
        if same_text(modules[i].as_str(), name) {
            return Some(i);
        }
        i += 1;
    }
    None
}

/// `a:b`.
pub open spec fn qualified(a: Seq<char>, b: Seq<char>) -> Seq<char> {
    a + seq![':'] + b
}

/// `a:b`, as text.
pub fn qualify(a: &str, b: &str) -> (s: String)
    ensures
        s@ == qualified(a@, b@),
{
    let mut s = String::new();
    push_str(&mut s, a);
    push_char(&mut s, ':');
    push_str(&mut s, b);
    s
}


/// Where the first `:` of `s` at or after `k` is, or the length of `s`.
pub open spec fn colon_from(s: Seq<char>, k: int) -> int
    decreases s.len() - k,
{
    if k >= s.len() {
        s.len() as int
    } else if s[k] == ':' {
        k
    } else {
        colon_from(s, k + 1)
    }
}

proof fn lemma_colon_from(s: Seq<char>, k: int)
    requires
        0 <= k <= s.len(),
    ensures
        k <= colon_from(s, k) <= s.len(),
        colon_from(s, k) < s.len() ==> s[colon_from(s, k)] == ':',
        forall|j: int| k <= j < colon_from(s, k) ==> s[j] != ':',
    decreases s.len() - k,
{
    if k < s.len() && s[k] != ':' {
        lemma_colon_from(s, k + 1);
    }
}

/// Where the first `:` of `cs` at or after `k` is, or the length of `cs`.
fn find_colon(cs: &Vec<char>, k: usize) -> (r: usize)
    requires
        k <= cs@.len(),
    ensures
        r == colon_from(cs@, k as int),
{
    let mut j = k;
    proof {
        lemma_colon_from(cs@, k as int);
    }
    while j < cs.len() && cs[j] != ':'
        invariant
            k <= j <= cs@.len(),
            colon_from(cs@, k as int) == colon_from(cs@, j as int),
        decreases cs@.len() - j,
    {
        j += 1;
    }
    j
}

/// The tables of names each module exports.
pub open spec fn export_tables(exports: Seq<Vec<(String, String)>>) -> Seq<Map<Seq<char>, Seq<char>>> {
    exports.map_values(|t: Vec<(String, String)>| bindings(t@))
}

/// Every table of exports holds each name once.
pub open spec fn exports_wf(exports: Seq<Vec<(String, String)>>) -> bool {
    forall|i: int| 0 <= i < exports.len() ==> distinct_names(#[trigger] exports[i]@)
}

/// What a qualified `path` names where the modules export what `tables`
/// hold: the module that begins it, the name after that in the module's
/// exports, and whatever follows the name, after a `:`.
pub open spec fn public_path(modules: Seq<String>, tables: Seq<Map<Seq<char>, Seq<char>>>, path: Seq<char>) -> Option<Seq<char>> {
    match module_of(modules, path) {
        None => None,
        Some(i) => {
            let start = modules[i]@.len() + 1int;
            let c = colon_from(path, start);
            let name = path.subrange(start, c);
            if tables[i].dom().contains(name) {
                Some(
                    if c < path.len() {
                        qualified(tables[i][name], path.skip(c + 1))
                    } else {
                        tables[i][name]
                    },
                )
            } else {
                None
            }
        },
    }
}

/// What a qualified `path` names among the modules' exports.
pub fn resolve_public_path(path: &str, modules: &Vec<String>, exports: &Vec<Vec<(String, String)>>) -> (r: Option<String>)
    requires
        distinct_modules(modules@),
        exports@.len() == modules@.len(),
        exports_wf(exports@),
    ensures
        r is Some <==> public_path(modules@, export_tables(exports@), path@) is Some,
        r matches Some(s) ==> public_path(modules@, export_tables(exports@), path@) == Some(s@),
{
    let i = match longest_module_prefix(path, modules) {
        Some(i) => i,
        None => return None,
    };
    let cs = chars_of(path);
    proof {
        let c = choose|c: int| longest_head(modules@, path@, c);
        assert(longest_head(modules@, path@, i as int));
    }
    let start = width(&modules[i]) + 1;
    let c = find_colon(&cs, start);
    proof {
        lemma_colon_from(cs@, start as int);
    }
    let name = crate::text::string_of(&cs, start, c);
    assert(export_tables(exports@)[i as int] == bindings(exports@[i as int]@));
    let base = match lookup(&exports[i], name.as_str()) {
        Some(base) => base,
        None => return None,
    };
    if c < cs.len() {
        let suffix = crate::text::string_of(&cs, c + 1, cs.len());
        assert(suffix@ =~= path@.skip(c + 1));
        Some(qualify(base.as_str(), suffix.as_str()))
    } else {
        Some(base)
    }
}

/// How `path`, written in a module of `namespace` where a module is
/// expected, is read: as written where that is a module, else as a module of
/// the same namespace where that is one, else as written.
pub open spec fn module_read_as(modules: Seq<String>, namespace: Option<String>, path: Seq<char>) -> Seq<char> {
    if is_module(modules, path) {
        path
    } else if namespace is Some && is_module(modules, qualified(namespace->0@, path)) {
        qualified(namespace->0@, path)
    } else {
        path
    }
}

/// How a qualified `path` written in a module of `namespace` is read: as
/// written where a module begins it, else in the same namespace where a
/// module begins that, else as written.
pub open spec fn path_read_as(modules: Seq<String>, namespace: Option<String>, path: Seq<char>) -> Seq<char> {
    if module_of(modules, path) is Some {
        path
    } else if namespace is Some && module_of(modules, qualified(namespace->0@, path)) is Some {
        qualified(namespace->0@, path)
    } else {
        path
    }
}

/// What a top-level declaration declares.
#[derive(Clone, Copy, Debug, PartialEq, Eq, Structural)]
pub enum DeclarationKind {
    Function,
    Struct,
    Enum,
    Extern,
    Const,
}

/// What a module's top-level name stands for.
#[derive(Clone, Debug)]
pub struct Decl {
    pub canonical: String,
    pub kind: DeclarationKind,
    pub span: Span,
}

/// A top-level declaration, as the module's program lists it.
#[derive(Clone, Debug)]
pub struct TopLevel {
    pub name: String,
    pub kind: DeclarationKind,
    pub span: Span,
}

/// What a declaration is, as plain values.
pub open spec fn decl_view(d: Decl) -> (Seq<char>, DeclarationKind, Span) {
    (d.canonical@, d.kind, d.span)
}

/// One module of a package, as name resolution sees it: where it is, its
/// names, what its program declares, exports, takes and mentions, and the
/// tables resolution fills in.
pub struct ModuleUnit {
    pub path: String,
    pub module: String,
    pub namespace: Option<String>,
    pub source_len: usize,
    pub base: usize,
    /// Its top-level declarations: functions, structs, enums, externs and
    /// constants, in that order.
    pub items: Vec<TopLevel>,
    /// The names its `export` declarations list, in order.
    pub exports: Vec<ImportItem>,
    /// Its `take` declarations, in order.
    pub takes: Vec<TakeDecl>,
    /// The qualified names its program mentions, in order.
    pub names: Vec<String>,
    /// Each top-level name and what it stands for.
    pub declarations: Vec<(String, Decl)>,
    /// Each name it takes and the canonical name that stands behind it.
    pub imports: Vec<(String, String)>,
}

impl ModuleUnit {
    /// What the module's top-level names stand for.
    pub open spec fn declared(&self) -> Map<Seq<char>, (Seq<char>, DeclarationKind, Span)> {
        table(self.declarations@, |d: Decl| decl_view(d))
    }

    /// What the names the module takes stand for.
    pub open spec fn imported(&self) -> Map<Seq<char>, Seq<char>> {
        bindings(self.imports@)
    }

    /// Each of the module's tables holds a name once.
    pub open spec fn tables_wf(&self) -> bool {
        distinct_names(self.declarations@) && distinct_names(self.imports@)
    }
}

/// How `path`, written where a module is expected, is read in `unit`.
pub fn module_path_for_unit(unit: &ModuleUnit, path: &str, modules: &Vec<String>) -> (s: String)
    ensures
        s@ == module_read_as(modules@, unit.namespace, path@),
{
    if module_index(modules, path).is_some() {
        return path.to_owned();
    }
    match &unit.namespace {
        Some(namespace) => {
            let local = qualify(namespace.as_str(), path);
            if module_index(modules, local.as_str()).is_some() {
                return local;
            }
        },
        None => {},
    }
    path.to_owned()
}

/// How a qualified `path` written in `unit` is read.
pub fn path_for_unit(unit: &ModuleUnit, path: &str, modules: &Vec<String>) -> (s: String)
    requires
        distinct_modules(modules@),
    ensures
        s@ == path_read_as(modules@, unit.namespace, path@),
{
    if longest_module_prefix(path, modules).is_some() {
        return path.to_owned();
    }
    match &unit.namespace {
        Some(namespace) => {
            let local = qualify(namespace.as_str(), path);
            if longest_module_prefix(local.as_str(), modules).is_some() {
                return local;
            }
        },
        None => {},
    }
    path.to_owned()
}


// ---------------------------------------------------------------- reports

/// `d` is an error of the module kind in `file` at `span` saying `message`,
/// with nothing attached.
pub open spec fn module_error(d: Diagnostic, file: Seq<char>, span: Span, message: Seq<char>) -> bool {
    &&& d.code@ == codes::MODULE@
    &&& d.file@ == file
    &&& d.span == span
    &&& d.message@ == message
    &&& d.labels@.len() == 0
    &&& d.notes@.len() == 0
    &&& d.help is None
    &&& d.suggestions@.len() == 0
}

/// `d` is that error with `help` attached.
pub open spec fn module_error_with_help(d: Diagnostic, file: Seq<char>, span: Span, message: Seq<char>, help: Seq<char>) -> bool {
    &&& d.code@ == codes::MODULE@
    &&& d.file@ == file
    &&& d.span == span
    &&& d.message@ == message
    &&& d.labels@.len() == 0
    &&& d.notes@.len() == 0
    &&& d.help matches Some(h) && h@ == help
    &&& d.suggestions@.len() == 0
}

/// `before`, a name, and `after`, as text.
fn around(before: &str, name: &str, after: &str) -> (s: String)
    ensures
        s@ == before@ + name@ + after@,
{
    let mut s = String::new();
    push_str(&mut s, before);
    push_str(&mut s, name);
    push_str(&mut s, after);
    s
}

/// A module error with nothing attached.
fn module_error_at(file: &str, span: Span, message: String) -> (d: Diagnostic)
    ensures
        module_error(d, file@, span, message@),
{
    Diagnostic::error(codes::MODULE, file, span, message)
}

/// What an alias exported twice is told.
pub open spec fn exported_twice(alias: Seq<char>) -> Seq<char> {
    "exported name `"@ + alias + "` is defined more than once"@
}

/// Exports `canonical` from `unit` as `alias`, reporting an alias that was
/// exported already; the later export stands.
pub fn insert_export(
    unit: &ModuleUnit,
    table: &mut Vec<(String, String)>,
    alias: &str,
    canonical: &str,
    span: Span,
    diagnostics: &mut Vec<Diagnostic>,
)
    requires
        distinct_names(old(table)@),
    ensures
        distinct_names(final(table)@),
        bindings(final(table)@) == bindings(old(table)@).insert(alias@, canonical@),
        !bindings(old(table)@).dom().contains(alias@) ==> final(diagnostics)@ == old(diagnostics)@,
        bindings(old(table)@).dom().contains(alias@) ==> {
            &&& final(diagnostics)@.len() == old(diagnostics)@.len() + 1
            &&& final(diagnostics)@.drop_last() == old(diagnostics)@
            &&& module_error(final(diagnostics)@.last(), unit.path@, span, exported_twice(alias@))
        },
{
    if bind(table, alias, canonical.to_owned()) {
        let message = around("exported name `", alias, "` is defined more than once");
        diagnostics.push(module_error_at(unit.path.as_str(), span, message));
        proof {
            assert(final(diagnostics)@.drop_last() =~= old(diagnostics)@);
        }
    }
}

// -------------------------------------------------------------- resolving

/// `s` holds `::` somewhere.
pub open spec fn has_double_colon(s: Seq<char>) -> bool {
    exists|i: int| 0 <= i < s.len() - 1 && s[i] == ':' && #[trigger] s[i + 1] == ':'
}

/// `s` with each `::` replaced by `:`, left to right (`str::replace`).
pub open spec fn single_colons(s: Seq<char>) -> Seq<char>
    decreases s.len(),
{
    if s.len() == 0 {
        s
    } else if s.len() >= 2 && s[0] == ':' && s[1] == ':' {
        seq![':'] + single_colons(s.skip(2))
    } else {
        seq![s[0]] + single_colons(s.skip(1))
    }
}

/// Whether `cs` holds `::`.
pub(crate) fn holds_double_colon(cs: &Vec<char>) -> (r: bool)
    ensures
        r == has_double_colon(cs@),
{
    let n = cs.len();
    if n < 2 {
        return false;
    }
    let mut i: usize = 0;
    while i < n - 1
        invariant
            n == cs@.len() >= 2,
            i <= n - 1,
            forall|j: int| 0 <= j < i && j < cs@.len() - 1 ==> !(cs@[j] == ':' && #[trigger] cs@[j + 1] == ':'),
        decreases n - i,
    {
        if cs[i] == ':' && cs[i + 1] == ':' {
            return true;
        }
        i += 1;
    }
    false
}

/// `cs` with each `::` replaced by `:`.
fn replace_double_colons(cs: &Vec<char>) -> (s: String)
    ensures
        s@ == single_colons(cs@),
{
    let mut s = String::new();
    let mut k: usize = 0;
    assert(cs@.skip(0) =~= cs@);
    assert(s@ + single_colons(cs@.skip(0)) =~= single_colons(cs@));
    while k < cs.len()
        invariant
            k <= cs@.len(),
            s@ + single_colons(cs@.skip(k as int)) == single_colons(cs@),
        decreases cs@.len() - k,
    {
        let ghost rest = cs@.skip(k as int);
        if k + 1 < cs.len() && cs[k] == ':' && cs[k + 1] == ':' {
            assert(rest.skip(2) =~= cs@.skip(k + 2));
            push_char(&mut s, ':');
            k += 2;
        } else {
            assert(rest.skip(1) =~= cs@.skip(k + 1));
            push_char(&mut s, cs[k]);
            k += 1;
        }
        assert(s@ + single_colons(cs@.skip(k as int)) =~= single_colons(cs@));
    }
    assert(cs@.skip(k as int) =~= Seq::<char>::empty());
    assert(s@ + single_colons(cs@.skip(k as int)) =~= s@);
    s
}

/// What a name written in `unit` stands for, where one of its tables or the
/// modules' exports says: the module's own names first, then the names it
/// takes, then the same for the part of a qualified name before its first
/// `:`, then what the name means as a public path, as written and then read
/// in the module's namespace.
pub open spec fn found(unit: ModuleUnit, modules: Seq<String>, tables: Seq<Map<Seq<char>, Seq<char>>>, name: Seq<char>) -> Option<Seq<char>> {
    let declared = unit.declared();
    let imported = unit.imported();
    let c = colon_from(name, 0);
    let head = name.take(c);
    let tail = name.skip(c + 1);
    let local = path_read_as(modules, unit.namespace, name);
    if declared.dom().contains(name) {
        Some(declared[name].0)
    } else if imported.dom().contains(name) {
        Some(imported[name])
    } else if c < name.len() && declared.dom().contains(head) {
        Some(qualified(declared[head].0, tail))
    } else if c < name.len() && imported.dom().contains(head) {
        Some(qualified(imported[head], tail))
    } else if public_path(modules, tables, name) is Some {
        public_path(modules, tables, name)
    } else if local != name && public_path(modules, tables, local) is Some {
        public_path(modules, tables, local)
    } else {
        None
    }
}

/// What a name written in `unit` is rewritten to: with `::` made `:` where
/// it holds one, else what it was found to stand for, else itself.
pub open spec fn resolution(unit: ModuleUnit, modules: Seq<String>, tables: Seq<Map<Seq<char>, Seq<char>>>, name: Seq<char>) -> Seq<char> {
    if has_double_colon(name) {
        single_colons(name)
    } else {
        match found(unit, modules, tables, name) {
            Some(s) => s,
            None => name,
        }
    }
}

/// What a name with `::` in it is told.
pub open spec fn old_separator() -> Seq<char> {
    "`::` is no longer a valid qualified-name separator"@
}

/// What a qualified name that names no export is told.
pub open spec fn not_public(name: Seq<char>) -> Seq<char> {
    "qualified name `"@ + name + "` is private or does not exist"@
}

/// What resolving the names of one module reads: the module, every
/// module's name, and what each module exports.
pub struct Resolver<'a> {
    pub unit: &'a ModuleUnit,
    pub modules: &'a Vec<String>,
    pub exports: &'a Vec<Vec<(String, String)>>,
}

impl<'a> Resolver<'a> {
    /// Every table the resolver reads is well formed.
    pub open spec fn wf(&self) -> bool {
        &&& self.unit.tables_wf()
        &&& distinct_modules(self.modules@)
        &&& self.exports@.len() == self.modules@.len()
        &&& exports_wf(self.exports@)
    }

    /// The canonical name that `name`, written in the module at `span`,
    /// stands for.
    ///
    /// A name with `::` is refused, with the `:` spelling suggested, and read
    /// as that spelling. A qualified name that begins with a module and
    /// stands for nothing that module exports is refused as private or
    /// unknown. A name that stands for nothing is left as written.
    pub fn resolve(&self, name: &str, span: Span, diagnostics: &mut Vec<Diagnostic>) -> (r: String)
        requires
            self.wf(),
        ensures
            r@ == resolution(*self.unit, self.modules@, export_tables(self.exports@), name@),
            has_double_colon(name@) ==> {
                &&& final(diagnostics)@.len() == old(diagnostics)@.len() + 1
                &&& final(diagnostics)@.drop_last() == old(diagnostics)@
                &&& final(diagnostics)@.last().code@ == codes::MODULE@
                &&& final(diagnostics)@.last().file@ == self.unit.path@
                &&& final(diagnostics)@.last().span == span
                &&& final(diagnostics)@.last().message@ == old_separator()
                &&& final(diagnostics)@.last().labels@.len() == 0
                &&& final(diagnostics)@.last().notes@.len() == 0
                &&& final(diagnostics)@.last().help is None
                &&& final(diagnostics)@.last().suggestions@.len() == 1
                &&& final(diagnostics)@.last().suggestions@[0].span == span
                &&& final(diagnostics)@.last().suggestions@[0].replacement@ == single_colons(name@)
                &&& final(diagnostics)@.last().suggestions@[0].message@ == "replace `::` with `:`"@
                &&& final(diagnostics)@.last().suggestions@[0].applicability == Applicability::MachineApplicable
            },
            !has_double_colon(name@) && found(*self.unit, self.modules@, export_tables(self.exports@), name@) is None
                && module_of(self.modules@, name@) is Some ==> {
                &&& final(diagnostics)@.len() == old(diagnostics)@.len() + 1
                &&& final(diagnostics)@.drop_last() == old(diagnostics)@
                &&& module_error_with_help(
                    final(diagnostics)@.last(),
                    self.unit.path@,
                    span,
                    not_public(name@),
                    "export the name or introduce a valid alias with `take`"@,
                )
            },
            !has_double_colon(name@) && (found(*self.unit, self.modules@, export_tables(self.exports@), name@) is Some
                || module_of(self.modules@, name@) is None) ==> final(diagnostics)@ == old(diagnostics)@,
    {
        let cs = chars_of(name);
        let ghost tables = export_tables(self.exports@);
        if holds_double_colon(&cs) {
            let replaced = replace_double_colons(&cs);
            let diagnostic = module_error_at(
                self.unit.path.as_str(),
                span,
                "`::` is no longer a valid qualified-name separator".to_owned(),
            ).with_suggestion(
                span,
                replaced.clone(),
                "replace `::` with `:`".to_owned(),
                Applicability::MachineApplicable,
            );
            diagnostics.push(diagnostic);
            proof {
                assert(final(diagnostics)@.drop_last() =~= old(diagnostics)@);
            }
            return replaced;
        }
        proof {
            lemma_table(self.unit.declarations@, |d: Decl| decl_view(d));
        }
        match find_name(&self.unit.declarations, name) {
            Some(i) => {
                return self.unit.declarations[i].1.canonical.clone();
            },
            None => {},
        }
        match lookup(&self.unit.imports, name) {
            Some(imported) => {
                return imported;
            },
            None => {},
        }
        let c = find_colon(&cs, 0);
        proof {
            lemma_colon_from(cs@, 0);
        }
        if c < cs.len() {
            let head = crate::text::string_of(&cs, 0, c);
            let tail = crate::text::string_of(&cs, c + 1, cs.len());
            assert(head@ =~= name@.take(c as int));
            assert(tail@ =~= name@.skip(c + 1));
            match find_name(&self.unit.declarations, head.as_str()) {
                Some(i) => {
                    return qualify(self.unit.declarations[i].1.canonical.as_str(), tail.as_str());
                },
                None => {},
            }
            match lookup(&self.unit.imports, head.as_str()) {
                Some(imported) => {
                    return qualify(imported.as_str(), tail.as_str());
                },
                None => {},
            }
        }
        match resolve_public_path(name, self.modules, self.exports) {
            Some(public) => {
                return public;
            },
            None => {},
        }
        let local = path_for_unit(self.unit, name, self.modules);
        if !same_text(local.as_str(), name) {
            match resolve_public_path(local.as_str(), self.modules, self.exports) {
                Some(public) => {
                    return public;
                },
                None => {},
            }
        }
        if longest_module_prefix(name, self.modules).is_some() {
            let message = around("qualified name `", name, "` is private or does not exist");
            let diagnostic = module_error_at(self.unit.path.as_str(), span, message).with_help(
                "export the name or introduce a valid alias with `take`".to_owned(),
            );
            diagnostics.push(diagnostic);
            proof {
                assert(final(diagnostics)@.drop_last() =~= old(diagnostics)@);
            }
        }
        name.to_owned()
    }
}


// ---------------------------------------------------------- many reports

/// `d` is an error of the module kind in file `r.0` at `r.1` saying `r.2`,
/// with the label `r.3` and the help `r.4` where those are given, and
/// nothing else attached.
pub open spec fn shows(
    d: Diagnostic,
    r: (Seq<char>, Span, Seq<char>, Option<(Span, Seq<char>)>, Option<Seq<char>>),
) -> bool {
    &&& d.code@ == codes::MODULE@
    &&& d.file@ == r.0
    &&& d.span == r.1
    &&& d.message@ == r.2
    &&& match r.3 {
        None => d.labels@.len() == 0,
        Some(l) => d.labels@.len() == 1 && d.labels@[0].span == l.0 && d.labels@[0].message@ == l.1,
    }
    &&& d.notes@.len() == 0
    &&& match r.4 {
        None => d.help is None,
        Some(h) => d.help matches Some(g) && g@ == h,
    }
    &&& d.suggestions@.len() == 0
}

/// `after` is `before` followed by one diagnostic for each of `rs`, in
/// order, each showing its report.
pub open spec fn reported(
    before: Seq<Diagnostic>,
    after: Seq<Diagnostic>,
    rs: Seq<(Seq<char>, Span, Seq<char>, Option<(Span, Seq<char>)>, Option<Seq<char>>)>,
) -> bool {
    &&& after.len() == before.len() + rs.len()
    &&& after.take(before.len() as int) == before
    &&& forall|j: int| 0 <= j < rs.len() ==> shows(#[trigger] after[before.len() + j], rs[j])
}

proof fn lemma_reported_none(a: Seq<Diagnostic>)
    ensures
        reported(a, a, seq![]),
{
    assert(a.take(a.len() as int) =~= a);
}

proof fn lemma_reported_push(
    a: Seq<Diagnostic>,
    b: Seq<Diagnostic>,
    rs: Seq<(Seq<char>, Span, Seq<char>, Option<(Span, Seq<char>)>, Option<Seq<char>>)>,
    d: Diagnostic,
    r: (Seq<char>, Span, Seq<char>, Option<(Span, Seq<char>)>, Option<Seq<char>>),
)
    requires
        reported(a, b, rs),
        shows(d, r),
    ensures
        reported(a, b.push(d), rs.push(r)),
{
    let c = b.push(d);
    assert(c.take(a.len() as int) =~= b.take(a.len() as int));
    assert forall|j: int| 0 <= j < rs.push(r).len() implies shows(#[trigger] c[a.len() + j], rs.push(r)[j]) by {
        if j < rs.len() {
            assert(c[a.len() + j] == b[a.len() + j]);
        }
    }
}

proof fn lemma_reported_chain(
    a: Seq<Diagnostic>,
    b: Seq<Diagnostic>,
    c: Seq<Diagnostic>,
    rs: Seq<(Seq<char>, Span, Seq<char>, Option<(Span, Seq<char>)>, Option<Seq<char>>)>,
    qs: Seq<(Seq<char>, Span, Seq<char>, Option<(Span, Seq<char>)>, Option<Seq<char>>)>,
)
    requires
        reported(a, b, rs),
        reported(b, c, qs),
    ensures
        reported(a, c, rs + qs),
{
    assert(c.take(a.len() as int) =~= b.take(b.len() as int).take(a.len() as int));
    assert(c.take(a.len() as int) =~= b.take(a.len() as int)) by {
        assert forall|i: int| 0 <= i < a.len() implies c[i] == b[i] by {
            assert(c.take(b.len() as int)[i] == b[i]);
        }
    }
    assert forall|j: int| 0 <= j < (rs + qs).len() implies shows(#[trigger] c[a.len() + j], (rs + qs)[j]) by {
        if j < rs.len() {
            assert(c.take(b.len() as int)[a.len() + j] == b[a.len() + j]);
            assert(shows(b[a.len() + j], rs[j]));
        } else {
            let k = j - rs.len();
            assert(c[b.len() + k] == c[a.len() + j]);
            assert(shows(c[b.len() + k], qs[k]));
        }
    }
}

/// Pushes `d`, which shows `r`, and says so.
fn report(
    diagnostics: &mut Vec<Diagnostic>,
    d: Diagnostic,
    Ghost(r): Ghost<(Seq<char>, Span, Seq<char>, Option<(Span, Seq<char>)>, Option<Seq<char>>)>,
)
    requires
        shows(d, r),
    ensures
        reported(old(diagnostics)@, final(diagnostics)@, seq![r]),
{
    let ghost before = diagnostics@;
    diagnostics.push(d);
    proof {
        lemma_reported_none(before);
        lemma_reported_push(before, before, seq![], d, r);
        assert(seq![].push(r) =~= seq![r]);
    }
}

// ---------------------------------------------------------- declarations

/// The canonical name of a declaration of `module`: `module:name`, except
/// for the entry module's function `main`.
pub open spec fn canonical_of(module: Seq<char>, entry: Seq<char>, item: TopLevel) -> Seq<char> {
    if module == entry && item.name@ == "main"@ && item.kind == DeclarationKind::Function {
        "main"@
    } else {
        qualified(module, item.name@)
    }
}

/// What `start` holds once `items` are declared in order, each replacing
/// what its name stood for.
pub open spec fn declare(
    start: Map<Seq<char>, (Seq<char>, DeclarationKind, Span)>,
    module: Seq<char>,
    entry: Seq<char>,
    items: Seq<TopLevel>,
) -> Map<Seq<char>, (Seq<char>, DeclarationKind, Span)>
    decreases items.len(),
{
    if items.len() == 0 {
        start
    } else {
        let item = items.last();
        declare(start, module, entry, items.drop_last()).insert(item.name@, (canonical_of(module, entry, item), item.kind, item.span))
    }
}

/// What an `extern` with a builtin's name is told.
pub open spec fn builtin_extern(name: Seq<char>) -> Seq<char> {
    "`"@ + name + "` is a builtin, and an `extern` cannot take its name"@
}

/// What a top-level name declared twice is told.
pub open spec fn defined_twice(name: Seq<char>) -> Seq<char> {
    "top-level name `"@ + name + "` is defined more than once"@
}

/// What declaring `items` in order reports: an `extern` with a builtin's
/// name, and each name declared again, with where it was declared before.
pub open spec fn declaration_reports(
    start: Map<Seq<char>, (Seq<char>, DeclarationKind, Span)>,
    path: Seq<char>,
    module: Seq<char>,
    entry: Seq<char>,
    items: Seq<TopLevel>,
) -> Seq<(Seq<char>, Span, Seq<char>, Option<(Span, Seq<char>)>, Option<Seq<char>>)>
    decreases items.len(),
{
    if items.len() == 0 {
        seq![]
    } else {
        let item = items.last();
        let before = declare(start, module, entry, items.drop_last());
        declaration_reports(start, path, module, entry, items.drop_last()) + (if item.kind == DeclarationKind::Extern
            && crate::package::builtin_named(item.name@) {
            seq![(path, item.span, builtin_extern(item.name@), None::<(Span, Seq<char>)>, None::<Seq<char>>)]
        } else {
            seq![]
        }) + (if before.dom().contains(item.name@) {
            seq![(path, item.span, defined_twice(item.name@), Some((before[item.name@].2, "previous definition is here"@)), None::<Seq<char>>)]
        } else {
            seq![]
        })
    }
}

/// `b` is `a` with its table of declarations alone changed.
pub open spec fn same_but_declarations(a: ModuleUnit, b: ModuleUnit) -> bool {
    &&& b.path == a.path
    &&& b.module == a.module
    &&& b.namespace == a.namespace
    &&& b.source_len == a.source_len
    &&& b.base == a.base
    &&& b.items == a.items
    &&& b.exports == a.exports
    &&& b.takes == a.takes
    &&& b.names == a.names
    &&& b.imports == a.imports
}

/// Declares the top-level names of one module.
fn declare_unit(unit: &mut ModuleUnit, entry_module: &str, diagnostics: &mut Vec<Diagnostic>)
    requires
        old(unit).tables_wf(),
    ensures
        final(unit).tables_wf(),
        same_but_declarations(*old(unit), *final(unit)),
        final(unit).declared() == declare(old(unit).declared(), old(unit).module@, entry_module@, old(unit).items@),
        reported(
            old(diagnostics)@,
            final(diagnostics)@,
            declaration_reports(old(unit).declared(), old(unit).path@, old(unit).module@, entry_module@, old(unit).items@),
        ),
{
    let ghost start = unit.declared();
    let ghost items = unit.items@;
    let ghost first = *unit;
    let is_entry = same_text(unit.module.as_str(), entry_module);
    proof {
        lemma_reported_none(diagnostics@);
        assert(items.take(0) =~= seq![]);
    }
    let ghost d0 = diagnostics@;
    let mut k: usize = 0;
    while k < unit.items.len()
        invariant
            unit.tables_wf(),
            same_but_declarations(first, *unit),
            items == unit.items@,
            start == first.declared(),
            is_entry == (first.module@ == entry_module@),
            k <= items.len(),
            unit.declared() == declare(start, first.module@, entry_module@, items.take(k as int)),
            reported(d0, diagnostics@, declaration_reports(start, first.path@, first.module@, entry_module@, items.take(k as int))),
        decreases items.len() - k,
    {
        let ghost taken = items.take(k as int);
        let ghost table_before = unit.declared();
        let ghost diags_before = diagnostics@;
        assert(items.take(k + 1).drop_last() =~= taken);
        let name = unit.items[k].name.clone();
        let kind = unit.items[k].kind;
        let span = unit.items[k].span;
        let ghost item = items[k as int];
        assert(item.name == name && item.kind == kind && item.span == span);
        let ghost mid: Seq<Diagnostic>;
        if kind == DeclarationKind::Extern && crate::package::is_builtin(name.as_str()) {
            let message = around("`", name.as_str(), "` is a builtin, and an `extern` cannot take its name");
            report(
                diagnostics,
                module_error_at(unit.path.as_str(), span, message),
                Ghost((first.path@, span, builtin_extern(name@), None, None)),
            );
            proof {
                mid = diagnostics@;
            }
        } else {
            proof {
                lemma_reported_none(diagnostics@);
                mid = diagnostics@;
            }
        }
        let canonical = if is_entry && same_text(name.as_str(), "main") && kind == DeclarationKind::Function {
            "main".to_owned()
        } else {
            qualify(unit.module.as_str(), name.as_str())
        };
        assert(canonical@ == canonical_of(first.module@, entry_module@, item));
        proof {
            lemma_table(unit.declarations@, |d: Decl| decl_view(d));
        }
        let decl = Decl { canonical, kind, span };
        match find_name(&unit.declarations, name.as_str()) {
            Some(i) => {
                let previous = unit.declarations[i].1.span;
                let ghost old_decls = unit.declarations@;
                let e = (name.clone(), decl);
                unit.declarations.set(i, e);
                proof {
                    lemma_table_update(old_decls, |d: Decl| decl_view(d), i as int, e);
                    assert(table_before[name@].2 == previous);
                }
                let message = around("top-level name `", name.as_str(), "` is defined more than once");
                let diagnostic = module_error_at(unit.path.as_str(), span, message).with_label(
                    previous,
                    "previous definition is here".to_owned(),
                );
                report(
                    diagnostics,
                    diagnostic,
                    Ghost((first.path@, span, defined_twice(name@), Some((previous, "previous definition is here"@)), None)),
                );
            },
            None => {
                let ghost old_decls = unit.declarations@;
                let e = (name.clone(), decl);
                unit.declarations.push(e);
                proof {
                    lemma_table_push(old_decls, |d: Decl| decl_view(d), e);
                    lemma_reported_none(diagnostics@);
                }
            },
        }
        proof {
            let extra1 = if item.kind == DeclarationKind::Extern && crate::package::builtin_named(item.name@) {
                seq![(first.path@, item.span, builtin_extern(item.name@), None::<(Span, Seq<char>)>, None::<Seq<char>>)]
            } else {
                seq![]
            };
            let extra2 = if table_before.dom().contains(item.name@) {
                seq![(first.path@, item.span, defined_twice(item.name@), Some((table_before[item.name@].2, "previous definition is here"@)), None::<Seq<char>>)]
            } else {
                seq![]
            };
            lemma_reported_chain(d0, diags_before, mid, declaration_reports(start, first.path@, first.module@, entry_module@, taken), extra1);
            lemma_reported_chain(d0, mid, diagnostics@, declaration_reports(start, first.path@, first.module@, entry_module@, taken) + extra1, extra2);
        }
        k += 1;
    }
    assert(items.take(items.len() as int) =~= items);
}


/// What declaring the names of every one of `units`, in order, reports.
pub open spec fn all_declaration_reports(
    units: Seq<ModuleUnit>,
    entry: Seq<char>,
) -> Seq<(Seq<char>, Span, Seq<char>, Option<(Span, Seq<char>)>, Option<Seq<char>>)>
    decreases units.len(),
{
    if units.len() == 0 {
        seq![]
    } else {
        let u = units.last();
        all_declaration_reports(units.drop_last(), entry) + declaration_reports(u.declared(), u.path@, u.module@, entry, u.items@)
    }
}

/// Declares the top-level names of every module: each stands for its
/// canonical name, and a later declaration of a name replaces an earlier
/// one. An `extern` with a builtin's name is refused, and so is a name
/// declared twice in one module, with where it was declared before.
pub fn collect_declarations(units: &mut Vec<ModuleUnit>, entry_module: &str, diagnostics: &mut Vec<Diagnostic>)
    requires
        forall|i: int| 0 <= i < old(units)@.len() ==> (#[trigger] old(units)@[i]).tables_wf(),
    ensures
        final(units)@.len() == old(units)@.len(),
        forall|i: int|
            0 <= i < final(units)@.len() ==> {
                &&& (#[trigger] final(units)@[i]).tables_wf()
                &&& same_but_declarations(old(units)@[i], final(units)@[i])
                &&& final(units)@[i].declared() == declare(
                    old(units)@[i].declared(),
                    old(units)@[i].module@,
                    entry_module@,
                    old(units)@[i].items@,
                )
            },
        reported(old(diagnostics)@, final(diagnostics)@, all_declaration_reports(old(units)@, entry_module@)),
{
    let ghost first = units@;
    let ghost d0 = diagnostics@;
    proof {
        lemma_reported_none(d0);
        assert(first.take(0) =~= seq![]);
    }
    let mut i: usize = 0;
    while i < units.len()
        invariant
            units@.len() == first.len(),
            i <= first.len(),
            forall|j: int| i <= j < first.len() ==> units@[j] == first[j],
            forall|j: int| 0 <= j < first.len() ==> (#[trigger] first[j]).tables_wf(),
            forall|j: int|
                0 <= j < i ==> {
                    &&& (#[trigger] units@[j]).tables_wf()
                    &&& same_but_declarations(first[j], units@[j])
                    &&& units@[j].declared() == declare(first[j].declared(), first[j].module@, entry_module@, first[j].items@)
                },
            reported(d0, diagnostics@, all_declaration_reports(first.take(i as int), entry_module@)),
        decreases first.len() - i,
    {
        let ghost before = diagnostics@;
        assert(first.take(i + 1).drop_last() =~= first.take(i as int));
        declare_unit(&mut units[i], entry_module, diagnostics);
        proof {
            lemma_reported_chain(
                d0,
                before,
                diagnostics@,
                all_declaration_reports(first.take(i as int), entry_module@),
                declaration_reports(first[i as int].declared(), first[i as int].path@, first[i as int].module@, entry_module@, first[i as int].items@),
            );
            assert(first.take(i + 1).last() == first[i as int]);
        }
        i += 1;
    }
    assert(first.take(first.len() as int) =~= first);
}


// ---------------------------------------------------------------- imports

/// What a `take` of an unknown module is told.
pub open spec fn unknown_module(module: Seq<char>) -> Seq<char> {
    "unknown module `"@ + module + "`"@
}

/// What a `take` of a name its module does not export is told.
pub open spec fn not_exported(path: Seq<char>) -> Seq<char> {
    "`"@ + path + "` is private or does not exist"@
}

/// What an alias that is already a name of the module is told.
pub open spec fn alias_collides(alias: Seq<char>) -> Seq<char> {
    "import alias `"@ + alias + "` collides with another name"@
}

/// Taking `item` from `module` into a module whose own names are `declared`
/// and whose taken names are `imports`: what the taken names become, and
/// what is reported. A name the module does not export is refused; an alias
/// that is one of the module's own names is refused and takes nothing; an
/// alias taken before is refused and stands for the later name.
pub open spec fn import_step(
    declared: Map<Seq<char>, (Seq<char>, DeclarationKind, Span)>,
    imports: Map<Seq<char>, Seq<char>>,
    file: Seq<char>,
    modules: Seq<String>,
    tables: Seq<Map<Seq<char>, Seq<char>>>,
    module: Seq<char>,
    item: ImportItem,
) -> (Map<Seq<char>, Seq<char>>, Seq<(Seq<char>, Span, Seq<char>, Option<(Span, Seq<char>)>, Option<Seq<char>>)>) {
    let path = qualified(module, item.path@);
    let collision = seq![(file, item.span, alias_collides(item.alias@), None::<(Span, Seq<char>)>, None::<Seq<char>>)];
    match public_path(modules, tables, path) {
        None => (
            imports,
            seq![(file, item.span, not_exported(path), None::<(Span, Seq<char>)>, Some("export the name from the source module"@))],
        ),
        Some(canonical) => if declared.dom().contains(item.alias@) {
            (imports, collision)
        } else if imports.dom().contains(item.alias@) {
            (imports.insert(item.alias@, canonical), collision)
        } else {
            (imports.insert(item.alias@, canonical), seq![])
        },
    }
}

/// Taking `items` from `module`, in order.
pub open spec fn import_items(
    declared: Map<Seq<char>, (Seq<char>, DeclarationKind, Span)>,
    imports: Map<Seq<char>, Seq<char>>,
    file: Seq<char>,
    modules: Seq<String>,
    tables: Seq<Map<Seq<char>, Seq<char>>>,
    module: Seq<char>,
    items: Seq<ImportItem>,
) -> (Map<Seq<char>, Seq<char>>, Seq<(Seq<char>, Span, Seq<char>, Option<(Span, Seq<char>)>, Option<Seq<char>>)>)
    decreases items.len(),
{
    if items.len() == 0 {
        (imports, seq![])
    } else {
        let (m, rs) = import_items(declared, imports, file, modules, tables, module, items.drop_last());
        let (n, qs) = import_step(declared, m, file, modules, tables, module, items.last());
        (n, rs + qs)
    }
}

/// Carrying out `takes`, in order, in a module of `namespace`. A `take` of
/// a module that does not exist is refused and takes nothing.
pub open spec fn import_takes(
    declared: Map<Seq<char>, (Seq<char>, DeclarationKind, Span)>,
    imports: Map<Seq<char>, Seq<char>>,
    file: Seq<char>,
    namespace: Option<String>,
    modules: Seq<String>,
    tables: Seq<Map<Seq<char>, Seq<char>>>,
    takes: Seq<TakeDecl>,
) -> (Map<Seq<char>, Seq<char>>, Seq<(Seq<char>, Span, Seq<char>, Option<(Span, Seq<char>)>, Option<Seq<char>>)>)
    decreases takes.len(),
{
    if takes.len() == 0 {
        (imports, seq![])
    } else {
        let (m, rs) = import_takes(declared, imports, file, namespace, modules, tables, takes.drop_last());
        let take = takes.last();
        let module = module_read_as(modules, namespace, take.module@);
        if !is_module(modules, module) {
            (m, rs + seq![(file, take.span, unknown_module(module), None::<(Span, Seq<char>)>, None::<Seq<char>>)])
        } else {
            let (n, qs) = import_items(declared, m, file, modules, tables, module, take.items@);
            (n, rs + qs)
        }
    }
}

/// `b` is `a` with its table of taken names alone changed.
pub open spec fn same_but_imports(a: ModuleUnit, b: ModuleUnit) -> bool {
    &&& b.path == a.path
    &&& b.module == a.module
    &&& b.namespace == a.namespace
    &&& b.source_len == a.source_len
    &&& b.base == a.base
    &&& b.items == a.items
    &&& b.exports == a.exports
    &&& b.takes == a.takes
    &&& b.names == a.names
    &&& b.declarations == a.declarations
}

/// Takes the names of one `take` into `unit`.
fn import_take(
    unit: &mut ModuleUnit,
    t: usize,
    modules: &Vec<String>,
    exports: &Vec<Vec<(String, String)>>,
    diagnostics: &mut Vec<Diagnostic>,
)
    requires
        old(unit).tables_wf(),
        t < old(unit).takes@.len(),
        distinct_modules(modules@),
        exports@.len() == modules@.len(),
        exports_wf(exports@),
    ensures
        final(unit).tables_wf(),
        same_but_imports(*old(unit), *final(unit)),
        ({
            let take = old(unit).takes@[t as int];
            let module = module_read_as(modules@, old(unit).namespace, take.module@);
            let (m, rs) = if !is_module(modules@, module) {
                (old(unit).imported(), seq![(old(unit).path@, take.span, unknown_module(module), None::<(Span, Seq<char>)>, None::<Seq<char>>)])
            } else {
                import_items(old(unit).declared(), old(unit).imported(), old(unit).path@, modules@, export_tables(exports@), module, take.items@)
            };
            final(unit).imported() == m && reported(old(diagnostics)@, final(diagnostics)@, rs)
        }),
{
    let ghost first = *unit;
    let ghost tables = export_tables(exports@);
    let module = module_path_for_unit(unit, unit.takes[t].module.as_str(), modules);
    if module_index(modules, module.as_str()).is_none() {
        let message = around("unknown module `", module.as_str(), "`");
        let span = unit.takes[t].span;
        report(diagnostics, module_error_at(unit.path.as_str(), span, message), Ghost((first.path@, span, unknown_module(module@), None, None)));
        return;
    }
    let ghost items = unit.takes@[t as int].items@;
    let ghost d0 = diagnostics@;
    proof {
        lemma_reported_none(d0);
        assert(items.take(0) =~= seq![]);
    }
    let mut k: usize = 0;
    while k < unit.takes[t].items.len()
        invariant
            unit.tables_wf(),
            same_but_imports(first, *unit),
            t < unit.takes@.len(),
            items == unit.takes@[t as int].items@,
            k <= items.len(),
            distinct_modules(modules@),
            exports@.len() == modules@.len(),
            exports_wf(exports@),
            tables == export_tables(exports@),
            is_module(modules@, module@),
            ({
                let (m, rs) = import_items(first.declared(), first.imported(), first.path@, modules@, tables, module@, items.take(k as int));
                unit.imported() == m && reported(d0, diagnostics@, rs)
            }),
        decreases items.len() - k,
    {
        let ghost taken = items.take(k as int);
        let ghost before = diagnostics@;
        assert(items.take(k + 1).drop_last() =~= taken);
        assert(items.take(k + 1).last() == items[k as int]);
        let ghost item = items[k as int];
        let ghost imports_before = unit.imported();
        let path = qualify(module.as_str(), unit.takes[t].items[k].path.as_str());
        let span = unit.takes[t].items[k].span;
        match resolve_public_path(path.as_str(), modules, exports) {
            None => {
                let message = around("`", path.as_str(), "` is private or does not exist");
                let diagnostic = module_error_at(unit.path.as_str(), span, message).with_help(
                    "export the name from the source module".to_owned(),
                );
                report(
                    diagnostics,
                    diagnostic,
                    Ghost((first.path@, span, not_exported(path@), None, Some("export the name from the source module"@))),
                );
            },
            Some(canonical) => {
                proof {
                    lemma_table(unit.declarations@, |d: Decl| decl_view(d));
                }
                let alias = unit.takes[t].items[k].alias.clone();
                let clash = if find_name(&unit.declarations, alias.as_str()).is_some() {
                    true
                } else {
                    bind(&mut unit.imports, alias.as_str(), canonical)
                };
                if clash {
                    let message = around("import alias `", alias.as_str(), "` collides with another name");
                    report(
                        diagnostics,
                        module_error_at(unit.path.as_str(), span, message),
                        Ghost((first.path@, span, alias_collides(alias@), None, None)),
                    );
                } else {
                    proof {
                        lemma_reported_none(diagnostics@);
                    }
                }
            },
        }
        proof {
            let (m, rs) = import_items(first.declared(), first.imported(), first.path@, modules@, tables, module@, taken);
            let (n, qs) = import_step(first.declared(), m, first.path@, modules@, tables, module@, item);
            lemma_reported_chain(d0, before, diagnostics@, rs, qs);
        }
        k += 1;
    }
    assert(items.take(items.len() as int) =~= items);
}

/// Takes into `unit` the names of all its `take` declarations.
fn import_unit(
    unit: &mut ModuleUnit,
    modules: &Vec<String>,
    exports: &Vec<Vec<(String, String)>>,
    diagnostics: &mut Vec<Diagnostic>,
)
    requires
        old(unit).tables_wf(),
        distinct_modules(modules@),
        exports@.len() == modules@.len(),
        exports_wf(exports@),
    ensures
        final(unit).tables_wf(),
        same_but_imports(*old(unit), *final(unit)),
        ({
            let (m, rs) = import_takes(
                old(unit).declared(),
                old(unit).imported(),
                old(unit).path@,
                old(unit).namespace,
                modules@,
                export_tables(exports@),
                old(unit).takes@,
            );
            final(unit).imported() == m && reported(old(diagnostics)@, final(diagnostics)@, rs)
        }),
{
    let ghost first = *unit;
    let ghost takes = unit.takes@;
    let ghost d0 = diagnostics@;
    proof {
        lemma_reported_none(d0);
        assert(takes.take(0) =~= seq![]);
    }
    let mut t: usize = 0;
    while t < unit.takes.len()
        invariant
            unit.tables_wf(),
            same_but_imports(first, *unit),
            takes == unit.takes@,
            t <= takes.len(),
            distinct_modules(modules@),
            exports@.len() == modules@.len(),
            exports_wf(exports@),
            ({
                let (m, rs) = import_takes(first.declared(), first.imported(), first.path@, first.namespace, modules@, export_tables(exports@), takes.take(t as int));
                unit.imported() == m && reported(d0, diagnostics@, rs)
            }),
        decreases takes.len() - t,
    {
        let ghost before = diagnostics@;
        assert(takes.take(t + 1).drop_last() =~= takes.take(t as int));
        assert(takes.take(t + 1).last() == takes[t as int]);
        import_take(unit, t, modules, exports, diagnostics);
        proof {
            let (m, rs) = import_takes(first.declared(), first.imported(), first.path@, first.namespace, modules@, export_tables(exports@), takes.take(t as int));
            let take = takes[t as int];
            let module = module_read_as(modules@, first.namespace, take.module@);
            if !is_module(modules@, module) {
                lemma_reported_chain(d0, before, diagnostics@, rs, seq![(first.path@, take.span, unknown_module(module), None::<(Span, Seq<char>)>, None::<Seq<char>>)]);
            } else {
                let (n, qs) = import_items(first.declared(), m, first.path@, modules@, export_tables(exports@), module, take.items@);
                lemma_reported_chain(d0, before, diagnostics@, rs, qs);
            }
        }
        t += 1;
    }
    assert(takes.take(takes.len() as int) =~= takes);
}

/// What carrying out the `take` declarations of every one of `units`, in
/// order, reports.
pub open spec fn all_import_reports(
    units: Seq<ModuleUnit>,
    modules: Seq<String>,
    tables: Seq<Map<Seq<char>, Seq<char>>>,
) -> Seq<(Seq<char>, Span, Seq<char>, Option<(Span, Seq<char>)>, Option<Seq<char>>)>
    decreases units.len(),
{
    if units.len() == 0 {
        seq![]
    } else {
        let u = units.last();
        all_import_reports(units.drop_last(), modules, tables) + import_takes(
            u.declared(),
            u.imported(),
            u.path@,
            u.namespace,
            modules,
            tables,
            u.takes@,
        ).1
    }
}

/// Takes into every module the names its `take` declarations list: each
/// stands for the canonical name its module exports it under.
pub fn resolve_imports(
    units: &mut Vec<ModuleUnit>,
    modules: &Vec<String>,
    exports: &Vec<Vec<(String, String)>>,
    diagnostics: &mut Vec<Diagnostic>,
)
    requires
        forall|i: int| 0 <= i < old(units)@.len() ==> (#[trigger] old(units)@[i]).tables_wf(),
        distinct_modules(modules@),
        exports@.len() == modules@.len(),
        exports_wf(exports@),
    ensures
        final(units)@.len() == old(units)@.len(),
        forall|i: int|
            0 <= i < final(units)@.len() ==> {
                &&& (#[trigger] final(units)@[i]).tables_wf()
                &&& same_but_imports(old(units)@[i], final(units)@[i])
                &&& final(units)@[i].imported() == import_takes(
                    old(units)@[i].declared(),
                    old(units)@[i].imported(),
                    old(units)@[i].path@,
                    old(units)@[i].namespace,
                    modules@,
                    export_tables(exports@),
                    old(units)@[i].takes@,
                ).0
            },
        reported(old(diagnostics)@, final(diagnostics)@, all_import_reports(old(units)@, modules@, export_tables(exports@))),
{
    let ghost first = units@;
    let ghost d0 = diagnostics@;
    let ghost tables = export_tables(exports@);
    proof {
        lemma_reported_none(d0);
        assert(first.take(0) =~= seq![]);
    }
    let mut i: usize = 0;
    while i < units.len()
        invariant
            units@.len() == first.len(),
            i <= first.len(),
            distinct_modules(modules@),
            exports@.len() == modules@.len(),
            exports_wf(exports@),
            tables == export_tables(exports@),
            forall|j: int| i <= j < first.len() ==> units@[j] == first[j],
            forall|j: int| 0 <= j < first.len() ==> (#[trigger] first[j]).tables_wf(),
            forall|j: int|
                0 <= j < i ==> {
                    &&& (#[trigger] units@[j]).tables_wf()
                    &&& same_but_imports(first[j], units@[j])
                    &&& units@[j].imported() == import_takes(
                        first[j].declared(),
                        first[j].imported(),
                        first[j].path@,
                        first[j].namespace,
                        modules@,
                        tables,
                        first[j].takes@,
                    ).0
                },
            reported(d0, diagnostics@, all_import_reports(first.take(i as int), modules@, tables)),
        decreases first.len() - i,
    {
        let ghost before = diagnostics@;
        assert(first.take(i + 1).drop_last() =~= first.take(i as int));
        assert(first.take(i + 1).last() == first[i as int]);
        import_unit(&mut units[i], modules, exports, diagnostics);
        proof {
            let u = first[i as int];
            lemma_reported_chain(
                d0,
                before,
                diagnostics@,
                all_import_reports(first.take(i as int), modules@, tables),
                import_takes(u.declared(), u.imported(), u.path@, u.namespace, modules@, tables, u.takes@).1,
            );
        }
        i += 1;
    }
    assert(first.take(first.len() as int) =~= first);
}


// ----------------------------------------------------------- dependencies

/// Module `index`, whose unit is `unit`, depends on module `target`: it
/// takes from it, or it exports or mentions a qualified name of it.
pub open spec fn depends_on(unit: ModuleUnit, index: int, modules: Seq<String>, target: int) -> bool {
    &&& 0 <= target < modules.len()
    &&& {
        ||| exists|k: int|
            0 <= k < unit.takes@.len() && modules[target]@ == module_read_as(
                modules,
                unit.namespace,
                (#[trigger] unit.takes@[k]).module@,
            )
        ||| target != index && exists|k: int|
            0 <= k < unit.exports@.len() && module_of(
                modules,
                path_read_as(modules, unit.namespace, (#[trigger] unit.exports@[k]).path@),
            ) == Some(target)
        ||| target != index && exists|k: int|
            0 <= k < unit.names@.len() && module_of(
                modules,
                path_read_as(modules, unit.namespace, (#[trigger] unit.names@[k])@),
            ) == Some(target)
    }
}

/// The modules that module `index` depends on, in ascending order.
fn dependencies_of(unit: &ModuleUnit, index: usize, modules: &Vec<String>) -> (r: Vec<usize>)
    requires
        distinct_modules(modules@),
    ensures
        forall|a: int, b: int| 0 <= a < b < r@.len() ==> r@[a] < r@[b],
        forall|t: usize| #[trigger] r@.contains(t) <==> depends_on(*unit, index as int, modules@, t as int),
{
    let n = modules.len();
    let mut marked: Vec<bool> = Vec::new();
    let mut j: usize = 0;
    while j < n
        invariant
            n == modules@.len(),
            j <= n,
            marked@.len() == j,
            forall|x: int| 0 <= x < j ==> !marked@[x],
        decreases n - j,
    {
        marked.push(false);
        j += 1;
    }
    // What the module takes from.
    let mut k: usize = 0;
    while k < unit.takes.len()
        invariant
            n == modules@.len() == marked@.len(),
            distinct_modules(modules@),
            k <= unit.takes@.len(),
            forall|x: int|
                0 <= x < n ==> (#[trigger] marked@[x] <==> exists|q: int|
                    0 <= q < k && modules@[x]@ == module_read_as(modules@, unit.namespace, (#[trigger] unit.takes@[q]).module@)),
        decreases unit.takes@.len() - k,
    {
        let module = module_path_for_unit(unit, unit.takes[k].module.as_str(), modules);
        match module_index(modules, module.as_str()) {
            Some(target) => {
                marked.set(target, true);
                proof {
                    assert forall|x: int| 0 <= x < n && x != target implies modules@[x]@ != module@ by {
                        if x < target {
                            assert(modules@[x]@ != modules@[target as int]@);
                        } else {
                            assert(modules@[target as int]@ != modules@[x]@);
                        }
                    }
                }
            },
            None => {},
        }
        assert forall|x: int|
            0 <= x < n implies (#[trigger] marked@[x] <==> exists|q: int|
                0 <= q < k + 1 && modules@[x]@ == module_read_as(modules@, unit.namespace, (#[trigger] unit.takes@[q]).module@)) by {
            if marked@[x] && !(modules@[x]@ == module@) {
                let q = choose|q: int| 0 <= q < k && modules@[x]@ == module_read_as(modules@, unit.namespace, (#[trigger] unit.takes@[q]).module@);
            }
            if modules@[x]@ == module@ {
                assert(unit.takes@[k as int].module@ == unit.takes@[k as int].module@);
            }
        }
        k += 1;
    }
    let ghost after_takes = marked@;
    // What the module exports from other modules.
    let mut k: usize = 0;
    while k < unit.exports.len()
        invariant
            n == modules@.len() == marked@.len(),
            distinct_modules(modules@),
            k <= unit.exports@.len(),
            after_takes.len() == n,
            forall|x: int|
                0 <= x < n ==> (#[trigger] marked@[x] <==> after_takes[x] || (x != index && exists|q: int|
                    0 <= q < k && module_of(modules@, path_read_as(modules@, unit.namespace, (#[trigger] unit.exports@[q]).path@)) == Some(x))),
        decreases unit.exports@.len() - k,
    {
        let path = path_for_unit(unit, unit.exports[k].path.as_str(), modules);
        let found = longest_module_prefix(path.as_str(), modules);
        match found {
            Some(target) => {
                proof {
                    let c = choose|c: int| longest_head(modules@, path@, c);
                }
                if target != index {
                    marked.set(target, true);
                }
            },
            None => {},
        }
        assert forall|x: int|
            0 <= x < n implies (#[trigger] marked@[x] <==> after_takes[x] || (x != index && exists|q: int|
                0 <= q < k + 1 && module_of(modules@, path_read_as(modules@, unit.namespace, (#[trigger] unit.exports@[q]).path@)) == Some(x))) by {
            if module_of(modules@, path@) == Some(x) && x != index {
                assert(unit.exports@[k as int].path@ == unit.exports@[k as int].path@);
            }
        }
        k += 1;
    }
    let ghost after_exports = marked@;
    // What the module mentions of other modules.
    let mut k: usize = 0;
    while k < unit.names.len()
        invariant
            n == modules@.len() == marked@.len(),
            distinct_modules(modules@),
            k <= unit.names@.len(),
            after_exports.len() == n,
            forall|x: int|
                0 <= x < n ==> (#[trigger] marked@[x] <==> after_exports[x] || (x != index && exists|q: int|
                    0 <= q < k && module_of(modules@, path_read_as(modules@, unit.namespace, (#[trigger] unit.names@[q])@)) == Some(x))),
        decreases unit.names@.len() - k,
    {
        let path = path_for_unit(unit, unit.names[k].as_str(), modules);
        let found = longest_module_prefix(path.as_str(), modules);
        match found {
            Some(target) => {
                proof {
                    let c = choose|c: int| longest_head(modules@, path@, c);
                }
                if target != index {
                    marked.set(target, true);
                }
            },
            None => {},
        }
        assert forall|x: int|
            0 <= x < n implies (#[trigger] marked@[x] <==> after_exports[x] || (x != index && exists|q: int|
                0 <= q < k + 1 && module_of(modules@, path_read_as(modules@, unit.namespace, (#[trigger] unit.names@[q])@)) == Some(x))) by {
            if module_of(modules@, path@) == Some(x) && x != index {
                assert(unit.names@[k as int]@ == unit.names@[k as int]@);
            }
        }
        k += 1;
    }
    let mut r: Vec<usize> = Vec::new();
    let mut x: usize = 0;
    while x < n
        invariant
            n == modules@.len() == marked@.len(),
            x <= n,
            forall|a: int, b: int| 0 <= a < b < r@.len() ==> r@[a] < r@[b],
            forall|a: int| 0 <= a < r@.len() ==> r@[a] < x,
            forall|t: usize| #[trigger] r@.contains(t) <==> (t < x && marked@[t as int]),
        decreases n - x,
    {
        let ghost before = r@;
        if marked[x] {
            r.push(x);
        }
        assert forall|t: usize| #[trigger] r@.contains(t) <==> (t < x + 1 && marked@[t as int]) by {
            if r@.contains(t) && !before.contains(t) {
                let a = choose|a: int| 0 <= a < r@.len() && r@[a] == t;
                assert(a == before.len());
            }
            if before.contains(t) {
                let a = choose|a: int| 0 <= a < before.len() && before[a] == t;
                assert(r@[a] == t);
            }
            if t == x && marked@[t as int] {
                assert(r@[r@.len() - 1] == t);
            }
        }
        x += 1;
    }
    r
}

/// For each module, the modules it depends on, in ascending order.
pub fn dependency_edges(units: &Vec<ModuleUnit>, modules: &Vec<String>) -> (edges: Vec<Vec<usize>>)
    requires
        distinct_modules(modules@),
    ensures
        edges@.len() == units@.len(),
        forall|i: int, a: int, b: int| 0 <= i < edges@.len() && 0 <= a < b < edges@[i]@.len() ==> #[trigger] edges@[i]@[a] < #[trigger] edges@[i]@[b],
        forall|i: int, t: usize| 0 <= i < edges@.len() ==> (#[trigger] edges@[i]@.contains(t) <==> depends_on(units@[i], i, modules@, t as int)),
{
    let mut edges: Vec<Vec<usize>> = Vec::new();
    let mut i: usize = 0;
    while i < units.len()
        invariant
            i <= units@.len(),
            distinct_modules(modules@),
            edges@.len() == i,
            forall|j: int, a: int, b: int| 0 <= j < i && 0 <= a < b < edges@[j]@.len() ==> #[trigger] edges@[j]@[a] < #[trigger] edges@[j]@[b],
            forall|j: int, t: usize| 0 <= j < i ==> (#[trigger] edges@[j]@.contains(t) <==> depends_on(units@[j], j, modules@, t as int)),
        decreases units@.len() - i,
    {
        let targets = dependencies_of(&units[i], i, modules);
        edges.push(targets);
        i += 1;
    }
    edges
}


// ---------------------------------------------------------------- exports

/// What an export of a name the module does not declare is told.
pub open spec fn unknown_local(path: Seq<char>) -> Seq<char> {
    "cannot export unknown local name `"@ + path + "`"@
}

/// What an export of a name that no module exports is told.
pub open spec fn cannot_reexport(path: Seq<char>) -> Seq<char> {
    "cannot re-export private or unknown name `"@ + path + "`"@
}

/// Where resolving exports stands: each module's table of exports, the
/// exports of other modules' names still waiting (module, path, alias and
/// span), and what has been reported.
pub open spec fn export_state_wf(
    st: (Seq<Map<Seq<char>, Seq<char>>>, Seq<(int, Seq<char>, Seq<char>, Span)>, Seq<(Seq<char>, Span, Seq<char>, Option<(Span, Seq<char>)>, Option<Seq<char>>)>),
    n: int,
) -> bool {
    &&& st.0.len() == n
    &&& forall|j: int| 0 <= j < st.1.len() ==> 0 <= (#[trigger] st.1[j]).0 < n
}

/// Module `index`, in file `file`, exports `canonical` as `alias`; an alias
/// exported before is reported and stands for the later name.
pub open spec fn bind_export(
    st: (Seq<Map<Seq<char>, Seq<char>>>, Seq<(int, Seq<char>, Seq<char>, Span)>, Seq<(Seq<char>, Span, Seq<char>, Option<(Span, Seq<char>)>, Option<Seq<char>>)>),
    index: int,
    file: Seq<char>,
    alias: Seq<char>,
    canonical: Seq<char>,
    span: Span,
) -> (Seq<Map<Seq<char>, Seq<char>>>, Seq<(int, Seq<char>, Seq<char>, Span)>, Seq<(Seq<char>, Span, Seq<char>, Option<(Span, Seq<char>)>, Option<Seq<char>>)>) {
    (
        st.0.update(index, st.0[index].insert(alias, canonical)),
        st.1,
        if st.0[index].dom().contains(alias) {
            st.2.push((file, span, exported_twice(alias), None::<(Span, Seq<char>)>, None::<Seq<char>>))
        } else {
            st.2
        },
    )
}

/// One name of module `index`'s exports: a name the module declares is
/// exported as its canonical name, and so is a qualified name whose first
/// part the module declares; any other qualified name waits, read in the
/// module's namespace; an unqualified name the module does not declare is
/// refused.
pub open spec fn export_item(
    units: Seq<ModuleUnit>,
    modules: Seq<String>,
    index: int,
    st: (Seq<Map<Seq<char>, Seq<char>>>, Seq<(int, Seq<char>, Seq<char>, Span)>, Seq<(Seq<char>, Span, Seq<char>, Option<(Span, Seq<char>)>, Option<Seq<char>>)>),
    item: ImportItem,
) -> (Seq<Map<Seq<char>, Seq<char>>>, Seq<(int, Seq<char>, Seq<char>, Span)>, Seq<(Seq<char>, Span, Seq<char>, Option<(Span, Seq<char>)>, Option<Seq<char>>)>) {
    let unit = units[index];
    let declared = unit.declared();
    let path = item.path@;
    let c = colon_from(path, 0);
    if c == path.len() {
        if declared.dom().contains(path) {
            bind_export(st, index, unit.path@, item.alias@, declared[path].0, item.span)
        } else {
            (st.0, st.1, st.2.push((unit.path@, item.span, unknown_local(path), None::<(Span, Seq<char>)>, None::<Seq<char>>)))
        }
    } else if declared.dom().contains(path.take(c)) {
        bind_export(st, index, unit.path@, item.alias@, qualified(declared[path.take(c)].0, path.skip(c + 1)), item.span)
    } else {
        (st.0, st.1.push((index, path_read_as(modules, unit.namespace, path), item.alias@, item.span)), st.2)
    }
}

/// The names `items` of module `index`'s exports, in order.
pub open spec fn export_items(
    units: Seq<ModuleUnit>,
    modules: Seq<String>,
    index: int,
    st: (Seq<Map<Seq<char>, Seq<char>>>, Seq<(int, Seq<char>, Seq<char>, Span)>, Seq<(Seq<char>, Span, Seq<char>, Option<(Span, Seq<char>)>, Option<Seq<char>>)>),
    items: Seq<ImportItem>,
) -> (Seq<Map<Seq<char>, Seq<char>>>, Seq<(int, Seq<char>, Seq<char>, Span)>, Seq<(Seq<char>, Span, Seq<char>, Option<(Span, Seq<char>)>, Option<Seq<char>>)>)
    decreases items.len(),
{
    if items.len() == 0 {
        st
    } else {
        export_item(units, modules, index, export_items(units, modules, index, st, items.drop_last()), items.last())
    }
}

/// The exports of the first `k` modules, in order, from empty tables.
pub open spec fn local_exports(
    units: Seq<ModuleUnit>,
    modules: Seq<String>,
    k: int,
) -> (Seq<Map<Seq<char>, Seq<char>>>, Seq<(int, Seq<char>, Seq<char>, Span)>, Seq<(Seq<char>, Span, Seq<char>, Option<(Span, Seq<char>)>, Option<Seq<char>>)>)
    decreases k,
{
    if k <= 0 {
        (Seq::new(units.len(), |i: int| Map::<Seq<char>, Seq<char>>::empty()), seq![], seq![])
    } else {
        export_items(units, modules, k - 1, local_exports(units, modules, k - 1), units[k - 1].exports@)
    }
}

/// One pass over the waiting exports, in order: each that now names a
/// public name is exported as it, seeing what the pass exported before it;
/// the rest are kept, in order, after what `st` kept.
pub open spec fn export_round(
    units: Seq<ModuleUnit>,
    modules: Seq<String>,
    st: (Seq<Map<Seq<char>, Seq<char>>>, Seq<(int, Seq<char>, Seq<char>, Span)>, Seq<(Seq<char>, Span, Seq<char>, Option<(Span, Seq<char>)>, Option<Seq<char>>)>),
    waiting: Seq<(int, Seq<char>, Seq<char>, Span)>,
) -> (Seq<Map<Seq<char>, Seq<char>>>, Seq<(int, Seq<char>, Seq<char>, Span)>, Seq<(Seq<char>, Span, Seq<char>, Option<(Span, Seq<char>)>, Option<Seq<char>>)>)
    decreases waiting.len(),
{
    if waiting.len() == 0 {
        st
    } else {
        let s = export_round(units, modules, st, waiting.drop_last());
        let w = waiting.last();
        match public_path(modules, s.0, w.1) {
            None => (s.0, s.1.push(w), s.2),
            Some(target) => bind_export(s, w.0, units[w.0].path@, w.2, target, w.3),
        }
    }
}

/// A pass keeps no more than it was given.
proof fn lemma_round_keeps_fewer(
    units: Seq<ModuleUnit>,
    modules: Seq<String>,
    st: (Seq<Map<Seq<char>, Seq<char>>>, Seq<(int, Seq<char>, Seq<char>, Span)>, Seq<(Seq<char>, Span, Seq<char>, Option<(Span, Seq<char>)>, Option<Seq<char>>)>),
    waiting: Seq<(int, Seq<char>, Seq<char>, Span)>,
)
    ensures
        export_round(units, modules, st, waiting).1.len() <= st.1.len() + waiting.len(),
    decreases waiting.len(),
{
    if waiting.len() > 0 {
        lemma_round_keeps_fewer(units, modules, st, waiting.drop_last());
    }
}

/// Passes over the waiting exports until none waits or a pass exports none
/// of them.
pub open spec fn settle_exports(
    units: Seq<ModuleUnit>,
    modules: Seq<String>,
    tables: Seq<Map<Seq<char>, Seq<char>>>,
    waiting: Seq<(int, Seq<char>, Seq<char>, Span)>,
) -> (Seq<Map<Seq<char>, Seq<char>>>, Seq<(int, Seq<char>, Seq<char>, Span)>, Seq<(Seq<char>, Span, Seq<char>, Option<(Span, Seq<char>)>, Option<Seq<char>>)>)
    decreases waiting.len(),
{
    let s = export_round(units, modules, (tables, seq![], seq![]), waiting);
    if s.1.len() == 0 || s.1.len() >= waiting.len() {
        s
    } else {
        let t = settle_exports(units, modules, s.0, s.1);
        (t.0, t.1, s.2 + t.2)
    }
}

/// What each module exports, and what resolving the exports reports: the
/// exports of every module in order, then the passes over the waiting ones,
/// then each one still waiting, refused.
pub open spec fn export_resolution(
    units: Seq<ModuleUnit>,
    modules: Seq<String>,
) -> (Seq<Map<Seq<char>, Seq<char>>>, Seq<(Seq<char>, Span, Seq<char>, Option<(Span, Seq<char>)>, Option<Seq<char>>)>) {
    let first = local_exports(units, modules, units.len() as int);
    let last = settle_exports(units, modules, first.0, first.1);
    (
        last.0,
        first.2 + last.2 + last.1.map_values(
            |w: (int, Seq<char>, Seq<char>, Span)|
                (units[w.0].path@, w.3, cannot_reexport(w.1), None::<(Span, Seq<char>)>, Some("export the name from its defining module first"@)),
        ),
    )
}

/// A waiting export, as plain values.
pub open spec fn waiting_view(w: Seq<(usize, ImportItem)>) -> Seq<(int, Seq<char>, Seq<char>, Span)> {
    w.map_values(|e: (usize, ImportItem)| (e.0 as int, e.1.path@, e.1.alias@, e.1.span))
}

/// The same item.
fn copy_item(item: &ImportItem) -> (r: ImportItem)
    ensures
        r == *item,
{
    ImportItem { path: item.path.clone(), alias: item.alias.clone(), span: item.span }
}

/// The state of resolving exports that the tables, the waiting exports and
/// the reports since `d0` show.
pub open spec fn export_state_is(
    exports: Seq<Vec<(String, String)>>,
    waiting: Seq<(usize, ImportItem)>,
    d0: Seq<Diagnostic>,
    diagnostics: Seq<Diagnostic>,
    st: (Seq<Map<Seq<char>, Seq<char>>>, Seq<(int, Seq<char>, Seq<char>, Span)>, Seq<(Seq<char>, Span, Seq<char>, Option<(Span, Seq<char>)>, Option<Seq<char>>)>),
) -> bool {
    &&& exports_wf(exports)
    &&& export_tables(exports) == st.0
    &&& waiting_view(waiting) == st.1
    &&& reported(d0, diagnostics, st.2)
}

/// Exports `canonical` as `alias` from module `index`.
fn export_name(
    units: &Vec<ModuleUnit>,
    index: usize,
    exports: &mut Vec<Vec<(String, String)>>,
    alias: &str,
    canonical: &str,
    span: Span,
    diagnostics: &mut Vec<Diagnostic>,
    Ghost(waiting): Ghost<Seq<(usize, ImportItem)>>,
    Ghost(d0): Ghost<Seq<Diagnostic>>,
    Ghost(st): Ghost<(Seq<Map<Seq<char>, Seq<char>>>, Seq<(int, Seq<char>, Seq<char>, Span)>, Seq<(Seq<char>, Span, Seq<char>, Option<(Span, Seq<char>)>, Option<Seq<char>>)>)>,
)
    requires
        index < old(exports)@.len(),
        index < units@.len(),
        export_state_is(old(exports)@, waiting, d0, old(diagnostics)@, st),
    ensures
        final(exports)@.len() == old(exports)@.len(),
        export_state_is(final(exports)@, waiting, d0, final(diagnostics)@, bind_export(st, index as int, units@[index as int].path@, alias@, canonical@, span)),
{
    let ghost before = diagnostics@;
    let ghost old_exports = exports@;
    assert(distinct_names(exports@[index as int]@));
    insert_export(&units[index], &mut exports[index], alias, canonical, span, diagnostics);
    proof {
        assert(export_tables(exports@) =~= st.0.update(index as int, st.0[index as int].insert(alias@, canonical@))) by {
            assert forall|j: int| 0 <= j < exports@.len() implies #[trigger] export_tables(exports@)[j] == st.0.update(index as int, st.0[index as int].insert(alias@, canonical@))[j] by {
                if j != index {
                    assert(exports@[j] == old_exports[j]);
                }
            }
        }
        assert forall|j: int| 0 <= j < exports@.len() implies distinct_names(#[trigger] exports@[j]@) by {
            if j != index {
                assert(exports@[j] == old_exports[j]);
            }
        }
        if st.0[index as int].dom().contains(alias@) {
            assert(diagnostics@ =~= before.push(diagnostics@.last()));
            lemma_reported_push(d0, before, st.2, diagnostics@.last(), (units@[index as int].path@, span, exported_twice(alias@), None, None));
        }
    }
}


/// One pass over the waiting exports: each that names a public name now is
/// exported as it; the rest are kept, in order.
fn pass_over(
    units: &Vec<ModuleUnit>,
    modules: &Vec<String>,
    exports: &mut Vec<Vec<(String, String)>>,
    waiting: &Vec<(usize, ImportItem)>,
    diagnostics: &mut Vec<Diagnostic>,
) -> (kept: Vec<(usize, ImportItem)>)
    requires
        distinct_modules(modules@),
        modules@.len() == units@.len() == old(exports)@.len(),
        exports_wf(old(exports)@),
        forall|j: int| 0 <= j < waiting@.len() ==> (#[trigger] waiting@[j]).0 < units@.len(),
    ensures
        final(exports)@.len() == old(exports)@.len(),
        forall|j: int| 0 <= j < kept@.len() ==> (#[trigger] kept@[j]).0 < units@.len(),
        export_state_is(
            final(exports)@,
            kept@,
            old(diagnostics)@,
            final(diagnostics)@,
            export_round(units@, modules@, (export_tables(old(exports)@), seq![], seq![]), waiting_view(waiting@)),
        ),
{
    let ghost d0 = diagnostics@;
    let ghost start = (export_tables(exports@), Seq::<(int, Seq<char>, Seq<char>, Span)>::empty(), Seq::<(Seq<char>, Span, Seq<char>, Option<(Span, Seq<char>)>, Option<Seq<char>>)>::empty());
    let ghost all = waiting_view(waiting@);
    let mut kept: Vec<(usize, ImportItem)> = Vec::new();
    proof {
        lemma_reported_none(d0);
        assert(waiting_view(kept@) =~= seq![]);
        assert(all.take(0) =~= seq![]);
    }
    let mut j: usize = 0;
    while j < waiting.len()
        invariant
            distinct_modules(modules@),
            modules@.len() == units@.len() == exports@.len(),
            all == waiting_view(waiting@),
            forall|x: int| 0 <= x < waiting@.len() ==> (#[trigger] waiting@[x]).0 < units@.len(),
            forall|x: int| 0 <= x < kept@.len() ==> (#[trigger] kept@[x]).0 < units@.len(),
            j <= waiting@.len(),
            export_state_is(exports@, kept@, d0, diagnostics@, export_round(units@, modules@, start, all.take(j as int))),
        decreases waiting@.len() - j,
    {
        let ghost s = export_round(units@, modules@, start, all.take(j as int));
        assert(all.take(j + 1).drop_last() =~= all.take(j as int));
        assert(all.take(j + 1).last() == all[j as int]);
        let index = waiting[j].0;
        match resolve_public_path(waiting[j].1.path.as_str(), modules, exports) {
            None => {
                let ghost before = kept@;
                kept.push((index, copy_item(&waiting[j].1)));
                assert(waiting_view(kept@) =~= waiting_view(before).push(all[j as int]));
            },
            Some(target) => {
                export_name(
                    units,
                    index,
                    exports,
                    waiting[j].1.alias.as_str(),
                    target.as_str(),
                    waiting[j].1.span,
                    diagnostics,
                    Ghost(kept@),
                    Ghost(d0),
                    Ghost(s),
                );
            },
        }
        j += 1;
    }
    assert(all.take(all.len() as int) =~= all);
    kept
}

/// Exports of one module's names: what `export_items` says of them.
fn export_unit(
    units: &Vec<ModuleUnit>,
    modules: &Vec<String>,
    index: usize,
    exports: &mut Vec<Vec<(String, String)>>,
    waiting: &mut Vec<(usize, ImportItem)>,
    diagnostics: &mut Vec<Diagnostic>,
    Ghost(d0): Ghost<Seq<Diagnostic>>,
    Ghost(st): Ghost<(Seq<Map<Seq<char>, Seq<char>>>, Seq<(int, Seq<char>, Seq<char>, Span)>, Seq<(Seq<char>, Span, Seq<char>, Option<(Span, Seq<char>)>, Option<Seq<char>>)>)>,
)
    requires
        index < units@.len(),
        distinct_modules(modules@),
        modules@.len() == units@.len() == old(exports)@.len(),
        units@[index as int].tables_wf(),
        forall|j: int| 0 <= j < old(waiting)@.len() ==> (#[trigger] old(waiting)@[j]).0 < units@.len(),
        export_state_is(old(exports)@, old(waiting)@, d0, old(diagnostics)@, st),
    ensures
        final(exports)@.len() == old(exports)@.len(),
        forall|j: int| 0 <= j < final(waiting)@.len() ==> (#[trigger] final(waiting)@[j]).0 < units@.len(),
        export_state_is(
            final(exports)@,
            final(waiting)@,
            d0,
            final(diagnostics)@,
            export_items(units@, modules@, index as int, st, units@[index as int].exports@),
        ),
{
    let unit = &units[index];
    let ghost items = unit.exports@;
    proof {
        assert(items.take(0) =~= seq![]);
        lemma_table(unit.declarations@, |d: Decl| decl_view(d));
    }
    let mut k: usize = 0;
    while k < unit.exports.len()
        invariant
            unit == &units@[index as int],
            index < units@.len(),
            items == unit.exports@,
            distinct_modules(modules@),
            modules@.len() == units@.len() == exports@.len(),
            unit.tables_wf(),
            forall|q: Seq<char>| #[trigger] unit.declared().dom().contains(q) <==> exists|i: int| 0 <= i < unit.declarations@.len() && unit.declarations@[i].0@ == q,
            forall|i: int| 0 <= i < unit.declarations@.len() ==> #[trigger] unit.declared()[unit.declarations@[i].0@] == decl_view(unit.declarations@[i].1),
            forall|j: int| 0 <= j < waiting@.len() ==> (#[trigger] waiting@[j]).0 < units@.len(),
            k <= items.len(),
            export_state_is(exports@, waiting@, d0, diagnostics@, export_items(units@, modules@, index as int, st, items.take(k as int))),
        decreases items.len() - k,
    {
        let ghost s = export_items(units@, modules@, index as int, st, items.take(k as int));
        assert(items.take(k + 1).drop_last() =~= items.take(k as int));
        assert(items.take(k + 1).last() == items[k as int]);
        let item = &unit.exports[k];
        let cs = chars_of(item.path.as_str());
        let c = find_colon(&cs, 0);
        proof {
            lemma_colon_from(cs@, 0);
        }
        if c == cs.len() {
            match find_name(&unit.declarations, item.path.as_str()) {
                Some(i) => {
                    export_name(
                        units,
                        index,
                        exports,
                        item.alias.as_str(),
                        unit.declarations[i].1.canonical.as_str(),
                        item.span,
                        diagnostics,
                        Ghost(waiting@),
                        Ghost(d0),
                        Ghost(s),
                    );
                },
                None => {
                    let ghost before = diagnostics@;
                    let message = around("cannot export unknown local name `", item.path.as_str(), "`");
                    report(
                        diagnostics,
                        module_error_at(unit.path.as_str(), item.span, message),
                        Ghost((unit.path@, item.span, unknown_local(item.path@), None, None)),
                    );
                    proof {
                        lemma_reported_chain(d0, before, diagnostics@, s.2, seq![(unit.path@, item.span, unknown_local(item.path@), None::<(Span, Seq<char>)>, None::<Seq<char>>)]);
                        assert(s.2 + seq![(unit.path@, item.span, unknown_local(item.path@), None::<(Span, Seq<char>)>, None::<Seq<char>>)] =~= s.2.push((unit.path@, item.span, unknown_local(item.path@), None::<(Span, Seq<char>)>, None::<Seq<char>>)));
                    }
                },
            }
        } else {
            let head = crate::text::string_of(&cs, 0, c);
            assert(head@ =~= item.path@.take(c as int));
            match find_name(&unit.declarations, head.as_str()) {
                Some(i) => {
                    let tail = crate::text::string_of(&cs, c + 1, cs.len());
                    assert(tail@ =~= item.path@.skip(c + 1));
                    let canonical = qualify(unit.declarations[i].1.canonical.as_str(), tail.as_str());
                    export_name(
                        units,
                        index,
                        exports,
                        item.alias.as_str(),
                        canonical.as_str(),
                        item.span,
                        diagnostics,
                        Ghost(waiting@),
                        Ghost(d0),
                        Ghost(s),
                    );
                },
                None => {
                    let ghost before = waiting@;
                    let path = path_for_unit(unit, item.path.as_str(), modules);
                    waiting.push((index, ImportItem { path, alias: item.alias.clone(), span: item.span }));
                    assert(waiting_view(waiting@) =~= waiting_view(before).push((index as int, path@, item.alias@, item.span)));
                },
            }
        }
        k += 1;
    }
    assert(items.take(items.len() as int) =~= items);
}

/// What every module exports: each name of its `export` declarations, under
/// its alias, as the canonical name it stands for.
///
/// A name the module declares, or a qualified name whose first part it
/// declares, is exported at once. A name of another module waits until that
/// module exports it: the waiting names are passed over in order until none
/// is left or a pass exports none of them, so a chain of re-exports resolves
/// whatever order the modules come in. What still waits then is refused, and
/// so is an unqualified name the module does not declare and an alias
/// exported twice.
pub fn resolve_exports(
    units: &Vec<ModuleUnit>,
    modules: &Vec<String>,
    diagnostics: &mut Vec<Diagnostic>,
) -> (exports: Vec<Vec<(String, String)>>)
    requires
        distinct_modules(modules@),
        modules@.len() == units@.len(),
        forall|i: int| 0 <= i < units@.len() ==> (#[trigger] units@[i]).tables_wf(),
    ensures
        exports@.len() == units@.len(),
        exports_wf(exports@),
        export_tables(exports@) == export_resolution(units@, modules@).0,
        reported(old(diagnostics)@, final(diagnostics)@, export_resolution(units@, modules@).1),
{
    let n = units.len();
    let ghost d0 = diagnostics@;
    let mut exports: Vec<Vec<(String, String)>> = Vec::new();
    let mut i: usize = 0;
    while i < n
        invariant
            n == units@.len(),
            i <= n,
            exports@.len() == i,
            forall|j: int| 0 <= j < i ==> (#[trigger] exports@[j])@.len() == 0,
        decreases n - i,
    {
        exports.push(Vec::new());
        i += 1;
    }
    let mut waiting: Vec<(usize, ImportItem)> = Vec::new();
    proof {
        lemma_reported_none(d0);
        assert(export_tables(exports@) =~= Seq::new(units@.len(), |i: int| Map::<Seq<char>, Seq<char>>::empty())) by {
            assert forall|j: int| 0 <= j < n implies #[trigger] export_tables(exports@)[j] == Map::<Seq<char>, Seq<char>>::empty() by {
                assert(exports@[j]@ =~= seq![]);
                assert(bindings(exports@[j]@) == Map::<Seq<char>, Seq<char>>::empty());
            }
        }
        assert(waiting_view(waiting@) =~= seq![]);
        assert forall|j: int| 0 <= j < exports@.len() implies distinct_names(#[trigger] exports@[j]@) by {}
    }
    let mut index: usize = 0;
    while index < n
        invariant
            n == units@.len() == modules@.len() == exports@.len(),
            distinct_modules(modules@),
            forall|j: int| 0 <= j < units@.len() ==> (#[trigger] units@[j]).tables_wf(),
            index <= n,
            forall|j: int| 0 <= j < waiting@.len() ==> (#[trigger] waiting@[j]).0 < n,
            export_state_is(exports@, waiting@, d0, diagnostics@, local_exports(units@, modules@, index as int)),
        decreases n - index,
    {
        export_unit(units, modules, index, &mut exports, &mut waiting, diagnostics, Ghost(d0), Ghost(local_exports(units@, modules@, index as int)));
        index += 1;
    }
    let ghost first = local_exports(units@, modules@, n as int);
    let ghost goal = settle_exports(units@, modules@, first.0, first.1);
    let ghost d1 = diagnostics@;
    let ghost mut done: Seq<(Seq<char>, Span, Seq<char>, Option<(Span, Seq<char>)>, Option<Seq<char>>)> = seq![];
    proof {
        lemma_reported_none(d1);
        assert(goal.2 =~= done + goal.2);
    }
    let mut settled = false;
    while !settled
        invariant
            n == units@.len() == modules@.len() == exports@.len(),
            distinct_modules(modules@),
            exports_wf(exports@),
            forall|j: int| 0 <= j < waiting@.len() ==> (#[trigger] waiting@[j]).0 < n,
            reported(d0, d1, first.2),
            reported(d1, diagnostics@, done),
            settled ==> export_tables(exports@) == goal.0 && waiting_view(waiting@) == goal.1 && done == goal.2,
            !settled ==> ({
                let b = settle_exports(units@, modules@, export_tables(exports@), waiting_view(waiting@));
                goal.0 == b.0 && goal.1 == b.1 && goal.2 == done + b.2
            }),
        decreases waiting@.len(), if settled { 0nat } else { 1nat },
    {
        let before = waiting.len();
        let ghost tables = export_tables(exports@);
        let ghost d2 = diagnostics@;
        let kept = pass_over(units, modules, &mut exports, &waiting, diagnostics);
        let ghost s = export_round(units@, modules@, (tables, seq![], seq![]), waiting_view(waiting@));
        let ghost old_done = done;
        proof {
            lemma_round_keeps_fewer(units@, modules@, (tables, seq![], seq![]), waiting_view(waiting@));
            lemma_reported_chain(d1, d2, diagnostics@, done, s.2);
            done = done + s.2;
        }
        waiting = kept;
        if waiting.len() == 0 || waiting.len() == before {
            settled = true;
            proof {
                assert(waiting_view(waiting@).len() == waiting@.len());
            }
        } else {
            proof {
                let r = settle_exports(units@, modules@, export_tables(exports@), waiting_view(waiting@));
                assert(s.1.len() < waiting_view(waiting@).len() + 1);
                assert(old_done + (s.2 + r.2) =~= done + r.2);
            }
        }
    }
    let ghost d3 = diagnostics@;
    let ghost tail = goal.1.map_values(
        |w: (int, Seq<char>, Seq<char>, Span)|
            (units@[w.0].path@, w.3, cannot_reexport(w.1), None::<(Span, Seq<char>)>, Some("export the name from its defining module first"@)),
    );
    proof {
        lemma_reported_none(d3);
        assert(tail.take(0) =~= seq![]);
    }
    let mut j: usize = 0;
    while j < waiting.len()
        invariant
            n == units@.len(),
            forall|x: int| 0 <= x < waiting@.len() ==> (#[trigger] waiting@[x]).0 < n,
            waiting_view(waiting@) == goal.1,
            tail == goal.1.map_values(
                |w: (int, Seq<char>, Seq<char>, Span)|
                    (units@[w.0].path@, w.3, cannot_reexport(w.1), None::<(Span, Seq<char>)>, Some("export the name from its defining module first"@)),
            ),
            j <= waiting@.len(),
            reported(d3, diagnostics@, tail.take(j as int)),
        decreases waiting@.len() - j,
    {
        let ghost before = diagnostics@;
        let index = waiting[j].0;
        let message = around("cannot re-export private or unknown name `", waiting[j].1.path.as_str(), "`");
        let diagnostic = module_error_at(units[index].path.as_str(), waiting[j].1.span, message).with_help(
            "export the name from its defining module first".to_owned(),
        );
        assert(waiting_view(waiting@)[j as int] == (index as int, waiting@[j as int].1.path@, waiting@[j as int].1.alias@, waiting@[j as int].1.span));
        report(diagnostics, diagnostic, Ghost(tail[j as int]));
        proof {
            lemma_reported_chain(d3, before, diagnostics@, tail.take(j as int), seq![tail[j as int]]);
            assert(tail.take(j as int) + seq![tail[j as int]] =~= tail.take(j + 1));
        }
        j += 1;
    }
    proof {
        assert(tail.take(tail.len() as int) =~= tail);
        lemma_reported_chain(d0, d1, d3, first.2, done);
        lemma_reported_chain(d0, d3, diagnostics@, first.2 + done, tail);
    }
    exports
}


// -------------------------------------------------------------- summaries

/// `a` comes before `b` in the order of `str`'s `<`: at the first
/// character where they differ, `a`'s is the smaller, or `a` is a proper
/// prefix of `b`.
pub open spec fn lex_less(a: Seq<char>, b: Seq<char>) -> bool
    decreases a.len(),
{
    if a.len() == 0 {
        b.len() > 0
    } else if b.len() == 0 {
        false
    } else if a[0] != b[0] {
        a[0] < b[0]
    } else {
        lex_less(a.skip(1), b.skip(1))
    }
}

proof fn lemma_lex_irreflexive(a: Seq<char>)
    ensures
        !lex_less(a, a),
    decreases a.len(),
{
    if a.len() > 0 {
        lemma_lex_irreflexive(a.skip(1));
    }
}

proof fn lemma_lex_transitive(a: Seq<char>, b: Seq<char>, c: Seq<char>)
    requires
        lex_less(a, b),
        lex_less(b, c),
    ensures
        lex_less(a, c),
    decreases a.len(),
{
    if a.len() > 0 && b.len() > 0 && c.len() > 0 && a[0] == b[0] && b[0] == c[0] {
        lemma_lex_transitive(a.skip(1), b.skip(1), c.skip(1));
    }
}

proof fn lemma_lex_total(a: Seq<char>, b: Seq<char>)
    requires
        a != b,
    ensures
        lex_less(a, b) || lex_less(b, a),
    decreases a.len(),
{
    if a.len() > 0 && b.len() > 0 && a[0] == b[0] {
        if a.skip(1) == b.skip(1) {
            assert(a =~= seq![a[0]] + a.skip(1));
            assert(b =~= seq![b[0]] + b.skip(1));
        }
        lemma_lex_total(a.skip(1), b.skip(1));
    } else if a.len() > 0 && b.len() > 0 {
        assert(a[0] < b[0] || b[0] < a[0]);
    } else if a.len() == 0 && b.len() == 0 {
        assert(a =~= b);
    }
}

/// Whether `a` comes before `b` in the order of `str`'s `<`.
pub fn lex_lt(a: &str, b: &str) -> (r: bool)
    ensures
        r == lex_less(a@, b@),
{
    let x = chars_of(a);
    let y = chars_of(b);
    let mut k: usize = 0;
    assert(x@.skip(0) =~= x@ && y@.skip(0) =~= y@);
    while k < x.len() && k < y.len() && x[k] == y[k]
        invariant
            x@ == a@,
            y@ == b@,
            k <= x@.len(),
            k <= y@.len(),
            lex_less(a@, b@) == lex_less(x@.skip(k as int), y@.skip(k as int)),
        decreases x@.len() - k,
    {
        assert(x@.skip(k as int).skip(1) =~= x@.skip(k + 1));
        assert(y@.skip(k as int).skip(1) =~= y@.skip(k + 1));
        k += 1;
    }
    if k == x.len() {
        k < y.len()
    } else if k == y.len() {
        false
    } else {
        x[k] < y[k]
    }
}

/// `order` lists each of `0..n` once.
pub open spec fn is_order(order: Seq<usize>, n: nat) -> bool {
    &&& order.len() == n
    &&& forall|i: int| 0 <= i < order.len() ==> order[i] < n
    &&& forall|i: int, j: int| 0 <= i < j < order.len() ==> order[i] != order[j]
    &&& forall|x: usize| x < n ==> #[trigger] order.contains(x)
}

/// The entries of `t` in ascending order of their names.
fn order_by_name<V>(t: &Vec<(String, V)>) -> (order: Vec<usize>)
    requires
        distinct_names(t@),
    ensures
        is_order(order@, t@.len()),
        forall|i: int, j: int| 0 <= i < j < order@.len() ==> lex_less(t@[order@[i] as int].0@, t@[order@[j] as int].0@),
{
    let mut order: Vec<usize> = Vec::new();
    let mut k: usize = 0;
    while k < t.len()
        invariant
            distinct_names(t@),
            k <= t@.len(),
            order@.len() == k,
            forall|i: int| 0 <= i < order@.len() ==> order@[i] < k,
            forall|i: int, j: int| 0 <= i < j < order@.len() ==> order@[i] != order@[j],
            forall|x: usize| x < k ==> #[trigger] order@.contains(x),
            forall|i: int, j: int| 0 <= i < j < order@.len() ==> lex_less(t@[order@[i] as int].0@, t@[order@[j] as int].0@),
        decreases t@.len() - k,
    {
        let mut p: usize = 0;
        while p < order.len() && !lex_lt(t[k].0.as_str(), t[order[p]].0.as_str())
            invariant
                distinct_names(t@),
                k < t@.len(),
                p <= order@.len(),
                forall|i: int| 0 <= i < order@.len() ==> order@[i] < k,
                forall|i: int| 0 <= i < p ==> lex_less(t@[order@[i] as int].0@, t@[k as int].0@),
            decreases order@.len() - p,
        {
            proof {
                let o = order@[p as int] as int;
                assert(t@[o].0@ != t@[k as int].0@);
                lemma_lex_total(t@[o].0@, t@[k as int].0@);
            }
            p += 1;
        }
        let ghost before = order@;
        order.insert(p, k);
        proof {
            assert forall|i: int, j: int| 0 <= i < j < order@.len() implies lex_less(t@[order@[i] as int].0@, t@[order@[j] as int].0@) by {
                if j < p {
                    assert(order@[i] == before[i] && order@[j] == before[j]);
                } else if j == p {
                    assert(order@[i] == before[i]);
                } else if i == p {
                    assert(order@[j] == before[j - 1]);
                    if p < before.len() {
                        assert(lex_less(t@[k as int].0@, t@[before[p as int] as int].0@));
                        if j - 1 > p {
                            lemma_lex_transitive(t@[k as int].0@, t@[before[p as int] as int].0@, t@[before[j - 1] as int].0@);
                        }
                    }
                } else if i < p {
                    assert(order@[i] == before[i] && order@[j] == before[j - 1]);
                } else {
                    assert(order@[i] == before[i - 1] && order@[j] == before[j - 1]);
                }
            }
            assert forall|x: usize| x < k + 1 implies #[trigger] order@.contains(x) by {
                if x == k {
                    assert(order@[p as int] == k);
                } else {
                    assert(before.contains(x));
                    let i = choose|i: int| 0 <= i < before.len() && before[i] == x;
                    assert(order@ == before.insert(p as int, k));
                    if i < p {
                        assert(order@[i] == before[i]);
                    } else {
                        assert(order@[i + 1] == before[i]);
                    }
                }
            }
        }
        k += 1;
    }
    order
}

/// A name and the canonical name behind it.
#[derive(Clone, Debug)]
pub struct ModuleBinding {
    pub name: String,
    pub canonical: String,
}

/// A top-level declaration of a module, for its summary.
#[derive(Clone, Debug)]
pub struct ModuleDeclaration {
    pub name: String,
    pub canonical: String,
    pub kind: DeclarationKind,
    pub span: Span,
}

/// What a module declares, exports and takes, each list in ascending order
/// of name.
#[derive(Clone, Debug)]
pub struct ModuleSummary {
    pub path: String,
    pub module: String,
    pub exports: Vec<String>,
    pub export_bindings: Vec<ModuleBinding>,
    pub imports: Vec<ModuleBinding>,
    pub declarations: Vec<ModuleDeclaration>,
}

/// `r` lists the bindings of `m`, each once, in ascending order of name.
pub open spec fn lists_bindings(r: Seq<ModuleBinding>, m: Map<Seq<char>, Seq<char>>) -> bool {
    &&& forall|i: int, j: int| 0 <= i < j < r.len() ==> lex_less(r[i].name@, r[j].name@)
    &&& forall|i: int| 0 <= i < r.len() ==> m.dom().contains(#[trigger] r[i].name@) && m[r[i].name@] == r[i].canonical@
    &&& forall|k: Seq<char>| #[trigger] m.dom().contains(k) ==> exists|i: int| 0 <= i < r.len() && r[i].name@ == k
}

/// `r` lists the names `m` binds, each once, in ascending order.
pub open spec fn lists_names(r: Seq<String>, m: Map<Seq<char>, Seq<char>>) -> bool {
    &&& forall|i: int, j: int| 0 <= i < j < r.len() ==> lex_less(r[i]@, r[j]@)
    &&& forall|i: int| 0 <= i < r.len() ==> m.dom().contains(#[trigger] r[i]@)
    &&& forall|k: Seq<char>| #[trigger] m.dom().contains(k) ==> exists|i: int| 0 <= i < r.len() && r[i]@ == k
}

/// `r` lists the declarations of `m`, each once, in ascending order of name.
pub open spec fn lists_declarations(r: Seq<ModuleDeclaration>, m: Map<Seq<char>, (Seq<char>, DeclarationKind, Span)>) -> bool {
    &&& forall|i: int, j: int| 0 <= i < j < r.len() ==> lex_less(r[i].name@, r[j].name@)
    &&& forall|i: int|
        0 <= i < r.len() ==> m.dom().contains(#[trigger] r[i].name@) && m[r[i].name@] == (
            r[i].canonical@,
            r[i].kind,
            r[i].span,
        )
    &&& forall|k: Seq<char>| #[trigger] m.dom().contains(k) ==> exists|i: int| 0 <= i < r.len() && r[i].name@ == k
}

/// The bindings of a table, in ascending order of name.
pub fn sorted_bindings(t: &Vec<(String, String)>) -> (r: Vec<ModuleBinding>)
    requires
        distinct_names(t@),
    ensures
        lists_bindings(r@, bindings(t@)),
{
    proof {
        lemma_table(t@, |s: String| s@);
    }
    let order = order_by_name(t);
    let mut r: Vec<ModuleBinding> = Vec::new();
    let mut i: usize = 0;
    while i < order.len()
        invariant
            is_order(order@, t@.len()),
            forall|a: int, b: int| 0 <= a < b < order@.len() ==> lex_less(t@[order@[a] as int].0@, t@[order@[b] as int].0@),
            i <= order@.len(),
            r@.len() == i,
            forall|a: int| 0 <= a < i ==> (#[trigger] r@[a]).name@ == t@[order@[a] as int].0@ && r@[a].canonical@ == t@[order@[a] as int].1@,
        decreases order@.len() - i,
    {
        let e = &t[order[i]];
        r.push(ModuleBinding { name: e.0.clone(), canonical: e.1.clone() });
        i += 1;
    }
    proof {
        assert forall|k: Seq<char>| #[trigger] bindings(t@).dom().contains(k) implies exists|a: int| 0 <= a < r@.len() && r@[a].name@ == k by {
            let x = choose|x: int| 0 <= x < t@.len() && t@[x].0@ == k;
            assert(order@.contains(x as usize));
            let a = choose|a: int| 0 <= a < order@.len() && order@[a] == x as usize;
            assert(r@[a].name@ == k);
        }
    }
    r
}

/// The names a table binds, in ascending order.
fn sorted_names(t: &Vec<(String, String)>) -> (r: Vec<String>)
    requires
        distinct_names(t@),
    ensures
        lists_names(r@, bindings(t@)),
{
    proof {
        lemma_table(t@, |s: String| s@);
    }
    let order = order_by_name(t);
    let mut r: Vec<String> = Vec::new();
    let mut i: usize = 0;
    while i < order.len()
        invariant
            is_order(order@, t@.len()),
            forall|a: int, b: int| 0 <= a < b < order@.len() ==> lex_less(t@[order@[a] as int].0@, t@[order@[b] as int].0@),
            i <= order@.len(),
            r@.len() == i,
            forall|a: int| 0 <= a < i ==> (#[trigger] r@[a])@ == t@[order@[a] as int].0@,
        decreases order@.len() - i,
    {
        r.push(t[order[i]].0.clone());
        i += 1;
    }
    proof {
        assert forall|k: Seq<char>| #[trigger] bindings(t@).dom().contains(k) implies exists|a: int| 0 <= a < r@.len() && r@[a]@ == k by {
            let x = choose|x: int| 0 <= x < t@.len() && t@[x].0@ == k;
            assert(order@.contains(x as usize));
            let a = choose|a: int| 0 <= a < order@.len() && order@[a] == x as usize;
            assert(r@[a]@ == k);
        }
    }
    r
}

/// The declarations of a module, in ascending order of name.
fn sorted_declarations(unit: &ModuleUnit) -> (r: Vec<ModuleDeclaration>)
    requires
        unit.tables_wf(),
    ensures
        lists_declarations(r@, unit.declared()),
{
    let t = &unit.declarations;
    proof {
        lemma_table(t@, |d: Decl| decl_view(d));
    }
    let order = order_by_name(t);
    let mut r: Vec<ModuleDeclaration> = Vec::new();
    let mut i: usize = 0;
    while i < order.len()
        invariant
            t == &unit.declarations,
            is_order(order@, t@.len()),
            forall|a: int, b: int| 0 <= a < b < order@.len() ==> lex_less(t@[order@[a] as int].0@, t@[order@[b] as int].0@),
            i <= order@.len(),
            r@.len() == i,
            forall|a: int|
                0 <= a < i ==> (#[trigger] r@[a]).name@ == t@[order@[a] as int].0@ && (r@[a].canonical@, r@[a].kind, r@[a].span)
                    == decl_view(t@[order@[a] as int].1),
        decreases order@.len() - i,
    {
        let e = &t[order[i]];
        r.push(ModuleDeclaration { name: e.0.clone(), canonical: e.1.canonical.clone(), kind: e.1.kind, span: e.1.span });
        i += 1;
    }
    proof {
        assert forall|k: Seq<char>| #[trigger] unit.declared().dom().contains(k) implies exists|a: int| 0 <= a < r@.len() && r@[a].name@ == k by {
            let x = choose|x: int| 0 <= x < t@.len() && t@[x].0@ == k;
            assert(order@.contains(x as usize));
            let a = choose|a: int| 0 <= a < order@.len() && order@[a] == x as usize;
            assert(r@[a].name@ == k);
        }
    }
    r
}

/// What each module declares, exports and takes.
pub fn summaries(units: &Vec<ModuleUnit>, exports: &Vec<Vec<(String, String)>>) -> (r: Vec<ModuleSummary>)
    requires
        exports@.len() == units@.len(),
        exports_wf(exports@),
        forall|i: int| 0 <= i < units@.len() ==> (#[trigger] units@[i]).tables_wf(),
    ensures
        r@.len() == units@.len(),
        forall|i: int|
            0 <= i < r@.len() ==> {
                &&& (#[trigger] r@[i]).path == units@[i].path
                &&& r@[i].module == units@[i].module
                &&& lists_names(r@[i].exports@, bindings(exports@[i]@))
                &&& lists_bindings(r@[i].export_bindings@, bindings(exports@[i]@))
                &&& lists_bindings(r@[i].imports@, units@[i].imported())
                &&& lists_declarations(r@[i].declarations@, units@[i].declared())
            },
{
    let mut r: Vec<ModuleSummary> = Vec::new();
    let mut i: usize = 0;
    while i < units.len()
        invariant
            exports@.len() == units@.len(),
            exports_wf(exports@),
            forall|j: int| 0 <= j < units@.len() ==> (#[trigger] units@[j]).tables_wf(),
            i <= units@.len(),
            r@.len() == i,
            forall|j: int|
                0 <= j < i ==> {
                    &&& (#[trigger] r@[j]).path == units@[j].path
                    &&& r@[j].module == units@[j].module
                    &&& lists_names(r@[j].exports@, bindings(exports@[j]@))
                    &&& lists_bindings(r@[j].export_bindings@, bindings(exports@[j]@))
                    &&& lists_bindings(r@[j].imports@, units@[j].imported())
                    &&& lists_declarations(r@[j].declarations@, units@[j].declared())
                },
        decreases units@.len() - i,
    {
        let unit = &units[i];
        assert(distinct_names(exports@[i as int]@));
        let summary = ModuleSummary {
            path: unit.path.clone(),
            module: unit.module.clone(),
            exports: sorted_names(&exports[i]),
            export_bindings: sorted_bindings(&exports[i]),
            imports: sorted_bindings(&unit.imports),
            declarations: sorted_declarations(unit),
        };
        r.push(summary);
        i += 1;
    }
    r
}


// ----------------------------------------------------------- merged spans

/// Where `d` starts lies in `unit`'s stretch of the merged source, its end
/// included.
pub open spec fn owns(unit: ModuleUnit, d: Diagnostic) -> bool {
    unit.base <= d.span.start <= unit.base + unit.source_len
}

/// Unit `i` is the first of `units` whose stretch holds where `d` starts.
pub open spec fn first_owner(units: Seq<ModuleUnit>, d: Diagnostic, i: int) -> bool {
    &&& 0 <= i < units.len()
    &&& owns(units[i], d)
    &&& forall|j: int| 0 <= j < i ==> !owns(#[trigger] units[j], d)
}

/// The module whose source the merged span of `d` came from: the first
/// whose stretch holds where it starts.
pub open spec fn owner(units: Seq<ModuleUnit>, d: Diagnostic) -> Option<int> {
    if exists|i: int| first_owner(units, d, i) {
        Some(choose|i: int| first_owner(units, d, i))
    } else {
        None
    }
}

/// The module whose source the merged span of `diagnostic` came from.
pub fn owning_unit(diagnostic: &Diagnostic, units: &Vec<ModuleUnit>) -> (r: Option<usize>)
    ensures
        r matches Some(i) ==> owner(units@, *diagnostic) == Some(i as int),
        r is None ==> owner(units@, *diagnostic) is None,
{
    let start = diagnostic.span.start;
    let mut i: usize = 0;
    while i < units.len()
        invariant
            start == diagnostic.span.start,
            i <= units@.len(),
            forall|j: int| 0 <= j < i ==> !owns(#[trigger] units@[j], *diagnostic),
        decreases units@.len() - i,
    {
        if start >= units[i].base && start - units[i].base <= units[i].source_len {
            proof {
                assert(first_owner(units@, *diagnostic, i as int));
                let c = choose|c: int| first_owner(units@, *diagnostic, c);
                if c < i {
                    assert(!owns(units@[c], *diagnostic));
                } else if c > i {
                    assert(!owns(units@[i as int], *diagnostic));
                }
            }
            return Some(i);
        }
        i += 1;
    }
    None
}

/// `a - b`, or 0 where that is negative (`usize::saturating_sub`).
pub open spec fn less(a: usize, b: usize) -> usize {
    if a >= b {
        (a - b) as usize
    } else {
        0
    }
}

/// `s` moved back by `base`, as far as the start of the text.
pub open spec fn shifted(s: Span, base: usize) -> Span {
    Span { start: less(s.start, base), end: less(s.end, base), line: s.line, column: s.column }
}

/// `r` is `d` told against `file`, with every span moved back by `base`.
pub open spec fn remaps(d: Diagnostic, r: Diagnostic, file: Seq<char>, base: usize) -> bool {
    &&& r.code == d.code
    &&& r.file@ == file
    &&& r.span == shifted(d.span, base)
    &&& r.message == d.message
    &&& r.labels@.len() == d.labels@.len()
    &&& forall|i: int|
        0 <= i < r.labels@.len() ==> (#[trigger] r.labels@[i]).span == shifted(d.labels@[i].span, base)
            && r.labels@[i].message == d.labels@[i].message
    &&& r.notes == d.notes
    &&& r.help == d.help
    &&& r.suggestions@.len() == d.suggestions@.len()
    &&& forall|i: int|
        0 <= i < r.suggestions@.len() ==> {
            &&& (#[trigger] r.suggestions@[i]).span == shifted(d.suggestions@[i].span, base)
            &&& r.suggestions@[i].replacement == d.suggestions@[i].replacement
            &&& r.suggestions@[i].message == d.suggestions@[i].message
            &&& r.suggestions@[i].applicability == d.suggestions@[i].applicability
        }
}

fn shift_back(s: Span, base: usize) -> (r: Span)
    ensures
        r == shifted(s, base),
{
    Span { start: s.start.saturating_sub(base), end: s.end.saturating_sub(base), line: s.line, column: s.column }
}

/// `diagnostic`, whose spans are offsets into the merged source, told
/// against the file it came from, in that file's offsets; one whose span no
/// module holds is told against the first.
pub fn remap_diagnostic(diagnostic: Diagnostic, units: &Vec<ModuleUnit>) -> (r: Diagnostic)
    requires
        units@.len() > 0,
    ensures
        ({
            let u = match owner(units@, diagnostic) {
                Some(i) => i,
                None => 0,
            };
            remaps(diagnostic, r, units@[u].path@, units@[u].base)
        }),
{
    let u = match owning_unit(&diagnostic, units) {
        Some(i) => i,
        None => 0,
    };
    let base = units[u].base;
    let mut d = diagnostic;
    d.file = units[u].path.clone();
    d.span = shift_back(d.span, base);
    let mut i: usize = 0;
    while i < d.labels.len()
        invariant
            d.code == diagnostic.code,
            d.file@ == units@[u as int].path@,
            d.span == shifted(diagnostic.span, base),
            d.message == diagnostic.message,
            d.notes == diagnostic.notes,
            d.help == diagnostic.help,
            d.suggestions == diagnostic.suggestions,
            i <= d.labels@.len() == diagnostic.labels@.len(),
            forall|j: int|
                0 <= j < d.labels@.len() ==> (#[trigger] d.labels@[j]).span == (if j < i {
                    shifted(diagnostic.labels@[j].span, base)
                } else {
                    diagnostic.labels@[j].span
                }) && d.labels@[j].message == diagnostic.labels@[j].message,
        decreases d.labels@.len() - i,
    {
        let span = shift_back(d.labels[i].span, base);
        d.labels[i].span = span;
        i += 1;
    }
    let ghost labels = d.labels;
    let mut i: usize = 0;
    while i < d.suggestions.len()
        invariant
            d.code == diagnostic.code,
            d.file@ == units@[u as int].path@,
            d.span == shifted(diagnostic.span, base),
            d.message == diagnostic.message,
            d.notes == diagnostic.notes,
            d.help == diagnostic.help,
            d.labels == labels,
            i <= d.suggestions@.len() == diagnostic.suggestions@.len(),
            forall|j: int|
                0 <= j < d.suggestions@.len() ==> {
                    &&& (#[trigger] d.suggestions@[j]).span == (if j < i {
                        shifted(diagnostic.suggestions@[j].span, base)
                    } else {
                        diagnostic.suggestions@[j].span
                    })
                    &&& d.suggestions@[j].replacement == diagnostic.suggestions@[j].replacement
                    &&& d.suggestions@[j].message == diagnostic.suggestions@[j].message
                    &&& d.suggestions@[j].applicability == diagnostic.suggestions@[j].applicability
                },
        decreases d.suggestions@.len() - i,
    {
        let span = shift_back(d.suggestions[i].span, base);
        d.suggestions[i].span = span;
        i += 1;
    }
    d
}

/// A warning of the package is shown: it comes from a module of the
/// package's own, not from a dependency in a namespace, and from the module
/// being compiled where one is named.
pub open spec fn shown(units: Seq<ModuleUnit>, codegen_module: Option<String>, w: Diagnostic) -> bool {
    match owner(units, w) {
        None => false,
        Some(i) => units[i].namespace is None && match codegen_module {
            None => true,
            Some(selected) => units[i].module@ == selected@,
        },
    }
}

/// The warnings of a package that are shown, each told against the file it
/// came from.
pub fn reported_warnings(
    warnings: Vec<Diagnostic>,
    units: &Vec<ModuleUnit>,
    codegen_module: &Option<String>,
) -> (r: Vec<Diagnostic>)
    ensures
        r@.len() == warnings@.filter(|w: Diagnostic| shown(units@, *codegen_module, w)).len(),
        forall|j: int|
            0 <= j < r@.len() ==> {
                let w = warnings@.filter(|w: Diagnostic| shown(units@, *codegen_module, w))[j];
                let u = owner(units@, w)->Some_0;
                remaps(w, #[trigger] r@[j], units@[u].path@, units@[u].base)
            },
{
    let ghost all = warnings@;
    let ghost keep = |w: Diagnostic| shown(units@, *codegen_module, w);
    let mut rest = warnings;
    let mut r: Vec<Diagnostic> = Vec::new();
    let mut k: usize = 0;
    proof {
        reveal(Seq::filter);
        assert(all.take(0).filter(keep) =~= seq![]);
        assert(all.skip(0) =~= all);
    }
    let total = rest.len();
    while rest.len() > 0
        invariant
            all.len() == total,
            k <= all.len(),
            rest@ == all.skip(k as int),
            keep == (|w: Diagnostic| shown(units@, *codegen_module, w)),
            r@.len() == all.take(k as int).filter(keep).len(),
            forall|j: int|
                0 <= j < r@.len() ==> {
                    let w = all.take(k as int).filter(keep)[j];
                    let u = owner(units@, w)->Some_0;
                    remaps(w, #[trigger] r@[j], units@[u].path@, units@[u].base)
                },
        decreases rest@.len(),
    {
        let w = rest.remove(0);
        let ghost before = r@;
        assert(all.take(k + 1).drop_last() =~= all.take(k as int));
        assert(all.take(k + 1).last() == w);
        assert(rest@ =~= all.skip(k + 1));
        let keep_it = match owning_unit(&w, units) {
            None => false,
            Some(i) => units[i].namespace.is_none() && match codegen_module {
                None => true,
                Some(selected) => same_text(units[i].module.as_str(), selected.as_str()),
            },
        };
        if keep_it {
            r.push(remap_diagnostic(w, units));
            proof {
                reveal(Seq::filter);
                assert(all.take(k + 1).filter(keep) == all.take(k as int).filter(keep).push(w));
                assert forall|j: int| 0 <= j < r@.len() implies {
                    let v = all.take(k + 1).filter(keep)[j];
                    let u = owner(units@, v)->Some_0;
                    remaps(v, #[trigger] r@[j], units@[u].path@, units@[u].base)
                } by {
                    if j < before.len() {
                        assert(r@[j] == before[j]);
                    }
                }
            }
        } else {
            proof {
                reveal(Seq::filter);
                assert(all.take(k + 1).filter(keep) == all.take(k as int).filter(keep));
            }
        }
        k += 1;
    }
    proof {
        assert(all.take(k as int) =~= all);
    }
    r
}

} // verus!
