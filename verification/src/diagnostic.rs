//! Source locations and the diagnostics every pass reports through.
use vstd::prelude::*;

pub mod codes;

verus! {

/// A region of source text: byte offsets into the file, and the line and
/// column (both counted from one) where it begins.
#[derive(Clone, Copy, Debug, PartialEq, Eq, Structural)]
pub struct Span {
    pub start: usize,
    pub end: usize,
    pub line: usize,
    pub column: usize,
}

/// The span of no source text.
pub open spec fn no_span() -> Span {
    Span { start: 0, end: 0, line: 0, column: 0 }
}

/// The span that covers both spans: it starts where the earlier one starts
/// and ends where the later one ends.
pub open spec fn spec_join(a: Span, b: Span) -> Span {
    if a.start <= b.start {
        Span { start: a.start, end: if a.end >= b.end { a.end } else { b.end }, line: a.line, column: a.column }
    } else {
        Span { start: b.start, end: if a.end >= b.end { a.end } else { b.end }, line: b.line, column: b.column }
    }
}

impl Span {
    /// The span of no source text, at the start of the file.
    pub fn none() -> (s: Span)
        ensures
            s == (Span { start: 0, end: 0, line: 0, column: 0 }),
    {
        Span { start: 0, end: 0, line: 0, column: 0 }
    }

    /// The smallest span covering `self` and `other`.
    pub fn join(self, other: Span) -> (s: Span)
        ensures
            s == spec_join(self, other),
    {
        let end = if self.end >= other.end { self.end } else { other.end };
        if self.start <= other.start {
            Span { start: self.start, end, line: self.line, column: self.column }
        } else {
            Span { start: other.start, end, line: other.line, column: other.column }
        }
    }
}

/// The last of `bases` at or before `offset`, looking at the first `count`.
pub open spec fn last_at_or_before(bases: Seq<usize>, offset: usize, count: int) -> Option<int>
    decreases count,
{
    if count <= 0 {
        None
    } else if bases[count - 1] <= offset {
        Some(count - 1)
    } else {
        last_at_or_before(bases, offset, count - 1)
    }
}

/// Which file each offset of a concatenation of files belongs to: the files
/// in order, each with the offset where it starts.
#[derive(Clone, Debug)]
pub struct SourceMap {
    files: Vec<(usize, String)>,
}

impl SourceMap {
    /// Where each file starts.
    pub closed spec fn bases(&self) -> Seq<usize> {
        self.files@.map_values(|f: (usize, String)| f.0)
    }

    /// Each file's path.
    pub closed spec fn file_paths(&self) -> Seq<Seq<char>> {
        self.files@.map_values(|f: (usize, String)| f.1@)
    }

    /// The file `offset` falls in: the last one starting at or before it.
    pub open spec fn locate(&self, offset: usize) -> Option<int> {
        last_at_or_before(self.bases(), offset, self.bases().len() as int)
    }

    /// A map of files, each given with the offset where it starts.
    pub fn new(files: Vec<(usize, String)>) -> (m: SourceMap)
        ensures
            m.bases() == files@.map_values(|f: (usize, String)| f.0),
            m.file_paths() == files@.map_values(|f: (usize, String)| f.1@),
    {
        SourceMap { files }
    }

    /// The files' paths, in order.
    pub fn paths(&self) -> (r: Vec<&str>)
        ensures
            r@.len() == self.file_paths().len(),
            forall|i: int| 0 <= i < r@.len() ==> (#[trigger] r@[i])@ == self.file_paths()[i],
    {
        let mut r: Vec<&str> = Vec::new();
        let mut i: usize = 0;
        while i < self.files.len()
            invariant
                i <= self.files@.len(),
                r@.len() == i,
                forall|j: int| 0 <= j < i ==> (#[trigger] r@[j])@ == self.files@[j].1@,
            decreases self.files@.len() - i,
        {
            r.push(self.files[i].1.as_str());
            i += 1;
        }
        r
    }

    /// The index of the file `span` starts in, or `None` when it starts before
    /// every file.
    pub fn index_of(&self, span: Span) -> (r: Option<usize>)
        ensures
            match r {
                Some(i) => self.locate(span.start) == Some(i as int),
                None => self.locate(span.start) is None,
            },
    {
        let ghost bases = self.bases();
        let mut k: usize = self.files.len();
        while k > 0
            invariant
                k <= self.files@.len(),
                bases == self.bases(),
                last_at_or_before(bases, span.start, self.files@.len() as int) == last_at_or_before(
                    bases,
                    span.start,
                    k as int,
                ),
            decreases k,
        {
            if self.files[k - 1].0 <= span.start {
                return Some(k - 1);
            }
            k -= 1;
        }
        None
    }
}

impl Default for Span {
    fn default() -> (s: Span)
        ensures
            s == (Span { start: 0, end: 0, line: 0, column: 0 }),
    {
        Span::none()
    }
}

/// How sure a suggested edit is to be right.
#[derive(Clone, Copy, Debug, PartialEq, Eq, Structural)]
pub enum Applicability {
    MachineApplicable,
    MaybeIncorrect,
}

/// A replacement the reader of a diagnostic may apply.
#[derive(Clone, Debug, PartialEq)]
pub struct Suggestion {
    pub span: Span,
    pub replacement: String,
    pub message: String,
    pub applicability: Applicability,
}

/// Another place the reader of a diagnostic should look, and why.
#[derive(Clone, Debug, PartialEq)]
pub struct Label {
    pub span: Span,
    pub message: String,
}

/// One error, with where it is and what to do about it.
#[derive(Clone, Debug, PartialEq)]
pub struct Diagnostic {
    pub code: String,
    pub file: String,
    pub span: Span,
    pub message: String,
    pub labels: Vec<Label>,
    pub notes: Vec<String>,
    pub help: Option<String>,
    pub suggestions: Vec<Suggestion>,
}

impl Diagnostic {
    /// An error with no notes, help or suggestions yet.
    pub fn error(code: &str, file: &str, span: Span, message: String) -> (d: Diagnostic)
        ensures
            d.code@ == code@,
            d.file@ == file@,
            d.span == span,
            d.message == message,
            d.labels@ == Seq::<Label>::empty(),
            d.notes@ == Seq::<String>::empty(),
            d.help is None,
            d.suggestions@ == Seq::<Suggestion>::empty(),
    {
        Diagnostic {
            code: code.to_owned(),
            file: file.to_owned(),
            span,
            message,
            labels: Vec::new(),
            notes: Vec::new(),
            help: None,
            suggestions: Vec::new(),
        }
    }

    /// The same diagnostic with `help` attached.
    pub fn with_help(self, help: String) -> (d: Diagnostic)
        ensures
            d.code == self.code,
            d.file == self.file,
            d.span == self.span,
            d.message == self.message,
            d.labels == self.labels,
            d.notes == self.notes,
            d.help == Some(help),
            d.suggestions == self.suggestions,
    {
        Diagnostic { help: Some(help), ..self }
    }

    /// The same diagnostic with one more note.
    pub fn with_note(self, note: String) -> (d: Diagnostic)
        ensures
            d.code == self.code,
            d.file == self.file,
            d.span == self.span,
            d.message == self.message,
            d.labels == self.labels,
            d.notes@ == self.notes@.push(note),
            d.help == self.help,
            d.suggestions == self.suggestions,
    {
        let mut d = self;
        d.notes.push(note);
        d
    }

    /// The same diagnostic with one more place to look at.
    pub fn with_label(self, span: Span, message: String) -> (d: Diagnostic)
        ensures
            d.code == self.code,
            d.file == self.file,
            d.span == self.span,
            d.message == self.message,
            d.labels@ == self.labels@.push(Label { span, message }),
            d.notes == self.notes,
            d.help == self.help,
            d.suggestions == self.suggestions,
    {
        let mut d = self;
        d.labels.push(Label { span, message });
        d
    }

    /// The same diagnostic with one more suggested edit.
    pub fn with_suggestion(
        self,
        span: Span,
        replacement: String,
        message: String,
        applicability: Applicability,
    ) -> (d: Diagnostic)
        ensures
            d.code == self.code,
            d.file == self.file,
            d.span == self.span,
            d.message == self.message,
            d.labels == self.labels,
            d.notes == self.notes,
            d.help == self.help,
            d.suggestions@ == self.suggestions@.push(
                Suggestion { span, replacement, message, applicability },
            ),
    {
        let mut d = self;
        d.suggestions.push(Suggestion { span, replacement, message, applicability });
        d
    }
}

/// What a fallible pass returns: its result, or every error it found.
pub type CompileResult<T> = Result<T, Vec<Diagnostic>>;

} // verus!
