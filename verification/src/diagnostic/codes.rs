//! The stable code each kind of diagnostic is reported under.
use vstd::prelude::*;

verus! {

/// A `(` with no `)` before the end of the file.
pub const UNCLOSED_LIST: &'static str = "SL0101";

/// A `)` (or `|)`) with no list open for it to close.
pub const UNEXPECTED_CLOSE: &'static str = "SL0102";

/// Lists nested deeper than the parser descends.
pub const MAX_NESTING: &'static str = "SL0103";

/// An abbreviation written where it cannot expand.
pub const ABBREVIATION: &'static str = "SL0104";

/// A sigil held for a feature that does not exist yet.
pub const RESERVED_SIGIL: &'static str = "SL0105";

/// A text literal the lexer cannot read.
pub const LEXICAL: &'static str = "SL0106";

/// A package whose modules cannot be put together: a bad module name, a
/// missing or private import, or modules that depend on each other in a
/// circle.
pub const MODULE: &'static str = "SL0500";

/// A compiler bug caught by checking the compiler's own output.
pub const INTERNAL: &'static str = "SL0700";

} // verus!
