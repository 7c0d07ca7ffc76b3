//! The core of the Slopium compiler: the S-expression front end, the MIR and
//! the passes that check, optimize, allocate and print it.
pub mod ast;
pub mod cfg;
pub mod diagnostic;
pub mod graph;
pub mod lexer;
pub mod mir;
pub mod mir_print;
pub mod names;
pub mod opt;
pub mod package;
pub mod parser;
pub mod reader;
pub mod regalloc;
pub mod sema;
pub mod syntax;
pub mod text;
pub mod verify;
