//! boeidl: a DSL compiler for AEAT fixed-position file formats.
pub mod ast;
pub mod layout;
pub mod lexer;
pub mod messages;
pub mod parser;
pub mod report;
pub mod runtime;
pub mod text;
pub mod validator;

pub use parser::{parse, ParseError};
pub use validator::{validate, DiagLevel, Diagnostic};
