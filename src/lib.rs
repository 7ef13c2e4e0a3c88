//! A front-end toolkit for hand-written lexers and parsers: position
//! tracking, a character reader with a peek/consume protocol, lexing and
//! parsing drivers over caller-supplied state machines, and diagnostics
//! that quote the offending source line.
pub mod context;
pub mod file_error;
pub mod lexer;
pub mod parser;
pub mod reader;
pub mod span;
pub mod writer;
