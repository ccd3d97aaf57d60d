//! A lexical analyzer for a POSIX-shell-like command language, with the
//! command-line splitter and the error model of the shell around it.
pub mod errors;
pub mod parser;
pub mod shell;
