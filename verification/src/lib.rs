//! A command-line argument interpreter for a paste-service client: commands
//! and their flags are registered up front, a raw argument list is resolved
//! to one command, its tokens are classified into flags and positionals, and
//! the matched command's handler is invoked with the parse result.

mod strutil;

pub mod config;
pub mod dto;
pub mod interpreter;
pub mod laws;
pub mod url;
