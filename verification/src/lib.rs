use vstd::prelude::*;

pub mod text;
pub mod lexer;
pub mod error;
pub mod parser;
pub mod vars;
pub mod executor;
pub mod cli;
pub mod platform;
