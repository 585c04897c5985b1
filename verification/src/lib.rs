//! A small language of arithmetic: a program is a list of `puts` statements,
//! each of which prints the value of an expression over decimal numerals,
//! `+`, `-`, `*`, `/` and parentheses.
//!
//! [`parser::parse`] turns source text into an [`ast::Program`], and
//! [`interpreter::Interpreter`] reduces a program to the values it prints.

pub mod ast;
pub mod decimal;
pub mod interpreter;
pub mod parser;
