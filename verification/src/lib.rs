//! Lexical front end of an interactive command-line shell: a POSIX-style
//! tokenizer with exact source-position bookkeeping, and a parser that
//! classifies the tokens, hands the command and its arguments to an
//! executor, and produces a highlight overlay for rendering the line.

pub mod ansicolor;
pub mod completion;
pub mod operators;
pub mod parser;
pub mod tokenizer;
