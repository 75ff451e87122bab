//! A verified front end for the Lykia scripting and query language: tokens, the
//! scanner, the syntax tree arena, the parser, the variable resolver and the
//! environment frames that hold the values of variables at run time.

pub mod tokens;
pub mod ast;
pub mod text;
pub mod scanner;
pub mod parser;
pub mod fxmap;
pub mod environment;
