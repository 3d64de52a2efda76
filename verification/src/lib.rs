pub mod lexer;
pub mod parser;
pub mod semantics;
pub mod optimizer;
pub mod interpreter;
pub mod compiler;
