pub mod ast;
pub mod codegen;
pub mod decimal;
pub mod laws;
pub mod lexer;
pub mod lowering;
pub mod parser;
pub mod printer;
pub mod syntax;
