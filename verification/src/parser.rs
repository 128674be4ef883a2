pub mod laws;
pub mod lexer;
pub mod token;
