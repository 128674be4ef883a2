pub mod ast;
pub mod parser;
pub mod util;
