pub mod ast;
pub mod evaluator;
pub mod input;
pub mod parser;
pub mod text;
pub mod utils;
