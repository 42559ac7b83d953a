pub mod generator;
pub mod lexer;
pub mod parser;
pub mod preprocessor;
pub mod util;
