pub mod chars;
pub mod display;
pub mod evaluator;
pub mod float;
pub mod laws;
pub mod object;
pub mod parser;
pub mod reader;
pub mod tokenizer;
