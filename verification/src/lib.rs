pub mod ast;
pub mod numbers;
pub mod tokenizer;
pub mod parser;
pub mod generator;
