pub mod data_parser;
pub mod label;
pub mod tokenizer;
