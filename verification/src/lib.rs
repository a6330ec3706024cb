pub mod dql_builder;
pub mod grammar;
pub mod interpreter;
pub mod lexer;
pub mod order;
pub mod parser;
pub mod recognized;
pub mod text;
pub mod tree;
pub mod types;
