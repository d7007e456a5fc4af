//! A small regular-expression engine: patterns are parsed into syntax trees,
//! compiled into programs for a backtracking machine, and run against text.
pub mod helper;
pub mod parser;
pub mod codegen;
pub mod evaluator;
pub mod theorems;
pub mod render;
