//! CLUX: a byte-level configuration DSL parser, a Universal Bytecode (UBC)
//! tokenizer with a morphological trie, and a static tensor arena planner.

pub mod arch;
pub mod ast;
pub mod corpus;
pub mod decomposer;
pub mod family;
pub mod graph;
pub mod lexer;
pub mod op;
pub mod parser;
pub mod schedule;
pub mod tensor;
pub mod text;
pub mod token;
pub mod tokenizer;
pub mod trie;
pub mod ubc;
pub mod words;
