//! A rule-driven tokenizer, a minimal directed graph, and a reference
//! extractor that turns C#-like source text into a graph of which declared
//! types mention which others.
pub mod graph;
pub mod lexer;
pub mod csharp;
pub mod backend;
pub mod bench;
