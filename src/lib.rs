//! A small source-to-AST pipeline: a line classifier, a flat tree builder, a
//! toy Ada-like parser, and a tracker that keeps repeated values from
//! stagnating.

pub mod text;
pub mod tracker;
pub mod tokenizer;
pub mod tree;
pub mod pipeline;
pub mod ada;
