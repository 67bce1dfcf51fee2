//! Tokenizer and parse-tree visualizer for `.pbxproj` files.
//!
//! The lexical grammar of a `.pbxproj` file (C-style comments, quoted and
//! bare strings, parenthesized arrays, brace-delimited dictionaries) is
//! stated as specification functions over byte sequences; the executable
//! tokenizer is proved to return exactly the parse tree that the grammar
//! assigns to its input, or to fail exactly when the grammar rejects it.
//! The visualizer renders such a tree as an aligned, optionally styled
//! textual trace, again with a proved, exact description of its output.

pub mod grammar;
pub mod lexer;
pub mod props;
pub mod render;
pub mod tree;
