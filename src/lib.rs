//! A small regular-expression engine: a recursive-descent pattern parser that
//! builds a `RegexNode` tree, and a matcher that evaluates the tree against a
//! line by carrying sets of reachable positions.
pub mod cli;
pub mod matcher;
pub mod parser;
