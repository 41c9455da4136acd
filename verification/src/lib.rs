//! A minimal interpreter for a parenthesized, prefix-operator language:
//! integer arithmetic (`+`, `-`) plus a `def` binding form.
//!
//! The pipeline has three stages:
//! - [`parser`] turns a line of text into a sequence of tokens;
//! - [`analyzer`] builds, in one left-to-right pass over the tokens, a pair
//!   of parallel trees: an expression tree and a lexical-scope tree;
//! - [`interpreter`] walks the expression tree, resolves identifiers through
//!   the scope chain, and applies `def` as a scope-mutating side effect.
//!
//! Both trees are laid out as arenas indexed by `usize`; parent and scope
//! links are plain back-indices, so the owning edges are exactly the forward
//! parent-to-children edges.

pub mod analyzer;
pub mod interpreter;
pub mod parser;
