//! A macro-expanding markup engine: a document tree, the evaluator that
//! expands definitions and user macros in it, and an HTML renderer.

pub mod tree;
pub mod simplify;
pub mod eval;
pub mod laws;
pub mod html;
pub mod parser;
