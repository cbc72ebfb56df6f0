//! Term rewriting core: a term model and composable rewrite strategies.
pub mod term;
pub mod term_facts;
pub mod rewriter;
pub mod memo;
pub mod symbol_generator;
pub mod laws;
