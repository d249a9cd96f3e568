//! An Earley chart recognizer for context-free grammars over characters,
//! together with a small tokenizer for arithmetic input.
//!
//! A [`parser::EarleyParser`] is made from a [`grammar::Grammar`] and a start
//! symbol. It takes input elements one by one, keeps one item set for each
//! position it has reached, and tells whether the input read so far derives
//! from the start symbol.
//!
//! - [`grammar`], [`item`], [`state_set`]: the data.
//! - [`chart`]: what the chart is, as mathematics.
//! - [`parser`]: the engine that builds it.
//! - [`derivation`]: what it means for a text to derive from a symbol.
//! - [`soundness`], [`fixpoint`], [`completeness`]: the proofs.
//! - [`laws`]: what they add up to.
//! - [`tok`], [`text`]: the tokenizer, and helpers for writing text.

pub mod chart;
pub mod completeness;
pub mod derivation;
pub mod fixpoint;
pub mod grammar;
pub mod item;
pub mod laws;
pub mod parser;
pub mod soundness;
pub mod state_set;
pub mod text;
pub mod tok;
