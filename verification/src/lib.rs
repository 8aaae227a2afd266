//! Lichen: an embeddable, line-oriented scripting language for branching
//! narrative and rule-driven game logic.
//!
//! Source text is parsed into an environment of named source blocks
//! (statement sequences) and data blocks (key/value stores).  A stepwise
//! evaluator then interprets the statements against the data store, emitting
//! values and cooperating with the host through next-actions.

pub mod def;
pub mod env;
pub mod eval;
pub mod laws;
pub mod logic;
pub mod fun;
pub mod num;
pub mod source;
pub mod parse;
pub mod path;
pub mod strmap;
pub mod var;
pub mod text;
