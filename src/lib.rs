//! A BNF grammar engine: grammar text is compiled into a production table,
//! and an input string is matched against it by ordered-choice backtracking
//! driven by an explicit decision stack.
//!
//! Reading grammar text, from the leaves up: `symbols` (spaces, line
//! breaks), `literal`, `range`, `reference`, `element`, `sequence`,
//! `alternation`, and `grammar`, which builds the table. `engine` matches
//! input against a table; `format` writes a table back as text.

pub mod symbols;
pub mod literal;
pub mod range;
pub mod reference;
pub mod element;
pub mod sequence;
pub mod alternation;
pub mod grammar;
pub mod engine;
pub mod format;
mod text;
