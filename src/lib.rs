//! An optimizing interpreter for the eight-instruction tape language.
//!
//! Source text becomes symbols (`tokens`), the symbols a program tree
//! (`syntax`), the tree is rewritten by three passes (`optimize`) and then
//! walked against a tape of 30000 byte cells (`interpreter`). `semantics`
//! states what a run does, and `equivalence` proves that the passes keep it.
//!
//! A close bracket without its partner is a syntax error, as an open one is.
//! Every loop carries a bound on its iterations, `u64::MAX` by default,
//! which no real run reaches.
pub mod equivalence;
pub mod error;
pub mod interpreter;
pub mod optimize;
pub mod semantics;
pub mod syntax;
pub mod tokens;
