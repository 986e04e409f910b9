//! Propositional-logic formulas as binary trees: building, parsing, printing,
//! validating, rewriting toward conjunctive normal form and matching against
//! axiom schemas, with every operation specified over a mathematical model of
//! the tree and proved.

pub mod symbol;
pub mod error;
pub mod tree;
pub mod formula;
pub mod parse;
pub mod validate;
pub mod serialize;
pub mod rewrite;
pub mod matcher;
pub mod subformula;
pub mod atoms;
pub mod random;
pub mod roundtrip;

pub use symbol::{BinaryOp, Symbol, UnaryOp};
pub use error::{AtomError, MPErr, SymbolParseError, ValidationError};
pub use tree::Tree;
pub use formula::PropFormula;
