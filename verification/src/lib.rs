//! A symbolic algebra engine: expressions are kept in a canonical
//! polynomial-over-rationals normal form, shared through an interning store,
//! and can be lowered into an operation sequence for a numeric backend.
//!
//! - [`rational`]: exact rational numbers.
//! - [`monomial`] and [`poly`]: the canonical polynomials and their
//!   arithmetic; [`poly_laws`] proves the laws of multiplication.
//! - [`node`] and [`hash`]: expression nodes and the interning store.
//! - [`lift`]: nodes as polynomials, and integer powers.
//! - [`builder`] and [`decimal`]: the construction and simplification of
//!   expressions; [`builder_laws`] proves that results do not depend on the
//!   order of construction.
//! - [`display`]: expressions as text.
//! - [`compiler`] and [`vm`]: lowering to the instructions of a backend.
//!
//! Every function is verified not to panic once its `requires` holds. A
//! result that a machine number cannot hold is an error, never a wrong
//! value.

pub mod builder;
pub mod builder_laws;
pub mod compiler;
pub mod decimal;
pub mod display;
pub mod func;
pub mod hash;
pub mod lift;
pub mod monomial;
pub mod node;
pub mod poly;
pub mod poly_laws;
pub mod rational;
pub mod vm;
