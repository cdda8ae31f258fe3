//! A symbolic arithmetic expression engine: an expression tree with a
//! normalising sum constructor, infix rendering and numeric evaluation.
//!
//! Constants are IEEE-754 binary64 values held by their bit pattern. Beyond
//! negation and the test for zero, which are read off the bits, the library
//! does not compute on them: the arithmetic and the decimal rendering of a
//! constant are supplied by the caller as functions, and every contract is
//! stated in terms of what those functions return.
pub mod num;
pub mod expr;
pub mod builder;
pub mod laws;
