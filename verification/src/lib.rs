//! Chemical equation balancer: a recursive tokenizer for chemical formulas
//! and an exact-rational linear-algebra engine that finds the smallest
//! positive integer coefficients balancing the atom counts of an equation.

pub mod equation;
pub mod parser;
pub mod rat;
pub mod solve;
pub mod table;
