//! A FRI-style low-degree folding library.
//!
//! A dense integer polynomial is repeatedly "folded" — split into its
//! even- and odd-indexed coefficients and recombined with a challenge
//! scalar — until it collapses to a constant.  Every intermediate
//! polynomial is one *layer*.  Each layer is then evaluated at a set of
//! sample points (and their negations), and a consistency check verifies
//! that a query point's evaluations propagate correctly across layers
//! down to a single terminal value.

pub mod arith;
pub mod check;
pub mod errors;
pub mod fmt;
pub mod fold;
pub mod layers;
pub mod poly;
pub mod table;
