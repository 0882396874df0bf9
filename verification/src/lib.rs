//! fastlap: linear assignment problem solvers.
//!
//! The solvers work on a square or rectangular cost matrix and return the total
//! cost together with the row-to-column and column-to-row assignments.
//! Cost values are of any copyable type; the arithmetic on them (addition,
//! subtraction and comparison) is handed in by the caller.

pub mod names;
pub mod text;
pub mod matching;
pub mod matrix;
pub mod cost;
pub mod sap;
pub mod sparse;
pub mod utils;
pub mod lap;
pub mod weights;
pub mod optimality;
pub mod duals;
pub mod results;
