//! Assignment algorithms that do more than pad, solve and trim.

pub mod auction;
