//! A general simplex solver for conjunctions of linear constraints.
pub mod names;
pub mod numbers;
pub mod syntax;
pub mod parsing;
pub mod discover;
pub mod constraints;
pub mod combinations;
pub mod tableau;
pub mod session;
