//! What the jobs of the application decide.

pub mod objdiff;

