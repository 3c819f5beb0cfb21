//! What the views of the application decide.

pub mod config;

