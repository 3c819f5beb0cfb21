//! A differencing engine for object files: it aligns the code and data of a
//! target build and a base build and scores how closely they match. Beside
//! the engine stand the decisions of the program around it: how a build is
//! planned and judged, and how the project tree is searched.

pub mod config;
pub mod diff;
pub mod jobs;
pub mod obj;
pub mod text;
pub mod views;

