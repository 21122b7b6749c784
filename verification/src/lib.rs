//! Finds Cargo output directories and measures the disk space they take.

pub mod args;
pub mod config;
pub mod limits;
pub mod order;
pub mod path;
pub mod scan;
pub mod session;
pub mod text;
pub mod util;
