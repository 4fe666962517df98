//! Duplicate-file finder: the verified core.
pub mod text;
pub mod path;
pub mod order;
pub mod model;
pub mod scan;
pub mod digest;
pub mod move_files;
pub mod cli;
pub mod prefs;
pub mod session;
pub mod backend;
