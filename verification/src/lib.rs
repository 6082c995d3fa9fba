//! Reading, retiming and writing subtitle files.

pub mod text;
pub mod timetypes;
pub mod errors;
pub mod formats;
pub mod cli;
