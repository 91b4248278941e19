//! Decisions of a texture decompressor for `.pak` archives: which archives to
//! process, where the result goes, what is written into it, and how to take
//! everything back.

pub mod chunk;
pub mod error;
pub mod file_laws;
pub mod files;
pub mod metadata;
pub mod mode;
pub mod name_laws;
pub mod order;
pub mod output;
pub mod pack;
pub mod path;
pub mod restore;
pub mod restore_laws;
pub mod run_laws;
pub mod runs;
pub mod selection;
pub mod text;
pub mod undo;
pub mod util;
