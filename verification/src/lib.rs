//! The decisions behind adding files, directories and standard input to a
//! content-addressed store.

pub mod content;
pub mod coverage;
pub mod directory;
pub mod error;
pub mod file_modes;
pub mod hash;
pub mod journal;
pub mod laws;
pub mod metadata;
pub mod operations;
pub mod order;
pub mod path;
pub mod protocol;
pub mod recording;
pub mod run;
pub mod text;
pub mod trace;
pub mod tree;
pub mod walk;
