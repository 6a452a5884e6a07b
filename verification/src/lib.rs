//! Kept: the note-taking core.
pub mod cell;
pub mod clipboard;
pub mod color;
pub mod date;
pub mod document;
pub mod entity_cache;
pub mod ids;
pub mod json;
pub mod persist;
pub mod query;
pub mod text;
pub mod thread;
pub mod tree;
pub mod words;
