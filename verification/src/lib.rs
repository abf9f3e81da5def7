//! Line-level change annotation engine for a text buffer compared against a
//! reference version of the same file: it classifies a line diff into
//! insertion, deletion and modification regions, merges unsaved in-memory
//! edits, and maps the regions to byte-offset spans of the current buffer.

pub mod differ;
pub mod lines;
pub mod plugin;
pub mod regions;
pub mod spans;
pub mod tracker;
