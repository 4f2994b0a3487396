//! A piece-table text buffer engine: an evolving document is represented as an
//! ordered list of references into two append-only character stores, so that
//! edits never copy the whole text. Line lengths, a cursor-to-offset mapping
//! and snapshot-based undo/redo are layered on top.

pub mod lines;
pub mod piece_table;
pub mod editor;
