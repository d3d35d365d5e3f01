//! Groups a flat catalog of taxonomy entries, identified by IAB category
//! codes, into a two-level tree of categories and entries.

pub mod text;
pub mod classify;
pub mod listing;
pub mod string_map;
pub mod categories;
pub mod query;
pub mod select_tree;
pub mod table;
pub mod tree;
pub mod laws;
