//! Selection state tree for browsing a directory hierarchy, its fuzzy-filtered
//! projection, cursor navigation over that projection, and summary statistics.

pub mod directory;
pub mod fuzzy;
pub mod ui;
