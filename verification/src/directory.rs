//! The node store and the tri-state selection engine that operates on it.

pub mod records;
pub mod selection;
pub mod shape;
pub mod state;
pub mod tree;
