//! The fuzzy filter: which nodes a query shows, and in what order.

pub mod filter;
pub mod matcher;
pub mod ranking;
