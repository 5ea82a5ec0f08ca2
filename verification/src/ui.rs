//! What the screen is drawn from: the cursor over the filtered list, the
//! session state, the summary counters and the texts of each row and bar.

pub mod app;
pub mod export;
pub mod interface;
pub mod navigation;
pub mod stats;
