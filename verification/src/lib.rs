//! Process bookkeeping of a resource monitor panel.

pub mod collector;
pub mod entry;
pub mod laws;
pub mod names;
pub mod order;
pub mod percent;
pub mod percent_sum;
pub mod process_tree;
pub mod report;
pub mod rounding;
pub mod rows;
pub mod text;
pub mod view;
