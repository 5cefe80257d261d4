//! The matching engine, leaves first.

pub mod types;
pub mod data_window;
pub mod map;
pub mod client;
