//! Batches RSS/Atom feed updates into scheduled reading chunks.
//!
//! The crate parses a subscription config file and per-subscription event
//! logs through a shared position-tracked cursor, and interprets update
//! policies against the log to decide when a subscription is due and what
//! the next reading batch is.

pub mod chars;
pub mod config;
pub mod error;
pub mod feed;
pub mod parse_util;
pub mod parser;
pub mod timedate;
