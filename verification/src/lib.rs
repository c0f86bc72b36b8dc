//! Nimbus: self-hosted cloud saves on top of Ludusavi.
//!
//! This crate holds the decision logic, the text formats and the small
//! parsers that the program runs on; the program around it does the I/O.

pub mod assoc;
pub mod calendar;
pub mod config;
pub mod daemon;
pub mod gameid;
pub mod gui;
pub mod log;
pub mod ludusavi;
pub mod pathset;
pub mod stamp_order;
pub mod startup;
pub mod order;
pub mod text;
pub mod timestamp;
pub mod tray;
pub mod ui;
pub mod wrap;
pub mod yaml;
