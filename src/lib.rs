//! A time log: a chronological list of "task finished at" entries, range
//! queries over it, its text form, and per-task aggregation of durations.

pub mod time;
pub mod text;
pub mod entry;
pub mod activity;
pub mod line;
pub mod store;
pub mod commands;
pub mod tui;
