//! `stinkpot`: recording, importing, ranking and browsing past shell commands.
//!
//! The library holds what the program decides and computes; reading the environment, files, the
//! database and the keyboard is left to its callers.

pub mod calendar;
pub mod command;
pub mod database;
pub mod error;
pub mod frame;
pub mod history;
pub mod keys;
pub mod matching;
pub mod number;
pub mod ranking;
pub mod search;
pub mod text;
pub mod time;
pub mod tui;
