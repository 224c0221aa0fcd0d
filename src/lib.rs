//! Live monitoring of a structural solver's console output: a line-by-line
//! log parser that turns the transcript into progress events, and the display
//! state that a polling consumer builds from those events.

pub mod config;
pub mod filter;
pub mod monitor;
pub mod solver;
pub mod text;
