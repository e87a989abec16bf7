//! Configuration manager and cost tracker for a coding assistant: the rules by
//! which configurations are named, stored, chosen and pinned, and the
//! accounting of token usage read from session logs.

pub mod text;
pub mod error;
pub mod config;
pub mod pin;
pub mod run;
pub mod cli;
pub mod cost;
