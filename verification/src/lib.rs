//! Verified core of a bot that computes and posts MLB standings.

pub mod cache;
pub mod clock;
pub mod compute;
pub mod config;
pub mod discord;
pub mod format;
pub mod models;
pub mod scheduler;
pub mod text;
