//! The training run: configuration, schedule and export names.

pub mod config;
pub mod export;
pub mod schedule;
