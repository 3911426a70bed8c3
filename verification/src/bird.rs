//! The BIRD routing daemon: how it is configured and what it reports.

pub mod config;
pub mod daemon;
