//! Forwarding to the best of a list of remotes.
pub mod cli;
pub mod config;
pub mod connection;
pub mod loadbalancer;
pub mod logging;
pub mod metrics;
pub mod pools;
pub mod probing;
pub mod remotes;
pub mod selector;
