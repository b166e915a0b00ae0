//! The decision logic of a TCP forwarder that spreads connections over scored
//! addresses: parsing, address arithmetic, scan planning, ranking, pooling and
//! selection, each with its contract.
pub mod analytics;
pub mod cli;
pub mod config;
pub mod float_bits;
pub mod forwarder;
pub mod jsonc;
pub mod metrics;
pub mod model;
pub mod net;
pub mod pool;
mod random;
pub mod scanner;
pub mod server;
pub mod sort;
pub mod state;
pub mod text;
pub mod time;
pub mod url;
pub mod utils;
pub mod web;

