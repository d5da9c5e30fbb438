//! Routing engine of a JSON-RPC relay that fronts a pool of upstream providers.

pub mod circuit_breaker;
pub mod token_bucket;
pub mod num;
pub mod config;
pub mod error_reason;
pub mod state;
pub mod selection;
pub mod json;
pub mod cache;
pub mod relay;
pub mod health;
pub mod ui;
