//! cronbird: monitoring of cron jobs through callback pings.
//!
//! A job reports that it ran by calling back with its identity; the store
//! keeps, per identity, the time of the last callback and how many there
//! were, and the metrics endpoints expose them in Prometheus text or JSON.
pub mod adapters;
pub mod config;
pub mod domain;
pub mod http;
pub mod text;
