//! Verified core of the Jev Sentinel infrastructure watchdog.
pub mod assoc;
pub mod collectors;
pub mod config;
pub mod daemon;
pub mod delivery_laws;
pub mod error;
pub mod history;
pub mod http;
pub mod jev;
pub mod models;
pub mod notifier;
pub mod self_healing;
pub mod text;
pub mod web;
