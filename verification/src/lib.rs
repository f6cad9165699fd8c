//! A port-knocking daemon core: knock sequence tracking, per-source rate
//! limiting, configuration validation and firewall command construction.
pub mod text;
pub mod store;
pub mod net;
pub mod config;
pub mod knock;
pub mod rate_limit;
pub mod firewall;
pub mod server;
pub mod script;
pub mod update;
