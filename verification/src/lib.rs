//! Verified core of a MUD client world daemon: text utilities, the telnet
//! negotiation scanner, the trigger / alias matching engine, per-world
//! variable stores and the legacy plugin attribute helpers.

pub mod text;
pub mod protocol;
pub mod codec;
pub mod inflate;
pub mod pattern;
pub mod engine;
pub mod sandbox;
pub mod bindings;
pub mod telnet;
pub mod service;
pub mod plugin;
pub mod broker;
pub mod converter;
pub mod lifecycle;
