//! Core state model of a guild-scoped chat-bot back-end: hierarchical
//! permission levels and their resolution, per-guild configuration with
//! explicit grants, a single-active-track session registry, and a
//! byte-level codec for durable persistence of the configuration store.

pub mod codec;
pub mod config;
pub mod entity_id;
pub mod permission;
pub mod registry;
pub mod resolve;
pub mod table;
