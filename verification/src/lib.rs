//! Verified core of the shabti agent-memory engine: content hashing and
//! deduplication, the decisions of storing and listing, data tiers and
//! feature gates, metrics, health checks, agents, namespaces and sharing,
//! task routing, procedural memory, contradiction detection, event
//! segmentation, cluster and near-duplicate grouping, an in-memory entry
//! store, answer matching, and the MCP / A2A registries.

pub mod gate;
pub mod types;
pub mod error;
pub mod metrics;
pub mod health;
pub mod mcp;
pub mod procedural;
pub mod contradiction;
pub mod dedup;
pub mod entry;
pub mod ids;
pub mod a2a;
pub mod agent;
pub mod namespace;
pub mod sharing;
pub mod orchestrator;
pub mod event;
pub mod clustering;
pub mod engine;
pub mod near_dedup;
pub mod wasm_store;
pub mod benchmark;
