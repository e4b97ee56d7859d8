//! Storage engine for an audit log of chat events.
//!
//! Every observed event (message created, edited, deleted) is recorded in an
//! append-only index. Raw event bodies are staged until enough bytes
//! accumulate, then drained into immutable, compressed, range-indexed chunks.
//! Retrieval reconstructs bodies from either store. A background scheduler
//! decides when maintenance and compaction run, and a single-writer actor
//! (in the surrounding application) owns the store and serialises access.

pub mod compression;
pub mod config;
pub mod embed;
pub mod error;
pub mod framing;
pub mod greet;
pub mod ids;
pub mod interaction_roles;
pub mod message_log;
pub mod permissions;
pub mod promote;
pub mod scheduler;
