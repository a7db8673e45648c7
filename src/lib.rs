//! A work-distribution relay: one producer path feeds a bounded FIFO channel,
//! and every message is claimed by exactly one of the connected consumer loops.

pub mod engine;
pub mod ingest;
pub mod laws;
pub mod message;

pub use engine::{Accepted, LoopState, LoopStep, OverflowPolicy, Rejected, Relay};
pub use ingest::{build_message, header_is_text, kind_from_content_type, parse_content_length};
pub use message::{Message, MessageKind, RelayError};
