//! The chat side: inbound messages, commands, replies and their delivery.

pub mod bot;
pub mod delivery;
pub mod helpers;
pub mod ilink;
pub mod ingest;
pub mod links;
pub mod outbox;
pub mod replies;
pub mod session_flow;
