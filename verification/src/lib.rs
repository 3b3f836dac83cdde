//! Core of a chat-to-playlist forwarding service: a directory of linked
//! streaming-service credentials and per-channel playlist subscriptions,
//! the workflows that mutate it, and a durable snapshot format for it.

pub mod auth;
pub mod directory;
pub mod records;
pub mod snapshot;
pub mod text;
pub mod tracks;
pub mod workflows;
