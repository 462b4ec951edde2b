//! Core of a shared, DJ-style audio broadcast engine.
//!
//! The queue of tracks is not local state: it is a durable, append-only event
//! log shared by all participants. This crate holds the verified core: the
//! event model and its line-oriented JSON codec, the projection that folds the
//! log into queue / now-playing / history state, the conflict-safe append
//! protocol, the playback engine's state machine, the bounded audio cache
//! policy, and the assembler that cuts PCM byte streams into fixed 10 ms
//! frames for the real-time publish transport.

pub mod audio;
pub mod cache;
pub mod codec;
pub mod engine;
pub mod events;
pub mod frames;
pub mod logbuf;
pub mod projection;
pub mod queue_log;
pub mod room;
pub mod settings;
pub mod store;
pub mod text;
pub mod version;
pub mod webhook;
