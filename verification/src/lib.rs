//! Netplay sessions and the embedded signaling server.

pub mod assoc;
pub mod bytes;
pub mod checksum;
pub mod config;
pub mod delivery;
pub mod frame;
pub mod handshake;
pub mod mailbox;
pub mod mesh;
pub mod netplay;
pub mod notice;
pub mod outbox;
pub mod overlay;
pub mod packet;
pub mod peer;
pub mod room;
pub mod signal;
pub mod signaling;
pub mod slots;
pub mod text;
pub mod topology;
pub mod wire;
