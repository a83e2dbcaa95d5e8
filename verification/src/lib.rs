//! Core of a relay between obfuscated MTProto clients and the Telegram data
//! centers: the handshake and its cipher streams, the per-connection byte
//! pump, and the bookkeeping that pairs every client with its peer.

pub mod cipher;
pub mod config;
pub mod error;
pub mod proto;
pub mod proxy;
pub mod pump;
