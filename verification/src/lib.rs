//! fluqsr: peer-to-peer file transfer over the local network.
pub mod text;
pub mod error;
pub mod paths;
pub mod crypto;
pub mod device;
pub mod trust;
pub mod order;
pub mod settings;
pub mod discovery;
pub mod protocol;
pub mod transfer;
pub mod tls;
pub mod commands;
