//! A WebSocket protocol core: the frame codec, the HTTP Upgrade handshake and
//! the per-connection state machine, each with a machine-checked contract.
//!
//! The library performs no I/O of its own. Bytes that arrived from the
//! transport are handed to a [`transport::Inbound`], and the bytes that the
//! protocol wants sent are collected from a [`transport::Outbound`].
//!
//! - [`frame`] and [`wire`]: frames and their bytes.
//! - [`http`] and [`accept_key`]: the header of the Upgrade exchange.
//! - [`connection`]: sending, closing, answering control frames, reassembly.
//! - [`client`] and [`server`]: the two sides of the handshake.
//! - [`protocol`]: what holds of every connection.

pub mod accept_key;
pub mod client;
pub mod connection;
pub mod error;
pub mod frame;
pub mod http;
pub mod message;
pub mod protocol;
pub mod server;
pub mod text;
pub mod transport;
pub mod wire;
