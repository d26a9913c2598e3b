//! A verified BitTorrent peer-wire download engine.
//!
//! The crate covers the framed peer protocol, the 68-byte opening handshake,
//! the `ut_metadata` extension, bencode encoding and decoding, the bounded
//! request pipeline, piece reassembly, and the piece bookkeeping that a
//! download coordinator needs.  Socket and file handling live outside the
//! library; every function here is plain computation with a contract.

pub mod bencode;
pub mod broker;
pub mod bytes20;
pub mod cli;
pub mod coordinator;
pub mod error;
pub mod extension;
pub mod frame;
pub mod handshake;
pub mod hexbytes;
pub mod magnet;
pub mod message;
pub mod meta;
pub mod peers;
pub mod piece;
pub mod pool;
pub mod session;
pub mod throttle;
pub mod tracker;
pub mod wire;
