//! The Jason Transfer Protocol (JTP): a binary protocol for transferring
//! images over an ordered, reliable byte stream.

pub mod bytes;
pub mod catalog;
pub mod client;
pub mod client_args;
pub mod compression;
pub mod error;
pub mod exchange;
pub mod flags;
pub mod frames;
pub mod image_id;
pub mod listing;
pub mod order;
pub mod packet;
pub mod pem;
pub mod protocol;
pub mod rate_limit;
pub mod request;
pub mod server;
pub mod server_args;
pub mod text;
pub mod varint;
pub mod watch;
