//! Torrent metainfo parsing, the peer wire protocol, and the decisions of a
//! torrent client, with every function held to a contract.

pub mod address;
pub mod bencode;
pub mod bits;
pub mod client;
pub mod dictionary;
pub mod engine;
pub mod hashing;
pub mod laws;
pub mod parser;
pub mod scan;
pub mod text;
pub mod ui;
pub mod url;
pub mod wire;
