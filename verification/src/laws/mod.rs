//! What the operations of the library are for, stated over what goes in and what
//! comes out of them.

pub mod answers;
pub mod asking;
pub mod client;
pub mod direct;
pub mod engine;
pub mod files;
pub mod limits;
pub mod metainfo;
pub mod peer;
pub mod screen;
pub mod text;
pub mod trackers;
pub mod wire;
