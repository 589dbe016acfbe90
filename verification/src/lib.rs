//! A peer-to-peer content distribution node, as a verified library.
//!
//! Files are identified by the SHA-256 of their contents and exchanged in
//! fixed-size blocks. This crate holds the rules of the node: block geometry,
//! file metadata, the catalog and its answer to discovery queries, the
//! aggregation of what peers announce, the rarity-first download schedule and
//! the download state machine. Sockets, files and threads belong to the
//! program around it.

pub mod helpers;
pub mod ranking;
pub mod networking;
pub mod file;
pub mod wire;
pub mod announce;
pub mod request;
