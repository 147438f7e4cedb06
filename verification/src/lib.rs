//! The wallet of a sidechain node, and the rules by which the node keeps its
//! peers, as a verified library.
//!
//! The library holds no file, socket or clock. A program loads stored rows into
//! these types, calls them, and stores what changed.

pub mod bytes;
pub mod coins;
pub mod composition;
pub mod dests;
pub mod effects;
pub mod index;
pub mod keys;
pub mod laws;
pub mod net;
pub mod table;
pub mod transaction;
pub mod types;
pub mod wallet;
