//! The peers of a node: their addresses, and the rules for dialing, accepting
//! and forgetting them.

pub mod addr;
pub mod dial;
pub mod known;
pub mod node;
pub mod redial;
pub mod seeds;
pub mod server;
