//! Authoritative state and geometry bookkeeping for a multiplayer jigsaw puzzle.
//!
//! Positions are carried as an opaque type parameter `P`: the library stores,
//! copies and relays them, and never computes with them.

pub mod client;
pub mod connectivity;
pub mod interop;
pub mod jigsaw;
pub mod layout;
pub mod server;
