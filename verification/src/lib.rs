//! Verified core of a packet server for the Minecraft beta 1.7.3 protocol.
//!
//! The library holds the decisions that the server's network threads and its
//! tick loop take: how received bytes are framed into packets, how thread
//! events become network events, which client tokens are handed out, how
//! commands reach clients, and how connected clients move from handshaking to
//! playing in a world.
pub mod error;
pub mod packet;
pub mod inflate;
pub mod buffer;
pub mod net;
pub mod server;
