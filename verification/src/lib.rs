//! A node of a small peer-to-peer file sharing network over UDP, as a verified library.
//!
//! Nodes know each other by address and port, share the hosts they know in discovery
//! datagrams, ask every known host for a file, and answer with the TCP port a file is
//! served on. This crate holds the datagram formats and every decision a node makes;
//! sockets, threads and files stay with the caller.
pub mod text;
pub mod wire;
pub mod header;
pub mod hosts;
pub mod packet;
pub mod server;
