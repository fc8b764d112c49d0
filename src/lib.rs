//! A RakNet-compatible reliable transport over UDP datagrams, as verified
//! state machines: the wire codec and packet records, the frame layer with
//! its reliability classes, fragmentation and in-order release, the outbound
//! queue with acknowledgement and retransmission, the per-connection session,
//! and the two ends of the connection handshake. Sockets and timers belong to
//! the embedder, which hands in datagrams and clock readings and carries out
//! what comes back.

pub mod codec;
pub mod packets;
pub mod frame;
pub mod ack_queue;
pub mod split_queue;
pub mod received_queue;
pub mod packet_queue;
pub mod session;
pub mod handshake;
pub mod connection;
