//! A user-space, connectionless message-queue library: multipart framing,
//! peer/session management, bounded send/receive queues, and a small family
//! of socket patterns (round-robin duplex, broadcast, and a retransmitting
//! duplex with acknowledgement and receiver dedup) over unreliable datagrams.
//!
//! The library itself is pure state: it consumes datagrams as byte vectors
//! and produces datagrams to transmit. The datagram endpoint and the clock
//! are owned by the caller, which drives every socket with an external tick.
pub mod bytes;
pub mod dealer;
pub mod dish;
pub mod errors;
pub mod frame;
pub mod hash;
pub mod kvlist;
pub mod laws;
pub mod opt;
pub mod pattern;
pub mod radio;
pub mod random;
pub mod recv_queue;
pub mod safe_dealer;
pub mod send_queue;
pub mod socket;
pub mod transport;
