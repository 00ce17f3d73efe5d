//! Error kinds surfaced by queues, the transport core, and the socket
//! patterns. Anything about an individual frame is absorbed silently by the
//! receive path; anything about a queue contract is surfaced to the caller.
use vstd::prelude::*;

verus! {

#[derive(Debug)]
pub enum NBMQError {
    /// No datagram ready, the receive queue is empty, or the receive queue
    /// is at its high-water mark.
    WouldBlock,
    /// A message exceeds the maximum of 255 parts.
    MessageTooLong,
    /// A message exceeds the 4 GiB size limit.
    MessageTooLarge,
    /// A frame is malformed: header too short, wrong version, or a chunk
    /// that does not fit its declared part.
    FrameCorrupt,
    /// A send was requested while the peer table is empty.
    NoPeer,
    /// The session id handed to a unicast send is not in the peer table.
    UnknownPeer,
    /// The peer has been disconnected.
    PeerDisconnected,
    /// The send queue already holds `send_hwm` messages.
    HighWaterMark,
    /// The operation is not offered by this socket pattern.
    NotSupported,
    /// An internal error, with detail.
    Internal(String),
}

impl NBMQError {
    /// A short human-readable description of the error kind.
    pub fn message(&self) -> &'static str {
        match self {
            NBMQError::WouldBlock => "Operation would block",
            NBMQError::MessageTooLong => "Message multipart length exceeds max of 255",
            NBMQError::MessageTooLarge => "Message exceeds 4GB size limit",
            NBMQError::FrameCorrupt => "Internal frame is malformed",
            NBMQError::NoPeer => "No socket peers available",
            NBMQError::UnknownPeer => "Peer specified is unknown",
            NBMQError::PeerDisconnected => "Peer has been disconnected",
            NBMQError::HighWaterMark => "Queue is over high water mark",
            NBMQError::NotSupported => "Operation not supported by this socket pattern",
            NBMQError::Internal(_) => "Internal error",
        }
    }
}

} // verus!
