//! Socket options. Every interval and time-to-live is a number of
//! milliseconds on the caller's monotonic clock, matching the `now`
//! arguments that drive the library.
use vstd::prelude::*;

verus! {

pub const SOCKET_DEFAULT_HWM: usize = 1000;

pub const SAFE_RESEND_IVL: u64 = 200;

pub const SAFE_RESEND_LIMIT: usize = 10;

pub const SAFE_HASH_DEDUP_TTL: u64 = 1000;

pub const UNCOMPLETED_MESSAGE_TTL: u64 = 10000;

pub const QUEUE_MAINT_IVL: u64 = 1000;

pub const PEER_HEARTBEAT_IVL: u64 = 1000;

pub const PEER_KEEPALIVE: u64 = 10000;

pub const RECONNECT_WAIT: u64 = 5000;

pub const MAX_TICK_SEND: usize = 1000;

pub const MAX_TICK_RECV: usize = 1000;

/// Milliseconds from `t` to `now` on a monotonic clock, zero when `t`
/// lies in the future: exactly `now.saturating_sub(t)`.
pub open spec fn spec_elapsed(now: u64, t: u64) -> int {
    if now >= t {
        now - t
    } else {
        0
    }
}

#[derive(Clone, Copy, Debug)]
pub struct SockOpt {
    pub send_hwm: usize,
    pub recv_hwm: usize,
    pub safe_resend_limit: usize,
    pub max_tick_send: usize,
    pub max_tick_recv: usize,
    pub uncompleted_message_ttl: u64,
    pub queue_maint_ivl: u64,
    pub peer_heartbeat_ivl: u64,
    pub peer_keepalive: u64,
    pub reconnect_wait: u64,
    pub safe_resend_ivl: u64,
    pub safe_hash_dedup_ttl: u64,
}

impl Default for SockOpt {
    /// The default options: high-water marks and tick budgets of 1000, a
    /// 0.2 s resend interval with 10 attempts, a 1 s dedup TTL, a 10 s
    /// incomplete-message TTL, 1 s queue maintenance, 1 s heartbeats, 10 s
    /// keepalive, and a 5 s reconnect wait.
    fn default() -> (r: SockOpt)
        ensures
            r == SockOpt::spec_default(),
    {
        SockOpt {
            send_hwm: SOCKET_DEFAULT_HWM,
            recv_hwm: SOCKET_DEFAULT_HWM,
            safe_resend_limit: SAFE_RESEND_LIMIT,
            max_tick_send: MAX_TICK_SEND,
            max_tick_recv: MAX_TICK_RECV,
            uncompleted_message_ttl: UNCOMPLETED_MESSAGE_TTL,
            queue_maint_ivl: QUEUE_MAINT_IVL,
            peer_heartbeat_ivl: PEER_HEARTBEAT_IVL,
            peer_keepalive: PEER_KEEPALIVE,
            reconnect_wait: RECONNECT_WAIT,
            safe_resend_ivl: SAFE_RESEND_IVL,
            safe_hash_dedup_ttl: SAFE_HASH_DEDUP_TTL,
        }
    }
}

impl SockOpt {
    pub open spec fn spec_default() -> SockOpt {
        SockOpt {
            send_hwm: SOCKET_DEFAULT_HWM,
            recv_hwm: SOCKET_DEFAULT_HWM,
            safe_resend_limit: SAFE_RESEND_LIMIT,
            max_tick_send: MAX_TICK_SEND,
            max_tick_recv: MAX_TICK_RECV,
            uncompleted_message_ttl: UNCOMPLETED_MESSAGE_TTL,
            queue_maint_ivl: QUEUE_MAINT_IVL,
            peer_heartbeat_ivl: PEER_HEARTBEAT_IVL,
            peer_keepalive: PEER_KEEPALIVE,
            reconnect_wait: RECONNECT_WAIT,
            safe_resend_ivl: SAFE_RESEND_IVL,
            safe_hash_dedup_ttl: SAFE_HASH_DEDUP_TTL,
        }
    }
}

} // verus!
