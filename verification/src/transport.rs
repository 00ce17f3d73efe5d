//! The transport core: the peer table keyed by session id, the socket
//! mode (bind against connect), and the handshake, heartbeat, keepalive,
//! and reconnect protocol over unordered datagrams.
//!
//! The core owns no endpoint and no clock: the caller hands in every
//! received datagram with its source address and the current time, and
//! transmits every datagram the core hands back. An address is the
//! caller's opaque identifier for a remote endpoint.
use vstd::prelude::*;

use crate::bytes::spec_u64_be;
use crate::frame::{
    spec_control_frame_bytes, spec_parse_frame, ControlFrame, ControlFrameV, Frame, FrameV,
};
use crate::hash::{spec_fnv1a64, Fnv1a64};
use crate::kvlist::KvList;
use crate::opt::SockOpt;
use crate::random::{spec_xorshift, spec_xorshift_output, XORShift};

verus! {

/// One datagram: its bytes and, for an incoming one, the source address,
/// for an outgoing one, the destination.
pub struct Datagram {
    pub data: Vec<u8>,
    pub addr: u64,
}

/// The ghost image of a datagram.
pub struct DatagramV {
    pub data: Seq<u8>,
    pub addr: u64,
}

impl View for Datagram {
    type V = DatagramV;

    open spec fn view(&self) -> DatagramV {
        DatagramV { data: self.data@, addr: self.addr }
    }
}

/// A datagram sequence, as ghost images.
pub open spec fn spec_datagrams(s: Seq<Datagram>) -> Seq<DatagramV> {
    s.map_values(|d: Datagram| d@)
}

/// What the core hands up to the pattern layer: a data frame from a known
/// session, or an acknowledgement for the retry machinery.
pub enum Forward {
    Data { frame: Vec<u8>, session_id: u64 },
    Ack { session_id: u64, payload: Vec<u8> },
}

/// The ghost image of a forwarded frame.
pub enum ForwardV {
    Data(Seq<u8>, u64),
    Ack(u64, Seq<u8>),
}

impl View for Forward {
    type V = ForwardV;

    open spec fn view(&self) -> ForwardV {
        match self {
            Forward::Data { frame, session_id } => ForwardV::Data(frame@, *session_id),
            Forward::Ack { session_id, payload } => ForwardV::Ack(*session_id, payload@),
        }
    }
}

#[derive(Clone, Copy, PartialEq, Eq, Structural)]
pub struct Peer {
    pub addr: u64,
    pub last_seen: u64,
    pub last_sent: u64,
}

impl Peer {
    pub fn new(addr: u64, now: u64) -> (r: Peer)
        ensures
            r == (Peer { addr, last_seen: now, last_sent: now }),
    {
        Peer { addr, last_seen: now, last_sent: now }
    }
}

#[derive(Clone, Copy, PartialEq, Eq, Structural)]
pub struct ConnectStatus {
    pub addr: u64,
    pub session: u64,
    pub last_reconnect: u64,
}

#[derive(Clone, Copy, PartialEq, Eq, Structural)]
pub enum SockMode {
    Bind,
    Connect(ConnectStatus),
}

/// The ghost image of the core.
pub struct CoreV {
    pub mode: SockMode,
    pub peer_update: bool,
    pub peers: Map<u128, Peer>,
    pub rng_state: u64,
}

pub struct Core {
    pub opt: SockOpt,
    pub rng: XORShift,

    pub mode: SockMode,
    pub peer_update: bool,
    pub peers: KvList<Peer>,
}

impl View for Core {
    type V = CoreV;

    open spec fn view(&self) -> CoreV {
        CoreV {
            mode: self.mode,
            peer_update: self.peer_update,
            peers: self.peers@,
            rng_state: self.rng.spec_state(),
        }
    }
}

/// The session id a server assigns on a connect: the hash of a random
/// draw and the peer's address, both big-endian.
pub open spec fn spec_session_id(rng_out: u64, addr: u64) -> u64 {
    spec_fnv1a64(spec_u64_be(rng_out) + spec_u64_be(addr))
}

/// The session id for a connecting peer, from a fresh random draw and the
/// peer's address.
pub fn session_id(sample: u64, addr: u64) -> (r: u64)
    ensures
        r == spec_session_id(sample, addr),
{
    let mut hasher = Fnv1a64::new();
    let sample_bytes = crate::bytes::u64_be_vec(sample);
    let addr_bytes = crate::bytes::u64_be_vec(addr);
    hasher.write(sample_bytes.as_slice());
    hasher.write(addr_bytes.as_slice());
    proof {
        crate::hash::lemma_fnv1a_append(
            crate::hash::FNV_OFFSET_BASIS,
            spec_u64_be(sample),
            spec_u64_be(addr),
        );
    }
    hasher.finish()
}

/// A heartbeat, addressed.
pub open spec fn spec_heartbeat_to(session_id: u64, addr: u64) -> DatagramV {
    DatagramV { data: spec_control_frame_bytes(ControlFrameV::Heartbeat(session_id)), addr }
}

/// How one incoming datagram moves the core, what it forwards up, and
/// what it transmits in reply. This is the handshake table:
///
/// - a connect, at a bound server, allocates a fresh session, registers
///   the peer, and replies with the session id; a client ignores it;
/// - a connected, at a client, adopts the session as the current one,
///   registers the server as the only peer, and replies with a heartbeat;
///   a bound server ignores it;
/// - a disconnected removes the peer; a client whose current session was
///   disconnected clears it, and the next maintenance pass re-issues the
///   connect;
/// - a heartbeat refreshes a known peer (rebinding its address) and is
///   answered with a disconnect when the session is unknown;
/// - a data frame of a known session refreshes the peer, rebinds its
///   address, piggybacks a heartbeat when one is due, and is forwarded
///   up; one of an unknown session is dropped;
/// - an acknowledgement is forwarded up; unparseable bytes are dropped.
///
/// A client additionally rebinds its intended address to the datagram's
/// source.
pub open spec fn spec_handle(c: CoreV, buf: Seq<u8>, from: u64, now: u64, hb_ivl: u64) -> (
    CoreV,
    Option<ForwardV>,
    Seq<DatagramV>,
) {
    let c0 = match c.mode {
        SockMode::Connect(st) => {
            if st.addr != from {
                CoreV {
                    mode: SockMode::Connect(ConnectStatus { addr: from, ..st }),
                    ..c
                }
            } else {
                c
            }
        },
        SockMode::Bind => c,
    };
    match spec_parse_frame(buf) {
        None => (c0, None, Seq::empty()),
        Some(FrameV::DataFrame(df)) => {
            if c0.peers.contains_key(df.session_id as u128) {
                let p = c0.peers[df.session_id as u128];
                let due = now - p.last_sent > hb_ivl;
                let p1 = Peer {
                    addr: from,
                    last_seen: now,
                    last_sent: if due {
                        now
                    } else {
                        p.last_sent
                    },
                };
                (
                    CoreV { peers: c0.peers.insert(df.session_id as u128, p1), ..c0 },
                    Some(ForwardV::Data(buf, df.session_id)),
                    if due {
                        seq![spec_heartbeat_to(df.session_id, from)]
                    } else {
                        Seq::empty()
                    },
                )
            } else {
                (c0, None, Seq::empty())
            }
        },
        Some(FrameV::ControlFrame(cf)) => match cf {
            ControlFrameV::Connect => {
                if c0.mode is Bind {
                    let sid = spec_session_id(spec_xorshift_output(c0.rng_state), from);
                    (
                        CoreV {
                            peers: c0.peers.insert(
                                sid as u128,
                                Peer { addr: from, last_seen: now, last_sent: now },
                            ),
                            peer_update: true,
                            rng_state: spec_xorshift(c0.rng_state),
                            ..c0
                        },
                        None,
                        seq![
                            DatagramV {
                                data: spec_control_frame_bytes(ControlFrameV::Connected(sid)),
                                addr: from,
                            },
                        ],
                    )
                } else {
                    (c0, None, Seq::empty())
                }
            },
            ControlFrameV::Connected(sid) => {
                match c0.mode {
                    SockMode::Connect(st) => (
                        CoreV {
                            mode: SockMode::Connect(ConnectStatus { session: sid, ..st }),
                            peers: Map::<u128, Peer>::empty().insert(
                                sid as u128,
                                Peer { addr: from, last_seen: now, last_sent: now },
                            ),
                            peer_update: true,
                            ..c0
                        },
                        None,
                        seq![spec_heartbeat_to(sid, from)],
                    ),
                    SockMode::Bind => (c0, None, Seq::empty()),
                }
            },
            ControlFrameV::Disconnected(sid) => match c0.mode {
                SockMode::Connect(st) => {
                    if st.session == sid {
                        (
                            CoreV {
                                mode: SockMode::Connect(ConnectStatus { session: 0, ..st }),
                                peers: Map::empty(),
                                peer_update: true,
                                ..c0
                            },
                            None,
                            Seq::empty(),
                        )
                    } else {
                        (c0, None, Seq::empty())
                    }
                },
                SockMode::Bind => (
                    CoreV { peers: c0.peers.remove(sid as u128), peer_update: true, ..c0 },
                    None,
                    Seq::empty(),
                ),
            },
            ControlFrameV::Heartbeat(sid) => {
                if c0.peers.contains_key(sid as u128) {
                    let p = c0.peers[sid as u128];
                    (
                        CoreV {
                            peers: c0.peers.insert(
                                sid as u128,
                                Peer { addr: from, last_seen: now, last_sent: p.last_sent },
                            ),
                            ..c0
                        },
                        None,
                        Seq::empty(),
                    )
                } else {
                    (
                        c0,
                        None,
                        seq![
                            DatagramV {
                                data: spec_control_frame_bytes(
                                    ControlFrameV::Disconnected(sid),
                                ),
                                addr: from,
                            },
                        ],
                    )
                }
            },
            ControlFrameV::Ack(sid, payload) => (c0, Some(ForwardV::Ack(sid, payload)), Seq::empty()),
        },
    }
}

impl Core {
    /// Session-id keys fit in 64 bits.
    pub open spec fn wf(&self) -> bool {
        &&& self.peers.wf()
        &&& forall|i: int|
            0 <= i < self.peers.spec_entries().len() ==> (#[trigger] self.peers.spec_entries()[
                i
            ]).0 < 0x10000000000000000
    }

    /// A server core, accepting any peer. The caller owns the endpoint;
    /// `seed` seeds the session-id randomness.
    pub fn bind(opt: SockOpt, seed: u64) -> (r: Core)
        ensures
            r.wf(),
            r.opt == opt,
            r@.mode is Bind,
            r@.peer_update,
            r@.peers == Map::<u128, Peer>::empty(),
            r@.rng_state == seed,
    {
        Core {
            opt,
            rng: XORShift::new(seed),
            mode: SockMode::Bind,
            peer_update: true,
            peers: KvList::new(),
        }
    }

    /// A client core aimed at `peer_addr`, with the opening connect
    /// datagram to transmit. The reconnect clock is armed at `now`.
    pub fn connect(opt: SockOpt, peer_addr: u64, seed: u64, now: u64) -> (r: (Core, Datagram))
        ensures
            r.0.wf(),
            r.0.opt == opt,
            r.0@.mode == SockMode::Connect(
                ConnectStatus { addr: peer_addr, session: 0, last_reconnect: now },
            ),
            r.0@.peer_update,
            r.0@.peers == Map::<u128, Peer>::empty(),
            r.0@.rng_state == seed,
            r.1@ == (DatagramV {
                data: spec_control_frame_bytes(ControlFrameV::Connect),
                addr: peer_addr,
            }),
    {
        let core = Core {
            opt,
            rng: XORShift::new(seed),
            mode: SockMode::Connect(
                ConnectStatus { addr: peer_addr, session: 0, last_reconnect: now },
            ),
            peer_update: true,
            peers: KvList::new(),
        };
        let hello = Datagram { data: ControlFrame::Connect.encode(), addr: peer_addr };
        (core, hello)
    }

    /// A raw datagram to a specific address, used during the handshake.
    pub fn send_direct(&self, data: &Vec<u8>, peer_addr: u64) -> (r: Datagram)
        ensures
            r@ == (DatagramV { data: data@, addr: peer_addr }),
    {
        Datagram { data: clone_bytes(data), addr: peer_addr }
    }

    /// A unicast to a known peer: the datagram to transmit, or `None` for
    /// a peer whose keepalive lapsed, which is evicted instead. An unknown
    /// session is an error. A successful send stamps the peer's
    /// `last_sent`.
    pub fn send_peer(&mut self, data: &Vec<u8>, session_id: u64, now: u64) -> (r: Result<
        Option<Datagram>,
        crate::errors::NBMQError,
    >)
        requires
            old(self).wf(),
        ensures
            final(self).wf(),
            final(self).opt == old(self).opt,
            final(self)@.mode == old(self)@.mode,
            final(self)@.rng_state == old(self)@.rng_state,
            ({
                let key = session_id as u128;
                if !old(self)@.peers.contains_key(key) {
                    &&& r matches Err(crate::errors::NBMQError::UnknownPeer)
                    &&& final(self)@.peers == old(self)@.peers
                    &&& final(self)@.peer_update == old(self)@.peer_update
                } else {
                    let p = old(self)@.peers[key];
                    if now - p.last_seen > old(self).opt.peer_keepalive {
                        &&& r matches Ok(d) && d is None
                        &&& final(self)@.peers == old(self)@.peers.remove(key)
                        &&& final(self)@.peer_update
                    } else {
                        &&& r matches Ok(d) && (d matches Some(out) && out@ == (DatagramV {
                            data: data@,
                            addr: p.addr,
                        }))
                        &&& final(self)@.peers == old(self)@.peers.insert(
                            key,
                            Peer { last_sent: now, ..p },
                        )
                        &&& final(self)@.peer_update == old(self)@.peer_update
                    }
                }
            }),
    {
        let key = session_id as u128;
        let peer = match self.peers.get(key) {
            Some(p) => *p,
            None => {
                return Err(crate::errors::NBMQError::UnknownPeer);
            },
        };

        if now.saturating_sub(peer.last_seen) > self.opt.peer_keepalive {
            let _ = self.peers.remove(key);
            self.peer_update = true;
            proof {
                lemma_peers_bounded(
                    old(self).peers.spec_entries(),
                    self.peers.spec_entries(),
                    key,
                );
            }
            return Ok(None);
        }

        self.peers.insert(key, Peer { last_sent: now, ..peer });
        proof {
            lemma_peers_bounded(old(self).peers.spec_entries(), self.peers.spec_entries(), key);
        }
        Ok(Some(Datagram { data: clone_bytes(data), addr: peer.addr }))
    }

    /// A broadcast: one copy of `data` to every known peer, in table
    /// order, stamping each peer's `last_sent`.
    pub fn send_all(&mut self, data: &Vec<u8>, now: u64) -> (r: Vec<Datagram>)
        requires
            old(self).wf(),
        ensures
            final(self).wf(),
            final(self).opt == old(self).opt,
            final(self)@.mode == old(self)@.mode,
            final(self)@.peer_update == old(self)@.peer_update,
            final(self)@.rng_state == old(self)@.rng_state,
            r@.map_values(|d: Datagram| d@) == spec_broadcast(
                old(self).peers.spec_entries(),
                data@,
            ),
            final(self)@.peers == Map::new(
                |k: u128| old(self)@.peers.contains_key(k),
                |k: u128| Peer { last_sent: now, ..old(self)@.peers[k] },
            ),
    {
        let ghost entries0 = self.peers.spec_entries();
        let ghost peers0 = self@.peers;

        let mut out: Vec<Datagram> = Vec::new();
        let mut targets: Vec<(u128, Peer)> = Vec::new();
        let n = self.peers.len();
        let mut i: usize = 0;
        while i < n
            invariant
                self == old(self),
                self.wf(),
                n == entries0.len(),
                entries0 == self.peers.spec_entries(),
                i <= n,
                out@.map_values(|d: Datagram| d@) == spec_broadcast(
                    entries0.take(i as int),
                    data@,
                ),
                targets@ == entries0.take(i as int),
            decreases n - i,
        {
            let sid = self.peers.key_at(i);
            let peer = *self.peers.value_at(i);
            let ghost out_pre = out@;
            out.push(Datagram { data: clone_bytes(data), addr: peer.addr });
            targets.push((sid, peer));
            i = i + 1;
            proof {
                assert(entries0.take(i as int) =~= entries0.take(i as int - 1).push(
                    entries0[i - 1],
                ));
                assert(entries0.take(i as int).drop_last() =~= entries0.take(i as int - 1));
                assert(entries0.take(i as int).last() == entries0[i - 1]);
                assert(out@ =~= out_pre.push(out@.last()));
                assert(out@.last()@ == (DatagramV { data: data@, addr: entries0[i - 1].1.addr }));
                assert(out_pre.map_values(|d: Datagram| d@) =~= spec_broadcast(
                    entries0.take(i as int - 1),
                    data@,
                ));
                assert(out@.map_values(|d: Datagram| d@) =~= spec_broadcast(
                    entries0.take(i as int),
                    data@,
                ));
            }
        }
        proof {
            assert(entries0.take(n as int) =~= entries0);
            assert forall|jj: int|
                0 <= jj < entries0.len() implies self@.peers[(#[trigger] entries0[jj]).0]
                == entries0[jj].1 by {
                crate::kvlist::lemma_map_of_contains(entries0, jj);
            }
        }

        let mut j: usize = 0;
        while j < targets.len()
            invariant
                self.wf(),
                self.opt == old(self).opt,
                self.mode == old(self).mode,
                self.peer_update == old(self).peer_update,
                self.rng == old(self).rng,
                entries0 == old(self).peers.spec_entries(),
                peers0 == old(self)@.peers,
                crate::kvlist::keys_distinct(entries0),
                targets@ == entries0,
                forall|idx: int|
                    0 <= idx < entries0.len() ==> (#[trigger] entries0[idx]).0
                        < 0x10000000000000000,
                j <= targets@.len(),
                forall|k: u128| #[trigger] self@.peers.contains_key(k) <==> peers0.contains_key(k),
                forall|jj: int|
                    0 <= jj < j ==> self@.peers[(#[trigger] entries0[jj]).0] == (Peer {
                        last_sent: now,
                        ..entries0[jj].1
                    }),
                forall|jj: int|
                    j <= jj < entries0.len() ==> self@.peers[(#[trigger] entries0[jj]).0]
                        == entries0[jj].1,
            decreases targets@.len() - j,
        {
            let e = targets[j];
            let ghost map_pre = self@.peers;
            proof {
                crate::kvlist::lemma_map_of_contains(entries0, j as int);
            }
            self.peers.insert(e.0, Peer { last_sent: now, ..e.1 });
            proof {
                lemma_peers_bounded(entries0, self.peers.spec_entries(), e.0);
                assert(self@.peers == map_pre.insert(e.0, Peer { last_sent: now, ..e.1 }));
                assert forall|jj: int|
                    j + 1 <= jj < entries0.len() implies self@.peers[(#[trigger] entries0[jj]).0]
                    == entries0[jj].1 by {
                    assert(entries0[jj].0 != e.0);
                }
            }
            j = j + 1;
        }

        proof {
            assert(self@.peers =~= Map::new(
                |k: u128| peers0.contains_key(k),
                |k: u128| Peer { last_sent: now, ..peers0[k] },
            )) by {
                assert forall|k: u128| #[trigger] peers0.contains_key(k) implies self@.peers[k]
                    == (Peer { last_sent: now, ..peers0[k] }) by {
                    let idx = crate::kvlist::lemma_map_of_key_index(entries0, k);
                    crate::kvlist::lemma_map_of_contains(entries0, idx);
                    assert(entries0[idx].0 == k);
                }
            }
        }

        out
    }

    /// The peer set, exactly once per mutation epoch: the session ids when
    /// the set changed since the last read, else `None`.
    pub fn update_peers(&mut self) -> (r: Option<Vec<u64>>)
        requires
            old(self).wf(),
        ensures
            final(self).wf(),
            final(self).opt == old(self).opt,
            final(self)@.mode == old(self)@.mode,
            final(self)@.peers == old(self)@.peers,
            final(self)@.rng_state == old(self)@.rng_state,
            !final(self)@.peer_update,
            old(self)@.peer_update ==> (r matches Some(ids) && ids@ == old(
                self,
            ).peers.spec_entries().map_values(|e: (u128, Peer)| e.0 as u64)),
            !old(self)@.peer_update ==> r is None,
    {
        if self.peer_update {
            self.peer_update = false;
            let keys = self.peers.keys();
            let mut ids: Vec<u64> = Vec::new();
            let mut i: usize = 0;
            while i < keys.len()
                invariant
                    i <= keys@.len(),
                    keys@ == self.peers.spec_entries().map_values(|e: (u128, Peer)| e.0),
                    self.wf(),
                    ids@ == self.peers.spec_entries().map_values(
                        |e: (u128, Peer)| e.0 as u64,
                    ).take(i as int),
                decreases keys@.len() - i,
            {
                let k = keys[i];
                proof {
                    assert(keys@[i as int] == self.peers.spec_entries()[i as int].0);
                    assert(self.peers.spec_entries()[i as int].0 < 0x10000000000000000);
                }
                ids.push((k & 0xffff_ffff_ffff_ffff) as u64);
                i = i + 1;
                proof {
                    assert(k < 0x10000000000000000 ==> (k & 0xffff_ffff_ffff_ffff) == k)
                        by (bit_vector);
                    assert(self.peers.spec_entries().map_values(
                        |e: (u128, Peer)| e.0 as u64,
                    ).take(i as int) =~= self.peers.spec_entries().map_values(
                        |e: (u128, Peer)| e.0 as u64,
                    ).take(i as int - 1).push(self.peers.spec_entries()[i - 1].0 as u64));
                }
            }
            proof {
                assert(self.peers.spec_entries().map_values(
                    |e: (u128, Peer)| e.0 as u64,
                ).take(keys@.len() as int) =~= self.peers.spec_entries().map_values(
                    |e: (u128, Peer)| e.0 as u64,
                ));
            }
            return Some(ids);
        }

        return None;
    }

    /// The number of known peers.
    pub fn peers_len(&self) -> (r: usize)
        ensures
            r == self.peers.spec_len(),
    {
        self.peers.len()
    }
}

/// Whether a peer's keepalive lapsed: nothing was seen from it for longer
/// than the keepalive interval.
pub open spec fn peer_lapsed(p: Peer, now: u64, keepalive: u64) -> bool {
    now - p.last_seen > keepalive
}

/// The heartbeats one maintenance pass emits: one to every peer whose
/// `last_sent` is older than the heartbeat interval, in table order.
pub open spec fn spec_maint_outs(entries: Seq<(u128, Peer)>, now: u64, hb_ivl: u64) -> Seq<
    DatagramV,
>
    decreases entries.len(),
{
    if entries.len() == 0 {
        Seq::empty()
    } else {
        spec_maint_outs(entries.drop_last(), now, hb_ivl) + (if now - entries.last().1.last_sent
            > hb_ivl {
            seq![spec_heartbeat_to(entries.last().0 as u64, entries.last().1.addr)]
        } else {
            Seq::<DatagramV>::empty()
        })
    }
}

/// One copy of `data` addressed to each entry's peer, in table order.
pub open spec fn spec_broadcast(entries: Seq<(u128, Peer)>, data: Seq<u8>) -> Seq<DatagramV>
    decreases entries.len(),
{
    if entries.len() == 0 {
        Seq::empty()
    } else {
        spec_broadcast(entries.drop_last(), data) + seq![
            DatagramV { data: data, addr: entries.last().1.addr },
        ]
    }
}

/// The core after one maintenance pass: lapsed peers evicted (setting the
/// dirty flag when any went), and a client without a live session
/// re-arming its reconnect clock once per `reconnect_wait`.
pub open spec fn spec_maint_core(c: CoreV, now: u64, keepalive: u64, wait: u64) -> CoreV {
    let pruned = spec_prune_peers(c.peers, now, keepalive);
    let flag = c.peer_update || exists|k: u128|
        c.peers.contains_key(k) && peer_lapsed(#[trigger] c.peers[k], now, keepalive);
    let mode = match c.mode {
        SockMode::Connect(st) => {
            if !pruned.contains_key(st.session as u128) && now - st.last_reconnect > wait {
                SockMode::Connect(ConnectStatus { last_reconnect: now, ..st })
            } else {
                c.mode
            }
        },
        SockMode::Bind => c.mode,
    };
    CoreV { mode, peer_update: flag, peers: pruned, rng_state: c.rng_state }
}

/// The fresh connect a maintenance pass emits for a client without a live
/// session, once per `reconnect_wait`; empty otherwise.
pub open spec fn spec_reconnect_out(c: CoreV, now: u64, keepalive: u64, wait: u64) -> Seq<
    DatagramV,
> {
    match c.mode {
        SockMode::Connect(st) => {
            if !spec_prune_peers(c.peers, now, keepalive).contains_key(st.session as u128) && now
                - st.last_reconnect > wait {
                seq![
                    DatagramV {
                        data: spec_control_frame_bytes(ControlFrameV::Connect),
                        addr: st.addr,
                    },
                ]
            } else {
                Seq::empty()
            }
        },
        SockMode::Bind => Seq::empty(),
    }
}

/// The peer table with every lapsed peer evicted.
pub open spec fn spec_prune_peers(peers: Map<u128, Peer>, now: u64, keepalive: u64) -> Map<
    u128,
    Peer,
> {
    Map::new(
        |k: u128| peers.contains_key(k) && !peer_lapsed(peers[k], now, keepalive),
        |k: u128| peers[k],
    )
}

impl Core {
    /// One incoming datagram: exactly the `spec_handle` transition. The
    /// returned datagrams are the protocol's replies, to transmit.
    pub fn recv(&mut self, buf: &Vec<u8>, from: u64, now: u64) -> (r: (
        Option<Forward>,
        Vec<Datagram>,
    ))
        requires
            old(self).wf(),
        ensures
            final(self).wf(),
            final(self).opt == old(self).opt,
            ({
                let t = spec_handle(
                    old(self)@,
                    buf@,
                    from,
                    now,
                    old(self).opt.peer_heartbeat_ivl,
                );
                &&& final(self)@ == t.0
                &&& (match r.0 {
                    Some(f) => t.1 == Some(f@),
                    None => t.1 is None,
                })
                &&& r.1@.map_values(|d: Datagram| d@) == t.2
            }),
    {
        let ghost c_in = self@;

        if let SockMode::Connect(st) = self.mode {
            if st.addr != from {
                self.mode = SockMode::Connect(ConnectStatus { addr: from, ..st });
            }
        }
        let ghost c0 = self@;

        let mut out: Vec<Datagram> = Vec::new();
        proof {
            assert(out@.map_values(|d: Datagram| d@) =~= Seq::<DatagramV>::empty());
        }

        let parsed = Frame::parse(buf.as_slice());
        match parsed {
            None => (None, out),
            Some(Frame::DataFrame(df)) => {
                let key = df.session_id as u128;
                let found = match self.peers.get(key) {
                    Some(p) => Some(*p),
                    None => None,
                };
                match found {
                    Some(p) => {
                        let due = now.saturating_sub(p.last_sent) > self.opt.peer_heartbeat_ivl;
                        let p1 = Peer {
                            addr: from,
                            last_seen: now,
                            last_sent: if due {
                                now
                            } else {
                                p.last_sent
                            },
                        };
                        self.peers.insert(key, p1);
                        proof {
                            lemma_peers_bounded(
                                old(self).peers.spec_entries(),
                                self.peers.spec_entries(),
                                key,
                            );
                        }
                        if due {
                            out.push(
                                Datagram {
                                    data: ControlFrame::Heartbeat(df.session_id).encode(),
                                    addr: from,
                                },
                            );
                            proof {
                                assert(out@.map_values(|d: Datagram| d@) =~= seq![
                                    spec_heartbeat_to(df.session_id, from),
                                ]);
                            }
                        }
                        (
                            Some(
                                Forward::Data {
                                    frame: clone_bytes(buf),
                                    session_id: df.session_id,
                                },
                            ),
                            out,
                        )
                    },
                    None => (None, out),
                }
            },
            Some(Frame::ControlFrame(cf)) => match cf {
                ControlFrame::Connect => {
                    if !matches!(self.mode, SockMode::Bind) {
                        return (None, out);
                    }
                    let sample = self.rng.sample();
                    let session_id = session_id(sample, from);
                    proof {
                        assert(session_id == spec_session_id(
                            spec_xorshift_output(c_in.rng_state),
                            from,
                        ));
                    }

                    self.peers.insert(session_id as u128, Peer::new(from, now));
                    proof {
                        lemma_peers_bounded(
                            old(self).peers.spec_entries(),
                            self.peers.spec_entries(),
                            session_id as u128,
                        );
                    }
                    self.peer_update = true;

                    out.push(
                        Datagram {
                            data: ControlFrame::Connected(session_id).encode(),
                            addr: from,
                        },
                    );
                    proof {
                        assert(out@.map_values(|d: Datagram| d@) =~= seq![
                            DatagramV {
                                data: spec_control_frame_bytes(
                                    ControlFrameV::Connected(session_id),
                                ),
                                addr: from,
                            },
                        ]);
                    }
                    (None, out)
                },
                ControlFrame::Connected(session_id) => {
                    match self.mode {
                        SockMode::Connect(st) => {
                            self.mode = SockMode::Connect(
                                ConnectStatus { session: session_id, ..st },
                            );
                            self.peers = KvList::new();
                        },
                        SockMode::Bind => {
                            return (None, out);
                        },
                    }

                    self.peers.insert(session_id as u128, Peer::new(from, now));
                    proof {
                        lemma_peers_bounded(
                            Seq::<(u128, Peer)>::empty(),
                            self.peers.spec_entries(),
                            session_id as u128,
                        );
                    }
                    self.peer_update = true;

                    out.push(
                        Datagram {
                            data: ControlFrame::Heartbeat(session_id).encode(),
                            addr: from,
                        },
                    );
                    proof {
                        assert(out@.map_values(|d: Datagram| d@) =~= seq![
                            spec_heartbeat_to(session_id, from),
                        ]);
                    }
                    (None, out)
                },
                ControlFrame::Disconnected(session_id) => {
                    match self.mode {
                        SockMode::Connect(st) => {
                            if st.session == session_id {
                                self.mode = SockMode::Connect(
                                    ConnectStatus { session: 0, ..st },
                                );
                                self.peers = KvList::new();
                                self.peer_update = true;
                            }
                            (None, out)
                        },
                        SockMode::Bind => {
                            let _ = self.peers.remove(session_id as u128);
                            proof {
                                lemma_peers_bounded(
                                    old(self).peers.spec_entries(),
                                    self.peers.spec_entries(),
                                    session_id as u128,
                                );
                            }
                            self.peer_update = true;
                            (None, out)
                        },
                    }
                },
                ControlFrame::Heartbeat(session_id) => {
                    let key = session_id as u128;
                    let found = match self.peers.get(key) {
                        Some(p) => Some(*p),
                        None => None,
                    };
                    match found {
                        Some(p) => {
                            self.peers.insert(
                                key,
                                Peer { addr: from, last_seen: now, last_sent: p.last_sent },
                            );
                            proof {
                                lemma_peers_bounded(
                                    old(self).peers.spec_entries(),
                                    self.peers.spec_entries(),
                                    key,
                                );
                            }
                            (None, out)
                        },
                        None => {
                            out.push(
                                Datagram {
                                    data: ControlFrame::Disconnected(session_id).encode(),
                                    addr: from,
                                },
                            );
                            proof {
                                assert(out@.map_values(|d: Datagram| d@) =~= seq![
                                    DatagramV {
                                        data: spec_control_frame_bytes(
                                            ControlFrameV::Disconnected(session_id),
                                        ),
                                        addr: from,
                                    },
                                ]);
                            }
                            (None, out)
                        },
                    }
                },
                ControlFrame::Ack(pair) => {
                    (Some(Forward::Ack { session_id: pair.0, payload: pair.1 }), out)
                },
            },
        }
    }

    /// Per-tick housekeeping: a heartbeat to every peer whose `last_sent`
    /// is older than the heartbeat interval, eviction of every peer whose
    /// keepalive lapsed, and, for a client without a live session, a fresh
    /// connect once per `reconnect_wait`. Returns the datagrams to
    /// transmit: the heartbeats in table order, then the connect.
    pub fn maint(&mut self, now: u64) -> (r: Vec<Datagram>)
        requires
            old(self).wf(),
        ensures
            final(self).wf(),
            final(self).opt == old(self).opt,
            final(self)@.rng_state == old(self)@.rng_state,
            ({
                let peers0 = old(self)@.peers;
                let ka = old(self).opt.peer_keepalive;
                let pruned = spec_prune_peers(peers0, now, ka);
                let any_lapsed = exists|k: u128|
                    peers0.contains_key(k) && peer_lapsed(#[trigger] peers0[k], now, ka);
                let hbs = spec_maint_outs(
                    old(self).peers.spec_entries(),
                    now,
                    old(self).opt.peer_heartbeat_ivl,
                );
                let reconnect = match old(self)@.mode {
                    SockMode::Connect(st) => !pruned.contains_key(st.session as u128) && now
                        - st.last_reconnect > old(self).opt.reconnect_wait,
                    SockMode::Bind => false,
                };
                &&& final(self)@.peers == pruned
                &&& final(self)@.peer_update == (old(self)@.peer_update || any_lapsed)
                &&& final(self)@.mode == (if reconnect {
                    match old(self)@.mode {
                        SockMode::Connect(st) => SockMode::Connect(
                            ConnectStatus { last_reconnect: now, ..st },
                        ),
                        SockMode::Bind => old(self)@.mode,
                    }
                } else {
                    old(self)@.mode
                })
                &&& r@.map_values(|d: Datagram| d@) == (if reconnect {
                    hbs + match old(self)@.mode {
                        SockMode::Connect(st) => seq![
                            DatagramV {
                                data: spec_control_frame_bytes(ControlFrameV::Connect),
                                addr: st.addr,
                            },
                        ],
                        SockMode::Bind => Seq::<DatagramV>::empty(),
                    }
                } else {
                    hbs
                })
            }),
    {
        let ghost peers0 = self@.peers;
        let ghost entries0 = self.peers.spec_entries();
        let ghost ka = self.opt.peer_keepalive;
        let ghost hb_ivl = self.opt.peer_heartbeat_ivl;

        let mut out: Vec<Datagram> = Vec::new();
        let mut stale: Vec<u128> = Vec::new();

        let n = self.peers.len();
        let mut i: usize = 0;
        while i < n
            invariant
                self == old(self),
                self.wf(),
                n == entries0.len(),
                entries0 == self.peers.spec_entries(),
                peers0 == self@.peers,
                ka == self.opt.peer_keepalive,
                hb_ivl == self.opt.peer_heartbeat_ivl,
                i <= n,
                out@.map_values(|d: Datagram| d@) == spec_maint_outs(
                    entries0.take(i as int),
                    now,
                    hb_ivl,
                ),
                forall|a: int, b: int| 0 <= a < b < stale@.len() ==> stale@[a] != stale@[b],
                forall|j: int|
                    0 <= j < stale@.len() ==> peers0.contains_key(#[trigger] stale@[j])
                        && peer_lapsed(peers0[stale@[j]], now, ka),
                forall|idx: int|
                    0 <= idx < i ==> (peer_lapsed((#[trigger] entries0[idx]).1, now, ka)
                        <==> stale@.contains(entries0[idx].0)),
                forall|j: int|
                    0 <= j < stale@.len() ==> exists|idx: int|
                        0 <= idx < i && (#[trigger] entries0[idx]).0 == #[trigger] stale@[j],
            decreases n - i,
        {
            let sid = self.peers.key_at(i);
            let peer = *self.peers.value_at(i);
            proof {
                crate::kvlist::lemma_map_of_contains(entries0, i as int);
                assert(peers0.contains_key(sid) && peers0[sid] == peer);
            }
            let ghost stale_pre = stale@;
            let ghost out_pre = out@;

            if now.saturating_sub(peer.last_seen) > self.opt.peer_keepalive {
                let ghost dup = stale@.contains(sid);
                proof {
                    if dup {
                        let j = choose|j: int|
                            0 <= j < stale@.len() && #[trigger] stale@[j] == sid;
                        let idx = choose|idx: int|
                            0 <= idx < i && (#[trigger] entries0[idx]).0 == stale@[j];
                        assert(entries0[idx].0 == entries0[i as int].0);
                        assert(false);
                    }
                }
                stale.push(sid);
                proof {
                    assert forall|j: int|
                        0 <= j < stale@.len() implies exists|idx: int|
                            0 <= idx < i + 1 && (#[trigger] entries0[idx]).0 == #[trigger] stale@[
                                j
                            ] by {
                        if j < stale@.len() - 1 {
                            assert(stale@[j] == stale_pre[j]);
                            let idx = choose|idx: int|
                                0 <= idx < i && (#[trigger] entries0[idx]).0 == stale_pre[j];
                            assert(entries0[idx].0 == stale@[j]);
                        } else {
                            assert(entries0[i as int].0 == stale@[j]);
                        }
                    }
                }
            }

            if now.saturating_sub(peer.last_sent) > self.opt.peer_heartbeat_ivl {
                out.push(
                    Datagram {
                        data: ControlFrame::Heartbeat((sid & 0xffff_ffff_ffff_ffff) as u64).encode(),
                        addr: peer.addr,
                    },
                );
                proof {
                    assert(sid < 0x10000000000000000 ==> (sid & 0xffff_ffff_ffff_ffff) == sid)
                        by (bit_vector);
                    assert(entries0[i as int].0 < 0x10000000000000000);
                }
            }

            i = i + 1;
            proof {
                assert(entries0.take(i as int).drop_last() =~= entries0.take(i as int - 1));
                assert(entries0.take(i as int).last() == entries0[i - 1]);
                assert(out@.map_values(|d: Datagram| d@) =~= spec_maint_outs(
                    entries0.take(i as int),
                    now,
                    hb_ivl,
                ));
                assert forall|idx: int|
                    0 <= idx < i implies (peer_lapsed((#[trigger] entries0[idx]).1, now, ka)
                        <==> stale@.contains(entries0[idx].0)) by {
                    if idx < i - 1 {
                        if stale@.contains(entries0[idx].0) && stale@ != stale_pre {
                            if !stale_pre.contains(entries0[idx].0) {
                                let j = choose|j: int|
                                    0 <= j < stale@.len() && #[trigger] stale@[j] == entries0[
                                        idx
                                    ].0;
                                assert(j == stale@.len() - 1);
                                assert(entries0[i - 1].0 == entries0[idx].0);
                                assert(false);
                            }
                        }
                        if stale_pre.contains(entries0[idx].0) {
                            let j = choose|j: int|
                                0 <= j < stale_pre.len() && #[trigger] stale_pre[j] == entries0[
                                    idx
                                ].0;
                            assert(stale@[j] == entries0[idx].0);
                        }
                    } else {
                        if peer_lapsed(entries0[idx].1, now, ka) {
                            assert(stale@[stale@.len() - 1] == entries0[idx].0);
                        } else {
                            if stale@.contains(entries0[idx].0) {
                                let j = choose|j: int|
                                    0 <= j < stale@.len() && #[trigger] stale@[j] == entries0[
                                        idx
                                    ].0;
                                assert(peer_lapsed(peers0[entries0[idx].0], now, ka));
                                assert(false);
                            }
                        }
                    }
                }
            }
        }

        proof {
            assert(entries0.take(n as int) =~= entries0);
        }

        if stale.len() > 0 {
            self.peer_update = true;
        }

        // evict the lapsed peers
        let mut j: usize = 0;
        while j < stale.len()
            invariant
                self.wf(),
                self.opt == old(self).opt,
                self.mode == old(self).mode,
                self.rng == old(self).rng,
                entries0 == old(self).peers.spec_entries(),
                peers0 == old(self)@.peers,
                forall|idx: int|
                    0 <= idx < entries0.len() ==> (#[trigger] entries0[idx]).0
                        < 0x10000000000000000,
                ka == self.opt.peer_keepalive,
                j <= stale@.len(),
                self.peer_update == (old(self).peer_update || stale@.len() > 0),
                forall|a: int, b: int| 0 <= a < b < stale@.len() ==> stale@[a] != stale@[b],
                forall|jj: int|
                    0 <= jj < stale@.len() ==> peers0.contains_key(#[trigger] stale@[jj])
                        && peer_lapsed(peers0[stale@[jj]], now, ka),
                forall|idx: int|
                    0 <= idx < entries0.len() ==> (peer_lapsed(
                        (#[trigger] entries0[idx]).1,
                        now,
                        ka,
                    ) <==> stale@.contains(entries0[idx].0)),
                forall|k: u128|
                    #[trigger] self@.peers.contains_key(k) <==> (peers0.contains_key(k)
                        && !stale@.take(j as int).contains(k)),
                forall|k: u128|
                    self@.peers.contains_key(k) ==> #[trigger] self@.peers[k] == peers0[k],
            decreases stale@.len() - j,
        {
            let k = stale[j];
            let ghost pre_entries = self.peers.spec_entries();
            let ghost map_pre = self@.peers;
            let _ = self.peers.remove(k);
            proof {
                let idx = crate::kvlist::lemma_map_of_key_index(entries0, k);
                assert(entries0[idx].0 == k);
                lemma_peers_bounded(pre_entries, self.peers.spec_entries(), k);
            }
            j = j + 1;
            proof {
                assert(self@.peers == map_pre.remove(k));
                assert forall|k2: u128|
                    #[trigger] self@.peers.contains_key(k2) <==> (peers0.contains_key(k2)
                        && !stale@.take(j as int).contains(k2)) by {
                    assert(map_pre.contains_key(k2) <==> (peers0.contains_key(k2)
                        && !stale@.take(j as int - 1).contains(k2)));
                    assert(stale@.take(j as int)[j - 1] == k);
                    assert(stale@.take(j as int).contains(k));
                    if !stale@.take(j as int).contains(k2) {
                        assert(!stale@.take(j as int - 1).contains(k2)) by {
                            if stale@.take(j as int - 1).contains(k2) {
                                let jj = choose|jj: int|
                                    0 <= jj < j - 1 && #[trigger] stale@.take(j as int - 1)[jj]
                                        == k2;
                                assert(stale@.take(j as int)[jj] == k2);
                            }
                        }
                    }
                    if k2 != k && stale@.take(j as int).contains(k2) {
                        let jj = choose|jj: int|
                            0 <= jj < j && #[trigger] stale@.take(j as int)[jj] == k2;
                        if jj < j - 1 {
                            assert(stale@.take(j as int - 1)[jj] == k2);
                        }
                    }
                }
                assert forall|k2: u128|
                    self@.peers.contains_key(k2) implies #[trigger] self@.peers[k2] == peers0[
                    k2
                ] by {
                    assert(map_pre.contains_key(k2) && k2 != k);
                    assert(self@.peers[k2] == map_pre[k2]);
                    assert(map_pre[k2] == peers0[k2]);
                }
            }
        }

        // the peer table is now exactly the fresh peers
        proof {
            assert(stale@.take(stale@.len() as int) =~= stale@);
            assert(self@.peers =~= spec_prune_peers(peers0, now, ka)) by {
                assert forall|k: u128|
                    #[trigger] spec_prune_peers(peers0, now, ka).contains_key(k)
                        implies self@.peers.contains_key(k) by {
                    if stale@.contains(k) {
                        let jj = choose|jj: int|
                            0 <= jj < stale@.len() && #[trigger] stale@[jj] == k;
                        assert(peer_lapsed(peers0[k], now, ka));
                    }
                }
                assert forall|k: u128|
                    #[trigger] self@.peers.contains_key(k) implies spec_prune_peers(
                    peers0,
                    now,
                    ka,
                ).contains_key(k) by {
                    let idx = crate::kvlist::lemma_map_of_key_index(entries0, k);
                    assert(entries0[idx].0 == k);
                    crate::kvlist::lemma_map_of_contains(entries0, idx);
                    assert(peers0[k] == entries0[idx].1);
                    if peer_lapsed(peers0[k], now, ka) {
                        assert(stale@.contains(k));
                    }
                }
            }
            assert((old(self).peer_update || stale@.len() > 0) == (old(self).peer_update
                || exists|k: u128|
                peers0.contains_key(k) && peer_lapsed(#[trigger] peers0[k], now, ka))) by {
                if stale@.len() > 0 {
                    assert(peers0.contains_key(stale@[0]) && peer_lapsed(
                        peers0[stale@[0]],
                        now,
                        ka,
                    ));
                }
                if exists|k: u128|
                    peers0.contains_key(k) && peer_lapsed(#[trigger] peers0[k], now, ka) {
                    let k = choose|k: u128|
                        peers0.contains_key(k) && peer_lapsed(#[trigger] peers0[k], now, ka);
                    let idx = crate::kvlist::lemma_map_of_key_index(entries0, k);
                    crate::kvlist::lemma_map_of_contains(entries0, idx);
                    assert(peer_lapsed(entries0[idx].1, now, ka));
                    assert(stale@.contains(k));
                }
            }
        }

        // a client with no live session re-issues its connect
        if let SockMode::Connect(st) = self.mode {
            let has_session = self.peers.contains_key(st.session as u128);
            if !has_session && now.saturating_sub(st.last_reconnect) > self.opt.reconnect_wait {
                self.mode = SockMode::Connect(ConnectStatus { last_reconnect: now, ..st });
                let ghost out_pre = out@;
                out.push(Datagram { data: ControlFrame::Connect.encode(), addr: st.addr });
                proof {
                    assert(out@.map_values(|d: Datagram| d@) =~= out_pre.map_values(
                        |d: Datagram| d@,
                    ) + seq![
                        DatagramV {
                            data: spec_control_frame_bytes(ControlFrameV::Connect),
                            addr: st.addr,
                        },
                    ]);
                }
            }
        }

        out
    }
}

/// A clone of a byte vector, byte for byte.
pub fn clone_bytes(data: &Vec<u8>) -> (r: Vec<u8>)
    ensures
        r@ == data@,
{
    let mut out: Vec<u8> = Vec::new();
    let mut i: usize = 0;
    while i < data.len()
        invariant
            i <= data@.len(),
            out@ == data@.take(i as int),
        decreases data@.len() - i,
    {
        out.push(data[i]);
        i = i + 1;
        proof {
            assert(data@.take(i as int) =~= data@.take(i as int - 1).push(data@[i - 1]));
        }
    }
    proof {
        assert(data@.take(data@.len() as int) =~= data@);
    }
    out
}

/// Entry keys stay below the 64-bit bound across a table change whose new
/// keys all come from the old table or are the one bounded newcomer.
pub proof fn lemma_peers_bounded(olds: Seq<(u128, Peer)>, news: Seq<(u128, Peer)>, extra: u128)
    requires
        crate::kvlist::keys_distinct(news),
        forall|i: int| 0 <= i < olds.len() ==> (#[trigger] olds[i]).0 < 0x10000000000000000,
        extra < 0x10000000000000000,
        forall|k: u128|
            crate::kvlist::map_of(news).contains_key(k) ==> crate::kvlist::map_of(
                olds,
            ).contains_key(k) || k == extra,
    ensures
        forall|i: int| 0 <= i < news.len() ==> (#[trigger] news[i]).0 < 0x10000000000000000,
{
    assert forall|i: int|
        0 <= i < news.len() implies (#[trigger] news[i]).0 < 0x10000000000000000 by {
        crate::kvlist::lemma_map_of_contains(news, i);
        if news[i].0 != extra {
            let j = crate::kvlist::lemma_map_of_key_index(olds, news[i].0);
        }
    }
}

} // verus!
