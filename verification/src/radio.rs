//! The one-to-many broadcast pattern: every known peer gets a copy of
//! each sent message through its own queue; receiving is not offered.
use vstd::prelude::*;

use crate::errors::NBMQError;
use crate::kvlist::KvList;
use crate::opt::SockOpt;
use crate::pattern::{absorb_peer_update, key_kept, queues_view, queues_wf, radio_recv_phase, send_phase, spec_radio_recv, spec_send_phase_rel};
use crate::send_queue::{spec_push, PushOutcome, SendQueue, SendQueueV};
use crate::transport::{spec_datagrams, Core, CoreV, Datagram};

verus! {

/// One copy of a message pushed into each peer's queue from index `i` on,
/// the nonce advancing after every accepted copy: each peer's copy is its
/// own message. A rejected push stops the broadcast with its reason, the
/// earlier copies staying queued.
pub open spec fn spec_radio_send(
    queues: Map<u128, SendQueueV>,
    peers: Seq<u64>,
    unique: u64,
    hwm: nat,
    parts: Seq<Seq<u8>>,
    i: nat,
) -> (Map<u128, SendQueueV>, u64, Option<PushOutcome>)
    decreases peers.len() - i,
{
    if i >= peers.len() {
        (queues, unique, None)
    } else {
        let sid = peers[i as int];
        let q0 = if queues.contains_key(sid as u128) {
            queues[sid as u128]
        } else {
            SendQueueV::empty()
        };
        let t = spec_push(q0, hwm, sid, parts, unique);
        let queues2 = queues.insert(sid as u128, t.0);
        match t.1 {
            PushOutcome::Accepted => spec_radio_send(
                queues2,
                peers,
                unique.wrapping_add(1),
                hwm,
                parts,
                i + 1,
            ),
            PushOutcome::Hwm => (queues2, unique, Some(PushOutcome::Hwm)),
            PushOutcome::TooLong => (queues2, unique, Some(PushOutcome::TooLong)),
            PushOutcome::TooLarge => (queues2, unique, Some(PushOutcome::TooLarge)),
        }
    }
}

pub struct Radio {
    pub core: Core,
    pub opt: SockOpt,

    pub unique: u64,
    pub peers: Vec<u64>,

    pub send_queues: KvList<SendQueue>,
}

impl Radio {
    pub open spec fn wf(&self) -> bool {
        &&& self.core.wf()
        &&& queues_wf(&self.send_queues, self.opt)
        &&& self.core.opt == self.opt
    }

    fn new_from(core: Core, opt: SockOpt) -> (r: Radio)
        requires
            core.wf(),
            core.opt == opt,
        ensures
            r.wf(),
            r.core == core,
            r.opt == opt,
            r.unique == 0,
            r.peers@ == Seq::<u64>::empty(),
            r.send_queues@ == Map::<u128, SendQueue>::empty(),
    {
        let r = Radio { core, opt, unique: 0, peers: Vec::new(), send_queues: KvList::new() };
        proof {
            assert(r.peers@ =~= Seq::<u64>::empty());
        }
        r
    }

    /// A broadcasting radio; `seed` seeds the session-id randomness.
    pub fn bind(opt: SockOpt, seed: u64, now: u64) -> (r: Radio)
        ensures
            r.wf(),
            r.core@.mode is Bind,
            r.core@.peers == Map::<u128, crate::transport::Peer>::empty(),
            r.core@.peer_update,
            r.core@.rng_state == seed,
            r.opt == opt,
            r.unique == 0,
            r.peers@ == Seq::<u64>::empty(),
            r.send_queues@ == Map::<u128, SendQueue>::empty(),
    {
        let _ = now;
        Radio::new_from(Core::bind(opt, seed), opt)
    }

    /// A radio aimed at one endpoint, with the opening connect datagram.
    pub fn connect(opt: SockOpt, peer_addr: u64, seed: u64, now: u64) -> (r: (Radio, Datagram))
        ensures
            r.0.wf(),
            r.0.core@.mode == crate::transport::SockMode::Connect(
                crate::transport::ConnectStatus { addr: peer_addr, session: 0, last_reconnect: now },
            ),
            r.0.core@.peers == Map::<u128, crate::transport::Peer>::empty(),
            r.0.core@.peer_update,
            r.0.core@.rng_state == seed,
            r.0.opt == opt,
            r.0.unique == 0,
            r.0.peers@ == Seq::<u64>::empty(),
            r.0.send_queues@ == Map::<u128, SendQueue>::empty(),
            r.1@.addr == peer_addr,
            r.1@.data == crate::frame::spec_control_frame_bytes(
                crate::frame::ControlFrameV::Connect,
            ),
    {
        let (core, hello) = Core::connect(opt, peer_addr, seed, now);
        (Radio::new_from(core, opt), hello)
    }

    /// Enqueues one copy of the message for every known peer, advancing
    /// the nonce once per peer: each copy is its own message. The first
    /// rejected enqueue (high-water mark, too many parts, too large) stops
    /// the broadcast and is surfaced; with no peers nothing happens.
    pub fn send(&mut self, data: &Vec<Vec<u8>>) -> (r: Result<(), NBMQError>)
        requires
            old(self).wf(),
        ensures
            final(self).wf(),
            final(self).opt == old(self).opt,
            final(self).core == old(self).core,
            final(self).peers == old(self).peers,
            old(self).peers@.len() == 0 ==> *final(self) == *old(self) && r is Ok,
            ({
                let t = spec_radio_send(
                    queues_view(&old(self).send_queues),
                    old(self).peers@,
                    old(self).unique,
                    old(self).opt.send_hwm as nat,
                    data.deep_view(),
                    0,
                );
                &&& queues_view(&final(self).send_queues) == t.0
                &&& final(self).unique == t.1
                &&& match t.2 {
                    None => r is Ok,
                    Some(PushOutcome::Accepted) => r is Ok,
                    Some(PushOutcome::Hwm) => r matches Err(NBMQError::HighWaterMark),
                    Some(PushOutcome::TooLong) => r matches Err(NBMQError::MessageTooLong),
                    Some(PushOutcome::TooLarge) => r matches Err(NBMQError::MessageTooLarge),
                }
            }),
    {
        let ghost qv0 = queues_view(&old(self).send_queues);
        let ghost hwm = self.opt.send_hwm as nat;
        let ghost parts = data.deep_view();
        let ghost u0 = self.unique;

        let mut i: usize = 0;
        while i < self.peers.len()
            invariant
                self.wf(),
                self.opt == old(self).opt,
                self.core == old(self).core,
                self.peers == old(self).peers,
                i <= self.peers@.len(),
                qv0 == queues_view(&old(self).send_queues),
                hwm == old(self).opt.send_hwm as nat,
                parts == data.deep_view(),
                u0 == old(self).unique,
                self.unique == old(self).unique.wrapping_add(i as u64),
                i == 0 ==> self.send_queues == old(self).send_queues && self.unique == old(
                    self,
                ).unique,
                spec_radio_send(qv0, self.peers@, u0, hwm, parts, 0) == spec_radio_send(
                    queues_view(&self.send_queues),
                    self.peers@,
                    self.unique,
                    hwm,
                    parts,
                    i as nat,
                ),
            decreases self.peers@.len() - i,
        {
            let sid = self.peers[i];

            let ghost qv_pre = queues_view(&self.send_queues);
            let ghost m0 = self.send_queues@;
            let mut queue = match self.send_queues.remove(sid as u128) {
                Some(q) => q,
                None => SendQueue::new(self.opt),
            };
            proof {
                if qv_pre.contains_key(sid as u128) {
                } else {
                    assert(queue@ =~~= SendQueueV::empty());
                }
            }
            let res = queue.push(sid, data, self.unique);
            let ghost qv_after = queue@;
            self.send_queues.insert(sid as u128, queue);
            proof {
                assert(self.send_queues@ == m0.remove(sid as u128).insert(sid as u128, queue));
                assert(queues_view(&self.send_queues) =~= qv_pre.insert(sid as u128, qv_after));
                let q0v = if qv_pre.contains_key(sid as u128) {
                    qv_pre[sid as u128]
                } else {
                    SendQueueV::empty()
                };
                assert(qv_after == spec_push(q0v, hwm, sid, parts, self.unique).0);
            }

            match res {
                Ok(_) => {},
                Err(e) => {
                    proof {
                        assert(e is HighWaterMark || e is MessageTooLong || e is MessageTooLarge);
                    }
                    return Err(e);
                },
            }

            self.unique = self.unique.wrapping_add(1);
            i = i + 1;
        }

        Ok(())
    }

    /// A radio never receives.
    pub fn recv(&mut self, _now: u64) -> (r: Result<Vec<Vec<u8>>, NBMQError>)
        ensures
            *final(self) == *old(self),
            r matches Err(NBMQError::NotSupported),
    {
        return Err(NBMQError::NotSupported);
    }

    /// One scheduling step. Peer-set changes are absorbed; every handed-in
    /// datagram moves the core by one `spec_handle` step and its protocol
    /// replies are collected (forwarded frames are dropped: a radio does
    /// not receive). Each peer's queue is then drained under an even share
    /// of `max_tick_send`, core maintenance runs, and peer-set changes are
    /// re-absorbed. The returned datagrams start with the receive-phase
    /// replies, followed by the drained frames and the maintenance output.
    pub fn tick(&mut self, incoming: &Vec<Datagram>, now: u64) -> (r: Result<
        Vec<Datagram>,
        NBMQError,
    >)
        requires
            old(self).wf(),
        ensures
            final(self).wf(),
            final(self).opt == old(self).opt,
            final(self).unique == old(self).unique,
            r is Ok,
            !final(self).core@.peer_update,
            ({
                let dirty = old(self).core@.peer_update;
                let peers1 = if dirty {
                    old(self).core.peers.spec_entries().map_values(
                        |e: (u128, crate::transport::Peer)| e.0 as u64,
                    )
                } else {
                    old(self).peers@
                };
                let queues1 = if dirty {
                    Map::new(
                        |k: u128| old(self).send_queues@.contains_key(k) && key_kept(k, peers1),
                        |k: u128| old(self).send_queues@[k],
                    )
                } else {
                    old(self).send_queues@
                };
                let core1 = CoreV { peer_update: false, ..old(self).core@ };
                let t = spec_radio_recv(
                    core1,
                    spec_datagrams(incoming@),
                    now,
                    old(self).opt.peer_heartbeat_ivl,
                );
                &&& (r matches Ok(out) ==> spec_datagrams(out@).take(t.1.len() as int) == t.1)
                &&& (r matches Ok(out) ==> spec_send_phase_rel(
                    t.0,
                    Map::new(|k: u128| queues1.dom().contains(k), |k: u128| queues1[k]@),
                    false,
                    Seq::empty(),
                    now,
                    old(self).opt,
                    final(self).core@,
                    queues_view(&final(self).send_queues),
                    spec_datagrams(out@).skip(t.1.len() as int),
                ))
            }),
    {
        absorb_peer_update(&mut self.core, &mut self.peers, &mut self.send_queues, self.opt);
        proof {
            assert(self.core@ == (CoreV { peer_update: false, ..old(self).core@ }));
        }

        let mut out: Vec<Datagram> = Vec::new();
        proof {
            assert(spec_datagrams(out@) =~= Seq::<crate::transport::DatagramV>::empty());
        }

        radio_recv_phase(&mut self.core, incoming, now, &mut out);
        let ghost t1 = spec_radio_recv(
            CoreV { peer_update: false, ..old(self).core@ },
            spec_datagrams(incoming@),
            now,
            old(self).opt.peer_heartbeat_ivl,
        ).1;
        proof {
            assert(spec_datagrams(out@) =~= Seq::<crate::transport::DatagramV>::empty() + t1);
            assert(spec_datagrams(out@) =~= t1);
        }
        let ghost base = out@;
        let ghost qv1m = queues_view(&self.send_queues);
        proof {
            let dirty = old(self).core@.peer_update;
            let peers1 = if dirty {
                old(self).core.peers.spec_entries().map_values(
                    |e: (u128, crate::transport::Peer)| e.0 as u64,
                )
            } else {
                old(self).peers@
            };
            let queues1 = if dirty {
                Map::new(
                    |k: u128| old(self).send_queues@.contains_key(k) && key_kept(k, peers1),
                    |k: u128| old(self).send_queues@[k],
                )
            } else {
                old(self).send_queues@
            };
            assert(qv1m =~= Map::new(
                |k: u128| queues1.dom().contains(k),
                |k: u128| queues1[k]@,
            ));
        }

        let empty_budgets: Vec<(u64, usize)> = Vec::new();
        send_phase(
            &mut self.core,
            &mut self.peers,
            &mut self.send_queues,
            false,
            &empty_budgets,
            now,
            self.opt,
            &mut out,
        );

        proof {
            assert(empty_budgets@ =~= Seq::<(u64, usize)>::empty());
            assert forall|i: int| 0 <= i < t1.len() implies #[trigger] spec_datagrams(out@)[i]
                == t1[i] by {
                assert(out@[i] == base[i]);
                assert(spec_datagrams(base)[i] == base[i]@);
            }
            assert(spec_datagrams(out@).take(t1.len() as int) =~= t1);
            assert(spec_datagrams(base) =~= t1);
            assert(spec_datagrams(out@).skip(t1.len() as int) =~= spec_datagrams(out@).skip(
                spec_datagrams(base).len() as int,
            ));
        }
        Ok(out)
    }

    /// The number of known peers.
    pub fn peers(&self) -> (r: usize)
        ensures
            r == self.core.peers.spec_len(),
    {
        self.core.peers_len()
    }
}

} // verus!
