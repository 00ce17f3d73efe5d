//! The round-robin duplex pattern: one send queue per peer, messages
//! routed to `peers[unique mod peer_count]`, receive through the shared
//! reassembly queue.
use vstd::prelude::*;

use crate::errors::NBMQError;
use crate::kvlist::KvList;
use crate::opt::SockOpt;
use crate::pattern::{absorb_peer_update, duplex_recv_phase, key_kept, queues_view, queues_wf, send_phase, spec_duplex_recv, spec_send_phase_rel};
use crate::recv_queue::RecvQueue;
use crate::send_queue::{spec_push, PushOutcome, SendQueue, SendQueueV};
use crate::transport::{spec_datagrams, Core, CoreV, Datagram};

verus! {

pub struct Dealer {
    pub core: Core,
    pub opt: SockOpt,

    pub unique: u64,
    pub peers: Vec<u64>,

    pub send_queues: KvList<SendQueue>,
    pub recv_queue: RecvQueue,
}

impl Dealer {
    pub open spec fn wf(&self) -> bool {
        &&& self.core.wf()
        &&& queues_wf(&self.send_queues, self.opt)
        &&& self.recv_queue.wf()
        &&& self.core.opt == self.opt
        &&& self.recv_queue.opt == self.opt
    }

    fn new_from(core: Core, opt: SockOpt, now: u64) -> (r: Dealer)
        requires
            core.wf(),
            core.opt == opt,
        ensures
            r.wf(),
            r.core == core,
            r.opt == opt,
            r.unique == 0,
            r.peers@ == Seq::<u64>::empty(),
            r.send_queues@ == Map::<u128, SendQueue>::empty(),
            r.recv_queue@.incoming == Map::<u128, crate::recv_queue::MsgV>::empty(),
            r.recv_queue@.complete == Map::<u128, Seq<Seq<u8>>>::empty(),
            r.recv_queue@.deque == Seq::<(u64, u64)>::empty(),
            r.recv_queue@.dedup == Seq::<((u64, u64), u64)>::empty(),
            r.recv_queue@.last_maint == now,
    {
        let r = Dealer {
            core,
            opt,
            unique: 0,
            peers: Vec::new(),
            send_queues: KvList::new(),
            recv_queue: RecvQueue::new(opt, now),
        };
        proof {
            assert(r.peers@ =~= Seq::<u64>::empty());
        }
        r
    }

    /// A server socket accepting any peer; `seed` seeds the session-id
    /// randomness.
    pub fn bind(opt: SockOpt, seed: u64, now: u64) -> (r: Dealer)
        ensures
            r.wf(),
            r.core@.mode is Bind,
            r.core@.peers == Map::<u128, crate::transport::Peer>::empty(),
            r.core@.peer_update,
            r.core@.rng_state == seed,
            r.opt == opt,
            r.unique == 0,
            r.peers@ == Seq::<u64>::empty(),
            r.send_queues@ == Map::<u128, SendQueue>::empty(),
            r.recv_queue@.incoming == Map::<u128, crate::recv_queue::MsgV>::empty(),
            r.recv_queue@.complete == Map::<u128, Seq<Seq<u8>>>::empty(),
            r.recv_queue@.deque == Seq::<(u64, u64)>::empty(),
            r.recv_queue@.dedup == Seq::<((u64, u64), u64)>::empty(),
            r.recv_queue@.last_maint == now,
    {
        Dealer::new_from(Core::bind(opt, seed), opt, now)
    }

    /// A client socket aimed at `peer_addr`, with the opening connect
    /// datagram to transmit.
    pub fn connect(opt: SockOpt, peer_addr: u64, seed: u64, now: u64) -> (r: (Dealer, Datagram))
        ensures
            r.0.wf(),
            r.0.core@.mode == crate::transport::SockMode::Connect(
                crate::transport::ConnectStatus { addr: peer_addr, session: 0, last_reconnect: now },
            ),
            r.0.core@.peers == Map::<u128, crate::transport::Peer>::empty(),
            r.0.core@.peer_update,
            r.0.core@.rng_state == seed,
            r.0.opt == opt,
            r.0.unique == 0,
            r.0.peers@ == Seq::<u64>::empty(),
            r.0.send_queues@ == Map::<u128, SendQueue>::empty(),
            r.0.recv_queue@.incoming == Map::<u128, crate::recv_queue::MsgV>::empty(),
            r.0.recv_queue@.complete == Map::<u128, Seq<Seq<u8>>>::empty(),
            r.0.recv_queue@.deque == Seq::<(u64, u64)>::empty(),
            r.0.recv_queue@.dedup == Seq::<((u64, u64), u64)>::empty(),
            r.0.recv_queue@.last_maint == now,
            r.1@.addr == peer_addr,
            r.1@.data == crate::frame::spec_control_frame_bytes(
                crate::frame::ControlFrameV::Connect,
            ),
    {
        let (core, hello) = Core::connect(opt, peer_addr, seed, now);
        (Dealer::new_from(core, opt, now), hello)
    }

    /// The fair-queue target: `peers[unique mod peer_count]`.
    fn select_fair_queue_peer(&self) -> (r: Result<u64, NBMQError>)
        ensures
            self.peers@.len() == 0 <==> r matches Err(NBMQError::NoPeer),
            self.peers@.len() > 0 ==> (r matches Ok(sid) && sid == self.peers@[(self.unique % (
            self.peers@.len() as u64)) as int]),
    {
        let peer_ct = self.peers.len();

        if peer_ct < 1 {
            return Err(NBMQError::NoPeer);
        }

        return Ok(self.peers[(self.unique % (peer_ct as u64)) as usize]);
    }

    /// Enqueues one multipart message for the fair-queue peer: `NoPeer`
    /// with an empty peer table; otherwise the peer's queue takes the
    /// message under the send high-water mark, the 255-part cap, and the
    /// 4 GiB cap, and the round-robin nonce advances (wrapping).
    pub fn send(&mut self, data: &Vec<Vec<u8>>) -> (r: Result<(), NBMQError>)
        requires
            old(self).wf(),
        ensures
            final(self).wf(),
            final(self).opt == old(self).opt,
            final(self).core == old(self).core,
            final(self).recv_queue == old(self).recv_queue,
            final(self).peers == old(self).peers,
            old(self).peers@.len() == 0 ==> (r matches Err(NBMQError::NoPeer) && *final(self)
                == *old(self)),
            old(self).peers@.len() > 0 ==> ({
                let sid = old(self).peers@[(old(self).unique % (
                old(self).peers@.len() as u64)) as int];
                let nonce = old(self).unique.wrapping_add(1);
                let q0 = if old(self).send_queues@.contains_key(sid as u128) {
                    old(self).send_queues@[sid as u128]@
                } else {
                    SendQueueV::empty()
                };
                let t = spec_push(
                    q0,
                    old(self).opt.send_hwm as nat,
                    sid,
                    data.deep_view(),
                    nonce,
                );
                &&& final(self).unique == nonce
                &&& final(self).send_queues@.contains_key(sid as u128)
                &&& final(self).send_queues@[sid as u128]@ == t.0
                &&& forall|k: u128|
                    k != sid as u128 ==> (#[trigger] final(self).send_queues@.contains_key(k)
                        <==> old(self).send_queues@.contains_key(k)) && (old(
                        self,
                    ).send_queues@.contains_key(k) ==> final(self).send_queues@[k] == old(
                        self,
                    ).send_queues@[k])
                &&& match t.1 {
                    PushOutcome::Accepted => r is Ok,
                    PushOutcome::Hwm => r matches Err(NBMQError::HighWaterMark),
                    PushOutcome::TooLong => r matches Err(NBMQError::MessageTooLong),
                    PushOutcome::TooLarge => r matches Err(NBMQError::MessageTooLarge),
                }
            }),
    {
        let peer = match self.select_fair_queue_peer() {
            Ok(p) => p,
            Err(e) => {
                return Err(e);
            },
        };
        self.unique = self.unique.wrapping_add(1);

        let mut queue = match self.send_queues.remove(peer as u128) {
            Some(q) => q,
            None => SendQueue::new(self.opt),
        };
        proof {
            if old(self).send_queues@.contains_key(peer as u128) {
            } else {
                assert(queue@ =~~= SendQueueV::empty());
            }
        }
        let res = queue.push(peer, data, self.unique);
        self.send_queues.insert(peer as u128, queue);
        proof {
            assert forall|k: u128|
                k != peer as u128 implies (#[trigger] self.send_queues@.contains_key(k) <==> old(
                self,
            ).send_queues@.contains_key(k)) && (old(self).send_queues@.contains_key(k) ==> self.send_queues@[k]
                == old(self).send_queues@[k]) by {
                assert(self.send_queues@ == old(self).send_queues@.remove(peer as u128).insert(
                    peer as u128,
                    self.send_queues@[peer as u128],
                ));
            }
        }

        res
    }

    /// Dequeues the next completed message, or `WouldBlock` when nothing
    /// is ready; lazy maintenance of stuck messages runs inside.
    pub fn recv(&mut self, now: u64) -> (r: Result<Vec<Vec<u8>>, NBMQError>)
        requires
            old(self).wf(),
        ensures
            final(self).wf(),
            final(self).opt == old(self).opt,
            final(self).core == old(self).core,
            final(self).send_queues == old(self).send_queues,
            final(self).peers == old(self).peers,
            final(self).unique == old(self).unique,
            ({
                let q1 = if crate::opt::spec_elapsed(now, old(self).recv_queue.last_maint)
                    >= old(self).opt.queue_maint_ivl {
                    crate::recv_queue::RecvQueueV {
                        incoming: crate::recv_queue::spec_maint_incoming(
                            old(self).recv_queue@.incoming,
                            now,
                            old(self).opt.uncompleted_message_ttl,
                        ),
                        last_maint: now,
                        ..old(self).recv_queue@
                    }
                } else {
                    old(self).recv_queue@
                };
                let d = crate::recv_queue::spec_complete_drain(q1.complete, q1.deque);
                &&& final(self).recv_queue@ == (crate::recv_queue::RecvQueueV {
                    complete: d.0,
                    deque: d.1,
                    ..q1
                })
                &&& match r {
                    Ok(msg) => d.2 matches Some(p) && p.0 == msg.deep_view(),
                    Err(e) => e matches NBMQError::WouldBlock && d.2 is None,
                }
            }),
    {
        if let Some((message, _key)) = self.recv_queue.pull(now) {
            return Ok(message);
        }

        return Err(NBMQError::WouldBlock);
    }

    /// One scheduling step. Peer-set changes are absorbed; every handed-in
    /// datagram moves the core by one `spec_handle` step, its protocol
    /// replies are collected, and every forwarded data frame lands in the
    /// receive queue by one `spec_recv_push` step — a frame refused at the
    /// receive high-water mark aborts the tick with `WouldBlock`, exactly
    /// then. Each peer's queue is then drained under an even share of
    /// `max_tick_send`, core maintenance runs, and peer-set changes are
    /// re-absorbed. The returned datagrams start with the receive-phase
    /// replies, followed by the drained frames and the maintenance output.
    pub fn tick(&mut self, incoming: &Vec<Datagram>, now: u64) -> (r: Result<
        Vec<Datagram>,
        NBMQError,
    >)
        requires
            old(self).wf(),
        ensures
            final(self).wf(),
            final(self).opt == old(self).opt,
            final(self).unique == old(self).unique,
            ({
                let dirty = old(self).core@.peer_update;
                let peers1 = if dirty {
                    old(self).core.peers.spec_entries().map_values(
                        |e: (u128, crate::transport::Peer)| e.0 as u64,
                    )
                } else {
                    old(self).peers@
                };
                let queues1 = if dirty {
                    Map::new(
                        |k: u128| old(self).send_queues@.contains_key(k) && key_kept(k, peers1),
                        |k: u128| old(self).send_queues@[k],
                    )
                } else {
                    old(self).send_queues@
                };
                let core1 = CoreV { peer_update: false, ..old(self).core@ };
                let t = spec_duplex_recv(
                    core1,
                    old(self).recv_queue@,
                    spec_datagrams(incoming@),
                    now,
                    old(self).opt.peer_heartbeat_ivl,
                    old(self).opt.recv_hwm as nat,
                );
                &&& (r is Err <==> !t.3)
                &&& (!t.3 ==> (r matches Err(NBMQError::WouldBlock)) && final(self).core@ == t.0
                    && final(self).recv_queue@ == t.1 && final(self).peers@ == peers1
                    && final(self).send_queues@ == queues1)
                &&& (t.3 ==> final(self).recv_queue@ == t.1)
                &&& (r matches Ok(out) ==> spec_datagrams(out@).take(t.2.len() as int) == t.2)
                &&& (r matches Ok(out) ==> spec_send_phase_rel(
                    t.0,
                    Map::new(|k: u128| queues1.dom().contains(k), |k: u128| queues1[k]@),
                    false,
                    Seq::empty(),
                    now,
                    old(self).opt,
                    final(self).core@,
                    queues_view(&final(self).send_queues),
                    spec_datagrams(out@).skip(t.2.len() as int),
                ))
            }),
            r is Ok ==> !final(self).core@.peer_update,
    {
        absorb_peer_update(&mut self.core, &mut self.peers, &mut self.send_queues, self.opt);
        proof {
            assert(self.core@ == (CoreV { peer_update: false, ..old(self).core@ }));
        }

        let mut out: Vec<Datagram> = Vec::new();
        proof {
            assert(spec_datagrams(out@) =~= Seq::<crate::transport::DatagramV>::empty());
        }

        let ok = duplex_recv_phase(&mut self.core, &mut self.recv_queue, incoming, now, &mut out);
        if !ok {
            return Err(NBMQError::WouldBlock);
        }
        let ghost t2 = spec_duplex_recv(
            CoreV { peer_update: false, ..old(self).core@ },
            old(self).recv_queue@,
            spec_datagrams(incoming@),
            now,
            old(self).opt.peer_heartbeat_ivl,
            old(self).opt.recv_hwm as nat,
        ).2;
        proof {
            assert(spec_datagrams(out@) =~= Seq::<crate::transport::DatagramV>::empty() + t2);
            assert(spec_datagrams(out@) =~= t2);
        }
        let ghost base = out@;
        let ghost rq_after = self.recv_queue@;
        let ghost qv1m = queues_view(&self.send_queues);
        proof {
            let dirty = old(self).core@.peer_update;
            let peers1 = if dirty {
                old(self).core.peers.spec_entries().map_values(
                    |e: (u128, crate::transport::Peer)| e.0 as u64,
                )
            } else {
                old(self).peers@
            };
            let queues1 = if dirty {
                Map::new(
                    |k: u128| old(self).send_queues@.contains_key(k) && key_kept(k, peers1),
                    |k: u128| old(self).send_queues@[k],
                )
            } else {
                old(self).send_queues@
            };
            assert(qv1m =~= Map::new(
                |k: u128| queues1.dom().contains(k),
                |k: u128| queues1[k]@,
            ));
        }

        let empty_budgets: Vec<(u64, usize)> = Vec::new();
        send_phase(
            &mut self.core,
            &mut self.peers,
            &mut self.send_queues,
            false,
            &empty_budgets,
            now,
            self.opt,
            &mut out,
        );

        proof {
            assert(empty_budgets@ =~= Seq::<(u64, usize)>::empty());
            assert forall|i: int| 0 <= i < t2.len() implies #[trigger] spec_datagrams(out@)[i]
                == t2[i] by {
                assert(out@[i] == base[i]);
                assert(spec_datagrams(base)[i] == base[i]@);
            }
            assert(spec_datagrams(out@).take(t2.len() as int) =~= t2);
            assert(spec_datagrams(base) =~= t2);
            assert(spec_datagrams(out@).skip(t2.len() as int) =~= spec_datagrams(out@).skip(
                spec_datagrams(base).len() as int,
            ));
        }
        Ok(out)
    }

    /// Each peer's queue load: session id and queued-plus-in-flight frame
    /// count, in table order. A caller shaping per-peer budgets reads this,
    /// weighs it, and hands the budgets to `tick_with_budgets`.
    pub fn queue_lens(&self) -> (r: Vec<(u64, usize)>)
        requires
            self.wf(),
        ensures
            r@.len() == self.send_queues.spec_entries().len(),
            forall|i: int|
                0 <= i < r@.len() ==> (#[trigger] r@[i]).0 == ((
                self.send_queues.spec_entries()[i].0 & 0xffff_ffff_ffff_ffff) as u64) && (r@[i].1
                    == self.send_queues.spec_entries()[i].1@.items.len()
                        + self.send_queues.spec_entries()[i].1.sent.spec_len() || r@[i].1
                    == usize::MAX),
    {
        let mut out: Vec<(u64, usize)> = Vec::new();
        let n = self.send_queues.len();
        let mut i: usize = 0;
        while i < n
            invariant
                self.wf(),
                n == self.send_queues.spec_entries().len(),
                i <= n,
                out@.len() == i,
                forall|j: int|
                    0 <= j < i ==> (#[trigger] out@[j]).0 == ((
                    self.send_queues.spec_entries()[j].0 & 0xffff_ffff_ffff_ffff) as u64) && (out@[
                    j].1 == self.send_queues.spec_entries()[j].1@.items.len()
                        + self.send_queues.spec_entries()[j].1.sent.spec_len() || out@[j].1
                        == usize::MAX),
            decreases n - i,
        {
            let k = self.send_queues.key_at(i);
            let len = self.send_queues.value_at(i).len();
            out.push(((k & 0xffff_ffff_ffff_ffff) as u64, len));
            i = i + 1;
        }
        out
    }

    /// One scheduling step with caller-shaped per-peer budgets, such as
    /// `floor(softmax(queue_len) * max_tick_send)` computed over
    /// `queue_lens`. Identical to `tick`, except that each peer's queue
    /// drains under its entry in `budgets` (a peer without one gets the
    /// even share).
    pub fn tick_with_budgets(
        &mut self,
        incoming: &Vec<Datagram>,
        now: u64,
        budgets: &Vec<(u64, usize)>,
    ) -> (r: Result<Vec<Datagram>, NBMQError>)
        requires
            old(self).wf(),
        ensures
            final(self).wf(),
            final(self).opt == old(self).opt,
            final(self).unique == old(self).unique,
            ({
                let dirty = old(self).core@.peer_update;
                let peers1 = if dirty {
                    old(self).core.peers.spec_entries().map_values(
                        |e: (u128, crate::transport::Peer)| e.0 as u64,
                    )
                } else {
                    old(self).peers@
                };
                let queues1 = if dirty {
                    Map::new(
                        |k: u128| old(self).send_queues@.contains_key(k) && key_kept(k, peers1),
                        |k: u128| old(self).send_queues@[k],
                    )
                } else {
                    old(self).send_queues@
                };
                let core1 = CoreV { peer_update: false, ..old(self).core@ };
                let t = spec_duplex_recv(
                    core1,
                    old(self).recv_queue@,
                    spec_datagrams(incoming@),
                    now,
                    old(self).opt.peer_heartbeat_ivl,
                    old(self).opt.recv_hwm as nat,
                );
                &&& (r is Err <==> !t.3)
                &&& (!t.3 ==> (r matches Err(NBMQError::WouldBlock)) && final(self).core@ == t.0
                    && final(self).recv_queue@ == t.1 && final(self).peers@ == peers1
                    && final(self).send_queues@ == queues1)
                &&& (t.3 ==> final(self).recv_queue@ == t.1)
                &&& (r matches Ok(out) ==> spec_datagrams(out@).take(t.2.len() as int) == t.2)
                &&& (r matches Ok(out) ==> spec_send_phase_rel(
                    t.0,
                    Map::new(|k: u128| queues1.dom().contains(k), |k: u128| queues1[k]@),
                    false,
                    budgets@,
                    now,
                    old(self).opt,
                    final(self).core@,
                    queues_view(&final(self).send_queues),
                    spec_datagrams(out@).skip(t.2.len() as int),
                ))
            }),
            r is Ok ==> !final(self).core@.peer_update,
    {
        absorb_peer_update(&mut self.core, &mut self.peers, &mut self.send_queues, self.opt);
        proof {
            assert(self.core@ == (CoreV { peer_update: false, ..old(self).core@ }));
        }

        let mut out: Vec<Datagram> = Vec::new();
        proof {
            assert(spec_datagrams(out@) =~= Seq::<crate::transport::DatagramV>::empty());
        }

        let ok = duplex_recv_phase(&mut self.core, &mut self.recv_queue, incoming, now, &mut out);
        if !ok {
            return Err(NBMQError::WouldBlock);
        }
        let ghost t2 = spec_duplex_recv(
            CoreV { peer_update: false, ..old(self).core@ },
            old(self).recv_queue@,
            spec_datagrams(incoming@),
            now,
            old(self).opt.peer_heartbeat_ivl,
            old(self).opt.recv_hwm as nat,
        ).2;
        proof {
            assert(spec_datagrams(out@) =~= Seq::<crate::transport::DatagramV>::empty() + t2);
            assert(spec_datagrams(out@) =~= t2);
        }
        let ghost base = out@;
        let ghost rq_after = self.recv_queue@;
        let ghost qv1m = queues_view(&self.send_queues);
        proof {
            let dirty = old(self).core@.peer_update;
            let peers1 = if dirty {
                old(self).core.peers.spec_entries().map_values(
                    |e: (u128, crate::transport::Peer)| e.0 as u64,
                )
            } else {
                old(self).peers@
            };
            let queues1 = if dirty {
                Map::new(
                    |k: u128| old(self).send_queues@.contains_key(k) && key_kept(k, peers1),
                    |k: u128| old(self).send_queues@[k],
                )
            } else {
                old(self).send_queues@
            };
            assert(qv1m =~= Map::new(
                |k: u128| queues1.dom().contains(k),
                |k: u128| queues1[k]@,
            ));
        }

        send_phase(
            &mut self.core,
            &mut self.peers,
            &mut self.send_queues,
            false,
            budgets,
            now,
            self.opt,
            &mut out,
        );

        proof {
            assert forall|i: int| 0 <= i < t2.len() implies #[trigger] spec_datagrams(out@)[i]
                == t2[i] by {
                assert(out@[i] == base[i]);
                assert(spec_datagrams(base)[i] == base[i]@);
            }
            assert(spec_datagrams(out@).take(t2.len() as int) =~= t2);
            assert(spec_datagrams(base) =~= t2);
            assert(spec_datagrams(out@).skip(t2.len() as int) =~= spec_datagrams(out@).skip(
                spec_datagrams(base).len() as int,
            ));
        }
        Ok(out)
    }

    /// The number of currently known peers.
    pub fn peers(&self) -> (r: usize)
        requires
            self.wf(),
        ensures
            r == self.core@.peers.dom().len(),
    {
        proof {
            crate::kvlist::lemma_map_of_dom_len(self.core.peers.spec_entries());
        }
        self.core.peers_len()
    }
}

} // verus!
