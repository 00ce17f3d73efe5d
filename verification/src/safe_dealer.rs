//! The retransmitting duplex pattern: Dealer scheduling with an
//! acknowledgement for every received data frame, per-frame resend of
//! unacknowledged frames up to a capped attempt count, and at-most-once
//! delivery through the receive queue's dedup set.
//!
//! A client may send before its handshake completes: such messages wait
//! in a backlog and enter the peer's queue, under their original nonces,
//! once a session is established.
use vstd::prelude::*;

use crate::errors::NBMQError;
use crate::kvlist::KvList;
use crate::opt::SockOpt;
use crate::pattern::{absorb_peer_update, key_kept, queues_view, queues_wf, safe_recv_phase, send_phase, spec_safe_recv, spec_send_phase_rel};
use crate::recv_queue::RecvQueue;
use crate::send_queue::{spec_push, PushOutcome, SendQueue, SendQueueV};
use crate::transport::{spec_datagrams, Core, CoreV, Datagram, SockMode};

verus! {

pub struct SafeDealer {
    pub core: Core,
    pub opt: SockOpt,

    pub unique: u64,
    pub peers: Vec<u64>,

    pub pending: Vec<(Vec<Vec<u8>>, u64)>,

    pub send_queues: KvList<SendQueue>,
    pub recv_queue: RecvQueue,
}

impl SafeDealer {
    pub open spec fn wf(&self) -> bool {
        &&& self.core.wf()
        &&& queues_wf(&self.send_queues, self.opt)
        &&& self.recv_queue.wf()
        &&& self.core.opt == self.opt
        &&& self.recv_queue.opt == self.opt
    }

    fn new_from(core: Core, opt: SockOpt, now: u64) -> (r: SafeDealer)
        requires
            core.wf(),
            core.opt == opt,
        ensures
            r.wf(),
            r.core == core,
            r.opt == opt,
            r.unique == 0,
            r.peers@ == Seq::<u64>::empty(),
            r.pending@ == Seq::<(Vec<Vec<u8>>, u64)>::empty(),
            r.send_queues@ == Map::<u128, SendQueue>::empty(),
            r.recv_queue@.incoming == Map::<u128, crate::recv_queue::MsgV>::empty(),
            r.recv_queue@.complete == Map::<u128, Seq<Seq<u8>>>::empty(),
            r.recv_queue@.deque == Seq::<(u64, u64)>::empty(),
            r.recv_queue@.dedup == Seq::<((u64, u64), u64)>::empty(),
            r.recv_queue@.last_maint == now,
    {
        let r = SafeDealer {
            core,
            opt,
            unique: 0,
            peers: Vec::new(),
            pending: Vec::new(),
            send_queues: KvList::new(),
            recv_queue: RecvQueue::new(opt, now),
        };
        proof {
            assert(r.peers@ =~= Seq::<u64>::empty());
            assert(r.pending@ =~= Seq::<(Vec<Vec<u8>>, u64)>::empty());
        }
        r
    }

    /// A server socket accepting any peer; `seed` seeds the session-id
    /// randomness.
    pub fn bind(opt: SockOpt, seed: u64, now: u64) -> (r: SafeDealer)
        ensures
            r.wf(),
            r.core@.mode is Bind,
            r.core@.peers == Map::<u128, crate::transport::Peer>::empty(),
            r.core@.peer_update,
            r.core@.rng_state == seed,
            r.opt == opt,
            r.unique == 0,
            r.peers@ == Seq::<u64>::empty(),
            r.pending@ == Seq::<(Vec<Vec<u8>>, u64)>::empty(),
            r.send_queues@ == Map::<u128, SendQueue>::empty(),
            r.recv_queue@.incoming == Map::<u128, crate::recv_queue::MsgV>::empty(),
            r.recv_queue@.complete == Map::<u128, Seq<Seq<u8>>>::empty(),
            r.recv_queue@.deque == Seq::<(u64, u64)>::empty(),
            r.recv_queue@.dedup == Seq::<((u64, u64), u64)>::empty(),
            r.recv_queue@.last_maint == now,
    {
        SafeDealer::new_from(Core::bind(opt, seed), opt, now)
    }

    /// A client socket aimed at `peer_addr`, with the opening connect
    /// datagram.
    pub fn connect(opt: SockOpt, peer_addr: u64, seed: u64, now: u64) -> (r: (SafeDealer, Datagram))
        ensures
            r.0.wf(),
            r.0.core@.mode == crate::transport::SockMode::Connect(
                crate::transport::ConnectStatus { addr: peer_addr, session: 0, last_reconnect: now },
            ),
            r.0.core@.peers == Map::<u128, crate::transport::Peer>::empty(),
            r.0.core@.peer_update,
            r.0.core@.rng_state == seed,
            r.0.opt == opt,
            r.0.unique == 0,
            r.0.peers@ == Seq::<u64>::empty(),
            r.0.pending@ == Seq::<(Vec<Vec<u8>>, u64)>::empty(),
            r.0.send_queues@ == Map::<u128, SendQueue>::empty(),
            r.0.recv_queue@.incoming == Map::<u128, crate::recv_queue::MsgV>::empty(),
            r.0.recv_queue@.complete == Map::<u128, Seq<Seq<u8>>>::empty(),
            r.0.recv_queue@.deque == Seq::<(u64, u64)>::empty(),
            r.0.recv_queue@.dedup == Seq::<((u64, u64), u64)>::empty(),
            r.0.recv_queue@.last_maint == now,
            r.1@.addr == peer_addr,
            r.1@.data == crate::frame::spec_control_frame_bytes(
                crate::frame::ControlFrameV::Connect,
            ),
    {
        let (core, hello) = Core::connect(opt, peer_addr, seed, now);
        (SafeDealer::new_from(core, opt, now), hello)
    }

    /// Enqueues one multipart message for the fair-queue peer. A client
    /// without a completed handshake instead holds the message back, under
    /// the send high-water mark, to enter the queue once a session exists;
    /// a server without peers fails `NoPeer`.
    pub fn send(&mut self, data: &Vec<Vec<u8>>) -> (r: Result<(), NBMQError>)
        requires
            old(self).wf(),
        ensures
            final(self).wf(),
            final(self).opt == old(self).opt,
            final(self).core == old(self).core,
            final(self).recv_queue == old(self).recv_queue,
            final(self).peers == old(self).peers,
            old(self).peers@.len() == 0 && old(self).core@.mode is Bind ==> (r matches Err(
                NBMQError::NoPeer,
            ) && *final(self) == *old(self)),
            old(self).peers@.len() == 0 && old(self).core@.mode is Connect ==> ({
                if old(self).pending@.len() >= old(self).opt.send_hwm {
                    r matches Err(NBMQError::HighWaterMark) && *final(self) == *old(self)
                } else if data.deep_view().len() > 255 {
                    r matches Err(NBMQError::MessageTooLong) && *final(self) == *old(self)
                } else if crate::send_queue::spec_total_size(data.deep_view()) > u32::MAX {
                    r matches Err(NBMQError::MessageTooLarge) && *final(self) == *old(self)
                } else {
                    &&& r is Ok
                    &&& final(self).unique == old(self).unique.wrapping_add(1)
                    &&& final(self).pending@.len() == old(self).pending@.len() + 1
                    &&& final(self).pending@.last().0.deep_view() == data.deep_view()
                    &&& final(self).pending@.last().1 == old(self).unique.wrapping_add(1)
                }
            }),
            old(self).peers@.len() > 0 ==> ({
                let sid = old(self).peers@[(old(self).unique % (
                old(self).peers@.len() as u64)) as int];
                let nonce = old(self).unique.wrapping_add(1);
                let q0 = if old(self).send_queues@.contains_key(sid as u128) {
                    old(self).send_queues@[sid as u128]@
                } else {
                    SendQueueV::empty()
                };
                let t = spec_push(
                    q0,
                    old(self).opt.send_hwm as nat,
                    sid,
                    data.deep_view(),
                    nonce,
                );
                &&& final(self).unique == nonce
                &&& final(self).send_queues@.contains_key(sid as u128)
                &&& final(self).send_queues@[sid as u128]@ == t.0
                &&& match t.1 {
                    PushOutcome::Accepted => r is Ok,
                    PushOutcome::Hwm => r matches Err(NBMQError::HighWaterMark),
                    PushOutcome::TooLong => r matches Err(NBMQError::MessageTooLong),
                    PushOutcome::TooLarge => r matches Err(NBMQError::MessageTooLarge),
                }
            }),
    {
        let peer_ct = self.peers.len();

        if peer_ct < 1 {
            match self.core.mode {
                SockMode::Bind => {
                    return Err(NBMQError::NoPeer);
                },
                SockMode::Connect(_) => {
                    if self.pending.len() >= self.opt.send_hwm {
                        return Err(NBMQError::HighWaterMark);
                    }
                    if data.len() > 255 {
                        return Err(NBMQError::MessageTooLong);
                    }
                    if total_size_over_u32(data) {
                        return Err(NBMQError::MessageTooLarge);
                    }
                    self.unique = self.unique.wrapping_add(1);
                    let copy = clone_parts(data);
                    self.pending.push((copy, self.unique));
                    return Ok(());
                },
            }
        }

        let peer = self.peers[(self.unique % (peer_ct as u64)) as usize];
        self.unique = self.unique.wrapping_add(1);

        let mut queue = match self.send_queues.remove(peer as u128) {
            Some(q) => q,
            None => SendQueue::new(self.opt),
        };
        proof {
            if old(self).send_queues@.contains_key(peer as u128) {
            } else {
                assert(queue@ =~~= SendQueueV::empty());
            }
        }
        let res = queue.push(peer, data, self.unique);
        self.send_queues.insert(peer as u128, queue);

        res
    }

    /// Dequeues the next completed message through the dedup set: the
    /// oldest completed message is delivered exactly when its key is new
    /// to the (freshly evicted) dedup set; a duplicate within the dedup
    /// TTL is dropped and `WouldBlock` reported, as when nothing is
    /// complete at all. Lazy maintenance of stuck messages runs inside.
    pub fn recv(&mut self, now: u64) -> (r: Result<Vec<Vec<u8>>, NBMQError>)
        requires
            old(self).wf(),
        ensures
            final(self).wf(),
            final(self).opt == old(self).opt,
            final(self).core == old(self).core,
            final(self).send_queues == old(self).send_queues,
            final(self).peers == old(self).peers,
            final(self).pending == old(self).pending,
            final(self).unique == old(self).unique,
            ({
                let q1 = if crate::opt::spec_elapsed(now, old(self).recv_queue.last_maint)
                    >= old(self).opt.queue_maint_ivl {
                    crate::recv_queue::RecvQueueV {
                        incoming: crate::recv_queue::spec_maint_incoming(
                            old(self).recv_queue@.incoming,
                            now,
                            old(self).opt.uncompleted_message_ttl,
                        ),
                        last_maint: now,
                        ..old(self).recv_queue@
                    }
                } else {
                    old(self).recv_queue@
                };
                let d = crate::recv_queue::spec_complete_drain(q1.complete, q1.deque);
                let q2 = crate::recv_queue::RecvQueueV { complete: d.0, deque: d.1, ..q1 };
                match d.2 {
                    None => r matches Err(NBMQError::WouldBlock) && final(self).recv_queue@ == q2,
                    Some(delivery) => {
                        let evicted = crate::recv_queue::spec_dedup_evict(
                            q2.dedup,
                            now,
                            old(self).opt.safe_hash_dedup_ttl,
                        );
                        if crate::recv_queue::spec_dedup_contains(evicted, delivery.1) {
                            r matches Err(NBMQError::WouldBlock) && final(self).recv_queue@
                                == (crate::recv_queue::RecvQueueV { dedup: evicted, ..q2 })
                        } else {
                            (r matches Ok(msg) && msg.deep_view() == delivery.0)
                                && final(self).recv_queue@ == (crate::recv_queue::RecvQueueV {
                                dedup: evicted.push((delivery.1, now)),
                                ..q2
                            })
                        }
                    },
                }
            }),
    {
        if let Some((message, _key)) = self.recv_queue.pull_safe(now) {
            return Ok(message);
        }

        return Err(NBMQError::WouldBlock);
    }

    /// Moves held-back client messages into the fair-queue peer's queue,
    /// keeping their original nonces. Stops at the first rejected push,
    /// leaving the rest held back.
    fn drain_pending(&mut self, now: u64)
        requires
            old(self).wf(),
            old(self).peers@.len() > 0,
        ensures
            final(self).wf(),
            final(self).opt == old(self).opt,
            final(self).core == old(self).core,
            final(self).recv_queue == old(self).recv_queue,
            final(self).peers == old(self).peers,
            final(self).unique == old(self).unique,
            old(self).pending@.len() == 0 ==> final(self).send_queues == old(self).send_queues
                && final(self).pending == old(self).pending,
    {
        let _ = now;
        loop
            invariant
                self.wf(),
                self.opt == old(self).opt,
                self.core == old(self).core,
                self.recv_queue == old(self).recv_queue,
                self.peers == old(self).peers,
                self.unique == old(self).unique,
                self.peers@.len() > 0,
                old(self).pending@.len() == 0 ==> self.send_queues == old(self).send_queues
                    && self.pending == old(self).pending,
            ensures
                self.wf(),
                self.opt == old(self).opt,
                self.core == old(self).core,
                self.recv_queue == old(self).recv_queue,
                self.peers == old(self).peers,
                self.unique == old(self).unique,
                old(self).pending@.len() == 0 ==> self.send_queues == old(self).send_queues
                    && self.pending == old(self).pending,
            decreases self.pending@.len(),
        {
            if self.pending.len() == 0 {
                break ;
            }

            let (parts, nonce) = self.pending.remove(0);
            let peer = self.peers[(nonce % (self.peers.len() as u64)) as usize];

            let mut queue = match self.send_queues.remove(peer as u128) {
                Some(q) => q,
                None => SendQueue::new(self.opt),
            };
            let res = queue.push(peer, &parts, nonce);
            self.send_queues.insert(peer as u128, queue);

            match res {
                Ok(_) => {},
                Err(_) => {
                    // put it back and retry on a later tick
                    self.pending.insert(0, (parts, nonce));
                    break ;
                },
            }
        }
    }

    /// One scheduling step. Peer-set changes are absorbed; every handed-in
    /// datagram moves the core by one `spec_handle` step, its protocol
    /// replies are collected, every 8-byte acknowledgement payload drops
    /// its frame hash from the acknowledging peer's in-flight table, and
    /// every forwarded data frame is answered with an acknowledgement of
    /// its FNV-1a-64 frame hash and lands in the receive queue by one
    /// `spec_recv_push` step — a frame refused at the receive high-water
    /// mark aborts the tick with `WouldBlock`, exactly then. Held-back
    /// client messages then enter their queues, each peer's queue is
    /// drained through the retry variant under an even share of
    /// `max_tick_send`, core maintenance runs, and peer-set changes are
    /// re-absorbed. The returned datagrams start with the receive-phase
    /// replies and acknowledgements, followed by the drained frames and
    /// the maintenance output.
    pub fn tick(&mut self, incoming: &Vec<Datagram>, now: u64) -> (r: Result<
        Vec<Datagram>,
        NBMQError,
    >)
        requires
            old(self).wf(),
        ensures
            final(self).wf(),
            final(self).opt == old(self).opt,
            ({
                let dirty = old(self).core@.peer_update;
                let peers1 = if dirty {
                    old(self).core.peers.spec_entries().map_values(
                        |e: (u128, crate::transport::Peer)| e.0 as u64,
                    )
                } else {
                    old(self).peers@
                };
                let queues1 = if dirty {
                    Map::new(
                        |k: u128| old(self).send_queues@.contains_key(k) && key_kept(k, peers1),
                        |k: u128| old(self).send_queues@[k],
                    )
                } else {
                    old(self).send_queues@
                };
                let qv1 = Map::new(
                    |k: u128| queues1.dom().contains(k),
                    |k: u128| queues1[k]@,
                );
                let core1 = CoreV { peer_update: false, ..old(self).core@ };
                let t = spec_safe_recv(
                    core1,
                    qv1,
                    old(self).recv_queue@,
                    spec_datagrams(incoming@),
                    now,
                    old(self).opt.peer_heartbeat_ivl,
                    old(self).opt.recv_hwm as nat,
                    old(self).opt.peer_keepalive,
                );
                &&& (r is Err <==> !t.4)
                &&& (!t.4 ==> (r matches Err(NBMQError::WouldBlock)) && final(self).core@ == t.0
                    && queues_view(&final(self).send_queues) == t.1
                    && final(self).recv_queue@ == t.2 && final(self).peers@ == peers1
                    && final(self).pending == old(self).pending
                    && final(self).unique == old(self).unique)
                &&& (t.4 ==> final(self).recv_queue@ == t.2)
                &&& (r matches Ok(out) ==> spec_datagrams(out@).take(t.3.len() as int) == t.3)
                &&& (r is Ok && old(self).pending@.len() == 0 ==> (r matches Ok(out)
                    && spec_send_phase_rel(
                    t.0,
                    t.1,
                    true,
                    Seq::<(u64, usize)>::empty(),
                    now,
                    old(self).opt,
                    final(self).core@,
                    queues_view(&final(self).send_queues),
                    spec_datagrams(out@).skip(t.3.len() as int),
                )))
            }),
            final(self).unique == old(self).unique,
            r is Ok ==> !final(self).core@.peer_update,
    {
        absorb_peer_update(&mut self.core, &mut self.peers, &mut self.send_queues, self.opt);
        proof {
            assert(self.core@ == (CoreV { peer_update: false, ..old(self).core@ }));
            let dirty = old(self).core@.peer_update;
            let peers1 = if dirty {
                old(self).core.peers.spec_entries().map_values(
                    |e: (u128, crate::transport::Peer)| e.0 as u64,
                )
            } else {
                old(self).peers@
            };
            let queues1 = if dirty {
                Map::new(
                    |k: u128| old(self).send_queues@.contains_key(k) && key_kept(k, peers1),
                    |k: u128| old(self).send_queues@[k],
                )
            } else {
                old(self).send_queues@
            };
            assert(queues_view(&self.send_queues) =~= Map::new(
                |k: u128| queues1.dom().contains(k),
                |k: u128| queues1[k]@,
            ));
        }

        let mut out: Vec<Datagram> = Vec::new();
        proof {
            assert(spec_datagrams(out@) =~= Seq::<crate::transport::DatagramV>::empty());
        }

        let ok = safe_recv_phase(
            &mut self.core,
            &mut self.send_queues,
            &mut self.recv_queue,
            incoming,
            now,
            self.opt,
            &mut out,
        );
        if !ok {
            return Err(NBMQError::WouldBlock);
        }
        let ghost t3 = ({
            let dirty = old(self).core@.peer_update;
            let peers1 = if dirty {
                old(self).core.peers.spec_entries().map_values(
                    |e: (u128, crate::transport::Peer)| e.0 as u64,
                )
            } else {
                old(self).peers@
            };
            let queues1 = if dirty {
                Map::new(
                    |k: u128| old(self).send_queues@.contains_key(k) && key_kept(k, peers1),
                    |k: u128| old(self).send_queues@[k],
                )
            } else {
                old(self).send_queues@
            };
            spec_safe_recv(
                CoreV { peer_update: false, ..old(self).core@ },
                Map::new(|k: u128| queues1.dom().contains(k), |k: u128| queues1[k]@),
                old(self).recv_queue@,
                spec_datagrams(incoming@),
                now,
                old(self).opt.peer_heartbeat_ivl,
                old(self).opt.recv_hwm as nat,
                old(self).opt.peer_keepalive,
            ).3
        });
        proof {
            assert(spec_datagrams(out@) =~= Seq::<crate::transport::DatagramV>::empty() + t3);
            assert(spec_datagrams(out@) =~= t3);
        }
        let ghost base = out@;
        let ghost rq_after = self.recv_queue@;

        if self.peers.len() > 0 {
            self.drain_pending(now);
        }

        let empty_budgets: Vec<(u64, usize)> = Vec::new();
        send_phase(
            &mut self.core,
            &mut self.peers,
            &mut self.send_queues,
            true,
            &empty_budgets,
            now,
            self.opt,
            &mut out,
        );

        proof {
            assert(empty_budgets@ =~= Seq::<(u64, usize)>::empty());
            assert forall|i: int| 0 <= i < t3.len() implies #[trigger] spec_datagrams(out@)[i]
                == t3[i] by {
                assert(out@[i] == base[i]);
                assert(spec_datagrams(base)[i] == base[i]@);
            }
            assert(spec_datagrams(out@).take(t3.len() as int) =~= t3);
            assert(spec_datagrams(base) =~= t3);
            assert(spec_datagrams(out@).skip(t3.len() as int) =~= spec_datagrams(out@).skip(
                spec_datagrams(base).len() as int,
            ));
        }
        Ok(out)
    }

    /// Each peer's queue load: session id and queued-plus-in-flight frame
    /// count, in table order. A caller shaping per-peer budgets reads this,
    /// weighs it, and hands the budgets to `tick_with_budgets`.
    pub fn queue_lens(&self) -> (r: Vec<(u64, usize)>)
        requires
            self.wf(),
        ensures
            r@.len() == self.send_queues.spec_entries().len(),
            forall|i: int|
                0 <= i < r@.len() ==> (#[trigger] r@[i]).0 == ((
                self.send_queues.spec_entries()[i].0 & 0xffff_ffff_ffff_ffff) as u64) && (r@[i].1
                    == self.send_queues.spec_entries()[i].1@.items.len()
                        + self.send_queues.spec_entries()[i].1.sent.spec_len() || r@[i].1
                    == usize::MAX),
    {
        let mut out: Vec<(u64, usize)> = Vec::new();
        let n = self.send_queues.len();
        let mut i: usize = 0;
        while i < n
            invariant
                self.wf(),
                n == self.send_queues.spec_entries().len(),
                i <= n,
                out@.len() == i,
                forall|j: int|
                    0 <= j < i ==> (#[trigger] out@[j]).0 == ((
                    self.send_queues.spec_entries()[j].0 & 0xffff_ffff_ffff_ffff) as u64) && (out@[
                    j].1 == self.send_queues.spec_entries()[j].1@.items.len()
                        + self.send_queues.spec_entries()[j].1.sent.spec_len() || out@[j].1
                        == usize::MAX),
            decreases n - i,
        {
            let k = self.send_queues.key_at(i);
            let len = self.send_queues.value_at(i).len();
            out.push(((k & 0xffff_ffff_ffff_ffff) as u64, len));
            i = i + 1;
        }
        out
    }

    /// One scheduling step with caller-shaped per-peer budgets, such as
    /// `floor(softmax(queue_len) * max_tick_send)` computed over
    /// `queue_lens`. Identical to `tick`, except that each peer's queue
    /// drains under its entry in `budgets` (a peer without one gets the
    /// even share).
    pub fn tick_with_budgets(
        &mut self,
        incoming: &Vec<Datagram>,
        now: u64,
        budgets: &Vec<(u64, usize)>,
    ) -> (r: Result<Vec<Datagram>, NBMQError>)
        requires
            old(self).wf(),
        ensures
            final(self).wf(),
            final(self).opt == old(self).opt,
            ({
                let dirty = old(self).core@.peer_update;
                let peers1 = if dirty {
                    old(self).core.peers.spec_entries().map_values(
                        |e: (u128, crate::transport::Peer)| e.0 as u64,
                    )
                } else {
                    old(self).peers@
                };
                let queues1 = if dirty {
                    Map::new(
                        |k: u128| old(self).send_queues@.contains_key(k) && key_kept(k, peers1),
                        |k: u128| old(self).send_queues@[k],
                    )
                } else {
                    old(self).send_queues@
                };
                let qv1 = Map::new(
                    |k: u128| queues1.dom().contains(k),
                    |k: u128| queues1[k]@,
                );
                let core1 = CoreV { peer_update: false, ..old(self).core@ };
                let t = spec_safe_recv(
                    core1,
                    qv1,
                    old(self).recv_queue@,
                    spec_datagrams(incoming@),
                    now,
                    old(self).opt.peer_heartbeat_ivl,
                    old(self).opt.recv_hwm as nat,
                    old(self).opt.peer_keepalive,
                );
                &&& (r is Err <==> !t.4)
                &&& (!t.4 ==> (r matches Err(NBMQError::WouldBlock)) && final(self).core@ == t.0
                    && queues_view(&final(self).send_queues) == t.1
                    && final(self).recv_queue@ == t.2 && final(self).peers@ == peers1
                    && final(self).pending == old(self).pending
                    && final(self).unique == old(self).unique)
                &&& (t.4 ==> final(self).recv_queue@ == t.2)
                &&& (r matches Ok(out) ==> spec_datagrams(out@).take(t.3.len() as int) == t.3)
                &&& (r is Ok && old(self).pending@.len() == 0 ==> (r matches Ok(out)
                    && spec_send_phase_rel(
                    t.0,
                    t.1,
                    true,
                    budgets@,
                    now,
                    old(self).opt,
                    final(self).core@,
                    queues_view(&final(self).send_queues),
                    spec_datagrams(out@).skip(t.3.len() as int),
                )))
            }),
            final(self).unique == old(self).unique,
            r is Ok ==> !final(self).core@.peer_update,
    {
        absorb_peer_update(&mut self.core, &mut self.peers, &mut self.send_queues, self.opt);
        proof {
            assert(self.core@ == (CoreV { peer_update: false, ..old(self).core@ }));
            let dirty = old(self).core@.peer_update;
            let peers1 = if dirty {
                old(self).core.peers.spec_entries().map_values(
                    |e: (u128, crate::transport::Peer)| e.0 as u64,
                )
            } else {
                old(self).peers@
            };
            let queues1 = if dirty {
                Map::new(
                    |k: u128| old(self).send_queues@.contains_key(k) && key_kept(k, peers1),
                    |k: u128| old(self).send_queues@[k],
                )
            } else {
                old(self).send_queues@
            };
            assert(queues_view(&self.send_queues) =~= Map::new(
                |k: u128| queues1.dom().contains(k),
                |k: u128| queues1[k]@,
            ));
        }

        let mut out: Vec<Datagram> = Vec::new();
        proof {
            assert(spec_datagrams(out@) =~= Seq::<crate::transport::DatagramV>::empty());
        }

        let ok = safe_recv_phase(
            &mut self.core,
            &mut self.send_queues,
            &mut self.recv_queue,
            incoming,
            now,
            self.opt,
            &mut out,
        );
        if !ok {
            return Err(NBMQError::WouldBlock);
        }
        let ghost t3 = ({
            let dirty = old(self).core@.peer_update;
            let peers1 = if dirty {
                old(self).core.peers.spec_entries().map_values(
                    |e: (u128, crate::transport::Peer)| e.0 as u64,
                )
            } else {
                old(self).peers@
            };
            let queues1 = if dirty {
                Map::new(
                    |k: u128| old(self).send_queues@.contains_key(k) && key_kept(k, peers1),
                    |k: u128| old(self).send_queues@[k],
                )
            } else {
                old(self).send_queues@
            };
            spec_safe_recv(
                CoreV { peer_update: false, ..old(self).core@ },
                Map::new(|k: u128| queues1.dom().contains(k), |k: u128| queues1[k]@),
                old(self).recv_queue@,
                spec_datagrams(incoming@),
                now,
                old(self).opt.peer_heartbeat_ivl,
                old(self).opt.recv_hwm as nat,
                old(self).opt.peer_keepalive,
            ).3
        });
        proof {
            assert(spec_datagrams(out@) =~= Seq::<crate::transport::DatagramV>::empty() + t3);
            assert(spec_datagrams(out@) =~= t3);
        }
        let ghost base = out@;
        let ghost rq_after = self.recv_queue@;

        if self.peers.len() > 0 {
            self.drain_pending(now);
        }

        send_phase(
            &mut self.core,
            &mut self.peers,
            &mut self.send_queues,
            true,
            budgets,
            now,
            self.opt,
            &mut out,
        );

        proof {
            assert forall|i: int| 0 <= i < t3.len() implies #[trigger] spec_datagrams(out@)[i]
                == t3[i] by {
                assert(out@[i] == base[i]);
                assert(spec_datagrams(base)[i] == base[i]@);
            }
            assert(spec_datagrams(out@).take(t3.len() as int) =~= t3);
            assert(spec_datagrams(base) =~= t3);
            assert(spec_datagrams(out@).skip(t3.len() as int) =~= spec_datagrams(out@).skip(
                spec_datagrams(base).len() as int,
            ));
        }
        Ok(out)
    }

    /// The number of currently known peers.
    pub fn peers(&self) -> (r: usize)
        requires
            self.wf(),
        ensures
            r == self.core@.peers.dom().len(),
    {
        proof {
            crate::kvlist::lemma_map_of_dom_len(self.core.peers.spec_entries());
        }
        self.core.peers_len()
    }
}

/// Whether a message's total size exceeds the 4 GiB frame-size field.
fn total_size_over_u32(data: &Vec<Vec<u8>>) -> (r: bool)
    ensures
        r == (crate::send_queue::spec_total_size(data.deep_view()) > u32::MAX),
{
    let ghost parts = data.deep_view();
    let mut total: u64 = 0;
    let mut i: usize = 0;
    while i < data.len()
        invariant
            i <= data@.len(),
            parts == data.deep_view(),
            if crate::send_queue::spec_total_size(parts.take(i as int)) <= u64::MAX {
                total == crate::send_queue::spec_total_size(parts.take(i as int))
            } else {
                total == u64::MAX
            },
        decreases data@.len() - i,
    {
        total = total.saturating_add(data[i].len() as u64);
        i = i + 1;
        proof {
            assert(parts.take(i as int).drop_last() =~= parts.take(i as int - 1));
            assert(parts.take(i as int).last() == data@[i - 1]@);
        }
    }
    proof {
        assert(parts.take(data@.len() as int) =~= parts);
    }
    total > (u32::MAX as u64)
}

/// A deep copy of a multipart message.
fn clone_parts(data: &Vec<Vec<u8>>) -> (r: Vec<Vec<u8>>)
    ensures
        r.deep_view() == data.deep_view(),
{
    let mut out: Vec<Vec<u8>> = Vec::new();
    let mut i: usize = 0;
    while i < data.len()
        invariant
            i <= data@.len(),
            out.deep_view() =~= data.deep_view().take(i as int),
        decreases data@.len() - i,
    {
        let cb = crate::transport::clone_bytes(&data[i]);
        let ghost cbv = cb@;
        let ghost out_pre = out@;
        let ghost dv_pre = out.deep_view();
        out.push(cb);
        i = i + 1;
        proof {
            assert(dv_pre.len() == out_pre.len());
            assert(out_pre.len() == i - 1);
            assert(out@ =~= out_pre.push(out@.last()));
            assert(out@.last()@ == cbv);
            assert(cbv == data@[i - 1]@);
            assert(out@.last().deep_view() =~= out@.last()@);
            assert(data@[i - 1].deep_view() =~= data@[i - 1]@);
            assert(out.deep_view().len() == out@.len());
            assert forall|k: int| 0 <= k < out@.len() implies out.deep_view()[k]
                == data.deep_view().take(i as int)[k] by {
                if k < out@.len() - 1 {
                    assert(out@[k] == out_pre[k]);
                    assert(dv_pre[k] == out_pre[k].deep_view());
                    assert(dv_pre[k] == data.deep_view().take(i as int - 1)[k]);
                }
            }
            assert(out.deep_view() =~= data.deep_view().take(i as int));
        }
    }
    proof {
        assert(data.deep_view().take(data@.len() as int) =~= data.deep_view());
        assert(out.deep_view() =~= data.deep_view());
    }
    out
}

} // verus!
