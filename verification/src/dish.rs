//! The receive-only pattern: the dual of the broadcast Radio. Sending is
//! not offered; incoming data frames feed the reassembly queue.
use vstd::prelude::*;

use crate::errors::NBMQError;
use crate::opt::SockOpt;
use crate::recv_queue::RecvQueue;
use crate::pattern::{duplex_recv_phase, enumerates_peers, spec_duplex_recv};
use crate::transport::{spec_datagrams, Core, Datagram};

verus! {

pub struct Dish {
    pub core: Core,
    pub opt: SockOpt,

    pub recv_queue: RecvQueue,
}

impl Dish {
    pub open spec fn wf(&self) -> bool {
        &&& self.core.wf()
        &&& self.recv_queue.wf()
        &&& self.core.opt == self.opt
        &&& self.recv_queue.opt == self.opt
    }

    fn new_from(core: Core, opt: SockOpt, now: u64) -> (r: Dish)
        requires
            core.wf(),
            core.opt == opt,
        ensures
            r.wf(),
            r.core == core,
            r.opt == opt,
            r.recv_queue@.incoming == Map::<u128, crate::recv_queue::MsgV>::empty(),
            r.recv_queue@.complete == Map::<u128, Seq<Seq<u8>>>::empty(),
            r.recv_queue@.deque == Seq::<(u64, u64)>::empty(),
            r.recv_queue@.dedup == Seq::<((u64, u64), u64)>::empty(),
            r.recv_queue@.last_maint == now,
    {
        Dish { core, opt, recv_queue: RecvQueue::new(opt, now) }
    }

    /// A listening dish; `seed` seeds the session-id randomness.
    pub fn bind(opt: SockOpt, seed: u64, now: u64) -> (r: Dish)
        ensures
            r.wf(),
            r.core@.mode is Bind,
            r.core@.peers == Map::<u128, crate::transport::Peer>::empty(),
            r.core@.peer_update,
            r.core@.rng_state == seed,
            r.opt == opt,
            r.recv_queue@.incoming == Map::<u128, crate::recv_queue::MsgV>::empty(),
            r.recv_queue@.complete == Map::<u128, Seq<Seq<u8>>>::empty(),
            r.recv_queue@.deque == Seq::<(u64, u64)>::empty(),
            r.recv_queue@.dedup == Seq::<((u64, u64), u64)>::empty(),
            r.recv_queue@.last_maint == now,
    {
        Dish::new_from(Core::bind(opt, seed), opt, now)
    }

    /// A dish aimed at a radio, with the opening connect datagram.
    pub fn connect(opt: SockOpt, peer_addr: u64, seed: u64, now: u64) -> (r: (Dish, Datagram))
        ensures
            r.0.wf(),
            r.0.core@.mode == crate::transport::SockMode::Connect(
                crate::transport::ConnectStatus { addr: peer_addr, session: 0, last_reconnect: now },
            ),
            r.0.core@.peers == Map::<u128, crate::transport::Peer>::empty(),
            r.0.core@.peer_update,
            r.0.core@.rng_state == seed,
            r.0.opt == opt,
            r.0.recv_queue@.incoming == Map::<u128, crate::recv_queue::MsgV>::empty(),
            r.0.recv_queue@.complete == Map::<u128, Seq<Seq<u8>>>::empty(),
            r.0.recv_queue@.deque == Seq::<(u64, u64)>::empty(),
            r.0.recv_queue@.dedup == Seq::<((u64, u64), u64)>::empty(),
            r.0.recv_queue@.last_maint == now,
            r.1@.addr == peer_addr,
            r.1@.data == crate::frame::spec_control_frame_bytes(
                crate::frame::ControlFrameV::Connect,
            ),
    {
        let (core, hello) = Core::connect(opt, peer_addr, seed, now);
        (Dish::new_from(core, opt, now), hello)
    }

    /// A dish never sends.
    pub fn send(&mut self, _data: &Vec<Vec<u8>>) -> (r: Result<(), NBMQError>)
        ensures
            *final(self) == *old(self),
            r matches Err(NBMQError::NotSupported),
    {
        return Err(NBMQError::NotSupported);
    }

    /// Dequeues the next completed message, or `WouldBlock`; lazy
    /// maintenance of stuck messages runs inside.
    pub fn recv(&mut self, now: u64) -> (r: Result<Vec<Vec<u8>>, NBMQError>)
        requires
            old(self).wf(),
        ensures
            final(self).wf(),
            final(self).opt == old(self).opt,
            final(self).core == old(self).core,
            ({
                let q1 = if crate::opt::spec_elapsed(now, old(self).recv_queue.last_maint)
                    >= old(self).opt.queue_maint_ivl {
                    crate::recv_queue::RecvQueueV {
                        incoming: crate::recv_queue::spec_maint_incoming(
                            old(self).recv_queue@.incoming,
                            now,
                            old(self).opt.uncompleted_message_ttl,
                        ),
                        last_maint: now,
                        ..old(self).recv_queue@
                    }
                } else {
                    old(self).recv_queue@
                };
                let d = crate::recv_queue::spec_complete_drain(q1.complete, q1.deque);
                &&& final(self).recv_queue@ == (crate::recv_queue::RecvQueueV {
                    complete: d.0,
                    deque: d.1,
                    ..q1
                })
                &&& match r {
                    Ok(msg) => d.2 matches Some(p) && p.0 == msg.deep_view(),
                    Err(e) => e matches NBMQError::WouldBlock && d.2 is None,
                }
            }),
    {
        if let Some((message, _key)) = self.recv_queue.pull(now) {
            return Ok(message);
        }

        return Err(NBMQError::WouldBlock);
    }

    /// One scheduling step. Every handed-in datagram moves the core by one
    /// `spec_handle` step, its protocol replies are collected, and every
    /// forwarded data frame lands in the receive queue by one
    /// `spec_recv_push` step — a frame refused at the receive high-water
    /// mark aborts the tick with `WouldBlock`, exactly then. Core
    /// maintenance then runs. The returned datagrams start with the
    /// receive-phase replies, followed by the maintenance output.
    pub fn tick(&mut self, incoming: &Vec<Datagram>, now: u64) -> (r: Result<
        Vec<Datagram>,
        NBMQError,
    >)
        requires
            old(self).wf(),
        ensures
            final(self).wf(),
            final(self).opt == old(self).opt,
            ({
                let t = spec_duplex_recv(
                    old(self).core@,
                    old(self).recv_queue@,
                    spec_datagrams(incoming@),
                    now,
                    old(self).opt.peer_heartbeat_ivl,
                    old(self).opt.recv_hwm as nat,
                );
                &&& (r is Err <==> !t.3)
                &&& (!t.3 ==> (r matches Err(NBMQError::WouldBlock)) && final(self).core@ == t.0
                    && final(self).recv_queue@ == t.1)
                &&& final(self).recv_queue@ == t.1
                &&& (r matches Ok(out) ==> spec_datagrams(out@).take(t.2.len() as int) == t.2)
                &&& (r matches Ok(out) ==> final(self).core@ == crate::transport::spec_maint_core(
                    t.0,
                    now,
                    old(self).opt.peer_keepalive,
                    old(self).opt.reconnect_wait,
                ) && exists|pents: Seq<(u128, crate::transport::Peer)>|
                    #[trigger] enumerates_peers(pents, t.0.peers) && spec_datagrams(out@) == t.2
                        + crate::transport::spec_maint_outs(
                        pents,
                        now,
                        old(self).opt.peer_heartbeat_ivl,
                    ) + crate::transport::spec_reconnect_out(
                        t.0,
                        now,
                        old(self).opt.peer_keepalive,
                        old(self).opt.reconnect_wait,
                    ))
            }),
    {
        let mut out: Vec<Datagram> = Vec::new();
        proof {
            assert(spec_datagrams(out@) =~= Seq::<crate::transport::DatagramV>::empty());
        }

        let ok = duplex_recv_phase(&mut self.core, &mut self.recv_queue, incoming, now, &mut out);
        if !ok {
            return Err(NBMQError::WouldBlock);
        }
        let ghost t2 = spec_duplex_recv(
            old(self).core@,
            old(self).recv_queue@,
            spec_datagrams(incoming@),
            now,
            old(self).opt.peer_heartbeat_ivl,
            old(self).opt.recv_hwm as nat,
        ).2;
        proof {
            assert(spec_datagrams(out@) =~= Seq::<crate::transport::DatagramV>::empty() + t2);
            assert(spec_datagrams(out@) =~= t2);
        }
        let ghost base = out@;
        let ghost pents_w = self.core.peers.spec_entries();
        let ghost core_pre = self.core@;
        proof {
            crate::kvlist::lemma_map_of_dom_len(pents_w);
            assert forall|i: int|
                0 <= i < pents_w.len() implies core_pre.peers.contains_key(
                (#[trigger] pents_w[i]).0,
            ) && core_pre.peers[pents_w[i].0] == pents_w[i].1 by {
                crate::kvlist::lemma_map_of_contains(pents_w, i);
            }
            assert(enumerates_peers(pents_w, core_pre.peers));
        }

        let mut maint_out = self.core.maint(now);
        proof {
            assert(self.core@ == crate::transport::spec_maint_core(
                core_pre,
                now,
                old(self).opt.peer_keepalive,
                old(self).opt.reconnect_wait,
            ));
            assert(spec_datagrams(maint_out@) =~= maint_out@.map_values(|dd: Datagram| dd@));
            assert(spec_datagrams(maint_out@) =~= crate::transport::spec_maint_outs(
                pents_w,
                now,
                old(self).opt.peer_heartbeat_ivl,
            ) + crate::transport::spec_reconnect_out(
                core_pre,
                now,
                old(self).opt.peer_keepalive,
                old(self).opt.reconnect_wait,
            ));
        }
        let ghost mo_v = spec_datagrams(maint_out@);
        out.append(&mut maint_out);

        proof {
            assert(spec_datagrams(out@) =~= spec_datagrams(base) + mo_v);
            assert forall|i: int| 0 <= i < t2.len() implies #[trigger] spec_datagrams(out@)[i]
                == t2[i] by {
                assert(out@[i] == base[i]);
                assert(spec_datagrams(base)[i] == base[i]@);
            }
            assert(spec_datagrams(out@).take(t2.len() as int) =~= t2);
            assert(spec_datagrams(base) =~= t2);
            assert(spec_datagrams(out@) =~= t2 + crate::transport::spec_maint_outs(
                pents_w,
                now,
                old(self).opt.peer_heartbeat_ivl,
            ) + crate::transport::spec_reconnect_out(
                core_pre,
                now,
                old(self).opt.peer_keepalive,
                old(self).opt.reconnect_wait,
            ));
        }
        Ok(out)
    }

    /// The number of known peers.
    pub fn peers(&self) -> (r: usize)
        ensures
            r == self.core.peers.spec_len(),
    {
        self.core.peers_len()
    }
}

} // verus!
