//! What the socket patterns share: absorbing peer-set changes from the
//! core into a pattern's peer list and per-peer queue table, and draining
//! one peer's send queue into the core under a frame budget.
use vstd::prelude::*;

use crate::errors::NBMQError;
use crate::frame::{spec_control_frame_bytes, ControlFrame, ControlFrameV};
use crate::hash::{fnv1a64, spec_fnv1a64};
use crate::bytes::{read_u64_be, spec_u64_be, spec_u64_from_be, u64_be_vec};
use crate::recv_queue::{spec_recv_push, RecvPushOutcome, RecvQueue, RecvQueueV};
use crate::send_queue::{spec_pull, spec_pull_safe, SendQueueV};
use crate::kvlist::KvList;
use crate::send_queue::SendQueue;
use crate::transport::{
    spec_datagrams, spec_handle, Core, CoreV, Datagram, DatagramV, Forward, ForwardV, Peer,
};

verus! {

/// Whether a queue key survives a peer-set update.
pub open spec fn key_kept(k: u128, ids: Seq<u64>) -> bool {
    exists|i: int| 0 <= i < ids.len() && (#[trigger] ids[i]) as u128 == k
}

/// Linear membership in a peer list.
pub fn ids_contain(ids: &Vec<u64>, k: u128) -> (r: bool)
    ensures
        r == key_kept(k, ids@),
{
    let mut i: usize = 0;
    while i < ids.len()
        invariant
            i <= ids@.len(),
            forall|j: int| 0 <= j < i ==> (#[trigger] ids@[j]) as u128 != k,
        decreases ids@.len() - i,
    {
        if (ids[i] as u128) == k {
            return true;
        }
        i = i + 1;
    }
    false
}

/// The queue table as a map of queue images.
pub open spec fn queues_view(kv: &KvList<SendQueue>) -> Map<u128, crate::send_queue::SendQueueV> {
    Map::new(|k: u128| kv@.contains_key(k), |k: u128| kv@[k]@)
}

/// Whether the queue table is a well-formed map of well-formed queues,
/// every queue under the pattern's own options.
pub open spec fn queues_wf(queues: &KvList<SendQueue>, opt: crate::opt::SockOpt) -> bool {
    &&& queues.wf()
    &&& forall|k: u128|
        queues@.contains_key(k) ==> (#[trigger] queues@[k]).wf() && queues@[k].opt == opt
}

/// Absorbs one peer-set epoch: when the core's peer set changed since the
/// last read, the pattern's peer list is replaced by the current session
/// ids and queues of vanished peers are dropped; otherwise nothing moves.
pub fn absorb_peer_update(
    core: &mut Core,
    peers: &mut Vec<u64>,
    queues: &mut KvList<SendQueue>,
    opt: crate::opt::SockOpt,
)
    requires
        old(core).wf(),
        queues_wf(old(queues), opt),
    ensures
        final(core).wf(),
        queues_wf(final(queues), opt),
        final(core).opt == old(core).opt,
        final(core)@.mode == old(core)@.mode,
        final(core)@.peers == old(core)@.peers,
        final(core)@.rng_state == old(core)@.rng_state,
        !final(core)@.peer_update,
        !old(core)@.peer_update ==> final(peers)@ == old(peers)@ && final(queues)@ == old(
            queues,
        )@,
        old(core)@.peer_update ==> final(peers)@ == old(core).peers.spec_entries().map_values(
            |e: (u128, crate::transport::Peer)| e.0 as u64,
        ),
        old(core)@.peer_update ==> final(queues)@ == Map::new(
            |k: u128| old(queues)@.contains_key(k) && key_kept(k, final(peers)@),
            |k: u128| old(queues)@[k],
        ),
    {
        let update = core.update_peers();
        match update {
            None => {},
            Some(ids) => {
                *peers = ids;
                let keys = queues.keys();
                let ghost entries0 = queues.spec_entries();
                let ghost q0 = queues@;
                proof {
                    assert forall|a: int, b: int|
                        0 <= a < b < keys@.len() implies keys@[a] != keys@[b] by {
                        assert(keys@[a] == entries0[a].0 && keys@[b] == entries0[b].0);
                    }
                    assert forall|j: int| 0 <= j < keys@.len() implies q0.contains_key(
                        #[trigger] keys@[j],
                    ) by {
                        crate::kvlist::lemma_map_of_contains(entries0, j);
                    }
                }

                let mut i: usize = 0;
                while i < keys.len()
                    invariant
                        queues_wf(queues, opt),
                        i <= keys@.len(),
                        forall|a: int, b: int| 0 <= a < b < keys@.len() ==> keys@[a] != keys@[b],
                        forall|j: int|
                            0 <= j < keys@.len() ==> q0.contains_key(#[trigger] keys@[j]),
                        forall|k: u128|
                            #[trigger] queues@.contains_key(k) ==> q0.contains_key(k)
                                && queues@[k] == q0[k],
                        forall|k: u128|
                            q0.contains_key(k) && !keys@.take(i as int).contains(k)
                                ==> #[trigger] queues@.contains_key(k),
                        forall|j: int|
                            0 <= j < i ==> (#[trigger] queues@.contains_key(keys@[j]) <==>
                                key_kept(keys@[j], peers@)),
                    decreases keys@.len() - i,
                {
                    let k = keys[i];
                    let keep = ids_contain(peers, k);
                    let ghost map_pre = queues@;
                    if !keep {
                        let _ = queues.remove(k);
                    }
                    i = i + 1;
                    proof {
                        assert(keys@.take(i as int)[i - 1] == k);
                        assert(keys@.take(i as int).contains(k));
                        assert forall|k2: u128|
                            q0.contains_key(k2) && !keys@.take(i as int).contains(k2)
                                implies #[trigger] queues@.contains_key(k2) by {
                            assert(!keys@.take(i as int - 1).contains(k2)) by {
                                if keys@.take(i as int - 1).contains(k2) {
                                    let j = choose|j: int|
                                        0 <= j < i - 1 && #[trigger] keys@.take(i as int - 1)[j]
                                            == k2;
                                    assert(keys@.take(i as int)[j] == k2);
                                }
                            }
                            assert(k2 != k);
                            assert(map_pre.contains_key(k2));
                        }
                        assert forall|j: int|
                            0 <= j < i implies (#[trigger] queues@.contains_key(keys@[j]) <==>
                                key_kept(keys@[j], peers@)) by {
                            if j < i - 1 {
                                assert(keys@[j] != k);
                            }
                        }
                    }
                }

                proof {
                    assert(keys@.take(keys@.len() as int) =~= keys@);
                    assert forall|k: u128|
                        q0.contains_key(k) && #[trigger] key_kept(k, peers@)
                            implies queues@.contains_key(k) && queues@[k] == q0[k] by {
                        let j = crate::kvlist::lemma_map_of_key_index(entries0, k);
                        assert(keys@[j] == k);
                    }
                    assert forall|k: u128|
                        #[trigger] queues@.contains_key(k) implies q0.contains_key(k) && key_kept(
                        k,
                        peers@,
                    ) by {
                        let j = crate::kvlist::lemma_map_of_key_index(entries0, k);
                        assert(keys@[j] == k);
                    }
                    assert(queues@ =~= Map::new(
                        |k: u128| q0.contains_key(k) && key_kept(k, peers@),
                        |k: u128| q0[k],
                    ));
                }
            },
        }
    }

/// The receive phase a duplex pattern runs over one batch of incoming
/// datagrams: each datagram moves the core by one `spec_handle` step and
/// its replies go out; a forwarded data frame lands in the receive queue
/// by one `spec_recv_push` step. An overfull receive queue aborts the
/// phase (last component `false`); acknowledgements and absorbed control
/// traffic pass by.
pub open spec fn spec_duplex_recv(
    c: CoreV,
    rq: RecvQueueV,
    incoming: Seq<DatagramV>,
    now: u64,
    hb_ivl: u64,
    recv_hwm: nat,
) -> (CoreV, RecvQueueV, Seq<DatagramV>, bool)
    decreases incoming.len(),
{
    if incoming.len() == 0 {
        (c, rq, Seq::empty(), true)
    } else {
        let h = spec_handle(c, incoming[0].data, incoming[0].addr, now, hb_ivl);
        match h.1 {
            Some(ForwardV::Data(frame, _sid)) => {
                let p = spec_recv_push(rq, frame, now, recv_hwm);
                match p.1 {
                    RecvPushOutcome::Block => (h.0, p.0, Seq::empty(), false),
                    _ => {
                        let rest = spec_duplex_recv(
                            h.0,
                            p.0,
                            incoming.drop_first(),
                            now,
                            hb_ivl,
                            recv_hwm,
                        );
                        (rest.0, rest.1, h.2 + rest.2, rest.3)
                    },
                }
            },
            _ => {
                let rest = spec_duplex_recv(h.0, rq, incoming.drop_first(), now, hb_ivl, recv_hwm);
                (rest.0, rest.1, h.2 + rest.2, rest.3)
            },
        }
    }
}

/// Runs the duplex receive phase, appending the protocol replies to
/// `out`. Returns `false` exactly when the receive queue refused a frame
/// at its high-water mark (the replies gathered so far then stay in
/// `out`, which the aborting tick discards).
#[verifier::rlimit(100)]
#[verifier::spinoff_prover]
pub fn duplex_recv_phase(
    core: &mut Core,
    rq: &mut RecvQueue,
    incoming: &Vec<Datagram>,
    now: u64,
    out: &mut Vec<Datagram>,
) -> (r: bool)
    requires
        old(core).wf(),
        old(rq).wf(),
    ensures
        final(core).wf(),
        final(rq).wf(),
        final(core).opt == old(core).opt,
        final(rq).opt == old(rq).opt,
        ({
            let t = spec_duplex_recv(
                old(core)@,
                old(rq)@,
                spec_datagrams(incoming@),
                now,
                old(core).opt.peer_heartbeat_ivl,
                old(rq).opt.recv_hwm as nat,
            );
            &&& final(core)@ == t.0
            &&& final(rq)@ == t.1
            &&& r == t.3
            &&& r ==> spec_datagrams(final(out)@) == spec_datagrams(old(out)@) + t.2
        }),
{
    let ghost all = spec_datagrams(incoming@);
    let ghost hb = core.opt.peer_heartbeat_ivl;
    let ghost hwm = rq.opt.recv_hwm as nat;
    let ghost full = spec_duplex_recv(old(core)@, old(rq)@, all, now, hb, hwm);
    let ghost out0 = spec_datagrams(out@);
    proof {
        assert(all.skip(0) =~= all);
        assert(spec_datagrams(out@).skip(out0.len() as int) =~= Seq::<DatagramV>::empty());
        assert(spec_datagrams(out@).take(out0.len() as int) =~= out0);
        assert(Seq::<DatagramV>::empty() + full.2 =~= full.2);
        assert(full.2 =~= spec_datagrams(out@).skip(out0.len() as int) + full.2);
    }

    let mut i: usize = 0;
    while i < incoming.len()
        invariant
            core.wf(),
            rq.wf(),
            core.opt == old(core).opt,
            rq.opt == old(rq).opt,
            i <= incoming@.len(),
            all == spec_datagrams(incoming@),
            hb == old(core).opt.peer_heartbeat_ivl,
            hwm == old(rq).opt.recv_hwm as nat,
            out0 == spec_datagrams(old(out)@),
            full == spec_duplex_recv(old(core)@, old(rq)@, all, now, hb, hwm),
            out0.len() <= spec_datagrams(out@).len(),
            spec_datagrams(out@).take(out0.len() as int) == out0,
            ({
                let rest = spec_duplex_recv(core@, rq@, all.skip(i as int), now, hb, hwm);
                &&& full.0 == rest.0
                &&& full.1 == rest.1
                &&& full.2 == spec_datagrams(out@).skip(out0.len() as int) + rest.2
                &&& full.3 == rest.3
            }),
        decreases incoming@.len() - i,
    {
        let ghost pre_core = core@;
        let ghost pre_rq = rq@;
        let ghost pre_out = spec_datagrams(out@);
        proof {
            assert(all.skip(i as int)[0] == all[i as int]);
            assert(all[i as int] == incoming@[i as int]@);
            assert(all.skip(i as int).drop_first() =~= all.skip(i as int + 1));
        }

        let (fwd, mut replies) = core.recv(&incoming[i].data, incoming[i].addr, now);
        proof {
            assert(spec_datagrams(replies@) =~= replies@.map_values(|d: Datagram| d@));
        }
        let ghost replies_v = spec_datagrams(replies@);
        out.append(&mut replies);
        proof {
            assert(spec_datagrams(out@) =~= pre_out + replies_v);
        }

        if let Some(Forward::Data { frame, session_id: _ }) = fwd {
            match rq.push(&frame, now) {
                Ok(_) => {},
                Err(NBMQError::WouldBlock) => {
                    proof {
                        let rest = spec_duplex_recv(pre_core, pre_rq, all.skip(i as int), now, hb, hwm);
                        assert(rest == (core@, rq@, Seq::<DatagramV>::empty(), false));
                    }
                    return false;
                },
                Err(_) => {},
            }
        }
        i = i + 1;
        proof {
            let rest_pre = spec_duplex_recv(pre_core, pre_rq, all.skip(i as int - 1), now, hb, hwm);
            let rest_now = spec_duplex_recv(core@, rq@, all.skip(i as int), now, hb, hwm);
            assert(rest_pre.2 == replies_v + rest_now.2);
            assert(spec_datagrams(out@).take(out0.len() as int) =~= out0);
            assert(spec_datagrams(out@).skip(out0.len() as int) =~= (pre_out.skip(
                out0.len() as int,
            ) + replies_v));
            assert(pre_out.skip(out0.len() as int) + replies_v + rest_now.2 =~= pre_out.skip(
                out0.len() as int,
            ) + (replies_v + rest_now.2));
        }
    }

    proof {
        assert(all.skip(incoming@.len() as int) =~= Seq::<DatagramV>::empty());
        assert(spec_datagrams(out@).skip(out0.len() as int) + Seq::<DatagramV>::empty()
            =~= spec_datagrams(out@).skip(out0.len() as int));
        assert(full.2 =~= spec_datagrams(out@).skip(out0.len() as int));
        assert(spec_datagrams(out@) =~= out0 + full.2);
    }
    true
}

/// The receive phase of a broadcast radio: each datagram moves the core
/// by one `spec_handle` step and its replies go out; forwarded frames are
/// dropped, since a radio does not receive.
pub open spec fn spec_radio_recv(c: CoreV, incoming: Seq<DatagramV>, now: u64, hb_ivl: u64) -> (
    CoreV,
    Seq<DatagramV>,
)
    decreases incoming.len(),
{
    if incoming.len() == 0 {
        (c, Seq::empty())
    } else {
        let h = spec_handle(c, incoming[0].data, incoming[0].addr, now, hb_ivl);
        let rest = spec_radio_recv(h.0, incoming.drop_first(), now, hb_ivl);
        (rest.0, h.2 + rest.1)
    }
}

/// Runs the radio receive phase, appending the protocol replies to `out`.
pub fn radio_recv_phase(core: &mut Core, incoming: &Vec<Datagram>, now: u64, out: &mut Vec<Datagram>)
    requires
        old(core).wf(),
    ensures
        final(core).wf(),
        final(core).opt == old(core).opt,
        ({
            let t = spec_radio_recv(
                old(core)@,
                spec_datagrams(incoming@),
                now,
                old(core).opt.peer_heartbeat_ivl,
            );
            &&& final(core)@ == t.0
            &&& spec_datagrams(final(out)@) == spec_datagrams(old(out)@) + t.1
        }),
{
    let ghost all = spec_datagrams(incoming@);
    let ghost hb = core.opt.peer_heartbeat_ivl;
    let ghost full = spec_radio_recv(old(core)@, all, now, hb);
    let ghost out0 = spec_datagrams(out@);
    proof {
        assert(all.skip(0) =~= all);
        assert(spec_datagrams(out@).skip(out0.len() as int) =~= Seq::<DatagramV>::empty());
        assert(spec_datagrams(out@).take(out0.len() as int) =~= out0);
        assert(full.1 =~= spec_datagrams(out@).skip(out0.len() as int) + full.1);
    }

    let mut i: usize = 0;
    while i < incoming.len()
        invariant
            core.wf(),
            core.opt == old(core).opt,
            i <= incoming@.len(),
            all == spec_datagrams(incoming@),
            hb == old(core).opt.peer_heartbeat_ivl,
            out0 == spec_datagrams(old(out)@),
            full == spec_radio_recv(old(core)@, all, now, hb),
            out0.len() <= spec_datagrams(out@).len(),
            spec_datagrams(out@).take(out0.len() as int) == out0,
            ({
                let rest = spec_radio_recv(core@, all.skip(i as int), now, hb);
                &&& full.0 == rest.0
                &&& full.1 == spec_datagrams(out@).skip(out0.len() as int) + rest.1
            }),
        decreases incoming@.len() - i,
    {
        let ghost pre_out = spec_datagrams(out@);
        proof {
            assert(all.skip(i as int)[0] == all[i as int]);
            assert(all[i as int] == incoming@[i as int]@);
            assert(all.skip(i as int).drop_first() =~= all.skip(i as int + 1));
        }

        let (_fwd, mut replies) = core.recv(&incoming[i].data, incoming[i].addr, now);
        proof {
            assert(spec_datagrams(replies@) =~= replies@.map_values(|d: Datagram| d@));
        }
        let ghost replies_v = spec_datagrams(replies@);
        out.append(&mut replies);
        proof {
            assert(spec_datagrams(out@) =~= pre_out + replies_v);
        }
        i = i + 1;
        proof {
            let rest_now = spec_radio_recv(core@, all.skip(i as int), now, hb);
            assert(spec_datagrams(out@).take(out0.len() as int) =~= out0);
            assert(spec_datagrams(out@).skip(out0.len() as int) =~= (pre_out.skip(
                out0.len() as int,
            ) + replies_v));
            assert(pre_out.skip(out0.len() as int) + replies_v + rest_now.1 =~= pre_out.skip(
                out0.len() as int,
            ) + (replies_v + rest_now.1));
        }
    }

    proof {
        assert(all.skip(incoming@.len() as int) =~= Seq::<DatagramV>::empty());
        assert(spec_datagrams(out@).skip(out0.len() as int) + Seq::<DatagramV>::empty()
            =~= spec_datagrams(out@).skip(out0.len() as int));
        assert(full.1 =~= spec_datagrams(out@).skip(out0.len() as int));
        assert(spec_datagrams(out@) =~= out0 + full.1);
    }
}

/// The receive phase of the retransmitting pattern: each datagram moves
/// the core by one `spec_handle` step and its replies go out. An
/// acknowledgement with an 8-byte payload drops that frame hash from the
/// in-flight table of the acknowledging peer's queue. A forwarded data
/// frame is answered with an acknowledgement of its FNV-1a-64 frame hash,
/// unicast back to its session, and lands in the receive queue by one
/// `spec_recv_push` step; a frame refused at the high-water mark aborts
/// the phase.
pub open spec fn spec_safe_recv(
    c: CoreV,
    queues: Map<u128, SendQueueV>,
    rq: RecvQueueV,
    incoming: Seq<DatagramV>,
    now: u64,
    hb_ivl: u64,
    recv_hwm: nat,
    keepalive: u64,
) -> (CoreV, Map<u128, SendQueueV>, RecvQueueV, Seq<DatagramV>, bool)
    decreases incoming.len(),
{
    if incoming.len() == 0 {
        (c, queues, rq, Seq::empty(), true)
    } else {
        let h = spec_handle(c, incoming[0].data, incoming[0].addr, now, hb_ivl);
        match h.1 {
            Some(ForwardV::Ack(sid, payload)) => {
                let queues2 = if payload.len() == 8 && queues.contains_key(sid as u128) {
                    queues.insert(
                        sid as u128,
                        SendQueueV {
                            sent: queues[sid as u128].sent.remove(
                                spec_u64_from_be(payload) as u128,
                            ),
                            ..queues[sid as u128]
                        },
                    )
                } else {
                    queues
                };
                let rest = spec_safe_recv(
                    h.0,
                    queues2,
                    rq,
                    incoming.drop_first(),
                    now,
                    hb_ivl,
                    recv_hwm,
                    keepalive,
                );
                (rest.0, rest.1, rest.2, h.2 + rest.3, rest.4)
            },
            Some(ForwardV::Data(frame, sid)) => {
                let ack = spec_control_frame_bytes(
                    ControlFrameV::Ack(sid, spec_u64_be(spec_fnv1a64(frame))),
                );
                let key = sid as u128;
                let sp = if !h.0.peers.contains_key(key) {
                    (h.0, Seq::<DatagramV>::empty())
                } else {
                    let p = h.0.peers[key];
                    if now - p.last_seen > keepalive {
                        (
                            CoreV { peers: h.0.peers.remove(key), peer_update: true, ..h.0 },
                            Seq::<DatagramV>::empty(),
                        )
                    } else {
                        (
                            CoreV {
                                peers: h.0.peers.insert(key, Peer { last_sent: now, ..p }),
                                ..h.0
                            },
                            seq![DatagramV { data: ack, addr: p.addr }],
                        )
                    }
                };
                let pr = spec_recv_push(rq, frame, now, recv_hwm);
                match pr.1 {
                    RecvPushOutcome::Block => (sp.0, queues, pr.0, Seq::empty(), false),
                    _ => {
                        let rest = spec_safe_recv(
                            sp.0,
                            queues,
                            pr.0,
                            incoming.drop_first(),
                            now,
                            hb_ivl,
                            recv_hwm,
                            keepalive,
                        );
                        (rest.0, rest.1, rest.2, h.2 + sp.1 + rest.3, rest.4)
                    },
                }
            },
            None => {
                let rest = spec_safe_recv(
                    h.0,
                    queues,
                    rq,
                    incoming.drop_first(),
                    now,
                    hb_ivl,
                    recv_hwm,
                    keepalive,
                );
                (rest.0, rest.1, rest.2, h.2 + rest.3, rest.4)
            },
        }
    }
}

/// Runs the retransmitting receive phase, appending the replies and the
/// acknowledgements to `out`. Returns `false` exactly when the receive
/// queue refused a frame at its high-water mark.
#[verifier::rlimit(100)]
#[verifier::spinoff_prover]
pub fn safe_recv_phase(
    core: &mut Core,
    queues: &mut KvList<SendQueue>,
    rq: &mut RecvQueue,
    incoming: &Vec<Datagram>,
    now: u64,
    opt: crate::opt::SockOpt,
    out: &mut Vec<Datagram>,
) -> (r: bool)
    requires
        old(core).wf(),
        queues_wf(old(queues), opt),
        old(rq).wf(),
    ensures
        final(core).wf(),
        queues_wf(final(queues), opt),
        final(rq).wf(),
        final(core).opt == old(core).opt,
        final(rq).opt == old(rq).opt,
        ({
            let t = spec_safe_recv(
                old(core)@,
                queues_view(old(queues)),
                old(rq)@,
                spec_datagrams(incoming@),
                now,
                old(core).opt.peer_heartbeat_ivl,
                old(rq).opt.recv_hwm as nat,
                old(core).opt.peer_keepalive,
            );
            &&& final(core)@ == t.0
            &&& queues_view(final(queues)) == t.1
            &&& final(rq)@ == t.2
            &&& r == t.4
            &&& r ==> spec_datagrams(final(out)@) == spec_datagrams(old(out)@) + t.3
        }),
{
    let ghost all = spec_datagrams(incoming@);
    let ghost hb = core.opt.peer_heartbeat_ivl;
    let ghost hwm = rq.opt.recv_hwm as nat;
    let ghost ka = core.opt.peer_keepalive;
    let ghost full = spec_safe_recv(old(core)@, queues_view(old(queues)), old(rq)@, all, now, hb, hwm, ka);
    let ghost out0 = spec_datagrams(out@);
    proof {
        assert(all.skip(0) =~= all);
        assert(spec_datagrams(out@).skip(out0.len() as int) =~= Seq::<DatagramV>::empty());
        assert(spec_datagrams(out@).take(out0.len() as int) =~= out0);
        assert(full.3 =~= spec_datagrams(out@).skip(out0.len() as int) + full.3);
    }

    let mut i: usize = 0;
    while i < incoming.len()
        invariant
            core.wf(),
            queues_wf(queues, opt),
            rq.wf(),
            core.opt == old(core).opt,
            rq.opt == old(rq).opt,
            i <= incoming@.len(),
            all == spec_datagrams(incoming@),
            hb == old(core).opt.peer_heartbeat_ivl,
            hwm == old(rq).opt.recv_hwm as nat,
            ka == old(core).opt.peer_keepalive,
            out0 == spec_datagrams(old(out)@),
            full == spec_safe_recv(
                old(core)@,
                queues_view(old(queues)),
                old(rq)@,
                all,
                now,
                hb,
                hwm,
                ka,
            ),
            out0.len() <= spec_datagrams(out@).len(),
            spec_datagrams(out@).take(out0.len() as int) == out0,
            ({
                let rest = spec_safe_recv(
                    core@,
                    queues_view(queues),
                    rq@,
                    all.skip(i as int),
                    now,
                    hb,
                    hwm,
                    ka,
                );
                &&& full.0 == rest.0
                &&& full.1 == rest.1
                &&& full.2 == rest.2
                &&& full.3 == spec_datagrams(out@).skip(out0.len() as int) + rest.3
                &&& full.4 == rest.4
            }),
        decreases incoming@.len() - i,
    {
        let ghost pre_core = core@;
        let ghost pre_queues = queues_view(queues);
        let ghost pre_rq = rq@;
        let ghost pre_out = spec_datagrams(out@);
        proof {
            assert(all.skip(i as int)[0] == all[i as int]);
            assert(all[i as int] == incoming@[i as int]@);
            assert(all.skip(i as int).drop_first() =~= all.skip(i as int + 1));
        }

        let (fwd, mut replies) = core.recv(&incoming[i].data, incoming[i].addr, now);
        proof {
            assert(spec_datagrams(replies@) =~= replies@.map_values(|d: Datagram| d@));
        }
        let ghost replies_v = spec_datagrams(replies@);
        out.append(&mut replies);
        proof {
            assert(spec_datagrams(out@) =~= pre_out + replies_v);
            assert(queues_view(queues) =~= pre_queues);
        }

        match fwd {
            Some(Forward::Ack { session_id, payload }) => {
                if payload.len() == 8 {
                    let hash = read_u64_be(payload.as_slice(), 0);
                    proof {
                        assert(payload@.subrange(0, 8) =~= payload@);
                    }
                    let ghost m0 = queues@;
                    match queues.remove(session_id as u128) {
                        Some(mut queue) => {
                            queue.confirm_safe(hash);
                            let ghost qv_after = queue@;
                            queues.insert(session_id as u128, queue);
                            proof {
                                assert(queues@ == m0.remove(session_id as u128).insert(
                                    session_id as u128,
                                    queues@[session_id as u128],
                                ));
                                assert(queues_view(queues) =~= pre_queues.insert(
                                    session_id as u128,
                                    SendQueueV {
                                        sent: pre_queues[session_id as u128].sent.remove(
                                            hash as u128,
                                        ),
                                        ..pre_queues[session_id as u128]
                                    },
                                ));
                            }
                        },
                        None => {
                            proof {
                                assert(queues@ == m0.remove(session_id as u128));
                                assert(queues_view(queues) =~= pre_queues);
                            }
                        },
                    }
                }
            },
            Some(Forward::Data { frame, session_id }) => {
                let hash = fnv1a64(&frame);
                let ack = ControlFrame::Ack((session_id, u64_be_vec(hash))).encode();
                let ghost pre_ack_out = spec_datagrams(out@);
                match core.send_peer(&ack, session_id, now) {
                    Ok(Some(d)) => {
                        out.push(d);
                        proof {
                            assert(spec_datagrams(out@) =~= pre_ack_out + seq![out@.last()@]);
                        }
                    },
                    Ok(None) => {},
                    Err(_) => {},
                }

                match rq.push(&frame, now) {
                    Ok(_) => {},
                    Err(NBMQError::WouldBlock) => {
                        proof {
                            let rest = spec_safe_recv(
                                pre_core,
                                pre_queues,
                                pre_rq,
                                all.skip(i as int),
                                now,
                                hb,
                                hwm,
                                ka,
                            );
                            assert(rest.0 == core@);
                            assert(rest.1 =~= queues_view(queues));
                            assert(rest.2 == rq@);
                            assert(!rest.4);
                        }
                        return false;
                    },
                    Err(_) => {},
                }
            },
            None => {},
        }
        i = i + 1;
        proof {
            let rest_pre = spec_safe_recv(
                pre_core,
                pre_queues,
                pre_rq,
                all.skip(i as int - 1),
                now,
                hb,
                hwm,
                ka,
            );
            let rest_now = spec_safe_recv(
                core@,
                queues_view(queues),
                rq@,
                all.skip(i as int),
                now,
                hb,
                hwm,
                ka,
            );
            assert(spec_datagrams(out@).take(out0.len() as int) =~= out0);
            assert(rest_pre.3 == spec_datagrams(out@).skip(pre_out.len() as int) + rest_now.3);
            assert(spec_datagrams(out@).skip(out0.len() as int) =~= pre_out.skip(
                out0.len() as int,
            ) + spec_datagrams(out@).skip(pre_out.len() as int));
            assert(pre_out.skip(out0.len() as int) + spec_datagrams(out@).skip(
                pre_out.len() as int,
            ) + rest_now.3 =~= pre_out.skip(out0.len() as int) + (spec_datagrams(out@).skip(
                pre_out.len() as int,
            ) + rest_now.3));
        }
    }

    proof {
        assert(all.skip(incoming@.len() as int) =~= Seq::<DatagramV>::empty());
        assert(spec_datagrams(out@).skip(out0.len() as int) + Seq::<DatagramV>::empty()
            =~= spec_datagrams(out@).skip(out0.len() as int));
        assert(full.3 =~= spec_datagrams(out@).skip(out0.len() as int));
        assert(spec_datagrams(out@) =~= out0 + full.3);
    }
    true
}

/// One budgeted drain of a peer's queue: frames are pulled in FIFO order
/// across message markers and unicast to the peer, up to `budget + 1` of
/// them. The drain stops early when the queue runs dry, when the peer is
/// unknown (the pulled frame is dropped), or when the peer's keepalive
/// lapsed (the peer is evicted and the frame dropped).
pub open spec fn spec_drain(
    c: CoreV,
    q: SendQueueV,
    session_id: u64,
    budget: nat,
    now: u64,
    keepalive: u64,
) -> (CoreV, SendQueueV, Seq<DatagramV>)
    decreases q.items.len(),
{
    if q.items.len() == 0 {
        (c, q, Seq::empty())
    } else {
        let pl = spec_pull(q);
        match pl.1 {
            None => spec_drain(c, pl.0, session_id, budget, now, keepalive),
            Some(f) => {
                let key = session_id as u128;
                if !c.peers.contains_key(key) {
                    (c, pl.0, Seq::empty())
                } else {
                    let p = c.peers[key];
                    if now - p.last_seen > keepalive {
                        (
                            CoreV { peers: c.peers.remove(key), peer_update: true, ..c },
                            pl.0,
                            Seq::empty(),
                        )
                    } else {
                        let c1 = CoreV {
                            peers: c.peers.insert(key, Peer { last_sent: now, ..p }),
                            ..c
                        };
                        let d = DatagramV { data: f, addr: p.addr };
                        if budget == 0 {
                            (c1, pl.0, seq![d])
                        } else {
                            let rest = spec_drain(
                                c1,
                                pl.0,
                                session_id,
                                (budget - 1) as nat,
                                now,
                                keepalive,
                            );
                            (rest.0, rest.1, seq![d] + rest.2)
                        }
                    }
                }
            },
        }
    }
}

/// Runs one `spec_drain` step chain on a peer's queue, appending the
/// unicast datagrams to `out`.
pub fn drain_queue(
    core: &mut Core,
    queue: &mut SendQueue,
    session_id: u64,
    budget: usize,
    now: u64,
    out: &mut Vec<Datagram>,
)
    requires
        old(core).wf(),
        old(queue).wf(),
    ensures
        final(core).wf(),
        final(queue).wf(),
        final(core).opt == old(core).opt,
        final(queue).opt == old(queue).opt,
        ({
            let d = spec_drain(
                old(core)@,
                old(queue)@,
                session_id,
                budget as nat,
                now,
                old(core).opt.peer_keepalive,
            );
            &&& final(core)@ == d.0
            &&& final(queue)@ == d.1
            &&& spec_datagrams(final(out)@) == spec_datagrams(old(out)@) + d.2
        }),
        old(out)@.len() <= final(out)@.len(),
        forall|i: int| 0 <= i < old(out)@.len() ==> final(out)@[i] == old(out)@[i],
{
    let ghost ka = core.opt.peer_keepalive;
    let ghost full = spec_drain(old(core)@, old(queue)@, session_id, budget as nat, now, ka);
    let ghost out0 = spec_datagrams(out@);
    proof {
        assert(spec_datagrams(out@).skip(out0.len() as int) =~= Seq::<DatagramV>::empty());
        assert(spec_datagrams(out@).take(out0.len() as int) =~= out0);
        assert(full.2 =~= spec_datagrams(out@).skip(out0.len() as int) + full.2);
    }

    let mut ct: usize = 0;
    loop
        invariant_except_break
            ({
                let rest = spec_drain(
                    core@,
                    queue@,
                    session_id,
                    (budget - ct) as nat,
                    now,
                    ka,
                );
                &&& full.0 == rest.0
                &&& full.1 == rest.1
                &&& full.2 == spec_datagrams(out@).skip(out0.len() as int) + rest.2
            }),
        invariant
            core.wf(),
            queue.wf(),
            core.opt == old(core).opt,
            queue.opt == old(queue).opt,
            ka == old(core).opt.peer_keepalive,
            full == spec_drain(old(core)@, old(queue)@, session_id, budget as nat, now, ka),
            out0 == spec_datagrams(old(out)@),
            out0.len() <= spec_datagrams(out@).len(),
            spec_datagrams(out@).take(out0.len() as int) == out0,
            old(out)@.len() <= out@.len(),
            forall|i: int| 0 <= i < old(out)@.len() ==> out@[i] == old(out)@[i],
            ct <= budget,
        ensures
            core.wf(),
            queue.wf(),
            core.opt == old(core).opt,
            queue.opt == old(queue).opt,
            full.0 == core@,
            full.1 == queue@,
            full.2 == spec_datagrams(out@).skip(out0.len() as int),
            spec_datagrams(out@).take(out0.len() as int) == out0,
        decreases queue.frames@.len(),
    {
        if queue.frames.len() == 0 {
            proof {
                assert(spec_drain(core@, queue@, session_id, (budget - ct) as nat, now, ka) == (
                    core@,
                    queue@,
                    Seq::<DatagramV>::empty(),
                ));
                assert(spec_datagrams(out@).skip(out0.len() as int) + Seq::<DatagramV>::empty()
                    =~= spec_datagrams(out@).skip(out0.len() as int));
            }
            break ;
        }
        let ghost c_pre = core@;
        let ghost q_pre = queue@;
        let ghost len0 = queue.frames@.len();
        let pulled = queue.pull();
        proof {
            assert(queue.frames@.len() < len0);
        }
        match pulled {
            Some(frame) => {
                let ghost pre_out = spec_datagrams(out@);
                match core.send_peer(&frame, session_id, now) {
                    Ok(Some(d)) => {
                        out.push(d);
                        proof {
                            assert(spec_datagrams(out@) =~= pre_out + seq![out@.last()@]);
                            assert(spec_datagrams(out@).take(out0.len() as int) =~= out0);
                            assert(spec_datagrams(out@).skip(out0.len() as int) =~= pre_out.skip(
                                out0.len() as int,
                            ) + seq![out@.last()@]);
                        }
                    },
                    Ok(None) => {
                        proof {
                            let rest = spec_drain(
                                c_pre,
                                q_pre,
                                session_id,
                                (budget - ct) as nat,
                                now,
                                ka,
                            );
                            assert(rest == (core@, queue@, Seq::<DatagramV>::empty()));
                            assert(spec_datagrams(out@).skip(out0.len() as int)
                                + Seq::<DatagramV>::empty() =~= spec_datagrams(out@).skip(
                                out0.len() as int,
                            ));
                        }
                        break ;
                    },
                    Err(_) => {
                        proof {
                            let rest = spec_drain(
                                c_pre,
                                q_pre,
                                session_id,
                                (budget - ct) as nat,
                                now,
                                ka,
                            );
                            assert(rest == (core@, queue@, Seq::<DatagramV>::empty()));
                            assert(spec_datagrams(out@).skip(out0.len() as int)
                                + Seq::<DatagramV>::empty() =~= spec_datagrams(out@).skip(
                                out0.len() as int,
                            ));
                        }
                        break ;
                    },
                }

                if ct >= budget {
                    proof {
                        let rest = spec_drain(
                            c_pre,
                            q_pre,
                            session_id,
                            (budget - ct) as nat,
                            now,
                            ka,
                        );
                        assert(rest.0 == core@ && rest.1 == queue@);
                        assert(rest.2 =~= seq![out@.last()@]);
                        assert(spec_datagrams(out@).skip(out0.len() as int) =~= pre_out.skip(
                            out0.len() as int,
                        ) + rest.2);
                    }
                    break ;
                }
                proof {
                    let rest = spec_drain(c_pre, q_pre, session_id, (budget - ct) as nat, now, ka);
                    let rest2 = spec_drain(
                        core@,
                        queue@,
                        session_id,
                        (budget - ct - 1) as nat,
                        now,
                        ka,
                    );
                    assert(rest.0 == rest2.0 && rest.1 == rest2.1);
                    assert(rest.2 == seq![out@.last()@] + rest2.2);
                    assert(pre_out.skip(out0.len() as int) + (seq![out@.last()@] + rest2.2)
                        =~= (pre_out.skip(out0.len() as int) + seq![out@.last()@]) + rest2.2);
                }
                ct = ct + 1;
            },
            None => {
                // a marker: one message boundary, carry on
                proof {
                    assert(spec_drain(c_pre, q_pre, session_id, (budget - ct) as nat, now, ka)
                        == spec_drain(core@, queue@, session_id, (budget - ct) as nat, now, ka));
                }
            },
        }
    }
}

/// Like `spec_drain`, but pulling through the retry variant: up to
/// `budget` pulls, frames due for re-emission going out first and every
/// fresh frame recorded in flight until its acknowledgement.
pub open spec fn spec_drain_safe(
    c: CoreV,
    q: SendQueueV,
    session_id: u64,
    budget: nat,
    now: u64,
    keepalive: u64,
    ivl: u64,
    limit: nat,
) -> (CoreV, SendQueueV, Seq<DatagramV>)
    decreases budget, q.items.len(),
        via spec_drain_safe_decreases
{
    if budget == 0 {
        (c, q, Seq::empty())
    } else {
        let pl = spec_pull_safe(q, now, ivl, limit);
        match pl.1 {
            None => {
                if q.items.len() == 0 {
                    (c, pl.0, Seq::empty())
                } else {
                    spec_drain_safe(c, pl.0, session_id, budget, now, keepalive, ivl, limit)
                }
            },
            Some(f) => {
                let key = session_id as u128;
                if !c.peers.contains_key(key) {
                    (c, pl.0, Seq::empty())
                } else {
                    let p = c.peers[key];
                    if now - p.last_seen > keepalive {
                        (
                            CoreV { peers: c.peers.remove(key), peer_update: true, ..c },
                            pl.0,
                            Seq::empty(),
                        )
                    } else {
                        let c1 = CoreV {
                            peers: c.peers.insert(key, Peer { last_sent: now, ..p }),
                            ..c
                        };
                        let d = DatagramV { data: f, addr: p.addr };
                        let rest = spec_drain_safe(
                            c1,
                            pl.0,
                            session_id,
                            (budget - 1) as nat,
                            now,
                            keepalive,
                            ivl,
                            limit,
                        );
                        (rest.0, rest.1, seq![d] + rest.2)
                    }
                }
            },
        }
    }
}

#[via_fn]
proof fn spec_drain_safe_decreases(
    c: CoreV,
    q: SendQueueV,
    session_id: u64,
    budget: nat,
    now: u64,
    keepalive: u64,
    ivl: u64,
    limit: nat,
) {
    if budget > 0 {
        let pl = spec_pull_safe(q, now, ivl, limit);
        if pl.1 is None && q.items.len() > 0 {
            crate::send_queue::lemma_resend_scan_items(q, now, ivl, limit);
            let scanned = crate::send_queue::spec_resend_scan(q, now, ivl, limit);
            assert(scanned.1 is None);
            assert(pl.0 == crate::send_queue::spec_fresh_pull(scanned.0, now).0);
            assert(pl.0.items.len() < q.items.len());
        }
    }
}

/// Runs one `spec_drain_safe` step chain on a peer's queue, appending the
/// unicast datagrams to `out`.
pub fn drain_queue_safe(
    core: &mut Core,
    queue: &mut SendQueue,
    session_id: u64,
    budget: usize,
    now: u64,
    out: &mut Vec<Datagram>,
)
    requires
        old(core).wf(),
        old(queue).wf(),
    ensures
        final(core).wf(),
        final(queue).wf(),
        final(core).opt == old(core).opt,
        final(queue).opt == old(queue).opt,
        ({
            let d = spec_drain_safe(
                old(core)@,
                old(queue)@,
                session_id,
                budget as nat,
                now,
                old(core).opt.peer_keepalive,
                old(queue).opt.safe_resend_ivl,
                old(queue).opt.safe_resend_limit as nat,
            );
            &&& final(core)@ == d.0
            &&& final(queue)@ == d.1
            &&& spec_datagrams(final(out)@) == spec_datagrams(old(out)@) + d.2
        }),
        old(out)@.len() <= final(out)@.len(),
        forall|i: int| 0 <= i < old(out)@.len() ==> final(out)@[i] == old(out)@[i],
{
    let ghost ka = core.opt.peer_keepalive;
    let ghost ivl = queue.opt.safe_resend_ivl;
    let ghost limit = queue.opt.safe_resend_limit as nat;
    let ghost full = spec_drain_safe(
        old(core)@,
        old(queue)@,
        session_id,
        budget as nat,
        now,
        ka,
        ivl,
        limit,
    );
    let ghost out0 = spec_datagrams(out@);
    proof {
        assert(spec_datagrams(out@).skip(out0.len() as int) =~= Seq::<DatagramV>::empty());
        assert(spec_datagrams(out@).take(out0.len() as int) =~= out0);
        assert(full.2 =~= spec_datagrams(out@).skip(out0.len() as int) + full.2);
    }

    let mut ct: usize = 0;
    loop
        invariant_except_break
            ({
                let rest = spec_drain_safe(
                    core@,
                    queue@,
                    session_id,
                    (budget - ct) as nat,
                    now,
                    ka,
                    ivl,
                    limit,
                );
                &&& full.0 == rest.0
                &&& full.1 == rest.1
                &&& full.2 == spec_datagrams(out@).skip(out0.len() as int) + rest.2
            }),
        invariant
            core.wf(),
            queue.wf(),
            core.opt == old(core).opt,
            queue.opt == old(queue).opt,
            ka == old(core).opt.peer_keepalive,
            ivl == old(queue).opt.safe_resend_ivl,
            limit == old(queue).opt.safe_resend_limit as nat,
            full == spec_drain_safe(
                old(core)@,
                old(queue)@,
                session_id,
                budget as nat,
                now,
                ka,
                ivl,
                limit,
            ),
            out0 == spec_datagrams(old(out)@),
            out0.len() <= spec_datagrams(out@).len(),
            spec_datagrams(out@).take(out0.len() as int) == out0,
            old(out)@.len() <= out@.len(),
            forall|i: int| 0 <= i < old(out)@.len() ==> out@[i] == old(out)@[i],
            ct <= budget,
        ensures
            core.wf(),
            queue.wf(),
            core.opt == old(core).opt,
            queue.opt == old(queue).opt,
            full.0 == core@,
            full.1 == queue@,
            full.2 == spec_datagrams(out@).skip(out0.len() as int),
            spec_datagrams(out@).take(out0.len() as int) == out0,
            old(out)@.len() <= out@.len(),
            forall|i: int| 0 <= i < old(out)@.len() ==> out@[i] == old(out)@[i],
        decreases budget - ct, queue.frames@.len(),
    {
        if ct >= budget {
            proof {
                assert(spec_drain_safe(
                    core@,
                    queue@,
                    session_id,
                    (budget - ct) as nat,
                    now,
                    ka,
                    ivl,
                    limit,
                ) == (core@, queue@, Seq::<DatagramV>::empty()));
                assert(spec_datagrams(out@).skip(out0.len() as int) + Seq::<DatagramV>::empty()
                    =~= spec_datagrams(out@).skip(out0.len() as int));
            }
            break ;
        }
        let had_frames = queue.frames.len() > 0;
        let ghost c_pre = core@;
        let ghost q_pre = queue@;
        let ghost len0 = queue.frames@.len();
        let pulled = queue.pull_safe(now);
        match pulled {
            Some(frame) => {
                let ghost pre_out = spec_datagrams(out@);
                match core.send_peer(&frame, session_id, now) {
                    Ok(Some(d)) => {
                        out.push(d);
                        proof {
                            assert(spec_datagrams(out@) =~= pre_out + seq![out@.last()@]);
                            assert(spec_datagrams(out@).take(out0.len() as int) =~= out0);
                            assert(spec_datagrams(out@).skip(out0.len() as int) =~= pre_out.skip(
                                out0.len() as int,
                            ) + seq![out@.last()@]);
                        }
                    },
                    Ok(None) => {
                        proof {
                            let rest = spec_drain_safe(
                                c_pre,
                                q_pre,
                                session_id,
                                (budget - ct) as nat,
                                now,
                                ka,
                                ivl,
                                limit,
                            );
                            assert(rest == (core@, queue@, Seq::<DatagramV>::empty()));
                            assert(spec_datagrams(out@).skip(out0.len() as int)
                                + Seq::<DatagramV>::empty() =~= spec_datagrams(out@).skip(
                                out0.len() as int,
                            ));
                        }
                        break ;
                    },
                    Err(_) => {
                        proof {
                            let rest = spec_drain_safe(
                                c_pre,
                                q_pre,
                                session_id,
                                (budget - ct) as nat,
                                now,
                                ka,
                                ivl,
                                limit,
                            );
                            assert(rest == (core@, queue@, Seq::<DatagramV>::empty()));
                            assert(spec_datagrams(out@).skip(out0.len() as int)
                                + Seq::<DatagramV>::empty() =~= spec_datagrams(out@).skip(
                                out0.len() as int,
                            ));
                        }
                        break ;
                    },
                }

                proof {
                    let rest = spec_drain_safe(
                        c_pre,
                        q_pre,
                        session_id,
                        (budget - ct) as nat,
                        now,
                        ka,
                        ivl,
                        limit,
                    );
                    let rest2 = spec_drain_safe(
                        core@,
                        queue@,
                        session_id,
                        (budget - ct - 1) as nat,
                        now,
                        ka,
                        ivl,
                        limit,
                    );
                    assert(rest.0 == rest2.0 && rest.1 == rest2.1);
                    assert(rest.2 == seq![out@.last()@] + rest2.2);
                    assert(pre_out.skip(out0.len() as int) + (seq![out@.last()@] + rest2.2)
                        =~= (pre_out.skip(out0.len() as int) + seq![out@.last()@]) + rest2.2);
                }
                ct = ct + 1;
            },
            None => {
                if !had_frames {
                    proof {
                        assert(spec_drain_safe(
                            c_pre,
                            q_pre,
                            session_id,
                            (budget - ct) as nat,
                            now,
                            ka,
                            ivl,
                            limit,
                        ) == (core@, queue@, Seq::<DatagramV>::empty()));
                        assert(spec_datagrams(out@).skip(out0.len() as int)
                            + Seq::<DatagramV>::empty() =~= spec_datagrams(out@).skip(
                            out0.len() as int,
                        ));
                    }
                    break ;
                }
                proof {
                    crate::send_queue::lemma_resend_scan_items(q_pre, now, ivl, limit);
                    let scanned = crate::send_queue::spec_resend_scan(q_pre, now, ivl, limit);
                    assert(scanned.1 is None);
                    assert(queue@ == crate::send_queue::spec_fresh_pull(scanned.0, now).0);
                    assert(queue.frames@.len() < len0);
                    assert(spec_drain_safe(
                        c_pre,
                        q_pre,
                        session_id,
                        (budget - ct) as nat,
                        now,
                        ka,
                        ivl,
                        limit,
                    ) == spec_drain_safe(
                        core@,
                        queue@,
                        session_id,
                        (budget - ct) as nat,
                        now,
                        ka,
                        ivl,
                        limit,
                    ));
                }
            },
        }
    }
}

/// Whether `qents` lists exactly the bindings of the queue table, each
/// once, in some order.
pub open spec fn enumerates_queues(qents: Seq<(u128, SendQueue)>, m: Map<u128, SendQueue>) -> bool {
    &&& crate::kvlist::keys_distinct(qents)
    &&& qents.len() == m.dom().len()
    &&& forall|i: int|
        0 <= i < qents.len() ==> m.contains_key((#[trigger] qents[i]).0) && m[qents[i].0]
            == qents[i].1
}

/// Whether `qents` lists exactly the bindings of a queue-image map, each
/// once, in some order.
pub open spec fn enumerates_queue_views(
    qents: Seq<(u128, SendQueue)>,
    m: Map<u128, crate::send_queue::SendQueueV>,
) -> bool {
    &&& crate::kvlist::keys_distinct(qents)
    &&& qents.len() == m.dom().len()
    &&& forall|i: int|
        0 <= i < qents.len() ==> m.contains_key((#[trigger] qents[i]).0) && (qents[i].1)@
            == m[qents[i].0]
}

/// Whether `pents` lists exactly the bindings of a peer table, each once,
/// in some order.
pub open spec fn enumerates_peers(pents: Seq<(u128, Peer)>, m: Map<u128, Peer>) -> bool {
    &&& crate::kvlist::keys_distinct(pents)
    &&& pents.len() == m.dom().len()
    &&& forall|i: int|
        0 <= i < pents.len() ==> m.contains_key((#[trigger] pents[i]).0) && m[pents[i].0]
            == pents[i].1
}

/// The send, maintenance, and re-absorb phases a tick runs after its
/// receive phase, over one enumeration of the queue table and one of the
/// maint-time peer table: every queue drained once under its budget, the
/// lapsed peers evicted, heartbeats and the reconnect emitted, and the
/// peer-set epoch consumed.
pub open spec fn spec_send_phase(
    c: CoreV,
    qents: Seq<(u128, SendQueue)>,
    pents: Seq<(u128, Peer)>,
    safe: bool,
    budgets: Seq<(u64, usize)>,
    now: u64,
    opt: crate::opt::SockOpt,
) -> (CoreV, Map<u128, crate::send_queue::SendQueueV>, Seq<DatagramV>) {
    let fallback: usize = if qents.len() > 0 {
        opt.max_tick_send / (qents.len() as usize)
    } else {
        0
    };
    let d = spec_drain_all(
        c,
        qents,
        safe,
        budgets,
        fallback,
        now,
        opt.peer_keepalive,
        opt.safe_resend_ivl,
        opt.safe_resend_limit as nat,
    );
    let m = crate::transport::spec_maint_core(d.0, now, opt.peer_keepalive, opt.reconnect_wait);
    let outs = d.2 + crate::transport::spec_maint_outs(pents, now, opt.peer_heartbeat_ivl)
        + crate::transport::spec_reconnect_out(d.0, now, opt.peer_keepalive, opt.reconnect_wait);
    (CoreV { peer_update: false, ..m }, d.1, outs)
}

/// The queue table a final peer-set absorption leaves: when the epoch is
/// dirty, queues of vanished peers are dropped; a table key survives
/// exactly when the peer table still holds it.
pub open spec fn spec_absorbed_queues(
    q: Map<u128, crate::send_queue::SendQueueV>,
    m: CoreV,
) -> Map<u128, crate::send_queue::SendQueueV> {
    if m.peer_update {
        Map::new(
            |k: u128| q.contains_key(k) && k < 0x10000000000000000 && m.peers.contains_key(k),
            |k: u128| q[k],
        )
    } else {
        q
    }
}

/// The even per-queue share of the tick's send budget.
pub open spec fn spec_fallback(qents: Seq<(u128, SendQueue)>, opt: crate::opt::SockOpt) -> usize {
    if qents.len() > 0 {
        opt.max_tick_send / (qents.len() as usize)
    } else {
        0
    }
}

/// A named pairing of fold witnesses, for quantifier instantiation.
pub open spec fn phase_witness(qents: Seq<(u128, SendQueue)>, pents: Seq<(u128, Peer)>) -> bool {
    true
}

/// What a tick's send, maintenance, and re-absorb phases do, for some
/// enumeration `qents` of the queue table `qv` and some enumeration
/// `pents` of the post-drain peer table: the core moves to `c_fin`, the
/// queue table to `q_fin`, and `emitted` goes out — the per-queue
/// `spec_drain`(-`safe`) chains, then the heartbeats and the reconnect of
/// one maintenance pass.
pub open spec fn spec_send_phase_rel(
    c0: CoreV,
    qv: Map<u128, crate::send_queue::SendQueueV>,
    safe: bool,
    budgets: Seq<(u64, usize)>,
    now: u64,
    opt: crate::opt::SockOpt,
    c_fin: CoreV,
    q_fin: Map<u128, crate::send_queue::SendQueueV>,
    emitted: Seq<DatagramV>,
) -> bool {
    exists|qents: Seq<(u128, SendQueue)>, pents: Seq<(u128, Peer)>|
        #![trigger phase_witness(qents, pents)]
        {
            let d = spec_drain_all(
                c0,
                qents,
                safe,
                budgets,
                spec_fallback(qents, opt),
                now,
                opt.peer_keepalive,
                opt.safe_resend_ivl,
                opt.safe_resend_limit as nat,
            );
            let m = crate::transport::spec_maint_core(
                d.0,
                now,
                opt.peer_keepalive,
                opt.reconnect_wait,
            );
            &&& enumerates_queue_views(qents, qv)
            &&& enumerates_peers(pents, d.0.peers)
            &&& c_fin == (CoreV { peer_update: false, ..m })
            &&& q_fin == spec_absorbed_queues(d.1, m)
            &&& emitted == d.2 + crate::transport::spec_maint_outs(
                pents,
                now,
                opt.peer_heartbeat_ivl,
            ) + crate::transport::spec_reconnect_out(
                d.0,
                now,
                opt.peer_keepalive,
                opt.reconnect_wait,
            )
        }
}

/// Runs a tick's send, maintenance, and re-absorb phases: every queue
/// drained once under its budget, lapsed peers evicted, heartbeats and
/// the reconnect appended, the peer-set epoch consumed.
#[verifier::rlimit(100)]
#[verifier::spinoff_prover]
pub fn send_phase(
    core: &mut Core,
    peers: &mut Vec<u64>,
    queues: &mut KvList<SendQueue>,
    safe: bool,
    budgets: &Vec<(u64, usize)>,
    now: u64,
    opt: crate::opt::SockOpt,
    out: &mut Vec<Datagram>,
)
    requires
        old(core).wf(),
        queues_wf(old(queues), opt),
        old(core).opt == opt,
    ensures
        final(core).wf(),
        queues_wf(final(queues), opt),
        final(core).opt == old(core).opt,
        !final(core)@.peer_update,
        spec_send_phase_rel(
            old(core)@,
            queues_view(old(queues)),
            safe,
            budgets@,
            now,
            opt,
            final(core)@,
            queues_view(final(queues)),
            spec_datagrams(final(out)@).skip(spec_datagrams(old(out)@).len() as int),
        ),
        old(out)@.len() <= final(out)@.len(),
        forall|i: int| 0 <= i < old(out)@.len() ==> final(out)@[i] == old(out)@[i],
{
    let ghost qents_w = queues.spec_entries();
    let ghost qv0 = queues_view(queues);
    let ghost out0 = spec_datagrams(out@);
    proof {
        crate::kvlist::lemma_map_of_dom_len(qents_w);
        assert(qv0.dom() =~= queues@.dom());
        assert forall|i: int|
            0 <= i < qents_w.len() implies qv0.contains_key((#[trigger] qents_w[i]).0)
            && (qents_w[i].1)@ == qv0[qents_w[i].0] by {
            crate::kvlist::lemma_map_of_contains(qents_w, i);
        }
        assert(enumerates_queue_views(qents_w, qv0));
    }

    let n_queues = queues.len();
    let fallback: usize = if n_queues > 0 {
        opt.max_tick_send / n_queues
    } else {
        0
    };
    proof {
        assert(fallback == spec_fallback(qents_w, opt));
    }

    drain_all(core, queues, safe, budgets, fallback, now, opt, out);
    let ghost d = spec_drain_all(
        old(core)@,
        qents_w,
        safe,
        budgets@,
        fallback,
        now,
        opt.peer_keepalive,
        opt.safe_resend_ivl,
        opt.safe_resend_limit as nat,
    );
    let ghost out_after_drain = spec_datagrams(out@);

    let ghost pents_w = core.peers.spec_entries();
    proof {
        crate::kvlist::lemma_map_of_dom_len(pents_w);
        assert forall|i: int|
            0 <= i < pents_w.len() implies d.0.peers.contains_key((#[trigger] pents_w[i]).0)
            && d.0.peers[pents_w[i].0] == pents_w[i].1 by {
            crate::kvlist::lemma_map_of_contains(pents_w, i);
        }
        assert(enumerates_peers(pents_w, d.0.peers));
    }

    let ghost m = crate::transport::spec_maint_core(d.0, now, opt.peer_keepalive, opt.reconnect_wait);
    let mut maint_out = core.maint(now);
    proof {
        assert(core@ == m);
        assert(spec_datagrams(maint_out@) =~= maint_out@.map_values(|dd: Datagram| dd@));
        assert(spec_datagrams(maint_out@) =~= crate::transport::spec_maint_outs(
            pents_w,
            now,
            opt.peer_heartbeat_ivl,
        ) + crate::transport::spec_reconnect_out(d.0, now, opt.peer_keepalive, opt.reconnect_wait));
    }
    let ghost mo_v = spec_datagrams(maint_out@);
    out.append(&mut maint_out);
    proof {
        assert(spec_datagrams(out@) =~= out_after_drain + mo_v);
    }

    let ghost q_before_absorb = queues_view(queues);
    let ghost ids_pre = core.peers.spec_entries();
    absorb_peer_update(core, peers, queues, opt);
    proof {
        assert(core@ == (CoreV { peer_update: false, ..m }));
        // the surviving queue keys are exactly those the peer table holds
        if m.peer_update {
            assert forall|k: u128|
                #[trigger] key_kept(k, peers@) implies (k < 0x10000000000000000
                && m.peers.contains_key(k)) by {
                let i = choose|i: int| 0 <= i < peers@.len() && (#[trigger] peers@[i]) as u128 == k;
                assert(peers@[i] == ids_pre[i].0 as u64);
                assert(ids_pre[i].0 < 0x10000000000000000);
                assert((ids_pre[i].0 as u64) as u128 == ids_pre[i].0);
                crate::kvlist::lemma_map_of_contains(ids_pre, i);
            }
            assert forall|k: u128|
                (k < 0x10000000000000000 && m.peers.contains_key(k)) implies #[trigger] key_kept(
                k,
                peers@,
            ) by {
                let i = crate::kvlist::lemma_map_of_key_index(ids_pre, k);
                assert(peers@[i] == ids_pre[i].0 as u64);
                assert((ids_pre[i].0 as u64) as u128 == k);
            }
            assert(queues_view(queues) =~= spec_absorbed_queues(d.1, m)) by {
                assert forall|k: u128|
                    #[trigger] queues_view(queues).contains_key(k)
                        implies spec_absorbed_queues(d.1, m).contains_key(k) && queues_view(
                        queues,
                    )[k] == spec_absorbed_queues(d.1, m)[k] by {
                    assert(queues@.contains_key(k));
                    assert(q_before_absorb.contains_key(k) && q_before_absorb[k] == queues_view(
                        queues,
                    )[k]);
                }
                assert forall|k: u128|
                    #[trigger] spec_absorbed_queues(d.1, m).contains_key(k)
                        implies queues_view(queues).contains_key(k) by {}
            }
        } else {
            assert(queues_view(queues) =~= q_before_absorb);
            assert(queues_view(queues) =~= spec_absorbed_queues(d.1, m));
        }
        // the whole phase, witnessed by the captured enumerations
        assert(spec_datagrams(out@).take(out0.len() as int) =~= out0);
        assert(spec_datagrams(out@).skip(out0.len() as int) =~= (out_after_drain.skip(
            out0.len() as int,
        ) + mo_v));
        assert(spec_datagrams(out@).skip(out0.len() as int) =~= d.2
            + crate::transport::spec_maint_outs(pents_w, now, opt.peer_heartbeat_ivl)
            + crate::transport::spec_reconnect_out(
            d.0,
            now,
            opt.peer_keepalive,
            opt.reconnect_wait,
        ));
        assert(enumerates_queue_views(qents_w, qv0));
        assert(enumerates_peers(pents_w, d.0.peers));
        assert(phase_witness(qents_w, pents_w));
    }
}

/// A caller-shaped budget list: the entry paired with `sid`, or the even
/// share when none is.
pub open spec fn spec_budget_for(budgets: Seq<(u64, usize)>, sid: u64, fallback: usize) -> usize
    decreases budgets.len(),
{
    if budgets.len() == 0 {
        fallback
    } else if budgets[0].0 == sid {
        budgets[0].1
    } else {
        spec_budget_for(budgets.drop_first(), sid, fallback)
    }
}

/// Every queue of the table drained once, in `qents` order, each under
/// its budget: the per-queue `spec_drain`(-`safe`) chains composed, the
/// unicast datagrams concatenated, the table rebound to the drained
/// queues. When `safe`, the retry variant pulls; `budgets` then shapes
/// each peer's share, the even `fallback` covering the rest.
pub open spec fn spec_drain_all(
    c: CoreV,
    qents: Seq<(u128, SendQueue)>,
    safe: bool,
    budgets: Seq<(u64, usize)>,
    fallback: usize,
    now: u64,
    keepalive: u64,
    ivl: u64,
    limit: nat,
) -> (CoreV, Map<u128, SendQueueV>, Seq<DatagramV>)
    decreases qents.len(),
{
    if qents.len() == 0 {
        (c, Map::empty(), Seq::empty())
    } else {
        let e = qents[0];
        if e.0 < 0x10000000000000000 {
            let sid = e.0 as u64;
            let b = spec_budget_for(budgets, sid, fallback) as nat;
            let d = if safe {
                spec_drain_safe(c, e.1@, sid, b, now, keepalive, ivl, limit)
            } else {
                spec_drain(c, e.1@, sid, b, now, keepalive)
            };
            let rest = spec_drain_all(
                d.0,
                qents.drop_first(),
                safe,
                budgets,
                fallback,
                now,
                keepalive,
                ivl,
                limit,
            );
            (rest.0, rest.1.insert(e.0, d.1), d.2 + rest.2)
        } else {
            let rest = spec_drain_all(
                c,
                qents.drop_first(),
                safe,
                budgets,
                fallback,
                now,
                keepalive,
                ivl,
                limit,
            );
            (rest.0, rest.1.insert(e.0, e.1@), rest.2)
        }
    }
}

/// The keys a queue-entry list holds.
pub open spec fn seq_keys_set(qents: Seq<(u128, SendQueue)>) -> Set<u128>
    decreases qents.len(),
{
    if qents.len() == 0 {
        Set::empty()
    } else {
        seq_keys_set(qents.drop_first()).insert(qents[0].0)
    }
}

pub proof fn lemma_seq_keys_contains(qents: Seq<(u128, SendQueue)>, i: int)
    requires
        0 <= i < qents.len(),
    ensures
        seq_keys_set(qents).contains(qents[i].0),
    decreases qents.len(),
{
    if i > 0 {
        lemma_seq_keys_contains(qents.drop_first(), i - 1);
        assert(qents.drop_first()[i - 1] == qents[i]);
    }
}

pub proof fn lemma_seq_keys_member(qents: Seq<(u128, SendQueue)>, k: u128) -> (i: int)
    requires
        seq_keys_set(qents).contains(k),
    ensures
        0 <= i < qents.len(),
        qents[i].0 == k,
    decreases qents.len(),
{
    if qents[0].0 == k {
        0
    } else {
        let i = lemma_seq_keys_member(qents.drop_first(), k);
        assert(qents.drop_first()[i] == qents[i + 1]);
        i + 1
    }
}

/// The drained table binds exactly the listed keys.
pub proof fn lemma_drain_all_dom(
    c: CoreV,
    qents: Seq<(u128, SendQueue)>,
    safe: bool,
    budgets: Seq<(u64, usize)>,
    fallback: usize,
    now: u64,
    keepalive: u64,
    ivl: u64,
    limit: nat,
)
    ensures
        spec_drain_all(c, qents, safe, budgets, fallback, now, keepalive, ivl, limit).1.dom()
            =~= seq_keys_set(qents),
    decreases qents.len(),
{
    if qents.len() > 0 {
        let e = qents[0];
        if e.0 < 0x10000000000000000 {
            let sid = e.0 as u64;
            let b = spec_budget_for(budgets, sid, fallback) as nat;
            let d = if safe {
                spec_drain_safe(c, e.1@, sid, b, now, keepalive, ivl, limit)
            } else {
                spec_drain(c, e.1@, sid, b, now, keepalive)
            };
            lemma_drain_all_dom(
                d.0,
                qents.drop_first(),
                safe,
                budgets,
                fallback,
                now,
                keepalive,
                ivl,
                limit,
            );
        } else {
            lemma_drain_all_dom(
                c,
                qents.drop_first(),
                safe,
                budgets,
                fallback,
                now,
                keepalive,
                ivl,
                limit,
            );
        }
    }
}

/// Drains every queue of the table once/// Drains every queue of the table once, in its current entry order,
/// appending the unicast datagrams to `out`: exactly the `spec_drain_all`
/// composition over the table's entries.
#[verifier::rlimit(100)]
#[verifier::spinoff_prover]
pub fn drain_all(
    core: &mut Core,
    queues: &mut KvList<SendQueue>,
    safe: bool,
    budgets: &Vec<(u64, usize)>,
    fallback: usize,
    now: u64,
    opt: crate::opt::SockOpt,
    out: &mut Vec<Datagram>,
)
    requires
        old(core).wf(),
        queues_wf(old(queues), opt),
    ensures
        final(core).wf(),
        queues_wf(final(queues), opt),
        final(core).opt == old(core).opt,
        ({
            let d = spec_drain_all(
                old(core)@,
                old(queues).spec_entries(),
                safe,
                budgets@,
                fallback,
                now,
                old(core).opt.peer_keepalive,
                opt.safe_resend_ivl,
                opt.safe_resend_limit as nat,
            );
            &&& final(core)@ == d.0
            &&& queues_view(final(queues)) == d.1
            &&& spec_datagrams(final(out)@) == spec_datagrams(old(out)@) + d.2
            &&& enumerates_queues(old(queues).spec_entries(), old(queues)@)
        }),
        old(out)@.len() <= final(out)@.len(),
        forall|i: int| 0 <= i < old(out)@.len() ==> final(out)@[i] == old(out)@[i],
{
    let ghost qents = queues.spec_entries();
    let ghost ka = core.opt.peer_keepalive;
    let ghost ivl = opt.safe_resend_ivl;
    let ghost limit = opt.safe_resend_limit as nat;
    let ghost full = spec_drain_all(old(core)@, qents, safe, budgets@, fallback, now, ka, ivl, limit);
    let ghost out0 = spec_datagrams(out@);
    proof {
        crate::kvlist::lemma_map_of_dom_len(qents);
        assert forall|i: int| 0 <= i < qents.len() implies queues@.contains_key(
            (#[trigger] qents[i]).0,
        ) && queues@[qents[i].0] == qents[i].1 by {
            crate::kvlist::lemma_map_of_contains(qents, i);
        }
        assert(enumerates_queues(qents, queues@));
        assert forall|k: u128| #[trigger] queues@.contains_key(k) implies seq_keys_set(
            qents,
        ).contains(k) by {
            let i = crate::kvlist::lemma_map_of_key_index(qents, k);
            lemma_seq_keys_contains(qents, i);
        }
        assert(spec_datagrams(out@).skip(out0.len() as int) =~= Seq::<DatagramV>::empty());
        assert(spec_datagrams(out@).take(out0.len() as int) =~= out0);
        assert(full.2 =~= spec_datagrams(out@).skip(out0.len() as int) + full.2);
        assert(qents.skip(0) =~= qents);
    }

    let keys = queues.keys();
    let mut j: usize = 0;
    while j < keys.len()
        invariant
            core.wf(),
            queues_wf(queues, opt),
            core.opt == old(core).opt,
            ka == old(core).opt.peer_keepalive,
            ivl == opt.safe_resend_ivl,
            limit == opt.safe_resend_limit as nat,
            qents == old(queues).spec_entries(),
            keys@ == qents.map_values(|e: (u128, SendQueue)| e.0),
            crate::kvlist::keys_distinct(qents),
            full == spec_drain_all(old(core)@, qents, safe, budgets@, fallback, now, ka, ivl, limit),
            out0 == spec_datagrams(old(out)@),
            j <= qents.len(),
            out0.len() <= spec_datagrams(out@).len(),
            spec_datagrams(out@).take(out0.len() as int) == out0,
            old(out)@.len() <= out@.len(),
            forall|i: int| 0 <= i < old(out)@.len() ==> out@[i] == old(out)@[i],
            // untouched queues still hold their captured values
            forall|j2: int|
                j <= j2 < qents.len() ==> queues@.contains_key((#[trigger] qents[j2]).0)
                    && queues@[qents[j2].0] == qents[j2].1,
            // processed queues hold their drained values
            forall|j2: int|
                0 <= j2 < j ==> queues@.contains_key((#[trigger] qents[j2]).0)
                    && full.1[qents[j2].0] == queues@[qents[j2].0]@,
            // the table never gains keys
            forall|k: u128| #[trigger] queues@.contains_key(k) ==> seq_keys_set(qents).contains(k),
            // the remaining processing matches the suffix of the fold
            ({
                let rest = spec_drain_all(
                    core@,
                    qents.skip(j as int),
                    safe,
                    budgets@,
                    fallback,
                    now,
                    ka,
                    ivl,
                    limit,
                );
                &&& full.0 == rest.0
                &&& full.2 == spec_datagrams(out@).skip(out0.len() as int) + rest.2
                &&& forall|j2: int|
                    j <= j2 < qents.len() ==> full.1[(#[trigger] qents[j2]).0]
                        == rest.1[qents[j2].0]
            }),
        decreases qents.len() - j,
    {
        let k = keys[j];
        let ghost c_pre = core@;
        let ghost out_pre = spec_datagrams(out@);
        proof {
            assert(qents.skip(j as int)[0] == qents[j as int]);
            assert(qents.skip(j as int).drop_first() =~= qents.skip(j as int + 1));
        }

        if k < 0x10000000000000000u128 {
            let sid = (k & 0xffff_ffff_ffff_ffff) as u64;
            proof {
                assert(k < 0x10000000000000000 ==> ((k & 0xffff_ffff_ffff_ffff) == k && (((k
                    & 0xffff_ffff_ffff_ffff) as u64) as u128) == k)) by (bit_vector);
            }
            let budget = budget_for(budgets, sid, fallback);
            match queues.remove(k) {
                Some(mut queue) => {
                    proof {
                        assert(queue == qents[j as int].1);
                    }
                    if safe {
                        drain_queue_safe(core, &mut queue, sid, budget, now, out);
                    } else {
                        drain_queue(core, &mut queue, sid, budget, now, out);
                    }
                    let ghost qv_after = queue@;
                    let ghost m_pre = queues@;
                    queues.insert(k, queue);
                    proof {
                        assert(queues@ == m_pre.insert(k, queues@[k]));
                        assert(queues@[k]@ == qv_after);
                    }
                },
                None => {
                    proof {
                        assert(false);
                    }
                },
            }
        }
        j = j + 1;
        proof {
            lemma_seq_keys_contains(qents, j - 1);
            let rest_pre = spec_drain_all(
                c_pre,
                qents.skip(j as int - 1),
                safe,
                budgets@,
                fallback,
                now,
                ka,
                ivl,
                limit,
            );
            let rest_now = spec_drain_all(
                core@,
                qents.skip(j as int),
                safe,
                budgets@,
                fallback,
                now,
                ka,
                ivl,
                limit,
            );
            assert(spec_datagrams(out@).take(out0.len() as int) =~= out0);
            assert(rest_pre.2 == spec_datagrams(out@).skip(out_pre.len() as int) + rest_now.2);
            assert(spec_datagrams(out@).skip(out0.len() as int) =~= out_pre.skip(
                out0.len() as int,
            ) + spec_datagrams(out@).skip(out_pre.len() as int));
            assert(out_pre.skip(out0.len() as int) + spec_datagrams(out@).skip(
                out_pre.len() as int,
            ) + rest_now.2 =~= out_pre.skip(out0.len() as int) + (spec_datagrams(out@).skip(
                out_pre.len() as int,
            ) + rest_now.2));
            assert forall|j2: int|
                0 <= j2 < j implies queues@.contains_key((#[trigger] qents[j2]).0)
                && full.1[qents[j2].0] == queues@[qents[j2].0]@ by {
                if j2 < j - 1 {
                    assert(qents[j2].0 != qents[j - 1].0);
                }
            }
        }
    }

    proof {
        assert(qents.skip(qents.len() as int) =~= Seq::<(u128, SendQueue)>::empty());
        assert(spec_datagrams(out@).skip(out0.len() as int) + Seq::<DatagramV>::empty()
            =~= spec_datagrams(out@).skip(out0.len() as int));
        assert(full.2 =~= spec_datagrams(out@).skip(out0.len() as int));
        assert(spec_datagrams(out@) =~= out0 + full.2);
        lemma_drain_all_dom(old(core)@, qents, safe, budgets@, fallback, now, ka, ivl, limit);
        assert(queues_view(queues) =~= full.1) by {
            assert forall|k: u128|
                #[trigger] full.1.contains_key(k) implies queues_view(queues).contains_key(k)
                && queues_view(queues)[k] == full.1[k] by {
                assert(seq_keys_set(qents).contains(k));
                let i = lemma_seq_keys_member(qents, k);
            }
            assert forall|k: u128|
                #[trigger] queues_view(queues).contains_key(k) implies full.1.contains_key(k) by {
                assert(seq_keys_set(qents).contains(k));
            }
        }
    }
}

/// The budget paired with a session id, or the fallback when the caller
/// shaped none for it.
pub fn budget_for(budgets: &Vec<(u64, usize)>, sid: u64, fallback: usize) -> (r: usize)
    ensures
        r == spec_budget_for(budgets@, sid, fallback),
{
    proof {
        assert(budgets@.skip(0) =~= budgets@);
    }
    let mut i: usize = 0;
    while i < budgets.len()
        invariant
            i <= budgets@.len(),
            spec_budget_for(budgets@, sid, fallback) == spec_budget_for(
                budgets@.skip(i as int),
                sid,
                fallback,
            ),
        decreases budgets@.len() - i,
    {
        proof {
            assert(budgets@.skip(i as int)[0] == budgets@[i as int]);
            assert(budgets@.skip(i as int).drop_first() =~= budgets@.skip(i as int + 1));
        }
        if budgets[i].0 == sid {
            return budgets[i].1;
        }
        i = i + 1;
    }
    proof {
        assert(budgets@.skip(budgets@.len() as int) =~= Seq::<(u64, usize)>::empty());
    }
    fallback
}

} // verus!
