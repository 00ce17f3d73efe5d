//! The send queue: multipart messages expand into bounded data-frame
//! chunks bracketed by a queue marker, drained in strict FIFO order. The
//! retry variant keeps every emitted frame in an in-flight table until it
//! is acknowledged, re-emitting it each resend interval up to a capped
//! attempt count.
use vstd::prelude::*;

use crate::errors::NBMQError;
use crate::frame::{spec_data_frame_bytes, DataFrame, MAX_DATA_SIZE};
use crate::hash::{fnv1a64, message_id, spec_fnv1a64, spec_message_id};
use crate::kvlist::KvList;
use crate::opt::SockOpt;

verus! {

pub enum QueueItem {
    Frame(Vec<u8>),
    Marker,
}

/// The ghost image of a queue item.
pub enum QueueItemV {
    Frame(Seq<u8>),
    Marker,
}

impl View for QueueItem {
    type V = QueueItemV;

    open spec fn view(&self) -> QueueItemV {
        match self {
            QueueItem::Frame(f) => QueueItemV::Frame(f@),
            QueueItem::Marker => QueueItemV::Marker,
        }
    }
}

/// A frame sequence as queue items.
pub open spec fn frames_as_items(frames: Seq<Seq<u8>>) -> Seq<QueueItemV> {
    frames.map_values(|f: Seq<u8>| QueueItemV::Frame(f))
}

/// How many markers a queue holds: one per queued message.
pub open spec fn spec_marker_count(items: Seq<QueueItemV>) -> nat
    decreases items.len(),
{
    if items.len() == 0 {
        0
    } else {
        spec_marker_count(items.drop_last()) + (if items.last() is Marker {
            1nat
        } else {
            0nat
        })
    }
}

pub proof fn lemma_marker_count_drop_first(items: Seq<QueueItemV>)
    requires
        items.len() > 0,
    ensures
        spec_marker_count(items) == spec_marker_count(items.drop_first()) + (if items[0] is Marker {
            1nat
        } else {
            0nat
        }),
    decreases items.len(),
{
    if items.len() == 1 {
        assert(items.drop_first() =~= Seq::empty());
        assert(items.drop_last() =~= Seq::empty());
    } else {
        lemma_marker_count_drop_first(items.drop_last());
        assert(items.drop_last().drop_first() =~= items.drop_first().drop_last());
        assert(items.drop_first().last() == items.last());
        assert(items.drop_last()[0] == items[0]);
    }
}

pub proof fn lemma_marker_count_append(a: Seq<QueueItemV>, b: Seq<QueueItemV>)
    ensures
        spec_marker_count(a + b) == spec_marker_count(a) + spec_marker_count(b),
    decreases b.len(),
{
    if b.len() == 0 {
        assert(a + b =~= a);
    } else {
        lemma_marker_count_append(a, b.drop_last());
        assert((a + b).drop_last() =~= a + b.drop_last());
        assert((a + b).last() == b.last());
    }
}

/// All frames emitted for one part, starting at byte `off`: each frame
/// carries at most `MAX_DATA_SIZE` bytes of the part at its offset, in
/// ascending offset order.
pub open spec fn spec_part_frames_from(
    session_id: u64,
    mid: u64,
    part_count: u8,
    part_index: u8,
    message_size: u32,
    part: Seq<u8>,
    off: nat,
) -> Seq<Seq<u8>>
    decreases part.len() - off,
{
    if off >= part.len() {
        Seq::empty()
    } else {
        let hi = if off + (MAX_DATA_SIZE as nat) <= part.len() {
            off + (MAX_DATA_SIZE as nat)
        } else {
            part.len()
        };
        seq![
            spec_data_frame_bytes(
                0,
                session_id,
                mid,
                part_count,
                part_index,
                message_size,
                part.len() as u32,
                (hi - off) as u16,
                off as u32,
                part.subrange(off as int, hi as int),
            ),
        ] + spec_part_frames_from(session_id, mid, part_count, part_index, message_size, part, hi)
    }
}

/// All frames of one part, from its first byte.
pub open spec fn spec_part_frames(
    session_id: u64,
    mid: u64,
    part_count: u8,
    part_index: u8,
    message_size: u32,
    part: Seq<u8>,
) -> Seq<Seq<u8>> {
    spec_part_frames_from(session_id, mid, part_count, part_index, message_size, part, 0)
}

/// The total byte size of a multipart message.
pub open spec fn spec_total_size(parts: Seq<Seq<u8>>) -> nat
    decreases parts.len(),
{
    if parts.len() == 0 {
        0
    } else {
        spec_total_size(parts.drop_last()) + parts.last().len()
    }
}

/// The frames of the parts from index `pi` on, each part expanded into
/// its chunk frames, in part order.
pub open spec fn spec_message_frames_from(
    session_id: u64,
    mid: u64,
    parts: Seq<Seq<u8>>,
    part_count: u8,
    message_size: u32,
    pi: nat,
) -> Seq<Seq<u8>>
    decreases parts.len() - pi,
{
    if pi >= parts.len() {
        Seq::empty()
    } else {
        spec_part_frames(session_id, mid, part_count, pi as u8, message_size, parts[pi as int])
            + spec_message_frames_from(session_id, mid, parts, part_count, message_size, pi + 1)
    }
}

/// Every data frame of a multipart message, in transmission order.
pub open spec fn spec_message_frames(session_id: u64, mid: u64, parts: Seq<Seq<u8>>) -> Seq<
    Seq<u8>,
> {
    spec_message_frames_from(
        session_id,
        mid,
        parts,
        parts.len() as u8,
        spec_total_size(parts) as u32,
        0,
    )
}

/// The ghost image of a send queue: its item sequence, message count,
/// in-flight table, and expiry order.
pub struct SendQueueV {
    pub items: Seq<QueueItemV>,
    pub count: nat,
    pub sent: Map<u128, Seq<u8>>,
    pub exp: Seq<(u64, u64, usize)>,
}

impl SendQueueV {
    /// A queue with nothing queued, nothing in flight.
    pub open spec fn empty() -> SendQueueV {
        SendQueueV {
            items: Seq::empty(),
            count: 0,
            sent: Map::empty(),
            exp: Seq::empty(),
        }
    }
}

/// Why a push was rejected, or that it was taken.
pub enum PushOutcome {
    Accepted,
    Hwm,
    TooLong,
    TooLarge,
}

/// One push: rejected over the high-water mark, over 255 parts, or over
/// 2^32 - 1 bytes; otherwise every chunk frame of every part is appended
/// in order, then one marker, and the message count grows by one.
pub open spec fn spec_push(
    q: SendQueueV,
    hwm: nat,
    session_id: u64,
    parts: Seq<Seq<u8>>,
    nonce: u64,
) -> (SendQueueV, PushOutcome) {
    if q.count >= hwm {
        (q, PushOutcome::Hwm)
    } else if parts.len() > 255 {
        (q, PushOutcome::TooLong)
    } else if spec_total_size(parts) > u32::MAX {
        (q, PushOutcome::TooLarge)
    } else {
        (
            SendQueueV {
                items: q.items + frames_as_items(
                    spec_message_frames(session_id, spec_message_id(parts, nonce), parts),
                ).push(QueueItemV::Marker),
                count: q.count + 1,
                ..q
            },
            PushOutcome::Accepted,
        )
    }
}

pub struct SendQueue {
    pub opt: SockOpt,

    pub message_count: usize,
    pub frames: Vec<QueueItem>,

    pub sent: KvList<Vec<u8>>,
    pub exp: Vec<(u64, u64, usize)>,
}

impl View for SendQueue {
    type V = SendQueueV;

    open spec fn view(&self) -> SendQueueV {
        SendQueueV {
            items: self.frames@.map_values(|q: QueueItem| q@),
            count: self.message_count as nat,
            sent: Map::new(
                |k: u128| self.sent@.contains_key(k),
                |k: u128| self.sent@[k]@,
            ),
            exp: self.exp@,
        }
    }
}

impl SendQueue {
    /// The message count agrees with the markers in the queue, the
    /// in-flight table is a map, and no expiry entry has outlived the
    /// resend limit.
    pub open spec fn wf(&self) -> bool {
        &&& self.message_count == spec_marker_count(self@.items)
        &&& self.sent.wf()
        &&& forall|i: int|
            0 <= i < self.exp@.len() ==> (#[trigger] self.exp@[i]).2
                <= self.opt.safe_resend_limit
    }

    pub fn new(opt: SockOpt) -> (r: SendQueue)
        ensures
            r.wf(),
            r.opt == opt,
            r@.items == Seq::<QueueItemV>::empty(),
            r@.count == 0,
            r@.sent == Map::<u128, Seq<u8>>::empty(),
            r@.exp == Seq::<(u64, u64, usize)>::empty(),
    {
        let r = SendQueue {
            opt,
            message_count: 0,
            frames: Vec::new(),
            sent: KvList::new(),
            exp: Vec::new(),
        };
        proof {
            assert(r@.items =~= Seq::<QueueItemV>::empty());
            assert(r@.sent =~= Map::<u128, Seq<u8>>::empty());
        }
        r
    }

    /// The message identifier a push with this data and nonce uses.
    pub fn hash(data: &Vec<Vec<u8>>, nonce: u64) -> (r: u64)
        ensures
            r == spec_message_id(data.deep_view(), nonce),
    {
        message_id(data, nonce)
    }

    /// Queued frames plus in-flight frames, saturating at `usize::MAX`.
    pub fn len(&self) -> (r: usize)
        ensures
            r == self@.items.len() + self.sent.spec_len() || (r == usize::MAX && self@.items.len()
                + self.sent.spec_len() > usize::MAX),
    {
        self.frames.len().saturating_add(self.sent.len())
    }

    /// Drops the in-flight record of an acknowledged frame: it will not be
    /// re-emitted again.
    pub fn confirm_safe(&mut self, hash: u64)
        requires
            old(self).wf(),
        ensures
            final(self).wf(),
            final(self)@.sent == old(self)@.sent.remove(hash as u128),
            final(self)@.items == old(self)@.items,
            final(self)@.count == old(self)@.count,
            final(self)@.exp == old(self)@.exp,
            final(self).opt == old(self).opt,
    {
        let _ = self.sent.remove(hash as u128);
        proof {
            assert(final(self)@.sent =~= old(self)@.sent.remove(hash as u128));
        }
    }

    /// Enqueues one multipart message: every chunk frame of every part in
    /// order, then one marker. Rejects when the queue already holds
    /// `send_hwm` messages, when the message has more than 255 parts, or
    /// when it exceeds 2^32 - 1 bytes; a rejected push changes nothing.
    pub fn push(&mut self, session_id: u64, data: &Vec<Vec<u8>>, nonce: u64) -> (r: Result<
        (),
        NBMQError,
    >)
        requires
            old(self).wf(),
        ensures
            final(self).wf(),
            final(self).opt == old(self).opt,
            ({
                let t = spec_push(
                    old(self)@,
                    old(self).opt.send_hwm as nat,
                    session_id,
                    data.deep_view(),
                    nonce,
                );
                &&& final(self)@ == t.0
                &&& match t.1 {
                    PushOutcome::Accepted => r is Ok,
                    PushOutcome::Hwm => r matches Err(NBMQError::HighWaterMark),
                    PushOutcome::TooLong => r matches Err(NBMQError::MessageTooLong),
                    PushOutcome::TooLarge => r matches Err(NBMQError::MessageTooLarge),
                }
            }),
    {
        let ghost parts = data.deep_view();

        if self.message_count >= self.opt.send_hwm {
            return Err(NBMQError::HighWaterMark);
        }

        if data.len() > 255 {
            return Err(NBMQError::MessageTooLong);
        }

        let mut total: u64 = 0;
        let mut i: usize = 0;
        while i < data.len()
            invariant
                i <= data@.len(),
                parts == data.deep_view(),
                if spec_total_size(parts.take(i as int)) <= u64::MAX {
                    total == spec_total_size(parts.take(i as int))
                } else {
                    total == u64::MAX
                },
            decreases data@.len() - i,
        {
            total = total.saturating_add(data[i].len() as u64);
            i = i + 1;
            proof {
                assert(parts.take(i as int).drop_last() =~= parts.take(i as int - 1));
                assert(parts.take(i as int).last() == data@[i - 1]@);
            }
        }
        proof {
            assert(parts.take(data@.len() as int) =~= parts);
        }

        if total > (u32::MAX as u64) {
            return Err(NBMQError::MessageTooLarge);
        }

        let message_hash = message_id(data, nonce);
        let message_size: u32 = total as u32;
        let part_count: u8 = data.len() as u8;

        let ghost mid = spec_message_id(parts, nonce);
        let ghost items0 = self@.items;
        let ghost goal = items0 + frames_as_items(spec_message_frames(session_id, mid, parts));
        proof {
            assert(message_size == spec_total_size(parts) as u32);
        }

        let mut pi: usize = 0;
        while pi < data.len()
            invariant
                old(self).wf(),
                self.opt == old(self).opt,
                self.message_count == old(self).message_count,
                self.sent == old(self).sent,
                self.exp == old(self).exp,
                pi <= data@.len(),
                data@.len() <= 255,
                parts == data.deep_view(),
                spec_total_size(parts) <= u32::MAX,
                message_size == spec_total_size(parts) as u32,
                part_count == parts.len() as u8,
                mid == message_hash,
                goal == items0 + frames_as_items(spec_message_frames(session_id, mid, parts)),
                self@.items + frames_as_items(
                    spec_message_frames_from(
                        session_id,
                        mid,
                        parts,
                        part_count,
                        message_size,
                        pi as nat,
                    ),
                ) == goal,
            decreases data@.len() - pi,
        {
            let part: &Vec<u8> = &data[pi];
            proof {
                assert(parts[pi as int] == data@[pi as int]@);
                lemma_part_le_total(parts, pi as int);
                // one part of the message frames: unfold at pi
                assert(spec_message_frames_from(
                    session_id,
                    mid,
                    parts,
                    part_count,
                    message_size,
                    pi as nat,
                ) == spec_part_frames(
                    session_id,
                    mid,
                    part_count,
                    pi as u8,
                    message_size,
                    parts[pi as int],
                ) + spec_message_frames_from(
                    session_id,
                    mid,
                    parts,
                    part_count,
                    message_size,
                    pi as nat + 1,
                ));
            }
            let part_size: u32 = part.len() as u32;

            let mut off: usize = 0;
            while off < part.len()
                invariant
                    old(self).wf(),
                    self.opt == old(self).opt,
                    self.message_count == old(self).message_count,
                    self.sent == old(self).sent,
                    self.exp == old(self).exp,
                    pi < data@.len(),
                    data@.len() <= 255,
                    parts == data.deep_view(),
                    part@ == parts[pi as int],
                    part_size == part@.len() as u32,
                    part@.len() <= u32::MAX,
                    spec_total_size(parts) <= u32::MAX,
                    message_size == spec_total_size(parts) as u32,
                    part_count == parts.len() as u8,
                    mid == message_hash,
                    off <= part@.len(),
                    goal == items0 + frames_as_items(
                        spec_message_frames(session_id, mid, parts),
                    ),
                    self@.items + frames_as_items(
                        spec_part_frames_from(
                            session_id,
                            mid,
                            part_count,
                            pi as u8,
                            message_size,
                            part@,
                            off as nat,
                        ),
                    ) + frames_as_items(
                        spec_message_frames_from(
                            session_id,
                            mid,
                            parts,
                            part_count,
                            message_size,
                            pi as nat + 1,
                        ),
                    ) == goal,
                decreases part@.len() - off,
            {
                let remaining = part.len() - off;
                let chunk_size: usize = if remaining > MAX_DATA_SIZE {
                    MAX_DATA_SIZE
                } else {
                    remaining
                };
                let hi = off + chunk_size;
                let chunk = vstd::slice::slice_subrange(part.as_slice(), off, hi);

                let frame = DataFrame::encode(
                    0,
                    session_id,
                    message_hash,
                    part_count,
                    pi as u8,
                    message_size,
                    part_size,
                    chunk_size as u16,
                    off as u32,
                    chunk,
                );

                let ghost items_before = self@.items;
                let ghost suffix = spec_part_frames_from(
                    session_id,
                    mid,
                    part_count,
                    pi as u8,
                    message_size,
                    part@,
                    off as nat,
                );
                self.frames.push(QueueItem::Frame(frame));
                proof {
                    assert(self@.items =~= items_before.push(QueueItemV::Frame(frame@)));
                    let rest = spec_part_frames_from(
                        session_id,
                        mid,
                        part_count,
                        pi as u8,
                        message_size,
                        part@,
                        hi as nat,
                    );
                    // unfold the part suffix one chunk
                    assert(suffix == seq![frame@] + rest);
                    assert(frames_as_items(suffix) =~= seq![QueueItemV::Frame(frame@)]
                        + frames_as_items(rest));
                    assert(self@.items + frames_as_items(rest) =~= items_before + frames_as_items(
                        suffix,
                    ));
                }
                off = hi;
            }
            proof {
                assert(spec_part_frames_from(
                    session_id,
                    mid,
                    part_count,
                    pi as u8,
                    message_size,
                    part@,
                    off as nat,
                ) =~= Seq::<Seq<u8>>::empty());
                let msg_rest = frames_as_items(
                    spec_message_frames_from(
                        session_id,
                        mid,
                        parts,
                        part_count,
                        message_size,
                        pi as nat + 1,
                    ),
                );
                assert(frames_as_items(Seq::<Seq<u8>>::empty()) =~= Seq::<QueueItemV>::empty());
                assert(self@.items + Seq::<QueueItemV>::empty() + msg_rest =~= self@.items
                    + msg_rest);
            }
            pi = pi + 1;
        }

        proof {
            assert(spec_message_frames_from(
                session_id,
                mid,
                parts,
                part_count,
                message_size,
                pi as nat,
            ) =~= Seq::<Seq<u8>>::empty());
            assert(frames_as_items(Seq::<Seq<u8>>::empty()) =~= Seq::<QueueItemV>::empty());
            assert(self@.items + Seq::<QueueItemV>::empty() =~= self@.items);
            assert(self@.items == goal);
        }

        let ghost items_before_marker = self@.items;
        self.frames.push(QueueItem::Marker);
        self.message_count = self.message_count + 1;

        proof {
            let msg_items = frames_as_items(spec_message_frames(session_id, mid, parts));
            assert(self@.items =~= items_before_marker.push(QueueItemV::Marker));
            assert(self@.items =~= (old(self)@.items + msg_items).push(QueueItemV::Marker));
            assert(self@.items =~= old(self)@.items + msg_items.push(QueueItemV::Marker));
            // the new marker raises the marker count by exactly one
            assert(forall|i: int|
                0 <= i < msg_items.len() ==> !((#[trigger] msg_items[i]) is Marker));
            lemma_marker_count_no_frames(msg_items);
            lemma_marker_count_append(old(self)@.items, msg_items);
            assert((old(self)@.items + msg_items).push(QueueItemV::Marker).drop_last()
                =~= old(self)@.items + msg_items);
        }

        Ok(())
    }
}

/// One plain pull: the frame at the head, or `None` at a marker (one
/// message fully drained, the count drops) or on an empty queue.
pub open spec fn spec_pull(s: SendQueueV) -> (SendQueueV, Option<Seq<u8>>) {
    if s.items.len() == 0 {
        (s, None)
    } else {
        match s.items[0] {
            QueueItemV::Frame(f) => (
                SendQueueV { items: s.items.drop_first(), ..s },
                Some(f),
            ),
            QueueItemV::Marker => (
                SendQueueV { items: s.items.drop_first(), count: (s.count - 1) as nat, ..s },
                None,
            ),
        }
    }
}

/// The retransmission scan: pop expiry entries older than the resend
/// interval off the front. An entry at the attempt limit drops its frame
/// from the in-flight table; an unacknowledged live entry re-emits its
/// frame and re-arms at the back with one more attempt; an acknowledged
/// entry vanishes. The scan stops at the first young entry.
pub open spec fn spec_resend_scan(s: SendQueueV, now: u64, ivl: u64, limit: nat) -> (
    SendQueueV,
    Option<Seq<u8>>,
)
    decreases s.exp.len(),
{
    if s.exp.len() == 0 {
        (s, None)
    } else {
        let e = s.exp[0];
        if !(now - e.1 > ivl) {
            (s, None)
        } else {
            let s1 = SendQueueV { exp: s.exp.drop_first(), ..s };
            if e.2 >= limit {
                spec_resend_scan(
                    SendQueueV { sent: s1.sent.remove(e.0 as u128), ..s1 },
                    now,
                    ivl,
                    limit,
                )
            } else if s.sent.contains_key(e.0 as u128) {
                (
                    SendQueueV { exp: s1.exp.push((e.0, now, (e.2 + 1) as usize)), ..s1 },
                    Some(s.sent[e.0 as u128]),
                )
            } else {
                spec_resend_scan(s1, now, ivl, limit)
            }
        }
    }
}

/// One fresh pull for the retry variant: like `spec_pull`, but a drained
/// frame is recorded in the in-flight table under its hash and armed at
/// the back of the expiry order.
pub open spec fn spec_fresh_pull(s: SendQueueV, now: u64) -> (SendQueueV, Option<Seq<u8>>) {
    if s.items.len() == 0 {
        (s, None)
    } else {
        match s.items[0] {
            QueueItemV::Frame(f) => (
                SendQueueV {
                    items: s.items.drop_first(),
                    sent: s.sent.insert(spec_fnv1a64(f) as u128, f),
                    exp: s.exp.push((spec_fnv1a64(f), now, 0)),
                    ..s
                },
                Some(f),
            ),
            QueueItemV::Marker => (
                SendQueueV { items: s.items.drop_first(), count: (s.count - 1) as nat, ..s },
                None,
            ),
        }
    }
}

/// One safe pull: first the retransmission scan, then, if nothing was due
/// for re-emission, one fresh pull.
pub open spec fn spec_pull_safe(s: SendQueueV, now: u64, ivl: u64, limit: nat) -> (
    SendQueueV,
    Option<Seq<u8>>,
) {
    let scanned = spec_resend_scan(s, now, ivl, limit);
    if scanned.1 is Some {
        scanned
    } else {
        spec_fresh_pull(scanned.0, now)
    }
}

impl SendQueue {
    /// Dequeues the next frame, or `None` at a marker (the message is
    /// fully drained and the count drops) or when the queue is empty.
    /// Strict FIFO: the head of the queue and nothing else.
    pub fn pull(&mut self) -> (r: Option<Vec<u8>>)
        requires
            old(self).wf(),
        ensures
            final(self).wf(),
            final(self).opt == old(self).opt,
            final(self)@ == spec_pull(old(self)@).0,
            match r {
                Some(f) => spec_pull(old(self)@).1 == Some(f@),
                None => spec_pull(old(self)@).1 is None,
            },
    {
        if self.frames.len() == 0 {
            return None;
        }

        proof {
            lemma_marker_count_drop_first(self@.items);
        }
        let m = self.frames.remove(0);
        proof {
            assert(self.frames@.map_values(|q: QueueItem| q@) =~= old(
                self,
            )@.items.drop_first());
        }

        match m {
            QueueItem::Frame(f) => Some(f),
            QueueItem::Marker => {
                self.message_count = self.message_count - 1;
                None
            },
        }
    }

    /// One safe pull at time `now`: a frame whose resend interval lapsed
    /// is re-emitted first (up to the attempt limit, and only while it is
    /// unacknowledged); otherwise the next fresh frame is drained and
    /// recorded in the in-flight table under its hash.
    pub fn pull_safe(&mut self, now: u64) -> (r: Option<Vec<u8>>)
        requires
            old(self).wf(),
        ensures
            final(self).wf(),
            final(self).opt == old(self).opt,
            final(self)@ == spec_pull_safe(
                old(self)@,
                now,
                old(self).opt.safe_resend_ivl,
                old(self).opt.safe_resend_limit as nat,
            ).0,
            match r {
                Some(f) => spec_pull_safe(
                    old(self)@,
                    now,
                    old(self).opt.safe_resend_ivl,
                    old(self).opt.safe_resend_limit as nat,
                ).1 == Some(f@),
                None => spec_pull_safe(
                    old(self)@,
                    now,
                    old(self).opt.safe_resend_ivl,
                    old(self).opt.safe_resend_limit as nat,
                ).1 is None,
            },
    {
        let ghost ivl = self.opt.safe_resend_ivl;
        let ghost limit = self.opt.safe_resend_limit as nat;
        let ghost g0 = self@;

        loop
            invariant
                self.wf(),
                self.opt == old(self).opt,
                g0 == old(self)@,
                ivl == self.opt.safe_resend_ivl,
                limit == self.opt.safe_resend_limit as nat,
                spec_resend_scan(g0, now, ivl, limit) == spec_resend_scan(self@, now, ivl, limit),
            ensures
                self.wf(),
                self.opt == old(self).opt,
                spec_resend_scan(g0, now, ivl, limit) == (self@, None::<Seq<u8>>),
            decreases self.exp@.len(),
        {
            if self.exp.len() == 0 {
                break;
            }
            let head = self.exp[0];
            if !(now.saturating_sub(head.1) > self.opt.safe_resend_ivl) {
                break;
            }

            let ghost pre = self@;
            let e = self.exp.remove(0);
            proof {
                assert(self@.exp =~= pre.exp.drop_first());
            }

            if e.2 >= self.opt.safe_resend_limit {
                let ghost mid_state = self@;
                let _ = self.sent.remove(e.0 as u128);
                proof {
                    assert(self@.sent =~= mid_state.sent.remove(e.0 as u128));
                    assert(self@ == SendQueueV {
                        sent: mid_state.sent.remove(e.0 as u128),
                        ..mid_state
                    });
                    assert(spec_resend_scan(pre, now, ivl, limit) == spec_resend_scan(
                        self@,
                        now,
                        ivl,
                        limit,
                    ));
                }
                continue;
            }

            let found = match self.sent.get(e.0 as u128) {
                Some(frame) => Some(frame.clone()),
                None => None,
            };

            match found {
                Some(f) => {
                    self.exp.push((e.0, now, e.2 + 1));
                    proof {
                        assert(self@.exp =~= pre.exp.drop_first().push((
                            e.0,
                            now,
                            (e.2 + 1) as usize,
                        )));
                        assert(self@ == SendQueueV {
                            exp: pre.exp.drop_first().push((e.0, now, (e.2 + 1) as usize)),
                            ..pre
                        });
                        assert(spec_resend_scan(pre, now, ivl, limit).1 == Some(pre.sent[e.0
                            as u128]));
                        assert(f@ == pre.sent[e.0 as u128]);
                        assert(spec_resend_scan(pre, now, ivl, limit).0 == self@);
                    }
                    return Some(f);
                },
                None => {
                    proof {
                        assert(spec_resend_scan(pre, now, ivl, limit) == spec_resend_scan(
                            self@,
                            now,
                            ivl,
                            limit,
                        ));
                    }
                },
            }
        }

        proof {
            assert(spec_resend_scan(self@, now, ivl, limit) == (self@, None::<Seq<u8>>));
            assert(spec_pull_safe(g0, now, ivl, limit) == spec_fresh_pull(self@, now));
        }

        if self.frames.len() == 0 {
            return None;
        }

        proof {
            lemma_marker_count_drop_first(self@.items);
        }
        let ghost pre2 = self@;
        let m = self.frames.remove(0);
        proof {
            assert(self.frames@.map_values(|q: QueueItem| q@) =~= pre2.items.drop_first());
        }

        match m {
            QueueItem::Frame(f) => {
                let h = fnv1a64(&f);
                self.sent.insert(h as u128, f.clone());
                self.exp.push((h, now, 0));
                proof {
                    assert(self@.sent =~= pre2.sent.insert(spec_fnv1a64(f@) as u128, f@));
                    assert(self@.exp =~= pre2.exp.push((spec_fnv1a64(f@), now, 0usize)));
                    assert(self@ == spec_fresh_pull(pre2, now).0);
                }
                Some(f)
            },
            QueueItem::Marker => {
                self.message_count = self.message_count - 1;
                None
            },
        }
    }
}

/// The retransmission scan never touches the queued items or the count.
pub proof fn lemma_resend_scan_items(s: SendQueueV, now: u64, ivl: u64, limit: nat)
    ensures
        spec_resend_scan(s, now, ivl, limit).0.items == s.items,
        spec_resend_scan(s, now, ivl, limit).0.count == s.count,
    decreases s.exp.len(),
{
    if s.exp.len() > 0 {
        let e = s.exp[0];
        if now - e.1 > ivl {
            let s1 = SendQueueV { exp: s.exp.drop_first(), ..s };
            if e.2 >= limit {
                lemma_resend_scan_items(
                    SendQueueV { sent: s1.sent.remove(e.0 as u128), ..s1 },
                    now,
                    ivl,
                    limit,
                );
            } else if !s.sent.contains_key(e.0 as u128) {
                lemma_resend_scan_items(s1, now, ivl, limit);
            }
        }
    }
}

/// The queue after `n` plain pulls.
pub open spec fn spec_pull_n(s: SendQueueV, n: nat) -> SendQueueV
    decreases n,
{
    if n == 0 {
        s
    } else {
        spec_pull(spec_pull_n(s, (n - 1) as nat)).0
    }
}

/// FIFO through the marker: a queue holding one message's frames and its
/// marker hands the frames out in exactly transmission order; the pull
/// after the last frame reports the marker (`None`) and drops the message
/// count by one, leaving the queue empty.
pub proof fn lemma_send_fifo(q: SendQueueV, frames: Seq<Seq<u8>>, k: nat)
    requires
        q.items == frames_as_items(frames).push(QueueItemV::Marker),
        q.count >= 1,
        k <= frames.len(),
    ensures
        spec_pull_n(q, k).items == q.items.skip(k as int),
        spec_pull_n(q, k).count == q.count,
        k < frames.len() ==> spec_pull(spec_pull_n(q, k)).1 == Some(frames[k as int]),
        k == frames.len() ==> spec_pull(spec_pull_n(q, k)).1 is None && spec_pull(
            spec_pull_n(q, k),
        ).0.count == q.count - 1 && spec_pull(spec_pull_n(q, k)).0.items.len() == 0,
    decreases k,
{
    if k == 0 {
        assert(q.items.skip(0) =~= q.items);
    } else {
        lemma_send_fifo(q, frames, (k - 1) as nat);
        let prev = spec_pull_n(q, (k - 1) as nat);
        assert(prev.items[0] == q.items[k - 1]);
        assert(q.items[k - 1] == QueueItemV::Frame(frames[k - 1]));
        assert(spec_pull(prev).0.items =~= q.items.skip(k as int));
    }
    let cur = spec_pull_n(q, k);
    if k < frames.len() {
        assert(cur.items[0] == q.items[k as int]);
        assert(q.items[k as int] == QueueItemV::Frame(frames[k as int]));
    }
    if k == frames.len() {
        assert(cur.items[0] == q.items[k as int]);
        assert(q.items[k as int] == QueueItemV::Marker);
        assert(spec_pull(cur).0.items =~= q.items.skip(k as int + 1));
        assert(q.items.skip(k as int + 1) =~= Seq::<QueueItemV>::empty());
    }
}

/// An acknowledged frame is never re-emitted: once its hash leaves the
/// in-flight table, the retransmission scan can only drop its expiry
/// records, never hand the frame out again, and the hash stays out of the
/// table.
pub proof fn lemma_confirm_stops_resend(s: SendQueueV, hash: u64, now: u64, ivl: u64, limit: nat)
    requires
        !s.sent.contains_key(hash as u128),
    ensures
        ({
            let r = spec_resend_scan(s, now, ivl, limit);
            &&& !r.0.sent.contains_key(hash as u128)
            &&& (r.1 matches Some(f) ==> exists|h: u64|
                h != hash && #[trigger] s.sent.contains_key(h as u128) && f == s.sent[h as u128])
        }),
    decreases s.exp.len(),
{
    let r = spec_resend_scan(s, now, ivl, limit);
    if s.exp.len() > 0 {
        let e = s.exp[0];
        if now - e.1 > ivl {
            let s1 = SendQueueV { exp: s.exp.drop_first(), ..s };
            if e.2 >= limit {
                let sub = SendQueueV { sent: s1.sent.remove(e.0 as u128), ..s1 };
                lemma_confirm_stops_resend(sub, hash, now, ivl, limit);
                if r.1 is Some {
                    let h = choose|h: u64|
                        h != hash && #[trigger] sub.sent.contains_key(h as u128) && r.1.unwrap()
                            == sub.sent[h as u128];
                    assert(s.sent.contains_key(h as u128) && r.1.unwrap() == s.sent[h as u128]);
                }
            } else if s.sent.contains_key(e.0 as u128) {
                assert(e.0 != hash);
            } else {
                lemma_confirm_stops_resend(s1, hash, now, ivl, limit);
            }
        }
    }
}

/// Every expiry record respects the attempt cap: the well-formedness
/// invariant every queue operation preserves. A frame is re-armed only
/// with an attempt count below the cap, so no frame is re-emitted more
/// than `safe_resend_limit` times after its first transmission.
pub proof fn lemma_resend_attempts_capped(q: &SendQueue)
    requires
        q.wf(),
    ensures
        forall|i: int|
            0 <= i < q@.exp.len() ==> (#[trigger] q@.exp[i]).2 <= q.opt.safe_resend_limit,
{
}

/// A sequence of wrapped frames holds no marker.
pub proof fn lemma_marker_count_no_frames(items: Seq<QueueItemV>)
    requires
        forall|i: int| 0 <= i < items.len() ==> !((#[trigger] items[i]) is Marker),
    ensures
        spec_marker_count(items) == 0,
    decreases items.len(),
{
    if items.len() > 0 {
        lemma_marker_count_no_frames(items.drop_last());
    }
}

/// No part is larger than the whole message.
pub proof fn lemma_part_le_total(parts: Seq<Seq<u8>>, i: int)
    requires
        0 <= i < parts.len(),
    ensures
        parts[i].len() <= spec_total_size(parts),
    decreases parts.len(),
{
    if i == parts.len() - 1 {
    } else {
        lemma_part_le_total(parts.drop_last(), i);
    }
}

} // verus!
