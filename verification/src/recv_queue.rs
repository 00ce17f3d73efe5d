//! The receive queue: per-message reassembly from out-of-order,
//! possibly-duplicated chunks, completion detection, high-water-mark
//! enforcement, TTL eviction of stuck messages, and, for the safe
//! variant, a bounded dedup set for at-most-once delivery.
//!
//! A part accepts a chunk only when it lies inside the declared part size
//! and touches no byte that was already assigned; a duplicated or
//! overlapping chunk is ignored. A part is complete exactly when its
//! assigned byte count reaches its size, which, since accepted chunks are
//! pairwise disjoint, happens exactly when every byte was assigned.
use vstd::prelude::*;

use vstd::set_lib::{lemma_int_range, lemma_len_subset, set_int_range};

use crate::errors::NBMQError;
use crate::frame::{spec_parse_data, DataFrame, DataFrameV};
use crate::kvlist::KvList;
use crate::opt::{spec_elapsed, SockOpt};

verus! {

/// The bytes a range occupies.
pub open spec fn range_set(r: (u32, u32)) -> Set<int> {
    set_int_range(r.0 as int, r.1 as int)
}

/// Two ranges share no byte.
pub open spec fn ranges_disjoint(a: (u32, u32), b: (u32, u32)) -> bool {
    a.1 <= b.0 || b.1 <= a.0
}

/// Every range is nonempty, lies inside the part, and the ranges are
/// pairwise disjoint.
pub open spec fn spec_ranges_wf(ranges: Seq<(u32, u32)>, size: nat) -> bool {
    &&& forall|i: int|
        0 <= i < ranges.len() ==> (#[trigger] ranges[i]).0 < ranges[i].1 && ranges[i].1 <= size
    &&& forall|i: int, j: int|
        0 <= i < ranges.len() && 0 <= j < ranges.len() && i != j ==> ranges_disjoint(
            #[trigger] ranges[i],
            #[trigger] ranges[j],
        )
}

/// The number of bytes the ranges hold together.
pub open spec fn spec_ranges_sum(ranges: Seq<(u32, u32)>) -> nat
    decreases ranges.len(),
{
    if ranges.len() == 0 {
        0
    } else {
        (spec_ranges_sum(ranges.drop_last()) + ranges.last().1 - ranges.last().0) as nat
    }
}

/// The set of byte positions the ranges cover.
pub open spec fn spec_covered(ranges: Seq<(u32, u32)>) -> Set<int>
    decreases ranges.len(),
{
    if ranges.len() == 0 {
        Set::empty()
    } else {
        spec_covered(ranges.drop_last()) + range_set(ranges.last())
    }
}

pub proof fn lemma_covered_membership(ranges: Seq<(u32, u32)>, x: int)
    ensures
        spec_covered(ranges).contains(x) <==> exists|i: int|
            0 <= i < ranges.len() && (#[trigger] ranges[i]).0 <= x < ranges[i].1,
    decreases ranges.len(),
{
    if ranges.len() > 0 {
        lemma_covered_membership(ranges.drop_last(), x);
        if spec_covered(ranges).contains(x) {
            if range_set(ranges.last()).contains(x) {
                assert(ranges[ranges.len() - 1].0 <= x < ranges[ranges.len() - 1].1);
            } else {
                let i = choose|i: int|
                    0 <= i < ranges.drop_last().len() && (#[trigger] ranges.drop_last()[i]).0 <= x
                        < ranges.drop_last()[i].1;
                assert(ranges[i].0 <= x < ranges[i].1);
            }
        }
        if exists|i: int| 0 <= i < ranges.len() && (#[trigger] ranges[i]).0 <= x < ranges[i].1 {
            let i = choose|i: int|
                0 <= i < ranges.len() && (#[trigger] ranges[i]).0 <= x < ranges[i].1;
            if i == ranges.len() - 1 {
                assert(range_set(ranges.last()).contains(x));
            } else {
                assert(ranges.drop_last()[i].0 <= x < ranges.drop_last()[i].1);
            }
        }
    }
}

/// Disjoint ranges cover exactly as many bytes as they hold together.
pub proof fn lemma_covered_card(ranges: Seq<(u32, u32)>, size: nat)
    requires
        spec_ranges_wf(ranges, size),
    ensures
        spec_covered(ranges).finite(),
        spec_covered(ranges).len() == spec_ranges_sum(ranges),
        spec_covered(ranges).subset_of(set_int_range(0, size as int)),
    decreases ranges.len(),
{
    lemma_int_range(0, size as int);
    if ranges.len() == 0 {
        assert(spec_covered(ranges) =~= Set::<int>::empty());
    } else {
        let front = ranges.drop_last();
        let last = ranges.last();
        assert(spec_ranges_wf(front, size)) by {
            assert(forall|i: int| 0 <= i < front.len() ==> front[i] == ranges[i]);
        }
        lemma_covered_card(front, size);
        lemma_int_range(last.0 as int, last.1 as int);
        assert(spec_covered(front).disjoint(range_set(last))) by {
            assert forall|x: int|
                spec_covered(front).contains(x) implies !range_set(last).contains(x) by {
                lemma_covered_membership(front, x);
                let i = choose|i: int|
                    0 <= i < front.len() && (#[trigger] front[i]).0 <= x < front[i].1;
                assert(ranges[i] == front[i]);
                assert(ranges_disjoint(ranges[i], ranges[ranges.len() - 1]));
            }
        }
        vstd::set_lib::lemma_set_disjoint_lens(spec_covered(front), range_set(last));
        assert forall|x: int|
            spec_covered(ranges).contains(x) implies set_int_range(0, size as int).contains(
            x,
        ) by {
            lemma_covered_membership(ranges, x);
        }
    }
}

/// Disjoint in-bounds ranges never hold more bytes than the part.
pub proof fn lemma_ranges_sum_le_size(ranges: Seq<(u32, u32)>, size: nat)
    requires
        spec_ranges_wf(ranges, size),
    ensures
        spec_ranges_sum(ranges) <= size,
{
    lemma_covered_card(ranges, size);
    lemma_int_range(0, size as int);
    lemma_len_subset(spec_covered(ranges), set_int_range(0, size as int));
}

/// When disjoint in-bounds ranges hold exactly `size` bytes, they cover
/// every byte of the part.
pub proof fn lemma_ranges_sum_eq_size_covers(ranges: Seq<(u32, u32)>, size: nat)
    requires
        spec_ranges_wf(ranges, size),
        spec_ranges_sum(ranges) == size,
    ensures
        spec_covered(ranges) == set_int_range(0, size as int),
{
    lemma_covered_card(ranges, size);
    lemma_int_range(0, size as int);
    let a = spec_covered(ranges);
    let b = set_int_range(0, size as int);
    assert forall|x: int| b.contains(x) implies a.contains(x) by {
        if !a.contains(x) {
            assert(a.subset_of(b.remove(x)));
            lemma_len_subset(a, b.remove(x));
            assert(b.remove(x).len() == size - 1);
        }
    }
    assert(a =~= b);
}

/// `data` with `chunk` written at offset `off`.
pub open spec fn spec_splice(data: Seq<u8>, off: nat, chunk: Seq<u8>) -> Seq<u8>
    recommends
        off + chunk.len() <= data.len(),
{
    data.take(off as int) + chunk + data.skip(off as int + chunk.len() as int)
}

/// The ghost image of one part under reassembly.
pub struct PartV {
    pub size: nat,
    pub assigned: nat,
    pub ranges: Seq<(u32, u32)>,
    pub data: Seq<u8>,
}

impl PartV {
    pub open spec fn wf(self) -> bool {
        &&& self.data.len() == self.size
        &&& self.size <= u32::MAX
        &&& spec_ranges_wf(self.ranges, self.size)
        &&& self.assigned == spec_ranges_sum(self.ranges)
    }

    /// A fresh all-zero part of the given size.
    pub open spec fn empty(size: nat) -> PartV {
        PartV { size, assigned: 0, ranges: Seq::empty(), data: Seq::new(size, |i: int| 0u8) }
    }
}

/// Whether the chunk at `[off, off + csz)` touches a byte one of the
/// ranges already holds.
pub open spec fn spec_overlaps(ranges: Seq<(u32, u32)>, off: nat, csz: nat) -> bool {
    exists|j: int|
        0 <= j < ranges.len() && !ranges_disjoint(
            #[trigger] ranges[j],
            (off as u32, (off + csz) as u32),
        )
}

/// One chunk applied to one part. `None` stands for a corrupt frame: a
/// chunk past the declared size, or one whose byte count belies its
/// header. `Some(completed)` reports whether this application completed
/// the part. A chunk arriving at a complete part, an empty chunk, and a
/// chunk overlapping assigned bytes are ignored.
pub open spec fn spec_part_add(p: PartV, off: nat, csz: nat, chunk: Seq<u8>) -> (PartV, Option<
    bool,
>) {
    if p.assigned == p.size {
        (p, Some(false))
    } else if off + csz > p.size {
        (p, None)
    } else if chunk.len() != csz {
        (p, None)
    } else if csz == 0 {
        (p, Some(false))
    } else if spec_overlaps(p.ranges, off, csz) {
        (p, Some(false))
    } else {
        let p2 = PartV {
            size: p.size,
            assigned: p.assigned + csz,
            ranges: p.ranges.push((off as u32, (off + csz) as u32)),
            data: spec_splice(p.data, off, chunk),
        };
        (p2, Some(p2.assigned == p2.size))
    }
}

#[derive(Clone)]
pub struct MessagePart {
    pub size: u32,

    pub assigned: u32,
    pub assigned_ranges: Vec<(u32, u32)>,
    pub data: Vec<u8>,
}

impl View for MessagePart {
    type V = PartV;

    open spec fn view(&self) -> PartV {
        PartV {
            size: self.size as nat,
            assigned: self.assigned as nat,
            ranges: self.assigned_ranges@,
            data: self.data@,
        }
    }
}

impl MessagePart {
    pub open spec fn wf(&self) -> bool {
        self@.wf()
    }

    /// A fresh zero-filled buffer for a part of `size` bytes.
    pub fn new(size: u32) -> (r: MessagePart)
        ensures
            r.wf(),
            r@ == PartV::empty(size as nat),
    {
        let mut data: Vec<u8> = Vec::new();
        let mut i: usize = 0;
        while i < size as usize
            invariant
                i <= size as usize,
                data@ =~= Seq::new(i as nat, |k: int| 0u8),
            decreases size as usize - i,
        {
            data.push(0);
            i = i + 1;
            proof {
                assert(data@ =~= Seq::new(i as nat, |k: int| 0u8));
            }
        }

        let r = MessagePart { size, assigned: 0, assigned_ranges: Vec::new(), data };
        proof {
            assert(r@.ranges =~= Seq::<(u32, u32)>::empty());
            assert(r@ == PartV::empty(size as nat));
        }
        r
    }

    /// Applies one chunk: exactly the `spec_part_add` transition. A
    /// corrupt chunk leaves the part unchanged and reports the error; an
    /// ignored chunk leaves it unchanged; a fresh disjoint chunk is
    /// copied into place and its range remembered.
    #[verifier::loop_isolation(false)]
    pub fn add_frame(&mut self, frame: &DataFrame) -> (r: Result<bool, NBMQError>)
        requires
            old(self).wf(),
        ensures
            final(self).wf(),
            final(self)@ == spec_part_add(
                old(self)@,
                frame.chunk_offset as nat,
                frame.chunk_size as nat,
                frame.chunk@,
            ).0,
            match r {
                Ok(b) => spec_part_add(
                    old(self)@,
                    frame.chunk_offset as nat,
                    frame.chunk_size as nat,
                    frame.chunk@,
                ).1 == Some(b),
                Err(e) => e matches NBMQError::FrameCorrupt && spec_part_add(
                    old(self)@,
                    frame.chunk_offset as nat,
                    frame.chunk_size as nat,
                    frame.chunk@,
                ).1 is None,
            },
    {
        if self.assigned == self.size {
            return Ok(false);
        }

        let csz = frame.chunk_size as u32;
        if frame.chunk_offset > self.size || csz > self.size - frame.chunk_offset {
            return Err(NBMQError::FrameCorrupt);
        }

        if frame.chunk.len() != frame.chunk_size as usize {
            return Err(NBMQError::FrameCorrupt);
        }

        if frame.chunk_size == 0 {
            return Ok(false);
        }

        let start = frame.chunk_offset;
        let end = frame.chunk_offset + csz;

        // reject any chunk that touches an already-assigned byte
        let mut j: usize = 0;
        while j < self.assigned_ranges.len()
            invariant
                j <= self.assigned_ranges@.len(),
                end == start + csz,
                forall|i: int|
                    0 <= i < j ==> ranges_disjoint(#[trigger] self.assigned_ranges@[i], (start, end)),
            decreases self.assigned_ranges@.len() - j,
        {
            let r = self.assigned_ranges[j];
            if r.0 < end && start < r.1 {
                proof {
                    assert(!ranges_disjoint(
                        self.assigned_ranges@[j as int],
                        (start, end),
                    ));
                    assert(spec_overlaps(self@.ranges, start as nat, csz as nat));
                }
                return Ok(false);
            }
            j = j + 1;
        }

        proof {
            assert(!spec_overlaps(self@.ranges, start as nat, csz as nat));
            // the new disjoint range keeps the sum within the part
            let pushed = self@.ranges.push((start, end));
            assert forall|i: int|
                0 <= i < pushed.len() implies (#[trigger] pushed[i]).0 < pushed[i].1 && pushed[i].1
                <= self@.size by {
                if i < pushed.len() - 1 {
                    assert(pushed[i] == self@.ranges[i]);
                }
            }
            assert forall|i: int, j2: int|
                0 <= i < pushed.len() && 0 <= j2 < pushed.len() && i != j2 implies ranges_disjoint(
                #[trigger] pushed[i],
                #[trigger] pushed[j2],
            ) by {
                if i < pushed.len() - 1 && j2 < pushed.len() - 1 {
                    assert(pushed[i] == self@.ranges[i] && pushed[j2] == self@.ranges[j2]);
                } else if i == pushed.len() - 1 {
                    assert(pushed[j2] == self@.ranges[j2]);
                    assert(ranges_disjoint(self@.ranges[j2], (start, end)));
                } else {
                    assert(pushed[i] == self@.ranges[i]);
                    assert(ranges_disjoint(self@.ranges[i], (start, end)));
                }
            }
            assert(pushed.drop_last() =~= self@.ranges);
            assert(spec_ranges_sum(pushed) == self@.assigned + csz);
            assert(spec_ranges_wf(pushed, self@.size));
            lemma_ranges_sum_le_size(pushed, self@.size);
        }

        // copy the chunk into place
        let ghost data0 = self.data@;
        let mut k: usize = 0;
        while k < frame.chunk.len()
            invariant
                self.size == old(self).size,
                self.assigned == old(self).assigned,
                self.assigned_ranges == old(self).assigned_ranges,
                k <= frame.chunk@.len(),
                start as nat + frame.chunk@.len() <= data0.len(),
                self.data@.len() == data0.len(),
                forall|x: int| 0 <= x < start ==> self.data@[x] == data0[x],
                forall|x: int| 0 <= x < k ==> self.data@[start + x] == frame.chunk@[x],
                forall|x: int|
                    start + frame.chunk@.len() <= x < data0.len() ==> self.data@[x] == data0[x],
                forall|x: int|
                    start + k <= x < start + frame.chunk@.len() ==> self.data@[x] == data0[x],
            decreases frame.chunk@.len() - k,
        {
            let idx = start as usize + k;
            self.data[idx] = frame.chunk[k];
            k = k + 1;
        }

        proof {
            assert(self.data@ =~= spec_splice(data0, start as nat, frame.chunk@));
        }

        self.assigned_ranges.push((start, end));
        self.assigned = self.assigned + csz;

        proof {
            assert(self@.ranges =~= old(self)@.ranges.push((start, end)));
            assert(self@ == spec_part_add(
                old(self)@,
                frame.chunk_offset as nat,
                frame.chunk_size as nat,
                frame.chunk@,
            ).0);
        }

        if self.assigned == self.size {
            return Ok(true);
        }

        return Ok(false);
    }
}

/// Whether an optional part has every byte assigned. A zero-size part
/// never counts: no frame can complete it, so the message-level counter
/// never sees it.
pub open spec fn part_is_complete(p: Option<PartV>) -> bool {
    match p {
        Some(q) => q.size > 0 && q.assigned == q.size,
        None => false,
    }
}

/// How many parts are complete.
pub open spec fn spec_complete_count(parts: Seq<Option<PartV>>) -> nat
    decreases parts.len(),
{
    if parts.len() == 0 {
        0
    } else {
        spec_complete_count(parts.drop_last()) + (if part_is_complete(parts.last()) {
            1nat
        } else {
            0nat
        })
    }
}

/// The bytes the complete parts hold together.
pub open spec fn spec_complete_sum(parts: Seq<Option<PartV>>) -> nat
    decreases parts.len(),
{
    if parts.len() == 0 {
        0
    } else {
        spec_complete_sum(parts.drop_last()) + (if part_is_complete(parts.last()) {
            match parts.last() {
                Some(p) => p.size,
                None => 0nat,
            }
        } else {
            0nat
        })
    }
}

pub proof fn lemma_complete_count_le_len(parts: Seq<Option<PartV>>)
    ensures
        spec_complete_count(parts) <= parts.len(),
    decreases parts.len(),
{
    if parts.len() > 0 {
        lemma_complete_count_le_len(parts.drop_last());
    }
}

/// How one updated slot moves the completion count and byte sum.
pub proof fn lemma_complete_update(parts: Seq<Option<PartV>>, i: int, p: Option<PartV>)
    requires
        0 <= i < parts.len(),
    ensures
        spec_complete_count(parts.update(i, p)) == spec_complete_count(parts) + (
        if part_is_complete(p) {
            1int
        } else {
            0int
        }) - (if part_is_complete(parts[i]) {
            1int
        } else {
            0int
        }),
        spec_complete_sum(parts.update(i, p)) == spec_complete_sum(parts) + (if part_is_complete(
            p,
        ) {
            p.unwrap().size as int
        } else {
            0int
        }) - (if part_is_complete(parts[i]) {
            parts[i].unwrap().size as int
        } else {
            0int
        }),
    decreases parts.len(),
{
    if i == parts.len() - 1 {
        assert(parts.update(i, p).drop_last() =~= parts.drop_last());
        assert(parts.update(i, p).last() == p);
    } else {
        lemma_complete_update(parts.drop_last(), i, p);
        assert(parts.update(i, p).drop_last() =~= parts.drop_last().update(i, p));
        assert(parts.update(i, p).last() == parts.last());
        assert(parts.drop_last()[i] == parts[i]);
    }
}

/// A message whose completion count reached its part count has every part
/// complete.
pub proof fn lemma_all_parts_complete(parts: Seq<Option<PartV>>)
    requires
        spec_complete_count(parts) == parts.len(),
    ensures
        forall|i: int| 0 <= i < parts.len() ==> part_is_complete(#[trigger] parts[i]),
    decreases parts.len(),
{
    if parts.len() > 0 {
        lemma_complete_count_le_len(parts.drop_last());
        lemma_all_parts_complete(parts.drop_last());
        assert(forall|i: int| 0 <= i < parts.len() - 1 ==> parts[i] == parts.drop_last()[i]);
    }
}

/// The bytes of the complete parts never exceed one maximal part per slot.
pub proof fn lemma_complete_sum_bound(parts: Seq<Option<PartV>>)
    requires
        forall|i: int|
            0 <= i < parts.len() ==> match #[trigger] parts[i] {
                Some(p) => p.size <= u32::MAX,
                None => true,
            },
    ensures
        spec_complete_sum(parts) <= parts.len() * (u32::MAX as nat),
    decreases parts.len(),
{
    if parts.len() > 0 {
        assert(forall|i: int| 0 <= i < parts.len() - 1 ==> parts.drop_last()[i] == parts[i]);
        lemma_complete_sum_bound(parts.drop_last());
        assert((parts.len() - 1) * (u32::MAX as nat) + (u32::MAX as nat) == parts.len() * (
        u32::MAX as nat)) by (nonlinear_arith);
    }
}

/// The ghost image of a message under reassembly.
pub struct MsgV {
    pub size: nat,
    pub part_count: nat,
    pub completed_parts: nat,
    pub assigned: nat,
    pub parts: Seq<Option<PartV>>,
    pub last_modify: u64,
}

impl MsgV {
    /// A fresh message shell with no part yet.
    pub open spec fn empty(size: nat, part_count: nat, now: u64) -> MsgV {
        MsgV {
            size,
            part_count,
            completed_parts: 0,
            assigned: 0,
            parts: Seq::new(part_count, |i: int| None),
            last_modify: now,
        }
    }
}

/// One data frame applied to one message. `None` stands for a corrupt
/// frame: a part index past the declared part count, or a chunk the part
/// rejects. A frame that completes its part raises the completion count
/// and the assigned total; the result reports whether the whole message
/// is now complete.
pub open spec fn spec_msg_add(m: MsgV, f: DataFrameV, now: u64) -> (MsgV, Option<bool>) {
    if f.part_index as int >= m.parts.len() {
        (m, None)
    } else {
        let p0 = match m.parts[f.part_index as int] {
            Some(p) => p,
            None => PartV::empty(f.part_size as nat),
        };
        let r = spec_part_add(p0, f.chunk_offset as nat, f.chunk_size as nat, f.chunk);
        let parts2 = m.parts.update(f.part_index as int, Some(r.0));
        match r.1 {
            None => (
                MsgV { parts: parts2, ..m },
                None,
            ),
            Some(completed) => {
                let m2 = MsgV {
                    parts: parts2,
                    completed_parts: if completed {
                        m.completed_parts + 1
                    } else {
                        m.completed_parts
                    },
                    assigned: if completed {
                        m.assigned + r.0.size
                    } else {
                        m.assigned
                    },
                    last_modify: now,
                    ..m
                };
                (m2, Some(m2.completed_parts == m2.part_count && m2.assigned == m2.size))
            },
        }
    }
}

/// The reassembled parts of a complete message, in part order.
pub open spec fn spec_reassemble(parts: Seq<Option<PartV>>) -> Seq<Seq<u8>> {
    Seq::new(
        parts.len(),
        |i: int|
            match parts[i] {
                Some(p) => p.data,
                None => Seq::empty(),
            },
    )
}

pub struct IncomingMessage {
    pub size: u32,
    pub part_count: u8,
    pub completed_parts: u8,

    pub assigned: u64,
    pub parts: Vec<Option<MessagePart>>,

    pub last_modify: u64,
}

impl View for IncomingMessage {
    type V = MsgV;

    open spec fn view(&self) -> MsgV {
        MsgV {
            size: self.size as nat,
            part_count: self.part_count as nat,
            completed_parts: self.completed_parts as nat,
            assigned: self.assigned as nat,
            parts: self.parts@.map_values(
                |op: Option<MessagePart>|
                    match op {
                        Some(p) => Some(p@),
                        None => None,
                    },
            ),
            last_modify: self.last_modify,
        }
    }
}

impl IncomingMessage {
    pub open spec fn wf(&self) -> bool {
        &&& self@.parts.len() == self@.part_count
        &&& forall|i: int|
            0 <= i < self@.parts.len() ==> match #[trigger] self@.parts[i] {
                Some(p) => p.wf(),
                None => true,
            }
        &&& self@.completed_parts == spec_complete_count(self@.parts)
        &&& self@.assigned == spec_complete_sum(self@.parts)
    }

    /// A fresh shell for a message of `size` bytes in `part_count` parts,
    /// touched now.
    #[verifier::loop_isolation(false)]
    pub fn new(size: u32, part_count: u8, now: u64) -> (r: IncomingMessage)
        ensures
            r.wf(),
            r@ == MsgV::empty(size as nat, part_count as nat, now),
    {
        let mut parts: Vec<Option<MessagePart>> = Vec::new();
        let mut i: usize = 0;
        while i < part_count as usize
            invariant
                i <= part_count as usize,
                parts@.len() == i,
                forall|j: int| 0 <= j < i ==> parts@[j] is None,
            decreases part_count as usize - i,
        {
            parts.push(None);
            i = i + 1;
        }

        let r = IncomingMessage {
            size,
            part_count,
            assigned: 0,
            completed_parts: 0,
            parts,
            last_modify: now,
        };
        proof {
            assert(r@.parts =~= Seq::new(part_count as nat, |i: int| None::<PartV>));
            lemma_all_none_counts(r@.parts);
            assert(r@ == MsgV::empty(size as nat, part_count as nat, now));
        }
        r
    }

    /// Applies one data frame: exactly the `spec_msg_add` transition. A
    /// frame for an unknown part index is corrupt; the part the frame
    /// addresses is created at its declared size on first contact; the
    /// result reports whether the message completed.
    #[verifier::loop_isolation(false)]
    pub fn add_frame(&mut self, frame: &DataFrame, now: u64) -> (r: Result<bool, NBMQError>)
        requires
            old(self).wf(),
        ensures
            final(self).wf(),
            final(self)@ == spec_msg_add(old(self)@, frame@, now).0,
            match r {
                Ok(b) => spec_msg_add(old(self)@, frame@, now).1 == Some(b),
                Err(e) => e matches NBMQError::FrameCorrupt && spec_msg_add(
                    old(self)@,
                    frame@,
                    now,
                ).1 is None,
            },
    {
        let idx = frame.part_index as usize;
        if idx >= self.parts.len() {
            return Err(NBMQError::FrameCorrupt);
        }

        let taken = self.parts.remove(idx);
        let ghost was_none = taken is None;
        let mut part = match taken {
            Some(p) => p,
            None => MessagePart::new(frame.part_size),
        };
        let ghost p0 = part@;
        let ghost parts0 = old(self)@.parts;
        proof {
            if was_none {
                assert(parts0[idx as int] is None);
                assert(p0 == PartV::empty(frame.part_size as nat));
            } else {
                assert(parts0[idx as int] == Some(p0));
            }
        }

        let res = part.add_frame(frame);
        let ghost p1 = part@;
        let ghost was_complete = part_is_complete(parts0[idx as int]);
        proof {
            lemma_complete_update(parts0, idx as int, Some(p1));
        }
        self.parts.insert(idx, Some(part));
        proof {
            assert(self.parts@ =~= old(self).parts@.update(idx as int, Some(part)));
            assert(self@.parts =~= parts0.update(idx as int, Some(p1)));
        }

        match res {
            Err(e) => {
                proof {
                    // a rejected chunk leaves the part unchanged
                    assert(p1 == p0);
                    if was_none {
                        assert(p0.assigned != p0.size || p0.size == 0);
                        assert(!part_is_complete(Some(p1)));
                    }
                    assert(part_is_complete(Some(p1)) == part_is_complete(parts0[idx as int]));
                }
                Err(NBMQError::FrameCorrupt)
            },
            Ok(completed) => {
                if completed {
                    proof {
                        // the part was not complete before, so the count grows
                        assert(!was_complete);
                        lemma_complete_count_le_len(self@.parts);
                        assert forall|i: int|
                            0 <= i < self@.parts.len() implies match #[trigger] self@.parts[i] {
                            Some(p) => p.size <= u32::MAX,
                            None => true,
                        } by {
                            if i != idx as int {
                                assert(self@.parts[i] == parts0[i]);
                            }
                        }
                        lemma_complete_sum_bound(self@.parts);
                        assert(self@.parts.len() <= 255);
                    }
                    self.completed_parts = self.completed_parts + 1;
                    self.assigned = self.assigned + (part_size_of(&self.parts, idx) as u64);
                }
                self.last_modify = now;

                let done = self.completed_parts == self.part_count && self.assigned == (
                self.size as u64);
                Ok(done)
            },
        }
    }
}

/// The declared size of the part at `idx`, which must exist.
fn part_size_of(parts: &Vec<Option<MessagePart>>, idx: usize) -> (r: u32)
    requires
        idx < parts@.len(),
        parts@[idx as int] is Some,
    ensures
        r as nat == parts@[idx as int].unwrap()@.size,
{
    match &parts[idx] {
        Some(p) => p.size,
        None => 0,
    }
}

/// The table key of a message: its session id and message id, packed.
pub open spec fn spec_msg_key(sid: u64, mid: u64) -> u128 {
    ((sid as u128) * 0x10000000000000000 + (mid as u128)) as u128
}

pub fn msg_key(sid: u64, mid: u64) -> (r: u128)
    ensures
        r == spec_msg_key(sid, mid),
{
    (sid as u128) * 0x10000000000000000u128 + (mid as u128)
}

/// The dedup records whose TTL has not lapsed: expired records are shed
/// from the front, oldest first, until a live one is met.
pub open spec fn spec_dedup_evict(d: Seq<((u64, u64), u64)>, now: u64, ttl: u64) -> Seq<
    ((u64, u64), u64),
>
    decreases d.len(),
{
    if d.len() > 0 && now - d[0].1 > ttl {
        spec_dedup_evict(d.drop_first(), now, ttl)
    } else {
        d
    }
}

pub open spec fn spec_dedup_contains(d: Seq<((u64, u64), u64)>, key: (u64, u64)) -> bool {
    exists|i: int| 0 <= i < d.len() && (#[trigger] d[i]).0 == key
}

/// Draining the completed table: keys are popped off the order deque until
/// one still bound in the table is met; that message leaves the table.
pub open spec fn spec_complete_drain(
    complete: Map<u128, Seq<Seq<u8>>>,
    deque: Seq<(u64, u64)>,
) -> (Map<u128, Seq<Seq<u8>>>, Seq<(u64, u64)>, Option<(Seq<Seq<u8>>, (u64, u64))>)
    decreases deque.len(),
{
    if deque.len() == 0 {
        (complete, deque, None)
    } else {
        let k = deque[0];
        let kk = spec_msg_key(k.0, k.1);
        if complete.contains_key(kk) {
            (complete.remove(kk), deque.drop_first(), Some((complete[kk], k)))
        } else {
            spec_complete_drain(complete, deque.drop_first())
        }
    }
}

/// The incoming table after one lazy maintenance pass at `now`: nothing
/// before `queue_maint_ivl` has lapsed since the last pass; otherwise
/// every message untouched for `uncompleted_message_ttl` is dropped.
pub open spec fn spec_maint_incoming(
    incoming: Map<u128, MsgV>,
    now: u64,
    ttl: u64,
) -> Map<u128, MsgV> {
    Map::new(
        |k: u128| incoming.contains_key(k) && spec_elapsed(now, incoming[k].last_modify) < ttl,
        |k: u128| incoming[k],
    )
}

/// Why a frame was refused, or that it was taken.
pub enum RecvPushOutcome {
    Accepted,
    Corrupt,
    Block,
}

/// The ghost image of a receive queue.
pub struct RecvQueueV {
    pub incoming: Map<u128, MsgV>,
    pub complete: Map<u128, Seq<Seq<u8>>>,
    pub deque: Seq<(u64, u64)>,
    pub last_maint: u64,
    pub dedup: Seq<((u64, u64), u64)>,
}

/// One data frame accepted at time `now`. Bytes that do not parse as a
/// data frame are corrupt. The frame's message is found or, below the
/// high-water mark, created; the frame is applied to it; a message this
/// completes moves to the completed table (under the high-water mark;
/// above it the message is dropped and the push blocks), keyed once: a
/// second completion of the same key changes nothing.
pub open spec fn spec_recv_push(q: RecvQueueV, data: Seq<u8>, now: u64, recv_hwm: nat) -> (
    RecvQueueV,
    RecvPushOutcome,
) {
    match spec_parse_data(data) {
        None => (q, RecvPushOutcome::Corrupt),
        Some(f) => {
            let key = spec_msg_key(f.session_id, f.message_id);
            let fresh = !q.incoming.contains_key(key);
            if fresh && q.incoming.dom().len() >= recv_hwm {
                (q, RecvPushOutcome::Block)
            } else {
                let m0 = if fresh {
                    MsgV::empty(f.message_size as nat, f.part_count as nat, now)
                } else {
                    q.incoming[key]
                };
                let step = spec_msg_add(m0, f, now);
                match step.1 {
                    None => (
                        RecvQueueV { incoming: q.incoming.insert(key, step.0), ..q },
                        RecvPushOutcome::Corrupt,
                    ),
                    Some(false) => (
                        RecvQueueV { incoming: q.incoming.insert(key, step.0), ..q },
                        RecvPushOutcome::Accepted,
                    ),
                    Some(true) => {
                        if q.complete.dom().len() < recv_hwm {
                            (
                                RecvQueueV {
                                    incoming: q.incoming.remove(key),
                                    complete: if q.complete.contains_key(key) {
                                        q.complete
                                    } else {
                                        q.complete.insert(key, spec_reassemble(step.0.parts))
                                    },
                                    deque: if q.complete.contains_key(key) {
                                        q.deque
                                    } else {
                                        q.deque.push((f.session_id, f.message_id))
                                    },
                                    ..q
                                },
                                RecvPushOutcome::Accepted,
                            )
                        } else {
                            (
                                RecvQueueV { incoming: q.incoming.remove(key), ..q },
                                RecvPushOutcome::Block,
                            )
                        }
                    },
                }
            }
        },
    }
}

pub struct RecvQueue {
    pub opt: SockOpt,

    pub incoming: KvList<IncomingMessage>,
    pub complete: KvList<Vec<Vec<u8>>>,
    pub complete_deque: Vec<(u64, u64)>,

    pub last_maint: u64,

    pub dedup: Vec<((u64, u64), u64)>,
}

impl View for RecvQueue {
    type V = RecvQueueV;

    open spec fn view(&self) -> RecvQueueV {
        RecvQueueV {
            incoming: Map::new(
                |k: u128| self.incoming@.contains_key(k),
                |k: u128| self.incoming@[k]@,
            ),
            complete: Map::new(
                |k: u128| self.complete@.contains_key(k),
                |k: u128| self.complete@[k].deep_view(),
            ),
            deque: self.complete_deque@,
            last_maint: self.last_maint,
            dedup: self.dedup@,
        }
    }
}

impl RecvQueue {
    pub open spec fn wf(&self) -> bool {
        &&& self.incoming.wf()
        &&& self.complete.wf()
        &&& forall|k: u128|
            self.incoming@.contains_key(k) ==> (#[trigger] self.incoming@[k]).wf()
    }

    pub fn new(opt: SockOpt, now: u64) -> (r: RecvQueue)
        ensures
            r.wf(),
            r.opt == opt,
            r@.incoming == Map::<u128, MsgV>::empty(),
            r@.complete == Map::<u128, Seq<Seq<u8>>>::empty(),
            r@.deque == Seq::<(u64, u64)>::empty(),
            r@.last_maint == now,
            r@.dedup == Seq::<((u64, u64), u64)>::empty(),
    {
        let r = RecvQueue {
            opt,
            incoming: KvList::new(),
            complete: KvList::new(),
            complete_deque: Vec::new(),
            last_maint: now,
            dedup: Vec::new(),
        };
        proof {
            assert(r@.incoming =~= Map::<u128, MsgV>::empty());
            assert(r@.complete =~= Map::<u128, Seq<Seq<u8>>>::empty());
            assert(r@.deque =~= Seq::<(u64, u64)>::empty());
            assert(r@.dedup =~= Seq::<((u64, u64), u64)>::empty());
        }
        r
    }

    /// Accepts one data frame at time `now`: exactly the `spec_recv_push`
    /// transition. A corrupt frame or an overfull table leaves its error;
    /// an accepted frame lands in its message, and a completed message
    /// moves to the completed table.
    pub fn push(&mut self, data: &Vec<u8>, now: u64) -> (r: Result<(), NBMQError>)
        requires
            old(self).wf(),
        ensures
            final(self).wf(),
            final(self).opt == old(self).opt,
            ({
                let t = spec_recv_push(old(self)@, data@, now, old(self).opt.recv_hwm as nat);
                &&& final(self)@ == t.0
                &&& match t.1 {
                    RecvPushOutcome::Accepted => r is Ok,
                    RecvPushOutcome::Corrupt => r matches Err(NBMQError::FrameCorrupt),
                    RecvPushOutcome::Block => r matches Err(NBMQError::WouldBlock),
                }
            }),
    {
        proof {
            crate::kvlist::lemma_map_of_dom_len(old(self).incoming.spec_entries());
            assert(old(self)@.incoming.dom() =~= old(self).incoming@.dom());
            crate::kvlist::lemma_map_of_dom_len(old(self).complete.spec_entries());
            assert(old(self)@.complete.dom() =~= old(self).complete@.dom());
        }
        let frame = match DataFrame::parse(data.as_slice()) {
            Some(f) => f,
            None => {
                return Err(NBMQError::FrameCorrupt);
            },
        };

        let key = msg_key(frame.session_id, frame.message_id);
        let ghost q0 = old(self)@;

        let existing = self.incoming.remove(key);
        let ghost was_fresh = existing is None;
        proof {
            if was_fresh {
                assert(q0.incoming.remove(key) =~= q0.incoming);
                assert(self@.incoming =~= q0.incoming);
            } else {
                assert(self@.incoming =~= q0.incoming.remove(key));
            }
        }

        let mut message = match existing {
            Some(m) => m,
            None => {
                if self.incoming.len() >= self.opt.recv_hwm {
                    return Err(NBMQError::WouldBlock);
                }
                IncomingMessage::new(frame.message_size, frame.part_count, now)
            },
        };
        let ghost m0 = message@;

        let res = message.add_frame(&frame, now);
        let ghost m1 = message@;

        match res {
            Err(e) => {
                self.incoming.insert(key, message);
                proof {
                    assert(self@.incoming =~= q0.incoming.insert(key, m1));
                    assert(self@ == (RecvQueueV { incoming: q0.incoming.insert(key, m1), ..q0 }));
                }
                Err(e)
            },
            Ok(false) => {
                self.incoming.insert(key, message);
                proof {
                    assert(self@.incoming =~= q0.incoming.insert(key, m1));
                    assert(self@ == (RecvQueueV { incoming: q0.incoming.insert(key, m1), ..q0 }));
                }
                Ok(())
            },
            Ok(true) => {
                proof {
                    assert(self@.incoming =~= q0.incoming.remove(key));
                }
                if self.complete.len() < self.opt.recv_hwm {
                    if !self.complete.contains_key(key) {
                        proof {
                            assert(m1.completed_parts == m1.parts.len());
                            lemma_msg_complete_parts(m0, frame@, now);
                        }
                        let reassembly = reassemble(message);
                        self.complete.insert(key, reassembly);
                        self.complete_deque.push((frame.session_id, frame.message_id));
                        proof {
                            assert(self@.complete =~= q0.complete.insert(
                                key,
                                spec_reassemble(m1.parts),
                            ));
                            assert(self@.deque =~= q0.deque.push((
                                frame.session_id,
                                frame.message_id,
                            )));
                        }
                    }
                    Ok(())
                } else {
                    Err(NBMQError::WouldBlock)
                }
            },
        }
    }
}

impl RecvQueue {
    /// Lazy maintenance: at most once per `queue_maint_ivl`, drop every
    /// incoming message untouched for `uncompleted_message_ttl` or longer.
    fn maint(&mut self, now: u64)
        requires
            old(self).wf(),
        ensures
            final(self).wf(),
            final(self).opt == old(self).opt,
            spec_elapsed(now, old(self).last_maint) < old(self).opt.queue_maint_ivl
                ==> final(self)@ == old(self)@,
            spec_elapsed(now, old(self).last_maint) >= old(self).opt.queue_maint_ivl
                ==> final(self)@ == (RecvQueueV {
                incoming: spec_maint_incoming(
                    old(self)@.incoming,
                    now,
                    old(self).opt.uncompleted_message_ttl,
                ),
                last_maint: now,
                ..old(self)@
            }),
    {
        if now.saturating_sub(self.last_maint) < self.opt.queue_maint_ivl {
            return ;
        }

        self.last_maint = now;
        let ghost inc0 = self@.incoming;
        let ghost ttl = self.opt.uncompleted_message_ttl;
        let keys = self.incoming.keys();
        let ghost entries0 = self.incoming.spec_entries();
        proof {
            assert forall|j: int| 0 <= j < keys@.len() implies inc0.contains_key(
                #[trigger] keys@[j],
            ) by {
                crate::kvlist::lemma_map_of_contains(entries0, j);
            }
            assert forall|a: int, b: int|
                0 <= a < b < keys@.len() implies keys@[a] != keys@[b] by {
                assert(keys@[a] == entries0[a].0 && keys@[b] == entries0[b].0);
            }
        }

        let mut i: usize = 0;
        while i < keys.len()
            invariant
                self.wf(),
                self.opt == old(self).opt,
                self.last_maint == now,
                self.complete == old(self).complete,
                self.complete_deque == old(self).complete_deque,
                self.dedup == old(self).dedup,
                ttl == self.opt.uncompleted_message_ttl,
                i <= keys@.len(),
                keys@ == entries0.map_values(|e: (u128, IncomingMessage)| e.0),
                forall|k: u128|
                    inc0.contains_key(k) <==> crate::kvlist::map_of(entries0).contains_key(k),
                forall|k: u128|
                    crate::kvlist::map_of(entries0).contains_key(k) ==> inc0[k]
                        == (#[trigger] crate::kvlist::map_of(entries0)[k])@,
                forall|j: int| 0 <= j < keys@.len() ==> inc0.contains_key(#[trigger] keys@[j]),
                forall|a: int, b: int| 0 <= a < b < keys@.len() ==> keys@[a] != keys@[b],
                forall|k: u128|
                    #[trigger] self@.incoming.contains_key(k) ==> inc0.contains_key(k)
                        && self@.incoming[k] == inc0[k],
                forall|k: u128|
                    inc0.contains_key(k) && !keys@.take(i as int).contains(k)
                        ==> #[trigger] self@.incoming.contains_key(k),
                forall|j: int|
                    0 <= j < i ==> (#[trigger] self@.incoming.contains_key(keys@[j]) <==>
                        spec_elapsed(now, inc0[keys@[j]].last_modify) < ttl),
            decreases keys@.len() - i,
        {
            let k = keys[i];
            let ghost inc_pre = self@.incoming;

            let stale = match self.incoming.get(k) {
                Some(m) => now.saturating_sub(m.last_modify) >= self.opt.uncompleted_message_ttl,
                None => false,
            };
            if stale {
                let _ = self.incoming.remove(k);
                proof {
                    assert(self@.incoming =~= inc_pre.remove(k));
                }
            }
            i = i + 1;
            proof {
                // this key was present before this step: it is not among
                // the keys already handled
                assert(!keys@.take(i as int - 1).contains(k)) by {
                    if keys@.take(i as int - 1).contains(k) {
                        let j = choose|j: int|
                            0 <= j < i - 1 && #[trigger] keys@.take(i as int - 1)[j] == k;
                        assert(keys@[j] == keys@[i - 1]);
                    }
                }
                assert(inc_pre.contains_key(k));
                assert(inc_pre[k] == inc0[k]);
                assert(keys@.take(i as int)[i - 1] == k);
                assert(keys@.take(i as int).contains(k));
                assert forall|k2: u128|
                    inc0.contains_key(k2) && !keys@.take(i as int).contains(k2)
                        implies #[trigger] self@.incoming.contains_key(k2) by {
                    assert(!keys@.take(i as int - 1).contains(k2)) by {
                        if keys@.take(i as int - 1).contains(k2) {
                            let j = choose|j: int|
                                0 <= j < i - 1 && #[trigger] keys@.take(i as int - 1)[j] == k2;
                            assert(keys@.take(i as int)[j] == k2);
                        }
                    }
                    assert(k2 != k);
                    assert(inc_pre.contains_key(k2));
                }
                assert forall|j: int|
                    0 <= j < i implies (#[trigger] self@.incoming.contains_key(keys@[j]) <==>
                        spec_elapsed(now, inc0[keys@[j]].last_modify) < ttl) by {
                    if j < i - 1 {
                        assert(keys@[j] != k);
                    }
                }
            }
        }

        proof {
            assert(keys@.take(keys@.len() as int) =~= keys@);
            assert(self@.incoming =~= spec_maint_incoming(inc0, now, ttl)) by {
                assert forall|k: u128|
                    spec_maint_incoming(inc0, now, ttl).contains_key(k)
                        implies self@.incoming.contains_key(k) && self@.incoming[k] == inc0[k] by {
                    assert(inc0.contains_key(k));
                    assert(crate::kvlist::map_of(entries0).contains_key(k));
                    let j = crate::kvlist::lemma_map_of_key_index(entries0, k);
                    assert(keys@[j] == entries0[j].0);
                    assert(keys@[j] == k);
                    assert(spec_elapsed(now, inc0[keys@[j]].last_modify) < ttl);
                    assert(self@.incoming.contains_key(keys@[j]));
                }
                assert forall|k: u128|
                    self@.incoming.contains_key(k) implies spec_maint_incoming(
                    inc0,
                    now,
                    ttl,
                ).contains_key(k) by {
                    assert(inc0.contains_key(k));
                    assert(crate::kvlist::map_of(entries0).contains_key(k));
                    let j = crate::kvlist::lemma_map_of_key_index(entries0, k);
                    assert(keys@[j] == entries0[j].0);
                    assert(keys@[j] == k);
                    assert(self@.incoming.contains_key(keys@[j]));
                    assert(spec_elapsed(now, inc0[keys@[j]].last_modify) < ttl);
                }
            }
            assert(inc0 =~= old(self)@.incoming);
            assert(self@.complete =~= old(self)@.complete);
            assert(self@ == (RecvQueueV {
                incoming: spec_maint_incoming(
                    old(self)@.incoming,
                    now,
                    old(self).opt.uncompleted_message_ttl,
                ),
                last_maint: now,
                ..old(self)@
            }));
        }
    }

    /// Hands out the next completed message with its key, oldest first,
    /// after one lazy maintenance pass. `None` when nothing is complete.
    pub fn pull(&mut self, now: u64) -> (r: Option<(Vec<Vec<u8>>, (u64, u64))>)
        requires
            old(self).wf(),
        ensures
            final(self).wf(),
            final(self).opt == old(self).opt,
            ({
                let q1 = if spec_elapsed(now, old(self).last_maint)
                    >= old(self).opt.queue_maint_ivl {
                    RecvQueueV {
                        incoming: spec_maint_incoming(
                            old(self)@.incoming,
                            now,
                            old(self).opt.uncompleted_message_ttl,
                        ),
                        last_maint: now,
                        ..old(self)@
                    }
                } else {
                    old(self)@
                };
                let d = spec_complete_drain(q1.complete, q1.deque);
                &&& final(self)@ == (RecvQueueV { complete: d.0, deque: d.1, ..q1 })
                &&& match r {
                    Some(p) => d.2 == Some((p.0.deep_view(), p.1)),
                    None => d.2 is None,
                }
            }),
    {
        self.maint(now);

        let ghost q1 = self@;

        loop
            invariant
                self.wf(),
                self.opt == old(self).opt,
                q1 == (if spec_elapsed(now, old(self).last_maint) >= old(self).opt.queue_maint_ivl {
                    RecvQueueV {
                        incoming: spec_maint_incoming(
                            old(self)@.incoming,
                            now,
                            old(self).opt.uncompleted_message_ttl,
                        ),
                        last_maint: now,
                        ..old(self)@
                    }
                } else {
                    old(self)@
                }),
                self@.incoming == q1.incoming,
                self@.last_maint == q1.last_maint,
                self@.dedup == q1.dedup,
                spec_complete_drain(q1.complete, q1.deque) == spec_complete_drain(
                    self@.complete,
                    self@.deque,
                ),
            ensures
                self.wf(),
                self.opt == old(self).opt,
                self@.incoming == q1.incoming,
                self@.last_maint == q1.last_maint,
                self@.dedup == q1.dedup,
                spec_complete_drain(q1.complete, q1.deque) == (
                    self@.complete,
                    self@.deque,
                    None::<(Seq<Seq<u8>>, (u64, u64))>,
                ),
            decreases self.complete_deque@.len(),
        {
            if self.complete_deque.len() == 0 {
                break ;
            }

            let ghost pre = self@;
            let k = self.complete_deque.remove(0);
            proof {
                assert(self@.deque =~= pre.deque.drop_first());
            }

            match self.complete.remove(msg_key(k.0, k.1)) {
                Some(message) => {
                    proof {
                        assert(self@.incoming =~= pre.incoming);
                        assert(self@.complete =~= pre.complete.remove(spec_msg_key(k.0, k.1)));
                        assert(message.deep_view() == pre.complete[spec_msg_key(k.0, k.1)]);
                        assert(spec_complete_drain(pre.complete, pre.deque) == (
                            self@.complete,
                            self@.deque,
                            Some((message.deep_view(), k)),
                        ));
                        let d = spec_complete_drain(q1.complete, q1.deque);
                        assert(self@ == (RecvQueueV { complete: d.0, deque: d.1, ..q1 }));
                    }
                    return Some((message, k));
                },
                None => {
                    proof {
                        assert(self@.incoming =~= pre.incoming);
                        assert(self@.complete =~= pre.complete);
                    }
                },
            }
        }

        proof {
            let d = spec_complete_drain(q1.complete, q1.deque);
            assert(self@ == (RecvQueueV { complete: d.0, deque: d.1, ..q1 }));
        }
        None
    }

    /// Like `pull`, but at most once per message key within the dedup TTL:
    /// expired dedup records are shed, then the message is delivered only
    /// if its key is new to the dedup set; a duplicate is dropped.
    pub fn pull_safe(&mut self, now: u64) -> (r: Option<(Vec<Vec<u8>>, (u64, u64))>)
        requires
            old(self).wf(),
        ensures
            final(self).wf(),
            final(self).opt == old(self).opt,
            ({
                let q1 = if spec_elapsed(now, old(self).last_maint)
                    >= old(self).opt.queue_maint_ivl {
                    RecvQueueV {
                        incoming: spec_maint_incoming(
                            old(self)@.incoming,
                            now,
                            old(self).opt.uncompleted_message_ttl,
                        ),
                        last_maint: now,
                        ..old(self)@
                    }
                } else {
                    old(self)@
                };
                let d = spec_complete_drain(q1.complete, q1.deque);
                let q2 = RecvQueueV { complete: d.0, deque: d.1, ..q1 };
                match d.2 {
                    None => r is None && final(self)@ == q2,
                    Some(delivery) => {
                        let evicted = spec_dedup_evict(
                            q2.dedup,
                            now,
                            old(self).opt.safe_hash_dedup_ttl,
                        );
                        if spec_dedup_contains(evicted, delivery.1) {
                            r is None && final(self)@ == (RecvQueueV { dedup: evicted, ..q2 })
                        } else {
                            (match r {
                                Some(p) => d.2 == Some((p.0.deep_view(), p.1)),
                                None => false,
                            }) && final(self)@ == (RecvQueueV {
                                dedup: evicted.push((delivery.1, now)),
                                ..q2
                            })
                        }
                    },
                }
            }),
    {
        let pulled = self.pull(now);
        let (message, key) = match pulled {
            Some(p) => p,
            None => {
                return None;
            },
        };

        let ghost q2 = self@;

        // shed expired dedup records, oldest first
        loop
            invariant
                self.wf(),
                self.opt == old(self).opt,
                q2 == ({
                    let q1 = (if spec_elapsed(now, old(self).last_maint) >= old(self).opt.queue_maint_ivl {
                    RecvQueueV {
                        incoming: spec_maint_incoming(
                            old(self)@.incoming,
                            now,
                            old(self).opt.uncompleted_message_ttl,
                        ),
                        last_maint: now,
                        ..old(self)@
                    }
                } else {
                    old(self)@
                });
                    let d = spec_complete_drain(q1.complete, q1.deque);
                    RecvQueueV { complete: d.0, deque: d.1, ..q1 }
                }),
                ({
                    let q1 = (if spec_elapsed(now, old(self).last_maint) >= old(self).opt.queue_maint_ivl {
                    RecvQueueV {
                        incoming: spec_maint_incoming(
                            old(self)@.incoming,
                            now,
                            old(self).opt.uncompleted_message_ttl,
                        ),
                        last_maint: now,
                        ..old(self)@
                    }
                } else {
                    old(self)@
                });
                    spec_complete_drain(q1.complete, q1.deque).2
                }) == Some((message.deep_view(), key)),
                self@.incoming == q2.incoming,
                self@.complete == q2.complete,
                self@.deque == q2.deque,
                self@.last_maint == q2.last_maint,
                spec_dedup_evict(q2.dedup, now, self.opt.safe_hash_dedup_ttl) == spec_dedup_evict(
                    self@.dedup,
                    now,
                    self.opt.safe_hash_dedup_ttl,
                ),
            ensures
                self.wf(),
                self.opt == old(self).opt,
                self@.incoming == q2.incoming,
                self@.complete == q2.complete,
                self@.deque == q2.deque,
                self@.last_maint == q2.last_maint,
                self@.dedup == spec_dedup_evict(q2.dedup, now, self.opt.safe_hash_dedup_ttl),
            decreases self.dedup@.len(),
        {
            if self.dedup.len() == 0 {
                break ;
            }
            let head = self.dedup[0];
            if !(now.saturating_sub(head.1) > self.opt.safe_hash_dedup_ttl) {
                break ;
            }
            let ghost pre = self@;
            let _ = self.dedup.remove(0);
            proof {
                assert(self@.dedup =~= pre.dedup.drop_first());
                assert(self@.incoming =~= pre.incoming);
                assert(self@.complete =~= pre.complete);
            }
        }

        // admit the message only if its key is new
        let mut j: usize = 0;
        let n = self.dedup.len();
        while j < n
            invariant
                self.wf(),
                self.opt == old(self).opt,
                q2 == ({
                    let q1 = (if spec_elapsed(now, old(self).last_maint) >= old(self).opt.queue_maint_ivl {
                    RecvQueueV {
                        incoming: spec_maint_incoming(
                            old(self)@.incoming,
                            now,
                            old(self).opt.uncompleted_message_ttl,
                        ),
                        last_maint: now,
                        ..old(self)@
                    }
                } else {
                    old(self)@
                });
                    let d = spec_complete_drain(q1.complete, q1.deque);
                    RecvQueueV { complete: d.0, deque: d.1, ..q1 }
                }),
                ({
                    let q1 = (if spec_elapsed(now, old(self).last_maint) >= old(self).opt.queue_maint_ivl {
                    RecvQueueV {
                        incoming: spec_maint_incoming(
                            old(self)@.incoming,
                            now,
                            old(self).opt.uncompleted_message_ttl,
                        ),
                        last_maint: now,
                        ..old(self)@
                    }
                } else {
                    old(self)@
                });
                    spec_complete_drain(q1.complete, q1.deque).2
                }) == Some((message.deep_view(), key)),
                n == self.dedup@.len(),
                j <= n,
                self@ == (RecvQueueV {
                    dedup: spec_dedup_evict(q2.dedup, now, self.opt.safe_hash_dedup_ttl),
                    ..q2
                }),
                forall|i: int| 0 <= i < j ==> (#[trigger] self.dedup@[i]).0 != key,
            decreases n - j,
        {
            let e = self.dedup[j];
            if e.0.0 == key.0 && e.0.1 == key.1 {
                proof {
                    assert(self.dedup@[j as int].0 == key);
                    assert(spec_dedup_contains(self@.dedup, key));
                }
                return None;
            }
            j = j + 1;
        }

        proof {
            assert(!spec_dedup_contains(self@.dedup, key));
        }
        let ghost pre = self@;
        self.dedup.push((key, now));
        proof {
            assert(self@.dedup =~= pre.dedup.push((key, now)));
            assert(self@.incoming =~= pre.incoming);
            assert(self@.complete =~= pre.complete);
        }
        Some((message, key))
    }
}

/// A complete message has a count at its part count; with every slot
/// complete the message is fully assembled.
pub proof fn lemma_msg_complete_parts(m0: MsgV, f: DataFrameV, now: u64)
    requires
        spec_msg_add(m0, f, now).1 == Some(true),
        m0.completed_parts == spec_complete_count(m0.parts),
        m0.part_count == m0.parts.len(),
    ensures
        spec_complete_count(spec_msg_add(m0, f, now).0.parts) == spec_msg_add(
            m0,
            f,
            now,
        ).0.parts.len(),
{
    let m1 = spec_msg_add(m0, f, now).0;
    let i = f.part_index as int;
    let p0 = match m0.parts[i] {
        Some(p) => p,
        None => PartV::empty(f.part_size as nat),
    };
    let r = spec_part_add(p0, f.chunk_offset as nat, f.chunk_size as nat, f.chunk);
    lemma_complete_update(m0.parts, i, Some(r.0));
}

/// Moves the fully assembled parts of a complete message out, in order.
fn reassemble(m: IncomingMessage) -> (r: Vec<Vec<u8>>)
    requires
        m.wf(),
        spec_complete_count(m@.parts) == m@.parts.len(),
    ensures
        r.deep_view() == spec_reassemble(m@.parts),
{
    proof {
        lemma_all_parts_complete(m@.parts);
    }
    let ghost parts0 = m@.parts;
    let mut m = m;
    let mut out: Vec<Vec<u8>> = Vec::new();
    while m.parts.len() > 0
        invariant
            out@.len() + m.parts@.len() == parts0.len(),
            forall|j: int|
                0 <= j < m.parts@.len() ==> (match #[trigger] m.parts@[j] {
                    Some(p) => Some(p@),
                    None => None,
                }) == parts0[out@.len() + j],
            forall|i: int| 0 <= i < parts0.len() ==> part_is_complete(#[trigger] parts0[i]),
            out.deep_view() =~= spec_reassemble(parts0).take(out@.len() as int),
        decreases m.parts@.len(),
    {
        let ghost done = out@.len() as int;
        let item = m.parts.remove(0);
        match item {
            Some(p) => {
                let ghost pv = p@;
                out.push(p.data);
                proof {
                    assert(parts0[done] == Some(pv));
                    assert(out@[done]@ == pv.data);
                    assert(out@[done].deep_view() =~= out@[done]@);
                    assert(out.deep_view() =~= spec_reassemble(parts0).take(done + 1));
                }
            },
            None => {
                proof {
                    assert(parts0[done] is Some);
                    assert(false);
                }
                return vstd::pervasive::unreached();
            },
        }
    }
    proof {
        assert(spec_reassemble(parts0).take(parts0.len() as int) =~= spec_reassemble(parts0));
    }
    out
}

/// A row of empty slots has nothing complete.
pub proof fn lemma_all_none_counts(parts: Seq<Option<PartV>>)
    requires
        forall|i: int| 0 <= i < parts.len() ==> (#[trigger] parts[i]) is None,
    ensures
        spec_complete_count(parts) == 0,
        spec_complete_sum(parts) == 0,
    decreases parts.len(),
{
    if parts.len() > 0 {
        lemma_all_none_counts(parts.drop_last());
    }
}

} // verus!
