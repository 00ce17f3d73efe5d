//! The reassembly laws: a message's chunk frames, applied to a fresh
//! message shell in any order and with any duplication, reassemble the
//! original parts exactly, provided every frame arrives at least once.
use vstd::prelude::*;

use vstd::arithmetic::div_mod::{lemma_fundamental_div_mod, lemma_mod_self_0, lemma_sub_mod_noop};
use vstd::set_lib::{lemma_int_range, set_int_range};

use crate::frame::{
    lemma_parse_data_of_encoding, spec_parse_data, DataFrameV, MAX_DATA_SIZE, VERSION,
};
use crate::recv_queue::{
    lemma_complete_update, lemma_ranges_sum_eq_size_covers, lemma_ranges_sum_le_size,
    part_is_complete, range_set, ranges_disjoint, spec_complete_count, spec_complete_sum,
    spec_covered, spec_msg_add, spec_overlaps, spec_part_add, spec_ranges_sum, spec_ranges_wf,
    spec_reassemble, spec_splice, MsgV, PartV,
};
use crate::send_queue::{
    spec_message_frames, spec_message_frames_from, spec_part_frames, spec_part_frames_from,
    spec_total_size,
};

verus! {

/// Whether `[lo, hi)` is one of the canonical chunks a part of `n` bytes
/// splits into: it starts at a multiple of the chunk size, inside the
/// part, and runs to the next boundary or the part's end.
pub open spec fn is_chunk_range(n: nat, lo: nat, hi: nat) -> bool {
    &&& lo % (MAX_DATA_SIZE as nat) == 0
    &&& lo < n
    &&& hi == (if lo + (MAX_DATA_SIZE as nat) <= n {
        lo + (MAX_DATA_SIZE as nat)
    } else {
        n
    })
}

/// Two canonical chunks of one part either coincide or share no byte.
pub proof fn lemma_chunks_same_or_disjoint(n: nat, lo1: nat, hi1: nat, lo2: nat, hi2: nat)
    requires
        is_chunk_range(n, lo1, hi1),
        is_chunk_range(n, lo2, hi2),
    ensures
        lo1 == lo2 || hi1 <= lo2 || hi2 <= lo1,
    decreases (if lo1 < lo2 {
        0int
    } else {
        1int
    }),
{
    let c = MAX_DATA_SIZE as nat;
    if lo1 != lo2 {
        if lo1 < lo2 {
            lemma_sub_mod_noop(lo2 as int, lo1 as int, c as int);
            lemma_mod_self_0(c as int);
            assert((lo2 - lo1) % (c as int) == 0);
            lemma_fundamental_div_mod(lo2 - lo1, c as int);
            assert(lo2 - lo1 == (c as int) * ((lo2 - lo1) / (c as int)));
            assert((lo2 - lo1) / (c as int) >= 1) by {
                if (lo2 - lo1) / (c as int) <= 0 {
                    assert((c as int) * ((lo2 - lo1) / (c as int)) <= 0)
                        by (nonlinear_arith)
                        requires
                            (lo2 - lo1) / (c as int) <= 0,
                            c > 0,
                    ;
                }
            }
            assert(lo2 - lo1 >= c) by {
                assert((c as int) * ((lo2 - lo1) / (c as int)) >= c * 1) by (nonlinear_arith)
                    requires
                        (lo2 - lo1) / (c as int) >= 1,
                        c > 0,
                ;
            }
        } else {
            lemma_chunks_same_or_disjoint(n, lo2, hi2, lo1, hi1);
        }
    }
}

/// Every byte of a part lies in exactly one canonical chunk.
pub proof fn lemma_byte_in_some_chunk(n: nat, x: nat) -> (lo: nat)
    requires
        x < n,
    ensures
        is_chunk_range(
            n,
            lo,
            if lo + (MAX_DATA_SIZE as nat) <= n {
                lo + (MAX_DATA_SIZE as nat)
            } else {
                n
            },
        ),
        lo <= x,
        x < lo + (MAX_DATA_SIZE as nat),
{
    let c = MAX_DATA_SIZE as nat;
    lemma_fundamental_div_mod(x as int, c as int);
    let lo = (x - (x % (c as nat))) as nat;
    assert(x % (c as nat) < c) by {
        vstd::arithmetic::div_mod::lemma_mod_bound(x as int, c as int);
    }
    assert(lo % c == 0) by {
        lemma_sub_mod_noop(x as int, (x % (c as nat)) as int, c as int);
        vstd::arithmetic::div_mod::lemma_mod_twice(x as int, c as int);
        lemma_mod_self_0(c as int);
    }
    lo
}

/// A part under reassembly is faithful to the original part bytes: every
/// accepted range is a canonical chunk, and every covered byte agrees
/// with the original.
pub open spec fn part_consistent(p: PartV, part: Seq<u8>) -> bool {
    &&& p.wf()
    &&& p.size == part.len()
    &&& forall|j: int|
        0 <= j < p.ranges.len() ==> is_chunk_range(
            part.len(),
            (#[trigger] p.ranges[j]).0 as nat,
            p.ranges[j].1 as nat,
        )
    &&& forall|x: int|
        #[trigger] spec_covered(p.ranges).contains(x) ==> 0 <= x < part.len() && p.data[x]
            == part[x]
}

/// One canonical chunk applied to a faithful part: never rejected as
/// corrupt, the part stays faithful, and afterwards the chunk's bytes are
/// covered; nothing previously covered is lost.
pub proof fn lemma_part_add_consistent(p: PartV, part: Seq<u8>, lo: nat, hi: nat)
    requires
        part_consistent(p, part),
        part.len() <= u32::MAX,
        is_chunk_range(part.len(), lo, hi),
    ensures
        ({
            let r = spec_part_add(p, lo, (hi - lo) as nat, part.subrange(lo as int, hi as int));
            &&& r.1 is Some
            &&& part_consistent(r.0, part)
            &&& spec_covered(p.ranges).subset_of(spec_covered(r.0.ranges))
            &&& forall|x: int| lo <= x < hi ==> spec_covered(#[trigger] r.0.ranges).contains(x)
        }),
{
    let csz = (hi - lo) as nat;
    let chunk = part.subrange(lo as int, hi as int);
    let r = spec_part_add(p, lo, csz, chunk);
    assert(hi <= part.len() && lo < hi);

    if p.assigned == p.size {
        // already complete: every byte is covered
        lemma_ranges_sum_eq_size_covers(p.ranges, p.size);
        lemma_int_range(0, p.size as int);
        assert forall|x: int| lo <= x < hi implies spec_covered(r.0.ranges).contains(x) by {
            assert(set_int_range(0, p.size as int).contains(x));
        }
    } else if spec_overlaps(p.ranges, lo, csz) {
        // the overlapping range is the same canonical chunk
        let j = choose|j: int|
            0 <= j < p.ranges.len() && !ranges_disjoint(
                #[trigger] p.ranges[j],
                (lo as u32, (lo + csz) as u32),
            );
        lemma_chunks_same_or_disjoint(
            part.len(),
            p.ranges[j].0 as nat,
            p.ranges[j].1 as nat,
            lo,
            hi,
        );
        assert(p.ranges[j].0 == lo && p.ranges[j].1 == hi);
        assert forall|x: int| lo <= x < hi implies spec_covered(r.0.ranges).contains(x) by {
            crate::recv_queue::lemma_covered_membership(p.ranges, x);
        }
    } else {
        // a fresh chunk: applied
        let pushed = p.ranges.push((lo as u32, hi as u32));
        assert(pushed.drop_last() =~= p.ranges);
        assert forall|i: int, j2: int|
            0 <= i < pushed.len() && 0 <= j2 < pushed.len() && i != j2 implies ranges_disjoint(
            #[trigger] pushed[i],
            #[trigger] pushed[j2],
        ) by {
            if i < pushed.len() - 1 && j2 < pushed.len() - 1 {
                assert(pushed[i] == p.ranges[i] && pushed[j2] == p.ranges[j2]);
            } else if i == pushed.len() - 1 {
                assert(pushed[j2] == p.ranges[j2]);
                assert(!spec_overlaps(p.ranges, lo, csz));
                assert(ranges_disjoint(p.ranges[j2], (lo as u32, (lo + csz) as u32)));
            } else {
                assert(pushed[i] == p.ranges[i]);
                assert(ranges_disjoint(p.ranges[i], (lo as u32, (lo + csz) as u32)));
            }
        }
        assert forall|i: int|
            0 <= i < pushed.len() implies (#[trigger] pushed[i]).0 < pushed[i].1 && pushed[i].1
            <= part.len() by {
            if i < pushed.len() - 1 {
                assert(pushed[i] == p.ranges[i]);
            }
        }
        assert(spec_ranges_wf(pushed, p.size));
        assert(spec_ranges_sum(pushed) == p.assigned + csz);
        lemma_ranges_sum_le_size(pushed, p.size);

        let p1 = r.0;
        assert(p1.ranges == pushed);
        assert(p1.data == spec_splice(p.data, lo, chunk));
        assert(p1.data.len() == p.size);

        // coverage of the new state: the old ranges plus the new chunk
        assert(spec_covered(pushed) =~= spec_covered(p.ranges) + range_set((lo as u32, hi as u32)));

        assert(p1.data.len() == p.size) by {
            assert(p.data.take(lo as int).len() == lo);
            assert(chunk.len() == csz);
            assert(p.data.skip(lo as int + csz as int).len() == p.size - lo - csz);
        }
        assert forall|x: int|
            #[trigger] spec_covered(p1.ranges).contains(x) implies 0 <= x < part.len()
            && p1.data[x] == part[x] by {
            if range_set((lo as u32, hi as u32)).contains(x) {
                assert(p1.data[x] == chunk[x - lo]);
                assert(chunk[x - lo] == part[x]);
            } else {
                assert(spec_covered(p.ranges).contains(x));
                // the fresh chunk is disjoint from everything covered
                crate::recv_queue::lemma_covered_membership(p.ranges, x);
                let i = choose|i: int|
                    0 <= i < p.ranges.len() && (#[trigger] p.ranges[i]).0 <= x < p.ranges[i].1;
                assert(ranges_disjoint(p.ranges[i], (lo as u32, (lo + csz) as u32)));
                assert(x < lo || x >= hi);
                assert(p1.data[x] == p.data[x]);
            }
        }
        assert forall|j: int|
            0 <= j < p1.ranges.len() implies is_chunk_range(
            part.len(),
            (#[trigger] p1.ranges[j]).0 as nat,
            p1.ranges[j].1 as nat,
        ) by {
            if j < p1.ranges.len() - 1 {
                assert(p1.ranges[j] == p.ranges[j]);
            } else {
                assert(p1.ranges[j] == (lo as u32, hi as u32));
            }
        }
        assert(p1.wf());
        assert(part_consistent(p1, part));
        assert(spec_covered(p.ranges).subset_of(spec_covered(p1.ranges)));
        assert forall|x: int| lo <= x < hi implies spec_covered(
            #[trigger] p1.ranges,
        ).contains(x) by {
            assert(range_set((lo as u32, hi as u32)).contains(x));
        }
    }
}

/// A fully covered faithful part holds exactly the original bytes.
pub proof fn lemma_part_data_complete(p: PartV, part: Seq<u8>)
    requires
        part_consistent(p, part),
        spec_covered(p.ranges) == set_int_range(0, part.len() as int),
    ensures
        p.data == part,
{
    assert forall|x: int| 0 <= x < p.data.len() implies p.data[x] == part[x] by {
        assert(set_int_range(0, part.len() as int).contains(x));
        assert(spec_covered(p.ranges).contains(x));
    }
    assert(p.data =~= part);
}

/// A message under reassembly is faithful to its original parts.
pub open spec fn msg_consistent(m: MsgV, parts: Seq<Seq<u8>>) -> bool {
    &&& m.parts.len() == parts.len()
    &&& m.part_count == parts.len()
    &&& m.size == spec_total_size(parts)
    &&& m.completed_parts == spec_complete_count(m.parts)
    &&& m.assigned == spec_complete_sum(m.parts)
    &&& forall|i: int|
        0 <= i < m.parts.len() ==> match #[trigger] m.parts[i] {
            Some(p) => part_consistent(p, parts[i]),
            None => true,
        }
}

/// The bytes slot `i` has assembled so far.
pub open spec fn slot_covered(m: MsgV, i: int) -> Set<int> {
    match m.parts[i] {
        Some(p) => spec_covered(p.ranges),
        None => Set::empty(),
    }
}

/// A parsed data frame that belongs to the message: right ids, right
/// sizes, and a canonical chunk of its part.
pub open spec fn is_message_frame_view(
    f: DataFrameV,
    session_id: u64,
    mid: u64,
    parts: Seq<Seq<u8>>,
) -> bool {
    &&& f.version == VERSION
    &&& f.kind == 0
    &&& f.session_id == session_id
    &&& f.message_id == mid
    &&& f.part_count as int == parts.len()
    &&& (f.part_index as int) < parts.len()
    &&& f.message_size == spec_total_size(parts)
    &&& f.part_size == parts[f.part_index as int].len()
    &&& is_chunk_range(
        parts[f.part_index as int].len(),
        f.chunk_offset as nat,
        f.chunk_offset as nat + f.chunk_size as nat,
    )
    &&& f.chunk == parts[f.part_index as int].subrange(
        f.chunk_offset as int,
        f.chunk_offset as int + f.chunk_size as int,
    )
}

/// One message frame applied to a faithful message: never corrupt, the
/// message stays faithful, no slot loses coverage, and the frame's chunk
/// is covered afterwards.
pub proof fn lemma_msg_add_consistent(
    m: MsgV,
    parts: Seq<Seq<u8>>,
    session_id: u64,
    mid: u64,
    f: DataFrameV,
    now: u64,
)
    requires
        msg_consistent(m, parts),
        is_message_frame_view(f, session_id, mid, parts),
    ensures
        ({
            let r = spec_msg_add(m, f, now);
            &&& r.1 is Some
            &&& msg_consistent(r.0, parts)
            &&& forall|i: int|
                0 <= i < parts.len() ==> slot_covered(m, i).subset_of(
                    #[trigger] slot_covered(r.0, i),
                )
            &&& forall|x: int|
                f.chunk_offset <= x < f.chunk_offset + f.chunk_size ==> #[trigger] slot_covered(
                    r.0,
                    f.part_index as int,
                ).contains(x)
        }),
{
    let pi = f.part_index as int;
    let part = parts[pi];
    let p0 = match m.parts[pi] {
        Some(p) => p,
        None => PartV::empty(f.part_size as nat),
    };

    if m.parts[pi] is None {
        assert(part_consistent(p0, part)) by {
            assert(p0.data.len() == p0.size);
            assert(p0.ranges =~= Seq::<(u32, u32)>::empty());
            assert(spec_covered(p0.ranges) =~= Set::<int>::empty());
            assert(spec_ranges_sum(p0.ranges) == 0);
        }
        assert(slot_covered(m, pi) =~= Set::<int>::empty());
    }

    let lo = f.chunk_offset as nat;
    let hi = (f.chunk_offset as nat + f.chunk_size as nat) as nat;
    lemma_part_add_consistent(p0, part, lo, hi);
    let r = spec_part_add(p0, lo, (hi - lo) as nat, part.subrange(lo as int, hi as int));
    assert(f.chunk == part.subrange(lo as int, hi as int));
    assert(spec_part_add(p0, f.chunk_offset as nat, f.chunk_size as nat, f.chunk) == r);

    let p1 = r.0;
    lemma_complete_update(m.parts, pi, Some(p1));

    let t = spec_msg_add(m, f, now);
    assert(t.0.parts == m.parts.update(pi, Some(p1)));

    // the completion report matches the counted completion
    let completed = r.1 == Some(true);
    assert(part.len() > 0);
    assert(p1.size == part.len());
    if completed {
        assert(p1.assigned == p1.size && p0.assigned != p0.size);
        assert(part_is_complete(Some(p1)));
        assert(!part_is_complete(m.parts[pi]));
    } else {
        assert(part_is_complete(Some(p1)) == part_is_complete(m.parts[pi])) by {
            if p0.assigned == p0.size {
                assert(p1 == p0);
                assert(m.parts[pi] is Some ==> part_is_complete(m.parts[pi]) == (p0.size > 0
                    && p0.assigned == p0.size));
                if m.parts[pi] is None {
                    assert(p0.assigned == 0 && p0.size == part.len() && part.len() > 0);
                    assert(false);
                }
            } else {
                assert(p1.assigned != p1.size || p1 == p0);
            }
        }
    }

    assert forall|i: int|
        0 <= i < t.0.parts.len() implies match #[trigger] t.0.parts[i] {
        Some(p) => part_consistent(p, parts[i]),
        None => true,
    } by {
        if i != pi {
            assert(t.0.parts[i] == m.parts[i]);
        }
    }

    assert forall|i: int|
        0 <= i < parts.len() implies slot_covered(m, i).subset_of(
        #[trigger] slot_covered(t.0, i),
    ) by {
        if i != pi {
            assert(t.0.parts[i] == m.parts[i]);
        }
    }
}

/// Applying a parsed frame, or nothing when the bytes do not parse.
pub open spec fn spec_apply_one(m: MsgV, fb: Seq<u8>, now: u64) -> MsgV {
    match spec_parse_data(fb) {
        Some(f) => spec_msg_add(m, f, now).0,
        None => m,
    }
}

/// The message state after every frame of `frames` arrived in order.
pub open spec fn spec_apply_frames(m: MsgV, frames: Seq<Seq<u8>>, now: u64) -> MsgV
    decreases frames.len(),
{
    if frames.len() == 0 {
        m
    } else {
        spec_apply_frames(spec_apply_one(m, frames[0], now), frames.drop_first(), now)
    }
}

/// A run of message frames keeps the message faithful and never sheds
/// coverage.
pub proof fn lemma_apply_frames_consistent(
    m: MsgV,
    parts: Seq<Seq<u8>>,
    session_id: u64,
    mid: u64,
    frames: Seq<Seq<u8>>,
    now: u64,
)
    requires
        msg_consistent(m, parts),
        forall|k: int|
            0 <= k < frames.len() ==> ((#[trigger] spec_parse_data(frames[k])) matches Some(f)
                && is_message_frame_view(f, session_id, mid, parts)),
    ensures
        msg_consistent(spec_apply_frames(m, frames, now), parts),
        forall|i: int|
            0 <= i < parts.len() ==> slot_covered(m, i).subset_of(
                #[trigger] slot_covered(spec_apply_frames(m, frames, now), i),
            ),
    decreases frames.len(),
{
    if frames.len() > 0 {
        let f = spec_parse_data(frames[0]).unwrap();
        lemma_msg_add_consistent(m, parts, session_id, mid, f, now);
        let m1 = spec_apply_one(m, frames[0], now);
        assert(forall|k: int|
            0 <= k < frames.drop_first().len() ==> #[trigger] frames.drop_first()[k] == frames[k
                + 1]);
        lemma_apply_frames_consistent(m1, parts, session_id, mid, frames.drop_first(), now);
    }
}

/// After a run containing frame `k`, that frame's chunk is covered.
pub proof fn lemma_apply_frames_chunk_covered(
    m: MsgV,
    parts: Seq<Seq<u8>>,
    session_id: u64,
    mid: u64,
    frames: Seq<Seq<u8>>,
    now: u64,
    k: int,
)
    requires
        msg_consistent(m, parts),
        forall|k2: int|
            0 <= k2 < frames.len() ==> ((#[trigger] spec_parse_data(frames[k2])) matches Some(
            f,
            ) && is_message_frame_view(f, session_id, mid, parts)),
        0 <= k < frames.len(),
    ensures
        ({
            let f = spec_parse_data(frames[k]).unwrap();
            forall|x: int|
                f.chunk_offset <= x < f.chunk_offset + f.chunk_size ==> #[trigger] slot_covered(
                    spec_apply_frames(m, frames, now),
                    f.part_index as int,
                ).contains(x)
        }),
    decreases k,
{
    let f0 = spec_parse_data(frames[0]).unwrap();
    lemma_msg_add_consistent(m, parts, session_id, mid, f0, now);
    let m1 = spec_apply_one(m, frames[0], now);
    let fin = spec_apply_frames(m, frames, now);
    assert(fin == spec_apply_frames(m1, frames.drop_first(), now));
    assert(forall|k2: int|
        0 <= k2 < frames.drop_first().len() ==> #[trigger] frames.drop_first()[k2] == frames[k2
            + 1]);
    if k == 0 {
        lemma_apply_frames_consistent(m1, parts, session_id, mid, frames.drop_first(), now);
        let pi = f0.part_index as int;
        assert forall|x: int|
            f0.chunk_offset <= x < f0.chunk_offset + f0.chunk_size implies #[trigger] slot_covered(
            fin,
            pi,
        ).contains(x) by {
            assert(slot_covered(m1, pi).contains(x));
            assert(slot_covered(m1, pi).subset_of(slot_covered(fin, pi)));
        }
    } else {
        lemma_apply_frames_chunk_covered(
            m1,
            parts,
            session_id,
            mid,
            frames.drop_first(),
            now,
            k - 1,
        );
        assert(frames.drop_first()[k - 1] == frames[k]);
    }
}

/// Every part complete raises the count to the part count.
pub proof fn lemma_count_all_complete(parts: Seq<Option<PartV>>)
    requires
        forall|i: int| 0 <= i < parts.len() ==> part_is_complete(#[trigger] parts[i]),
    ensures
        spec_complete_count(parts) == parts.len(),
    decreases parts.len(),
{
    if parts.len() > 0 {
        assert(forall|i: int| 0 <= i < parts.len() - 1 ==> parts.drop_last()[i] == parts[i]);
        lemma_count_all_complete(parts.drop_last());
    }
}

/// The encoded frame that carries the canonical chunk of part `pi`
/// starting at byte `lo`.
pub open spec fn chunk_frame_bytes(
    session_id: u64,
    mid: u64,
    parts: Seq<Seq<u8>>,
    pi: int,
    lo: nat,
) -> Seq<u8> {
    let part = parts[pi];
    let hi = if lo + (MAX_DATA_SIZE as nat) <= part.len() {
        lo + (MAX_DATA_SIZE as nat)
    } else {
        part.len()
    };
    crate::frame::spec_data_frame_bytes(
        0,
        session_id,
        mid,
        parts.len() as u8,
        pi as u8,
        spec_total_size(parts) as u32,
        part.len() as u32,
        (hi - lo) as u16,
        lo as u32,
        part.subrange(lo as int, hi as int),
    )
}

/// A canonical chunk frame parses back to a frame view of its message.
pub proof fn lemma_chunk_frame_parses(
    session_id: u64,
    mid: u64,
    parts: Seq<Seq<u8>>,
    pi: int,
    lo: nat,
)
    requires
        1 <= parts.len() <= 255,
        spec_total_size(parts) <= u32::MAX,
        0 <= pi < parts.len(),
        lo % (MAX_DATA_SIZE as nat) == 0,
        lo < parts[pi].len(),
    ensures
        ({
            let hi = if lo + (MAX_DATA_SIZE as nat) <= parts[pi].len() {
                lo + (MAX_DATA_SIZE as nat)
            } else {
                parts[pi].len()
            };
            spec_parse_data(chunk_frame_bytes(session_id, mid, parts, pi, lo)) matches Some(f)
                && is_message_frame_view(f, session_id, mid, parts) && f.part_index as int == pi
                && f.chunk_offset as nat == lo && f.chunk_offset as nat + f.chunk_size as nat == hi
        }),
{
    let part = parts[pi];
    crate::send_queue::lemma_part_le_total(parts, pi);
    let hi = if lo + (MAX_DATA_SIZE as nat) <= part.len() {
        lo + (MAX_DATA_SIZE as nat)
    } else {
        part.len()
    };
    let f = DataFrameV {
        version: VERSION,
        kind: 0,
        session_id,
        message_id: mid,
        part_count: parts.len() as u8,
        part_index: pi as u8,
        message_size: spec_total_size(parts) as u32,
        part_size: part.len() as u32,
        chunk_size: (hi - lo) as u16,
        chunk_offset: lo as u32,
        chunk: part.subrange(lo as int, hi as int),
    };
    lemma_parse_data_of_encoding(f);
}

/// Every frame the sender generates for a part, from any boundary on, is
/// a frame of the message.
pub proof fn lemma_part_frames_canonical(
    session_id: u64,
    mid: u64,
    parts: Seq<Seq<u8>>,
    pi: int,
    off: nat,
    k: int,
)
    requires
        1 <= parts.len() <= 255,
        spec_total_size(parts) <= u32::MAX,
        0 <= pi < parts.len(),
        off % (MAX_DATA_SIZE as nat) == 0,
        0 <= k < spec_part_frames_from(
            session_id,
            mid,
            parts.len() as u8,
            pi as u8,
            spec_total_size(parts) as u32,
            parts[pi],
            off,
        ).len(),
    ensures
        ({
            let fb = spec_part_frames_from(
                session_id,
                mid,
                parts.len() as u8,
                pi as u8,
                spec_total_size(parts) as u32,
                parts[pi],
                off,
            )[k];
            spec_parse_data(fb) matches Some(f) && is_message_frame_view(f, session_id, mid, parts)
        }),
    decreases parts[pi].len() - off,
{
    let part = parts[pi];
    let c = MAX_DATA_SIZE as nat;
    let pff = spec_part_frames_from(
        session_id,
        mid,
        parts.len() as u8,
        pi as u8,
        spec_total_size(parts) as u32,
        part,
        off,
    );
    assert(off < part.len());
    let hi = if off + c <= part.len() {
        off + c
    } else {
        part.len()
    };
    crate::send_queue::lemma_part_le_total(parts, pi);
    if k == 0 {
        assert(pff[0] == chunk_frame_bytes(session_id, mid, parts, pi, off));
        lemma_chunk_frame_parses(session_id, mid, parts, pi, off);
    } else {
        assert(hi % c == 0) by {
            if off + c <= part.len() {
                vstd::arithmetic::div_mod::lemma_mod_add_multiples_vanish(off as int, c as int);
            } else {
                // the tail is empty, so k cannot exceed zero
                assert(spec_part_frames_from(
                    session_id,
                    mid,
                    parts.len() as u8,
                    pi as u8,
                    spec_total_size(parts) as u32,
                    part,
                    part.len(),
                ).len() == 0);
            }
        }
        lemma_part_frames_canonical(session_id, mid, parts, pi, hi, k - 1);
    }
}

/// Every frame of the message, from any part on, parses back to a frame
/// view of the message.
pub proof fn lemma_msg_frames_canonical(
    session_id: u64,
    mid: u64,
    parts: Seq<Seq<u8>>,
    pi0: nat,
    k: int,
)
    requires
        1 <= parts.len() <= 255,
        spec_total_size(parts) <= u32::MAX,
        0 <= k < spec_message_frames_from(
            session_id,
            mid,
            parts,
            parts.len() as u8,
            spec_total_size(parts) as u32,
            pi0,
        ).len(),
    ensures
        ({
            let fb = spec_message_frames_from(
                session_id,
                mid,
                parts,
                parts.len() as u8,
                spec_total_size(parts) as u32,
                pi0,
            )[k];
            spec_parse_data(fb) matches Some(f) && is_message_frame_view(f, session_id, mid, parts)
        }),
    decreases parts.len() - pi0,
{
    assert(pi0 < parts.len());
    let head = spec_part_frames(
        session_id,
        mid,
        parts.len() as u8,
        pi0 as u8,
        spec_total_size(parts) as u32,
        parts[pi0 as int],
    );
    if k < head.len() {
        lemma_part_frames_canonical(session_id, mid, parts, pi0 as int, 0, k);
    } else {
        lemma_msg_frames_canonical(session_id, mid, parts, pi0 + 1, k - head.len());
    }
}

/// Boundaries below `lo` stay behind it: the sender's enumeration from
/// `off` reaches the chunk at `lo`.
pub proof fn lemma_part_frames_contains(
    session_id: u64,
    mid: u64,
    parts: Seq<Seq<u8>>,
    pi: int,
    off: nat,
    lo: nat,
)
    requires
        1 <= parts.len() <= 255,
        spec_total_size(parts) <= u32::MAX,
        0 <= pi < parts.len(),
        off % (MAX_DATA_SIZE as nat) == 0,
        lo % (MAX_DATA_SIZE as nat) == 0,
        off <= lo,
        lo < parts[pi].len(),
    ensures
        spec_part_frames_from(
            session_id,
            mid,
            parts.len() as u8,
            pi as u8,
            spec_total_size(parts) as u32,
            parts[pi],
            off,
        ).contains(chunk_frame_bytes(session_id, mid, parts, pi, lo)),
    decreases lo - off,
{
    let part = parts[pi];
    let c = MAX_DATA_SIZE as nat;
    let pff = spec_part_frames_from(
        session_id,
        mid,
        parts.len() as u8,
        pi as u8,
        spec_total_size(parts) as u32,
        part,
        off,
    );
    assert(off < part.len());
    if lo == off {
        assert(pff[0] == chunk_frame_bytes(session_id, mid, parts, pi, lo));
        assert(pff.contains(chunk_frame_bytes(session_id, mid, parts, pi, lo)));
    } else {
        // distinct boundaries are at least one chunk apart
        assert(lo - off >= c) by {
            lemma_sub_mod_noop(lo as int, off as int, c as int);
            lemma_mod_self_0(c as int);
            lemma_fundamental_div_mod(lo - off, c as int);
            assert((lo - off) / (c as int) >= 1) by {
                if (lo - off) / (c as int) <= 0 {
                    assert((c as int) * ((lo - off) / (c as int)) <= 0)
                        by (nonlinear_arith)
                        requires
                            (lo - off) / (c as int) <= 0,
                            c > 0,
                    ;
                }
            }
            assert((c as int) * ((lo - off) / (c as int)) >= c * 1) by (nonlinear_arith)
                requires
                    (lo - off) / (c as int) >= 1,
                    c > 0,
            ;
        }
        let hi = off + c;
        assert(hi <= lo && lo < part.len());
        assert(hi % c == 0) by {
            vstd::arithmetic::div_mod::lemma_mod_add_multiples_vanish(off as int, c as int);
        }
        lemma_part_frames_contains(session_id, mid, parts, pi, hi, lo);
        let tail = spec_part_frames_from(
            session_id,
            mid,
            parts.len() as u8,
            pi as u8,
            spec_total_size(parts) as u32,
            part,
            hi,
        );
        let j = choose|j: int|
            0 <= j < tail.len() && #[trigger] tail[j] == chunk_frame_bytes(
                session_id,
                mid,
                parts,
                pi,
                lo,
            );
        assert(pff[j + 1] == tail[j]);
        assert(pff.contains(chunk_frame_bytes(session_id, mid, parts, pi, lo)));
    }
}

/// The message's frame list holds the chunk frame at every boundary of
/// every part.
pub proof fn lemma_message_frames_contains(
    session_id: u64,
    mid: u64,
    parts: Seq<Seq<u8>>,
    pi0: nat,
    pi: int,
    lo: nat,
)
    requires
        1 <= parts.len() <= 255,
        spec_total_size(parts) <= u32::MAX,
        pi0 <= pi < parts.len(),
        lo % (MAX_DATA_SIZE as nat) == 0,
        lo < parts[pi].len(),
    ensures
        spec_message_frames_from(
            session_id,
            mid,
            parts,
            parts.len() as u8,
            spec_total_size(parts) as u32,
            pi0,
        ).contains(chunk_frame_bytes(session_id, mid, parts, pi, lo)),
    decreases parts.len() - pi0,
{
    let target = chunk_frame_bytes(session_id, mid, parts, pi, lo);
    let mff = spec_message_frames_from(
        session_id,
        mid,
        parts,
        parts.len() as u8,
        spec_total_size(parts) as u32,
        pi0,
    );
    let head = spec_part_frames(
        session_id,
        mid,
        parts.len() as u8,
        pi0 as u8,
        spec_total_size(parts) as u32,
        parts[pi0 as int],
    );
    if pi0 == pi {
        lemma_part_frames_contains(session_id, mid, parts, pi, 0, lo);
        let j = choose|j: int| 0 <= j < head.len() && #[trigger] head[j] == target;
        assert(mff[j] == target);
        assert(mff.contains(target));
    } else {
        lemma_message_frames_contains(session_id, mid, parts, pi0 + 1, pi, lo);
        let rest = spec_message_frames_from(
            session_id,
            mid,
            parts,
            parts.len() as u8,
            spec_total_size(parts) as u32,
            pi0 + 1,
        );
        let j = choose|j: int| 0 <= j < rest.len() && #[trigger] rest[j] == target;
        assert(mff[head.len() + j] == target);
        assert(mff.contains(target));
    }
}

/// THE ROUND TRIP. For any multipart message of up to 255 nonempty parts
/// and up to 2^32 - 1 bytes: take its chunk frames as the sender encodes
/// them, deliver them to a fresh message shell in any order, any number of
/// times each, at least once each. The shell completes, and reassembles
/// exactly the original parts, byte for byte, with the original part
/// boundaries.
pub proof fn lemma_message_reassembly(
    session_id: u64,
    mid: u64,
    parts: Seq<Seq<u8>>,
    applied: Seq<Seq<u8>>,
    now: u64,
)
    requires
        1 <= parts.len() <= 255,
        forall|i: int| 0 <= i < parts.len() ==> 1 <= (#[trigger] parts[i]).len(),
        spec_total_size(parts) <= u32::MAX,
        forall|k: int|
            0 <= k < applied.len() ==> spec_message_frames(session_id, mid, parts).contains(
                #[trigger] applied[k],
            ),
        forall|j: int|
            0 <= j < spec_message_frames(session_id, mid, parts).len() ==> applied.contains(
                #[trigger] spec_message_frames(session_id, mid, parts)[j],
            ),
    ensures
        ({
            let m = spec_apply_frames(
                MsgV::empty(spec_total_size(parts) as nat, parts.len() as nat, now),
                applied,
                now,
            );
            &&& m.completed_parts == m.part_count
            &&& m.assigned == m.size
            &&& spec_complete_count(m.parts) == m.parts.len()
            &&& spec_reassemble(m.parts) == parts
        }),
{
    let m0 = MsgV::empty(spec_total_size(parts) as nat, parts.len() as nat, now);
    let m = spec_apply_frames(m0, applied, now);
    let frames = spec_message_frames(session_id, mid, parts);

    assert(msg_consistent(m0, parts)) by {
        assert(m0.parts =~= Seq::new(parts.len() as nat, |i: int| None::<PartV>));
        crate::recv_queue::lemma_all_none_counts(m0.parts);
    }

    assert forall|k: int|
        0 <= k < applied.len() implies ((#[trigger] spec_parse_data(applied[k])) matches Some(f)
        && is_message_frame_view(f, session_id, mid, parts)) by {
        let j = choose|j: int| 0 <= j < frames.len() && #[trigger] frames[j] == applied[k];
        lemma_msg_frames_canonical(session_id, mid, parts, 0, j);
    }

    lemma_apply_frames_consistent(m0, parts, session_id, mid, applied, now);

    // every byte of every part ends covered
    assert forall|pi: int, x: int|
        0 <= pi < parts.len() && 0 <= x < parts[pi].len() implies #[trigger] slot_covered(
        m,
        pi,
    ).contains(x) by {
        let lo = lemma_byte_in_some_chunk(parts[pi].len(), x as nat);
        lemma_message_frames_contains(session_id, mid, parts, 0, pi, lo);
        let target = chunk_frame_bytes(session_id, mid, parts, pi, lo);
        assert(frames.contains(target));
        let j = choose|j: int| 0 <= j < frames.len() && #[trigger] frames[j] == target;
        assert(applied.contains(target));
        let k = choose|k: int| 0 <= k < applied.len() && #[trigger] applied[k] == target;
        lemma_chunk_frame_parses(session_id, mid, parts, pi, lo);
        let f = spec_parse_data(target).unwrap();
        lemma_apply_frames_chunk_covered(m0, parts, session_id, mid, applied, now, k);
        assert(f.chunk_offset <= x < f.chunk_offset + f.chunk_size);
        assert(slot_covered(m, f.part_index as int).contains(x));
    }

    // so every slot is fully assembled
    assert forall|pi: int| 0 <= pi < parts.len() implies part_is_complete(#[trigger] m.parts[pi])
        && (m.parts[pi] matches Some(p) && p.data == parts[pi] && p.size == parts[pi].len()) by {
        assert(slot_covered(m, pi).contains(0));
        assert(m.parts[pi] is Some);
        let p = m.parts[pi].unwrap();
        assert(part_consistent(p, parts[pi]));
        assert(spec_covered(p.ranges) =~= set_int_range(0, parts[pi].len() as int)) by {
            assert forall|x: int|
                spec_covered(p.ranges).contains(x) implies set_int_range(
                0,
                parts[pi].len() as int,
            ).contains(x) by {
                lemma_int_range(0, parts[pi].len() as int);
            }
        }
        crate::recv_queue::lemma_covered_card(p.ranges, p.size);
        lemma_int_range(0, parts[pi].len() as int);
        assert(spec_ranges_sum(p.ranges) == parts[pi].len());
        assert(p.assigned == p.size);
        lemma_part_data_complete(p, parts[pi]);
    }

    lemma_count_all_complete(m.parts);
    lemma_sum_all_complete(m.parts, parts);
    assert(spec_reassemble(m.parts) =~= parts);
}

/// The bytes of all-complete faithful slots add up to the whole message.
pub proof fn lemma_sum_all_complete(slots: Seq<Option<PartV>>, parts: Seq<Seq<u8>>)
    requires
        slots.len() == parts.len(),
        forall|i: int| 0 <= i < slots.len() ==> part_is_complete(#[trigger] slots[i]),
        forall|i: int|
            0 <= i < slots.len() ==> ((#[trigger] slots[i]) matches Some(p) && p.size == parts[
                i
            ].len()),
    ensures
        spec_complete_sum(slots) == spec_total_size(parts),
    decreases slots.len(),
{
    if slots.len() > 0 {
        assert(forall|i: int| 0 <= i < slots.len() - 1 ==> slots.drop_last()[i] == slots[i]);
        assert(forall|i: int| 0 <= i < parts.len() - 1 ==> parts.drop_last()[i] == parts[i]);
        lemma_sum_all_complete(slots.drop_last(), parts.drop_last());
    }
}

} // verus!
