//! The wire format: a byte-exact big-endian encoding of data frames and
//! control frames, and the parsers that silently reject foreign traffic.
//!
//! A data frame carries one chunk of one part of a multipart message. A
//! control frame carries the handshake, heartbeat, disconnect, and
//! acknowledgement traffic of the peer protocol.
use vstd::prelude::*;

use crate::bytes::{
    lemma_u16_be_round_trip, lemma_u32_be_round_trip, lemma_u64_be_round_trip, push_u16_be,
    push_u32_be, push_u64_be, read_u16_be, read_u32_be, read_u64_be, spec_u16_be,
    spec_u16_from_be, spec_u32_be, spec_u32_from_be, spec_u64_be, spec_u64_from_be, u64_be_vec,
};
use crate::hash::{fnv1a64, spec_fnv1a64, Fnv1a64};

verus! {

pub const VERSION: u8 = 1;

pub const DATA_HEADER_SIZE: usize = 34;

pub const CONTROL_HEADER_SIZE: usize = 10;

pub const MAX_FRAME_SIZE: usize = 500;

pub const MAX_DATA_SIZE: usize = MAX_FRAME_SIZE - DATA_HEADER_SIZE;

pub struct DataFrame {
    pub version: u8,
    pub kind: u8,
    pub session_id: u64,
    pub message_id: u64,

    pub part_count: u8,
    pub part_index: u8,
    pub message_size: u32,
    pub part_size: u32,
    pub chunk_size: u16,
    pub chunk_offset: u32,
    pub chunk: Vec<u8>,
}

/// The ghost image of a data frame, with the chunk as a byte sequence.
pub struct DataFrameV {
    pub version: u8,
    pub kind: u8,
    pub session_id: u64,
    pub message_id: u64,

    pub part_count: u8,
    pub part_index: u8,
    pub message_size: u32,
    pub part_size: u32,
    pub chunk_size: u16,
    pub chunk_offset: u32,
    pub chunk: Seq<u8>,
}

impl View for DataFrame {
    type V = DataFrameV;

    open spec fn view(&self) -> DataFrameV {
        DataFrameV {
            version: self.version,
            kind: self.kind,
            session_id: self.session_id,
            message_id: self.message_id,
            part_count: self.part_count,
            part_index: self.part_index,
            message_size: self.message_size,
            part_size: self.part_size,
            chunk_size: self.chunk_size,
            chunk_offset: self.chunk_offset,
            chunk: self.chunk@,
        }
    }
}

/// The data frame a buffer parses to, or `None` when the buffer is shorter
/// than the data header or its version byte is foreign.
pub open spec fn spec_parse_data(buf: Seq<u8>) -> Option<DataFrameV> {
    if buf.len() < DATA_HEADER_SIZE || buf[0] != VERSION {
        None
    } else {
        Some(
            DataFrameV {
                version: buf[0],
                kind: buf[1],
                session_id: spec_u64_from_be(buf.subrange(2, 10)),
                message_id: spec_u64_from_be(buf.subrange(10, 18)),
                part_count: buf[18],
                part_index: buf[19],
                message_size: spec_u32_from_be(buf.subrange(20, 24)),
                part_size: spec_u32_from_be(buf.subrange(24, 28)),
                chunk_size: spec_u16_from_be(buf.subrange(28, 30)),
                chunk_offset: spec_u32_from_be(buf.subrange(30, 34)),
                chunk: buf.skip(34),
            },
        )
    }
}

/// The exact bytes of a data frame: version, kind, session id, message id,
/// part count, part index, message size, part size, chunk size, chunk
/// offset, then the chunk itself. All integers big-endian.
pub open spec fn spec_data_frame_bytes(
    kind: u8,
    session_id: u64,
    message_id: u64,
    part_count: u8,
    part_index: u8,
    message_size: u32,
    part_size: u32,
    chunk_size: u16,
    chunk_offset: u32,
    chunk: Seq<u8>,
) -> Seq<u8> {
    seq![VERSION, kind] + spec_u64_be(session_id) + spec_u64_be(message_id)
        + seq![part_count, part_index] + spec_u32_be(message_size) + spec_u32_be(part_size)
        + spec_u16_be(chunk_size) + spec_u32_be(chunk_offset) + chunk
}

impl DataFrame {
    /// Encodes the given fields as one data frame.
    pub fn encode(
        kind: u8,
        session_id: u64,
        message_id: u64,
        part_count: u8,
        part_index: u8,
        message_size: u32,
        part_size: u32,
        chunk_size: u16,
        chunk_offset: u32,
        chunk: &[u8],
    ) -> (r: Vec<u8>)
        ensures
            r@ == spec_data_frame_bytes(
                kind,
                session_id,
                message_id,
                part_count,
                part_index,
                message_size,
                part_size,
                chunk_size,
                chunk_offset,
                chunk@,
            ),
    {
        let mut frame: Vec<u8> = Vec::new();

        frame.push(VERSION);
        frame.push(kind);
        push_u64_be(&mut frame, session_id);
        push_u64_be(&mut frame, message_id);

        frame.push(part_count);
        frame.push(part_index);
        push_u32_be(&mut frame, message_size);
        push_u32_be(&mut frame, part_size);
        push_u16_be(&mut frame, chunk_size);
        push_u32_be(&mut frame, chunk_offset);

        let mut i: usize = 0;
        let ghost header = frame@;
        while i < chunk.len()
            invariant
                i <= chunk@.len(),
                frame@ == header + chunk@.take(i as int),
            decreases chunk@.len() - i,
        {
            frame.push(chunk[i]);
            i = i + 1;
            proof {
                assert(header + chunk@.take(i as int) =~= (header + chunk@.take(i as int - 1)).push(
                    chunk@[i - 1],
                ));
            }
        }

        proof {
            assert(chunk@.take(chunk@.len() as int) =~= chunk@);
            assert(frame@ =~= spec_data_frame_bytes(
                kind,
                session_id,
                message_id,
                part_count,
                part_index,
                message_size,
                part_size,
                chunk_size,
                chunk_offset,
                chunk@,
            ));
        }

        frame
    }

    /// Parses one data frame. Returns `None`, never an error, when the
    /// buffer is shorter than the data header or the version byte differs:
    /// foreign traffic is silently ignored.
    pub fn parse(buf: &[u8]) -> (r: Option<DataFrame>)
        ensures
            r is Some <==> spec_parse_data(buf@) is Some,
            r matches Some(f) ==> spec_parse_data(buf@) == Some(f@),
    {
        if buf.len() < DATA_HEADER_SIZE {
            return None;
        }

        if buf[0] != VERSION {
            return None;
        }

        let chunk = vstd::slice::slice_to_vec(vstd::slice::slice_subrange(buf, 34, buf.len()));
        proof {
            assert(chunk@ =~= buf@.skip(34));
        }

        Some(DataFrame {
            version: buf[0],
            kind: buf[1],
            session_id: read_u64_be(buf, 2),
            message_id: read_u64_be(buf, 10),
            part_count: buf[18],
            part_index: buf[19],

            message_size: read_u32_be(buf, 20),
            part_size: read_u32_be(buf, 24),
            chunk_size: read_u16_be(buf, 28),
            chunk_offset: read_u32_be(buf, 30),
            chunk,
        })
    }

    /// The retransmission/acknowledgement identity of this frame: the
    /// FNV-1a-64 hash of its exact encoded bytes.
    pub fn hash(&self) -> (r: u64)
        ensures
            r == spec_fnv1a64(spec_data_frame_bytes(
                self.kind,
                self.session_id,
                self.message_id,
                self.part_count,
                self.part_index,
                self.message_size,
                self.part_size,
                self.chunk_size,
                self.chunk_offset,
                self.chunk@,
            )),
    {
        let buffer = DataFrame::encode(
            self.kind,
            self.session_id,
            self.message_id,
            self.part_count,
            self.part_index,
            self.message_size,
            self.part_size,
            self.chunk_size,
            self.chunk_offset,
            self.chunk.as_slice(),
        );

        let mut hasher = Fnv1a64::new();
        hasher.write(buffer.as_slice());
        hasher.finish()
    }
}

/// Everything the encoding of a data frame gives back to its parser: the
/// buffer recovers each field at its offset, byte-exactly.
pub proof fn lemma_data_frame_round_trip(
    kind: u8,
    session_id: u64,
    message_id: u64,
    part_count: u8,
    part_index: u8,
    message_size: u32,
    part_size: u32,
    chunk_size: u16,
    chunk_offset: u32,
    chunk: Seq<u8>,
)
    ensures
        ({
            let b = spec_data_frame_bytes(
                kind,
                session_id,
                message_id,
                part_count,
                part_index,
                message_size,
                part_size,
                chunk_size,
                chunk_offset,
                chunk,
            );
            &&& b.len() == DATA_HEADER_SIZE + chunk.len()
            &&& b[0] == VERSION
            &&& b[1] == kind
            &&& spec_u64_from_be(b.subrange(2, 10)) == session_id
            &&& spec_u64_from_be(b.subrange(10, 18)) == message_id
            &&& b[18] == part_count
            &&& b[19] == part_index
            &&& spec_u32_from_be(b.subrange(20, 24)) == message_size
            &&& spec_u32_from_be(b.subrange(24, 28)) == part_size
            &&& spec_u16_from_be(b.subrange(28, 30)) == chunk_size
            &&& spec_u32_from_be(b.subrange(30, 34)) == chunk_offset
            &&& b.skip(34) == chunk
        }),
{
    let b = spec_data_frame_bytes(
        kind,
        session_id,
        message_id,
        part_count,
        part_index,
        message_size,
        part_size,
        chunk_size,
        chunk_offset,
        chunk,
    );
    assert(b.subrange(2, 10) =~= spec_u64_be(session_id));
    assert(b.subrange(10, 18) =~= spec_u64_be(message_id));
    assert(b.subrange(20, 24) =~= spec_u32_be(message_size));
    assert(b.subrange(24, 28) =~= spec_u32_be(part_size));
    assert(b.subrange(28, 30) =~= spec_u16_be(chunk_size));
    assert(b.subrange(30, 34) =~= spec_u32_be(chunk_offset));
    assert(b.skip(34) =~= chunk);
    lemma_u64_be_round_trip(session_id);
    lemma_u64_be_round_trip(message_id);
    lemma_u32_be_round_trip(message_size);
    lemma_u32_be_round_trip(part_size);
    lemma_u16_be_round_trip(chunk_size);
    lemma_u32_be_round_trip(chunk_offset);
}

pub enum ControlFrame {
    Connect,
    Connected(u64),
    Disconnected(u64),
    Heartbeat(u64),
    Ack((u64, Vec<u8>)),
}

/// The ghost image of a control frame, with the acknowledgement payload as
/// a byte sequence.
pub enum ControlFrameV {
    Connect,
    Connected(u64),
    Disconnected(u64),
    Heartbeat(u64),
    Ack(u64, Seq<u8>),
}

impl View for ControlFrame {
    type V = ControlFrameV;

    open spec fn view(&self) -> ControlFrameV {
        match self {
            ControlFrame::Connect => ControlFrameV::Connect,
            ControlFrame::Connected(s) => ControlFrameV::Connected(*s),
            ControlFrame::Disconnected(s) => ControlFrameV::Disconnected(*s),
            ControlFrame::Heartbeat(s) => ControlFrameV::Heartbeat(*s),
            ControlFrame::Ack(p) => ControlFrameV::Ack(p.0, p.1@),
        }
    }
}

/// The exact bytes of a control frame with the given session, kind byte,
/// and payload.
pub open spec fn spec_control_bytes(session: u64, kind: u8, data: Seq<u8>) -> Seq<u8> {
    seq![VERSION, kind] + spec_u64_be(session) + data
}

/// The exact encoding of each control frame variant. The kind byte is 1
/// for connect, 2 for connected, 3 for disconnected, 4 for heartbeat, 5
/// for acknowledge; only an acknowledgement carries a payload.
pub open spec fn spec_control_frame_bytes(f: ControlFrameV) -> Seq<u8> {
    match f {
        ControlFrameV::Connect => spec_control_bytes(0, 1, Seq::empty()),
        ControlFrameV::Connected(s) => spec_control_bytes(s, 2, Seq::empty()),
        ControlFrameV::Disconnected(s) => spec_control_bytes(s, 3, Seq::empty()),
        ControlFrameV::Heartbeat(s) => spec_control_bytes(s, 4, Seq::empty()),
        ControlFrameV::Ack(s, d) => spec_control_bytes(s, 5, d),
    }
}

/// The control frame a buffer parses to, or `None` for a short buffer or
/// an unknown kind byte.
pub open spec fn spec_parse_control(buf: Seq<u8>) -> Option<ControlFrameV> {
    if buf.len() < CONTROL_HEADER_SIZE {
        None
    } else if buf[1] == 1 {
        Some(ControlFrameV::Connect)
    } else if buf[1] == 2 {
        Some(ControlFrameV::Connected(spec_u64_from_be(buf.subrange(2, 10))))
    } else if buf[1] == 3 {
        Some(ControlFrameV::Disconnected(spec_u64_from_be(buf.subrange(2, 10))))
    } else if buf[1] == 4 {
        Some(ControlFrameV::Heartbeat(spec_u64_from_be(buf.subrange(2, 10))))
    } else if buf[1] == 5 {
        Some(ControlFrameV::Ack(spec_u64_from_be(buf.subrange(2, 10)), buf.skip(10)))
    } else {
        None
    }
}

impl ControlFrame {
    /// Encodes a control header followed by the payload.
    pub fn _enc(session: u64, kind: u8, data: &[u8]) -> (r: Vec<u8>)
        ensures
            r@ == spec_control_bytes(session, kind, data@),
    {
        let mut cframe: Vec<u8> = Vec::new();

        cframe.push(VERSION);
        cframe.push(kind);
        push_u64_be(&mut cframe, session);

        let mut i: usize = 0;
        let ghost header = cframe@;
        while i < data.len()
            invariant
                i <= data@.len(),
                cframe@ == header + data@.take(i as int),
            decreases data@.len() - i,
        {
            cframe.push(data[i]);
            i = i + 1;
            proof {
                assert(header + data@.take(i as int) =~= (header + data@.take(i as int - 1)).push(
                    data@[i - 1],
                ));
            }
        }

        proof {
            assert(data@.take(data@.len() as int) =~= data@);
            assert(cframe@ =~= spec_control_bytes(session, kind, data@));
        }

        cframe
    }

    /// Encodes this control frame as its exact wire bytes.
    pub fn encode(&self) -> (r: Vec<u8>)
        ensures
            r@ == spec_control_frame_bytes(self@),
    {
        match self {
            ControlFrame::Connect => ControlFrame::_enc(0, 1, &[]),
            ControlFrame::Connected(session) => ControlFrame::_enc(*session, 2, &[]),
            ControlFrame::Disconnected(session) => ControlFrame::_enc(*session, 3, &[]),
            ControlFrame::Heartbeat(session) => ControlFrame::_enc(*session, 4, &[]),
            ControlFrame::Ack(p) => ControlFrame::_enc(p.0, 5, p.1.as_slice()),
        }
    }

    /// Parses one control frame: `None` for a short buffer or an unknown
    /// kind byte. The version byte is vetted by `Frame::parse`.
    pub fn parse(buf: &[u8]) -> (r: Option<ControlFrame>)
        ensures
            r is Some <==> spec_parse_control(buf@) is Some,
            r matches Some(f) ==> spec_parse_control(buf@) == Some(f@),
    {
        if buf.len() < CONTROL_HEADER_SIZE {
            return None;
        }

        let kind = buf[1];

        match kind {
            1 => Some(ControlFrame::Connect),
            2 => Some(ControlFrame::Connected(read_u64_be(buf, 2))),
            3 => Some(ControlFrame::Disconnected(read_u64_be(buf, 2))),
            4 => Some(ControlFrame::Heartbeat(read_u64_be(buf, 2))),
            5 => {
                let payload = vstd::slice::slice_to_vec(
                    vstd::slice::slice_subrange(buf, CONTROL_HEADER_SIZE, buf.len()),
                );
                proof {
                    assert(payload@ =~= buf@.skip(10));
                }
                Some(ControlFrame::Ack((read_u64_be(buf, 2), payload)))
            },
            _ => None,
        }
    }
}

/// The round trip of every control frame variant: parsing the encoding of
/// `f` yields `f` again, provided its session and kind survive (a connect
/// frame always encodes session 0).
pub proof fn lemma_control_frame_round_trip(f: ControlFrameV)
    ensures
        spec_parse_control(spec_control_frame_bytes(f)) == Some(f),
{
    let b = spec_control_frame_bytes(f);
    match f {
        ControlFrameV::Connect => {
            assert(b.subrange(2, 10) =~= spec_u64_be(0));
            lemma_u64_be_round_trip(0);
        },
        ControlFrameV::Connected(s) => {
            assert(b.subrange(2, 10) =~= spec_u64_be(s));
            lemma_u64_be_round_trip(s);
        },
        ControlFrameV::Disconnected(s) => {
            assert(b.subrange(2, 10) =~= spec_u64_be(s));
            lemma_u64_be_round_trip(s);
        },
        ControlFrameV::Heartbeat(s) => {
            assert(b.subrange(2, 10) =~= spec_u64_be(s));
            lemma_u64_be_round_trip(s);
        },
        ControlFrameV::Ack(s, d) => {
            assert(b.subrange(2, 10) =~= spec_u64_be(s));
            lemma_u64_be_round_trip(s);
            assert(b.skip(10) =~= d);
        },
    }
}

pub enum Frame {
    ControlFrame(ControlFrame),
    DataFrame(DataFrame),
}

/// The ghost image of a frame.
pub enum FrameV {
    ControlFrame(ControlFrameV),
    DataFrame(DataFrameV),
}

impl View for Frame {
    type V = FrameV;

    open spec fn view(&self) -> FrameV {
        match self {
            Frame::ControlFrame(cf) => FrameV::ControlFrame(cf@),
            Frame::DataFrame(df) => FrameV::DataFrame(df@),
        }
    }
}

/// The frame a buffer parses to: the kind byte dispatches, kind zero to a
/// data frame, any other kind to a control frame. `None` for a short
/// buffer, a foreign version byte, or an unknown control kind.
pub open spec fn spec_parse_frame(buf: Seq<u8>) -> Option<FrameV> {
    if buf.len() < 2 || buf[0] != VERSION {
        None
    } else if buf[1] == 0 {
        match spec_parse_data(buf) {
            Some(df) => Some(FrameV::DataFrame(df)),
            None => None,
        }
    } else {
        match spec_parse_control(buf) {
            Some(cf) => Some(FrameV::ControlFrame(cf)),
            None => None,
        }
    }
}

impl Frame {
    /// Dispatches on the kind byte: kind 0 parses as a data frame, any
    /// other kind as a control frame. `None` for short buffers, a foreign
    /// version byte, or an unknown control kind.
    pub fn parse(buf: &[u8]) -> (r: Option<Frame>)
        ensures
            r is Some <==> spec_parse_frame(buf@) is Some,
            r matches Some(f) ==> spec_parse_frame(buf@) == Some(f@),
    {
        if buf.len() < 2 {
            return None;
        }

        if buf[0] != VERSION {
            return None;
        }

        let kind = buf[1];

        match kind {
            0 => match DataFrame::parse(buf) {
                Some(data_frame) => Some(Frame::DataFrame(data_frame)),
                None => None,
            },
            _ => match ControlFrame::parse(buf) {
                Some(control_frame) => Some(Frame::ControlFrame(control_frame)),
                None => None,
            },
        }
    }
}

/// Parsing the encoding of a data frame recovers every field: the
/// converse direction of `lemma_data_frame_round_trip`, stated on the
/// parser itself.
pub proof fn lemma_parse_data_of_encoding(f: DataFrameV)
    requires
        f.version == VERSION,
    ensures
        spec_parse_data(
            spec_data_frame_bytes(
                f.kind,
                f.session_id,
                f.message_id,
                f.part_count,
                f.part_index,
                f.message_size,
                f.part_size,
                f.chunk_size,
                f.chunk_offset,
                f.chunk,
            ),
        ) == Some(f),
{
    lemma_data_frame_round_trip(
        f.kind,
        f.session_id,
        f.message_id,
        f.part_count,
        f.part_index,
        f.message_size,
        f.part_size,
        f.chunk_size,
        f.chunk_offset,
        f.chunk,
    );
}

} // verus!
