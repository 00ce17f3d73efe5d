// Direct checks of the library's stated properties on concrete values:
// codec round trips, hash test vectors, FIFO draining, out-of-order and
// duplicated reassembly, dedup, and each queue-contract error.
use nbmq::frame::{ControlFrame, DataFrame, Frame};
use nbmq::transport::{session_id, Core};
use nbmq::hash::{fnv1a64, message_id, Fnv1a64};
use nbmq::opt::SockOpt;
use nbmq::random::XORShift;
use nbmq::recv_queue::RecvQueue;
use nbmq::send_queue::SendQueue;

#[test]
fn data_frame_codec_round_trip() {
    let chunk: Vec<u8> = (0u8..100).collect();
    let buf = DataFrame::encode(0, 11, 22, 3, 1, 1000, 300, 100, 200, chunk.as_slice());
    assert_eq!(buf.len(), 34 + 100);
    assert_eq!(buf[0], 1);
    assert_eq!(buf[1], 0);

    let f = DataFrame::parse(buf.as_slice()).unwrap();
    assert_eq!(f.version, 1);
    assert_eq!(f.kind, 0);
    assert_eq!(f.session_id, 11);
    assert_eq!(f.message_id, 22);
    assert_eq!(f.part_count, 3);
    assert_eq!(f.part_index, 1);
    assert_eq!(f.message_size, 1000);
    assert_eq!(f.part_size, 300);
    assert_eq!(f.chunk_size, 100);
    assert_eq!(f.chunk_offset, 200);
    assert_eq!(f.chunk, chunk);
}

#[test]
fn data_frame_exact_header_bytes() {
    let buf = DataFrame::encode(0, 0x0102030405060708, 0x1112131415161718, 2, 1, 0x21222324,
        0x31323334, 0x4142, 0x51525354, &[0xaa, 0xbb]);
    let expected: Vec<u8> = vec![
        1, 0,
        0x01, 0x02, 0x03, 0x04, 0x05, 0x06, 0x07, 0x08,
        0x11, 0x12, 0x13, 0x14, 0x15, 0x16, 0x17, 0x18,
        2, 1,
        0x21, 0x22, 0x23, 0x24,
        0x31, 0x32, 0x33, 0x34,
        0x41, 0x42,
        0x51, 0x52, 0x53, 0x54,
        0xaa, 0xbb,
    ];
    assert_eq!(buf, expected);
}

#[test]
fn control_frame_codec_round_trip() {
    let connect = ControlFrame::Connect.encode();
    assert_eq!(connect, vec![1, 1, 0, 0, 0, 0, 0, 0, 0, 0]);
    assert!(matches!(ControlFrame::parse(connect.as_slice()), Some(ControlFrame::Connect)));

    let connected = ControlFrame::Connected(0x01020304a0b0c0d0).encode();
    match ControlFrame::parse(connected.as_slice()) {
        Some(ControlFrame::Connected(s)) => assert_eq!(s, 0x01020304a0b0c0d0),
        _ => panic!("wrong parse"),
    }

    let ack = ControlFrame::Ack((9, vec![1, 2, 3, 4, 5, 6, 7, 8])).encode();
    match ControlFrame::parse(ack.as_slice()) {
        Some(ControlFrame::Ack((s, payload))) => {
            assert_eq!(s, 9);
            assert_eq!(payload, vec![1, 2, 3, 4, 5, 6, 7, 8]);
        },
        _ => panic!("wrong parse"),
    }

    // a foreign version byte is silently ignored by the dispatcher
    assert!(Frame::parse(&[2, 1, 0, 0, 0, 0, 0, 0, 0, 0]).is_none());
    // an unknown kind byte too
    assert!(Frame::parse(&[1, 9, 0, 0, 0, 0, 0, 0, 0, 0]).is_none());
}

#[test]
fn fnv1a64_test_vectors() {
    // the classic FNV-1a-64 vectors: the offset basis for empty input
    assert_eq!(fnv1a64(&vec![]), 0xcbf29ce484222325);
    assert_eq!(fnv1a64(&b"a".to_vec()), 0xaf63dc4c8601ec8c);
    assert_eq!(fnv1a64(&b"foobar".to_vec()), 0x85944171f73967e8);

    let mut h = Fnv1a64::new();
    h.write(b"foo");
    h.write(b"bar");
    assert_eq!(h.finish(), 0x85944171f73967e8);
}

#[test]
fn message_id_depends_on_nonce_and_parts() {
    let parts = vec![b"ab".to_vec(), b"cd".to_vec()];
    let a = message_id(&parts, 1);
    let b = message_id(&parts, 2);
    assert_ne!(a, b);
    // the same bytes with the same nonce give the same id
    assert_eq!(a, message_id(&vec![b"ab".to_vec(), b"cd".to_vec()], 1));
}

#[test]
fn xorshift_is_deterministic_and_moves() {
    let mut a = XORShift::new(42);
    let mut b = XORShift::new(42);
    let x1 = a.sample();
    assert_eq!(x1, b.sample());
    assert_ne!(a.sample(), x1);
}

#[test]
fn send_queue_drains_fifo_with_marker() {
    let mut sq = SendQueue::new(SockOpt::default());
    // three chunks: 466 + 466 + 68
    let part: Vec<u8> = (0..1000u32).map(|i| (i % 251) as u8).collect();
    sq.push(5, &vec![part], 9).unwrap();
    assert_eq!(sq.message_count, 1);

    let f1 = sq.pull().unwrap();
    let f2 = sq.pull().unwrap();
    let f3 = sq.pull().unwrap();
    let d1 = DataFrame::parse(f1.as_slice()).unwrap();
    let d2 = DataFrame::parse(f2.as_slice()).unwrap();
    let d3 = DataFrame::parse(f3.as_slice()).unwrap();
    assert_eq!(d1.chunk_offset, 0);
    assert_eq!(d2.chunk_offset, 466);
    assert_eq!(d3.chunk_offset, 932);
    assert_eq!(d3.chunk_size, 68);

    // the marker: one message fully drained
    assert!(sq.pull().is_none());
    assert_eq!(sq.message_count, 0);
    assert!(sq.pull().is_none());
}

#[test]
fn recv_reassembles_any_order_with_duplicates() {
    let opt = SockOpt::default();
    let mut sq = SendQueue::new(opt);
    let mut rq = RecvQueue::new(opt, 0);

    let part_a: Vec<u8> = (0..1000u32).map(|i| (i % 251) as u8).collect();
    let part_b = b"tail".to_vec();
    let parts = vec![part_a.clone(), part_b.clone()];
    sq.push(5, &parts, 9).unwrap();

    let mut frames = vec![];
    while let Some(f) = sq.pull() {
        frames.push(f);
    }
    assert_eq!(frames.len(), 4);

    // deliver in reverse order, each frame twice
    for f in frames.iter().rev() {
        rq.push(f, 1).unwrap();
        rq.push(f, 1).unwrap();
    }

    let (got, _key) = rq.pull(2).unwrap();
    assert_eq!(got.len(), 2);
    assert_eq!(got[0], part_a);
    assert_eq!(got[1], part_b);

    // exactly once: nothing else is waiting
    assert!(rq.pull(3).is_none());
}

#[test]
fn recv_pull_safe_dedups_within_ttl() {
    let mut opt = SockOpt::default();
    opt.safe_hash_dedup_ttl = 1000;
    let mut sq = SendQueue::new(opt);
    let mut rq = RecvQueue::new(opt, 0);

    let parts = vec![b"once".to_vec()];
    sq.push(5, &parts, 9).unwrap();
    let frame = sq.pull().unwrap();

    rq.push(&frame, 1).unwrap();
    let first = rq.pull_safe(2);
    assert!(first.is_some());

    // the same data frame arrives again: reassembled again, but deduped
    rq.push(&frame, 3).unwrap();
    assert!(rq.pull_safe(4).is_none());

    // after the dedup TTL lapses, the same key may pass again
    rq.push(&frame, 2000).unwrap();
    assert!(rq.pull_safe(3005).is_some());
}

#[test]
fn push_rejects_long_and_oversized_messages() {
    let mut sq = SendQueue::new(SockOpt::default());
    let too_long: Vec<Vec<u8>> = (0..256).map(|_| vec![1u8]).collect();
    match sq.push(5, &too_long, 1) {
        Err(e) => assert!(e.message().contains("255")),
        Ok(_) => panic!("a 256-part message must be rejected"),
    }
    assert_eq!(sq.message_count, 0);
}

#[test]
fn recv_rejects_corrupt_frames() {
    let mut rq = RecvQueue::new(SockOpt::default(), 0);
    // too short for a data header
    assert!(rq.push(&vec![1, 0, 3], 1).is_err());
    // a chunk that overruns its declared part size
    let bad = DataFrame::encode(0, 1, 2, 1, 0, 10, 10, 8, 5, &[9, 9, 9, 9, 9, 9, 9, 9]);
    assert!(rq.push(&bad, 1).is_err());
    // a part index past the declared part count
    let oob = DataFrame::encode(0, 1, 3, 1, 4, 10, 10, 2, 0, &[9, 9]);
    assert!(rq.push(&oob, 1).is_err());
}

#[test]
fn core_broadcasts_to_every_peer() {
    let mut core = Core::bind(SockOpt::default(), 7);

    // two peers connect
    let connect = ControlFrame::Connect.encode();
    let (fwd1, out1) = core.recv(&connect, 100, 0);
    assert!(fwd1.is_none());
    assert_eq!(out1.len(), 1);
    assert_eq!(out1[0].addr, 100);
    let (_, out2) = core.recv(&connect, 200, 0);
    assert_eq!(out2[0].addr, 200);
    assert_eq!(core.peers_len(), 2);

    let outs = core.send_all(&b"fan out".to_vec(), 1);
    assert_eq!(outs.len(), 2);
    assert_eq!(outs[0].data, b"fan out".to_vec());
    assert_eq!(outs[1].data, b"fan out".to_vec());
    let mut addrs: Vec<u64> = outs.iter().map(|d| d.addr).collect();
    addrs.sort();
    assert_eq!(addrs, vec![100, 200]);
}

#[test]
fn unknown_peer_is_an_error() {
    let mut core = Core::bind(SockOpt::default(), 7);
    match core.send_peer(&b"hi".to_vec(), 42, 0) {
        Err(e) => assert!(e.message().contains("unknown")),
        Ok(_) => panic!("a unicast to an unknown session must fail"),
    }
}

#[test]
fn session_ids_differ_by_address_and_draw() {
    assert_eq!(session_id(1, 2), session_id(1, 2));
    assert_ne!(session_id(1, 2), session_id(1, 3));
    assert_ne!(session_id(1, 2), session_id(2, 2));
}
