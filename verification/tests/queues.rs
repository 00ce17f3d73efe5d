// The send and receive queues driven directly, with explicit clocks.
use nbmq::hash::Fnv1a64;
use nbmq::opt::SockOpt;
use nbmq::recv_queue::RecvQueue;
use nbmq::send_queue::SendQueue;

fn message(bytes: usize) -> Vec<Vec<u8>> {
    let mut m = vec![0u8; bytes];
    m[bytes - 1] = 1;
    vec![m]
}

#[test]
pub fn send_queue_to_recv_queue() {
    let mut opt = SockOpt::default();
    opt.uncompleted_message_ttl = 100;

    let mut sq = SendQueue::new(opt);
    let mut rq = RecvQueue::new(opt, 0);

    let a = message(10000);
    sq.push(7, &a, 0).unwrap();

    while let Some(f) = sq.pull() {
        rq.push(&f, 1).unwrap();
    }

    let (got, _key) = rq.pull(2).unwrap();

    assert!(got == a);
}

#[test]
pub fn recv_queue_will_maint_incomplete() {
    let mut opt = SockOpt::default();
    opt.uncompleted_message_ttl = 100;
    opt.queue_maint_ivl = 100;

    let mut sq = SendQueue::new(opt);
    let mut rq = RecvQueue::new(opt, 0);

    let a = message(10000);
    sq.push(7, &a, 0).unwrap();

    if let Some(f) = sq.pull() {
        rq.push(&f, 0).unwrap();
    }

    // one chunk arrived, then the message sat past its TTL
    assert!(rq.incoming.len() == 1);
    assert!(rq.pull(200).is_none() == true);
    assert!(rq.incoming.len() == 0);
    assert!(rq.complete.len() == 0);
}

#[test]
pub fn safe_send_queue_will_resend_until_limit() {
    let mut opt = SockOpt::default();
    opt.safe_resend_limit = 2;
    opt.safe_resend_ivl = 10;

    let mut sq = SendQueue::new(opt);

    let a = vec![b"hello".to_vec()];

    sq.push(7, &a, 0).unwrap();

    let frame = sq.pull_safe(0).unwrap();

    let frame_2 = sq.pull_safe(20).unwrap();
    assert!(frame == frame_2);

    // the resend interval has not passed again yet
    assert!(sq.pull_safe(20).is_none() == true);

    let frame_3 = sq.pull_safe(40).unwrap();
    assert!(frame_2 == frame_3);

    // the interval passed again, but the resend limit is reached
    assert!(sq.pull_safe(60).is_none() == true);
    assert!(sq.sent.len() == 0);
}

#[test]
pub fn safe_send_queue_will_stop_sending_when_confirmed() {
    let mut opt = SockOpt::default();
    opt.safe_resend_limit = 2;
    opt.safe_resend_ivl = 10;

    let mut sq = SendQueue::new(opt);

    let a = vec![b"hello".to_vec()];

    sq.push(7, &a, 0).unwrap();

    let frame = sq.pull_safe(0).unwrap();

    let frame_2 = sq.pull_safe(20).unwrap();
    assert!(frame == frame_2);

    let mut hasher = Fnv1a64::new();
    hasher.write(frame_2.as_slice());
    let hash = hasher.finish();

    sq.confirm_safe(hash);

    // the interval passed, but the frame was confirmed and removed
    assert!(sq.pull_safe(40).is_none() == true);
    assert!(sq.sent.len() == 0);
    assert!(sq.exp.len() == 0);
}
