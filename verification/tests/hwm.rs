// High-water-mark enforcement on both sides, for every duplex pattern,
// driven generically through the socket trait.
use std::collections::HashMap;

use nbmq::dealer::Dealer;
use nbmq::dish::Dish;
use nbmq::radio::Radio;
use nbmq::safe_dealer::SafeDealer;
use nbmq::socket::{AsSocket, Socket};
use nbmq::transport::Datagram;

struct Net {
    boxes: HashMap<u64, Vec<Datagram>>,
}

impl Net {
    fn new() -> Net {
        Net { boxes: HashMap::new() }
    }

    fn post(&mut self, from: u64, outs: Vec<Datagram>) {
        for d in outs {
            self.boxes.entry(d.addr).or_insert_with(Vec::new).push(Datagram {
                data: d.data,
                addr: from,
            });
        }
    }

    fn take(&mut self, addr: u64) -> Vec<Datagram> {
        self.boxes.remove(&addr).unwrap_or_default()
    }
}

const SERVER: u64 = 6100;
const A: u64 = 9001;

fn step<S: AsSocket>(net: &mut Net, addr: u64, s: &mut S, now: u64) {
    let inbox = net.take(addr);
    let outs = s.tick(&inbox, now).unwrap();
    net.post(addr, outs);
}

fn fails_on_send_hwm_reached<S: AsSocket, R: AsSocket>() {
    let mut net = Net::new();
    let mut sender: S = Socket::<S>::new().set_send_hwm(10).bind(1, 0);
    let (_receiver, hello): (R, Datagram) = Socket::<R>::new().connect(SERVER, 2, 0);
    net.post(A, vec![hello]);

    // the sender facilitates the connection
    step(&mut net, SERVER, &mut sender, 10);

    // queue five messages
    for _ in 0..5 {
        sender.send(&vec![b"abc".to_vec()]).unwrap();
    }

    // drain them: the internal message count is back at zero
    step(&mut net, SERVER, &mut sender, 20);

    assert!(sender.peers() == 1);

    // queue ten messages
    for _ in 0..10 {
        sender.send(&vec![b"abc".to_vec()]).unwrap();
    }

    // the eleventh must fail at the high-water mark
    match sender.send(&vec![b"abc".to_vec()]) {
        Ok(_) => panic!("no error on send hwm reach!"),
        Err(e) => {
            let m = e.message().to_lowercase();
            assert!(m.contains("block") || m.contains("water"));
        },
    }
}

fn fails_on_recv_hwm_reached<S: AsSocket, R: AsSocket>() {
    let mut net = Net::new();
    let mut sender: S = Socket::<S>::new().bind(1, 0);
    let (mut receiver, hello): (R, Datagram) = Socket::<R>::new().set_recv_hwm(10).connect(
        SERVER,
        2,
        0,
    );
    net.post(A, vec![hello]);

    step(&mut net, SERVER, &mut sender, 10);
    for _ in 0..5 {
        sender.send(&vec![b"hello".to_vec()]).unwrap();
    }
    step(&mut net, SERVER, &mut sender, 20);

    // the receiver accepts the connection and the five messages
    step(&mut net, A, &mut receiver, 30);

    let mut ct = 0;
    while let Ok(_) = receiver.recv(40) {
        ct += 1;
    }
    assert!(ct == 5);

    // eleven more messages overwhelm the receive queue
    for _ in 0..11 {
        sender.send(&vec![b"hello".to_vec()]).unwrap();
    }
    step(&mut net, SERVER, &mut sender, 50);

    let inbox = net.take(A);
    match receiver.tick(&inbox, 60) {
        Ok(_) => panic!("no wouldblock error thrown from overwhelmed recv queue!"),
        Err(e) => {
            let m = e.message().to_lowercase();
            assert!(m.contains("block"));
        },
    }
}

#[test]
pub fn dealer_respects_sendhwm() {
    fails_on_send_hwm_reached::<Dealer, Dealer>();
}

#[test]
pub fn radio_respects_sendhwm() {
    fails_on_send_hwm_reached::<Radio, Dish>();
}

#[test]
pub fn safedealer_respects_sendhwm() {
    fails_on_send_hwm_reached::<SafeDealer, SafeDealer>();
}

#[test]
pub fn dealer_respects_recvhwm() {
    fails_on_recv_hwm_reached::<Dealer, Dealer>();
}

#[test]
pub fn radio_respects_recvhwm() {
    fails_on_recv_hwm_reached::<Radio, Dish>();
}

#[test]
pub fn safedealer_respects_recvhwm() {
    fails_on_recv_hwm_reached::<SafeDealer, SafeDealer>();
}
