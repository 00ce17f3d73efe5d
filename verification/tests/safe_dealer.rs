// The retransmitting duplex pattern: frame-level at-least-once with
// acknowledgements, message-level at-most-once through dedup.
use std::collections::HashMap;

use nbmq::safe_dealer::SafeDealer;
use nbmq::socket::Socket;
use nbmq::transport::Datagram;

struct Net {
    boxes: HashMap<u64, Vec<Datagram>>,
}

impl Net {
    fn new() -> Net {
        Net { boxes: HashMap::new() }
    }

    fn post(&mut self, from: u64, outs: Vec<Datagram>) {
        for d in outs {
            self.boxes.entry(d.addr).or_insert_with(Vec::new).push(Datagram {
                data: d.data,
                addr: from,
            });
        }
    }

    fn take(&mut self, addr: u64) -> Vec<Datagram> {
        self.boxes.remove(&addr).unwrap_or_default()
    }
}

const SERVER: u64 = 4000;
const A: u64 = 9001;
const B: u64 = 9002;

fn step(net: &mut Net, addr: u64, s: &mut SafeDealer, now: u64) {
    let inbox = net.take(addr);
    let outs = s.tick(&inbox, now).unwrap();
    net.post(addr, outs);
}

#[test]
fn safe_dealer_safe_socket_resends_until_success() {
    let mut net = Net::new();
    let mut server = Socket::<SafeDealer>::new().bind(1, 0);
    let (mut client, hello) = Socket::<SafeDealer>::new()
        .set_safe_resend_ivl(10)
        .set_safe_resent_limit(20)
        .connect(SERVER, 2, 0);
    net.post(A, vec![hello]);

    assert!(server.peers() == 0 && client.peers() == 0);

    step(&mut net, SERVER, &mut server, 10);
    assert!(server.peers() == 1);

    step(&mut net, A, &mut client, 20);
    assert!(client.peers() == 1);

    for i in 10..20 {
        let data = vec![0u8; i];
        client.send(&vec![data]).unwrap();
    }
    step(&mut net, A, &mut client, 40);

    for i in 20..30 {
        let data = vec![0u8; i];
        client.send(&vec![data]).unwrap();
    }
    step(&mut net, A, &mut client, 60);

    for i in 30..40 {
        let data = vec![0u8; i];
        client.send(&vec![data]).unwrap();
    }
    step(&mut net, A, &mut client, 80);

    step(&mut net, SERVER, &mut server, 90);

    let mut datas = vec![];
    while let Ok(data) = server.recv(100) {
        datas.push(data);
    }

    step(&mut net, A, &mut client, 110);

    assert!(datas.len() == 30);
}

#[test]
fn budgeted_tick_delivers_like_tick() {
    let mut net = Net::new();
    let mut server = Socket::<SafeDealer>::new().bind(1, 0);
    let (mut client, hello) = Socket::<SafeDealer>::new().connect(SERVER, 2, 0);
    net.post(A, vec![hello]);

    step(&mut net, SERVER, &mut server, 10);
    step(&mut net, A, &mut client, 20);

    for i in 0..3 {
        client.send(&vec![vec![i as u8; 20]]).unwrap();
    }

    // shape an explicit budget for the one peer
    let loads = client.queue_lens();
    assert_eq!(loads.len(), 1);
    let budgets = vec![(loads[0].0, 1000usize)];
    let inbox = net.take(A);
    let outs = client.tick_with_budgets(&inbox, 30, &budgets).unwrap();
    net.post(A, outs);

    step(&mut net, SERVER, &mut server, 40);
    let mut got = 0;
    while let Ok(_) = server.recv(50) {
        got += 1;
    }
    assert_eq!(got, 3);
}

#[test]
pub fn safe_socket_resends_to_correct_peers() {
    let mut net = Net::new();
    let mut server = Socket::<SafeDealer>::new()
        .set_safe_resend_ivl(10)
        .set_safe_resent_limit(20)
        .bind(1, 0);
    let (mut client, h1) = Socket::<SafeDealer>::new().connect(SERVER, 2, 0);
    net.post(A, vec![h1]);

    step(&mut net, SERVER, &mut server, 10);
    server.send(&vec![b"to client 1".to_vec()]).unwrap();

    let (mut client_2, h2) = Socket::<SafeDealer>::new().connect(SERVER, 3, 0);
    net.post(B, vec![h2]);

    step(&mut net, SERVER, &mut server, 30);

    server.send(&vec![b"to client 2".to_vec()]).unwrap();
    server.send(&vec![b"to client 1".to_vec()]).unwrap();
    server.send(&vec![b"to client 2".to_vec()]).unwrap();
    step(&mut net, SERVER, &mut server, 40);

    step(&mut net, A, &mut client, 50);
    step(&mut net, B, &mut client_2, 50);
    let mut ct = 0;
    while let Ok(_) = client.recv(60) {
        ct += 1;
    }
    while let Ok(_) = client_2.recv(60) {
        ct += 1;
    }

    assert!(ct == 4);
}
