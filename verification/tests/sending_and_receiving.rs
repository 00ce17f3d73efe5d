// End-to-end exchanges over an in-memory datagram network: the library
// consumes and produces datagrams as values, so the tests shuttle them
// between sockets and drive the clock in milliseconds.
use std::collections::HashMap;

use nbmq::dealer::Dealer;
use nbmq::dish::Dish;
use nbmq::radio::Radio;
use nbmq::socket::Socket;
use nbmq::transport::Datagram;

struct Net {
    boxes: HashMap<u64, Vec<Datagram>>,
}

impl Net {
    fn new() -> Net {
        Net { boxes: HashMap::new() }
    }

    // deliver outgoing datagrams, stamping each with its source address
    fn post(&mut self, from: u64, outs: Vec<Datagram>) {
        for d in outs {
            self.boxes.entry(d.addr).or_insert_with(Vec::new).push(Datagram {
                data: d.data,
                addr: from,
            });
        }
    }

    fn take(&mut self, addr: u64) -> Vec<Datagram> {
        self.boxes.remove(&addr).unwrap_or_default()
    }
}

const SERVER: u64 = 3000;
const A: u64 = 9001;
const B: u64 = 9002;
const C: u64 = 9003;

fn step_dealer(net: &mut Net, addr: u64, s: &mut Dealer, now: u64) {
    let inbox = net.take(addr);
    let outs = s.tick(&inbox, now).unwrap();
    net.post(addr, outs);
}

fn step_radio(net: &mut Net, addr: u64, s: &mut Radio, now: u64) {
    let inbox = net.take(addr);
    let outs = s.tick(&inbox, now).unwrap();
    net.post(addr, outs);
}

fn step_dish(net: &mut Net, addr: u64, s: &mut Dish, now: u64) {
    let inbox = net.take(addr);
    let outs = s.tick(&inbox, now).unwrap();
    net.post(addr, outs);
}

#[test]
pub fn sending_and_receiving_basic_send() {
    let mut net = Net::new();
    let mut server = Socket::<Dealer>::new().bind(1, 0);
    let (mut client, hello) = Socket::<Dealer>::new().connect(SERVER, 2, 0);
    net.post(A, vec![hello]);

    step_dealer(&mut net, SERVER, &mut server, 10);
    step_dealer(&mut net, A, &mut client, 20);

    let msg = "Hello World!";
    client.send(&vec![msg.as_bytes().to_vec()]).unwrap();
    step_dealer(&mut net, A, &mut client, 30);

    step_dealer(&mut net, SERVER, &mut server, 40);
    let msgb = server.recv(50).unwrap();
    let recv_msg = String::from_utf8(msgb[0].to_vec()).unwrap();
    assert!(msg == recv_msg.as_str());
}

#[test]
pub fn sending_and_receiving_ping_pong() {
    let mut net = Net::new();
    let mut server = Socket::<Dealer>::new().bind(1, 0);
    let (mut client, hello) = Socket::<Dealer>::new().connect(SERVER, 2, 0);
    net.post(A, vec![hello]);

    step_dealer(&mut net, SERVER, &mut server, 10);
    step_dealer(&mut net, A, &mut client, 20);

    let msg = "Ping";
    client.send(&vec![msg.as_bytes().to_vec()]).unwrap();
    step_dealer(&mut net, A, &mut client, 30);

    step_dealer(&mut net, SERVER, &mut server, 40);
    let msgb = server.recv(50).unwrap();
    let recv_msg = String::from_utf8(msgb[0].to_vec()).unwrap();
    assert!(msg == recv_msg.as_str());

    let msg = "Pong";
    server.send(&vec![msg.as_bytes().to_vec()]).unwrap();
    step_dealer(&mut net, SERVER, &mut server, 60);

    step_dealer(&mut net, A, &mut client, 70);
    let msgb = client.recv(80).unwrap();
    let recv_msg = String::from_utf8(msgb[0].to_vec()).unwrap();
    assert!(msg == recv_msg.as_str());
}

#[test]
pub fn sending_and_receiving_round_robin() {
    let mut net = Net::new();
    let mut server = Socket::<Dealer>::new().bind(1, 0);
    let (mut a, ha) = Socket::<Dealer>::new().connect(SERVER, 2, 0);
    let (mut b, hb) = Socket::<Dealer>::new().connect(SERVER, 3, 0);
    let (mut c, hc) = Socket::<Dealer>::new().connect(SERVER, 4, 0);
    net.post(A, vec![ha]);
    net.post(B, vec![hb]);
    net.post(C, vec![hc]);

    step_dealer(&mut net, SERVER, &mut server, 10);
    step_dealer(&mut net, A, &mut a, 20);
    step_dealer(&mut net, B, &mut b, 20);
    step_dealer(&mut net, C, &mut c, 20);

    a.send(&vec![b"ping1".to_vec()]).unwrap();
    b.send(&vec![b"ping2".to_vec()]).unwrap();
    c.send(&vec![b"ping3".to_vec()]).unwrap();
    step_dealer(&mut net, A, &mut a, 30);
    step_dealer(&mut net, B, &mut b, 30);
    step_dealer(&mut net, C, &mut c, 30);

    step_dealer(&mut net, SERVER, &mut server, 40);
    let mut server_got = 0;
    while let Ok(msgb) = server.recv(50) {
        let msg = String::from_utf8(msgb[0].to_vec()).unwrap();
        assert!(msg.as_str().contains("ping"));
        server_got += 1;
    }
    assert!(server_got == 3);

    for _ in 0..3 {
        server.send(&vec![b"pong".to_vec()]).unwrap();
    }
    step_dealer(&mut net, SERVER, &mut server, 60);

    for (addr, client) in [(A, &mut a), (B, &mut b), (C, &mut c)] {
        step_dealer(&mut net, addr, client, 70);
        let msgb = client.recv(80).unwrap();
        let msg = String::from_utf8(msgb[0].to_vec()).unwrap();
        assert!(msg.as_str() == "pong");
    }
}

#[test]
pub fn sending_and_receiving_large_message() {
    let mut net = Net::new();
    let mut server = Socket::<Dealer>::new().bind(1, 0);
    let (mut client, hello) = Socket::<Dealer>::new().connect(SERVER, 2, 0);
    net.post(A, vec![hello]);

    step_dealer(&mut net, SERVER, &mut server, 10);
    step_dealer(&mut net, A, &mut client, 20);

    let mut large_bin = vec![];
    for _ in 0..100000 {
        large_bin.push(0);
    }
    large_bin.push(1);
    client.send(&vec![large_bin]).unwrap();
    step_dealer(&mut net, A, &mut client, 30);

    step_dealer(&mut net, SERVER, &mut server, 40);
    let msgb = server.recv(50).unwrap();
    assert!(msgb.len() == 1);
    assert!(msgb[0].len() == 100001);
    assert!(msgb[0][100000] == 1);
}

#[test]
pub fn sending_and_receiving_long_message() {
    let mut net = Net::new();
    let mut server = Socket::<Dealer>::new().bind(1, 0);
    let (mut client, hello) = Socket::<Dealer>::new().connect(SERVER, 2, 0);
    net.post(A, vec![hello]);

    step_dealer(&mut net, SERVER, &mut server, 10);
    step_dealer(&mut net, A, &mut client, 20);

    let mut long_msg_parts = vec![];
    long_msg_parts.push(b"hello".to_vec());
    for _ in 0..100 {
        let mut large_bin = vec![];
        for _ in 0..1000 {
            large_bin.push(0);
        }
        large_bin.push(1);
        long_msg_parts.push(large_bin);
    }
    long_msg_parts.push(b"world".to_vec());

    client.send(&long_msg_parts).unwrap();
    step_dealer(&mut net, A, &mut client, 30);

    step_dealer(&mut net, SERVER, &mut server, 40);
    let msgb = server.recv(50).unwrap();
    assert!(msgb.len() == 102);

    let start = String::from_utf8(msgb[0].to_vec()).unwrap();
    let end = String::from_utf8(msgb[101].to_vec()).unwrap();

    assert!(start.as_str() == "hello");
    assert!(end.as_str() == "world");
}

#[test]
fn sending_and_receiving_sockets_register_as_peers_on_connect() {
    let mut net = Net::new();
    let mut server = Socket::<Dealer>::new().bind(1, 0);
    let (_a, ha) = Socket::<Dealer>::new().connect(SERVER, 2, 0);
    let (_b, hb) = Socket::<Dealer>::new().connect(SERVER, 3, 0);
    net.post(A, vec![ha]);
    net.post(B, vec![hb]);

    step_dealer(&mut net, SERVER, &mut server, 10);

    assert!(server.peers() == 2);
}

#[test]
fn sending_and_receiving_long_pause_doesnt_remove_peer() {
    let mut net = Net::new();
    let mut radio = Socket::<Radio>::new().set_peer_keepalive(10).bind(1, 0);
    let (mut dish, hello) = Socket::<Dish>::new().set_peer_heartbeat_ivl(1).connect(SERVER, 2, 0);
    net.post(A, vec![hello]);

    let mut ct = 0;

    step_radio(&mut net, SERVER, &mut radio, 10);
    radio.send(&vec![b"hello".to_vec()]).unwrap();
    step_radio(&mut net, SERVER, &mut radio, 11);

    step_dish(&mut net, A, &mut dish, 20);
    while let Ok(_) = dish.recv(21) {
        ct += 1;
    }
    assert!(ct == 1);

    // a pause of ten times the keepalive: the dish's heartbeat is read
    // when the radio next ticks, so the peer survives
    radio.send(&vec![b"world".to_vec()]).unwrap();
    step_radio(&mut net, SERVER, &mut radio, 120);

    step_dish(&mut net, A, &mut dish, 130);
    while let Ok(_) = dish.recv(131) {
        ct += 1;
    }
    assert!(ct == 2);

    radio.send(&vec![b"final".to_vec()]).unwrap();
    step_radio(&mut net, SERVER, &mut radio, 140);

    assert!(radio.peers() == 1);
}
