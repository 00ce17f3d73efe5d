// Sends issued before the peer exists: a client holds them back and the
// server still receives every message once the handshake completes.
use std::collections::HashMap;

use nbmq::safe_dealer::SafeDealer;
use nbmq::socket::Socket;
use nbmq::transport::Datagram;

struct Net {
    boxes: HashMap<u64, Vec<Datagram>>,
}

impl Net {
    fn new() -> Net {
        Net { boxes: HashMap::new() }
    }

    fn post(&mut self, from: u64, outs: Vec<Datagram>) {
        for d in outs {
            self.boxes.entry(d.addr).or_insert_with(Vec::new).push(Datagram {
                data: d.data,
                addr: from,
            });
        }
    }

    fn take(&mut self, addr: u64) -> Vec<Datagram> {
        self.boxes.remove(&addr).unwrap_or_default()
    }
}

const SERVER: u64 = 4100;
const A: u64 = 9001;

fn step(net: &mut Net, addr: u64, s: &mut SafeDealer, now: u64) {
    let inbox = net.take(addr);
    let outs = s.tick(&inbox, now).unwrap();
    net.post(addr, outs);
}

#[test]
fn socket_safe_safe_socket_resends_until_success() {
    let mut net = Net::new();
    let (mut client, hello) = Socket::<SafeDealer>::new()
        .set_safe_resend_ivl(10)
        .set_safe_resent_limit(20)
        .set_reconnect_wait(5)
        .connect(SERVER, 2, 0);
    net.post(A, vec![hello]);
    // nothing is listening yet: the first connect goes nowhere
    let _ = net.take(SERVER);

    // held back: no peer exists yet
    for i in 10..20 {
        let data = vec![0u8; i];
        let _ = client.send(&vec![data]);
    }

    // the server appears
    let mut server = Socket::<SafeDealer>::new().bind(1, 20);

    // the client's reconnect reaches the server
    step(&mut net, A, &mut client, 30);
    step(&mut net, SERVER, &mut server, 40);

    for i in 20..30 {
        let data = vec![0u8; i];
        let _ = client.send(&vec![data]);
    }
    step(&mut net, A, &mut client, 50);

    for i in 30..40 {
        let data = vec![0u8; i];
        let _ = client.send(&vec![data]);
    }
    step(&mut net, A, &mut client, 70);

    step(&mut net, SERVER, &mut server, 80);

    let mut datas = vec![];
    while let Ok(data) = server.recv(90) {
        datas.push(data);
    }

    step(&mut net, A, &mut client, 100);

    assert!(datas.len() == 30);
}
