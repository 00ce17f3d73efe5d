// Handshake, keepalive, and reconnect behaviour over the in-memory
// network, with the clock driven in milliseconds.
use std::collections::HashMap;

use nbmq::dealer::Dealer;
use nbmq::socket::Socket;
use nbmq::transport::Datagram;

struct Net {
    boxes: HashMap<u64, Vec<Datagram>>,
}

impl Net {
    fn new() -> Net {
        Net { boxes: HashMap::new() }
    }

    fn post(&mut self, from: u64, outs: Vec<Datagram>) {
        for d in outs {
            self.boxes.entry(d.addr).or_insert_with(Vec::new).push(Datagram {
                data: d.data,
                addr: from,
            });
        }
    }

    fn take(&mut self, addr: u64) -> Vec<Datagram> {
        self.boxes.remove(&addr).unwrap_or_default()
    }
}

const SERVER: u64 = 5000;
const A: u64 = 9001;

fn step(net: &mut Net, addr: u64, s: &mut Dealer, now: u64) {
    let inbox = net.take(addr);
    let outs = s.tick(&inbox, now).unwrap();
    net.post(addr, outs);
}

#[test]
pub fn client_will_reconnect_until_success() {
    let mut net = Net::new();
    let (mut client, hello) = Socket::<Dealer>::new()
        .set_reconnect_wait(5)
        .set_peer_keepalive(30)
        .set_peer_heartbeat_ivl(10)
        .connect(SERVER, 2, 0);
    net.post(A, vec![hello]);
    // nobody is listening yet: the connect attempts go nowhere
    let _ = net.take(SERVER);

    step(&mut net, A, &mut client, 10);
    let _ = net.take(SERVER);

    step(&mut net, A, &mut client, 20);
    let _ = net.take(SERVER);

    // the server appears
    let mut server = Socket::<Dealer>::new().bind(1, 20);

    step(&mut net, A, &mut client, 30);
    step(&mut net, SERVER, &mut server, 40);
    step(&mut net, A, &mut client, 50);

    assert!(server.peers() == 1);
    assert!(client.peers() == 1);
}

#[test]
pub fn connection_reconnect_with_tick() {
    let mut net = Net::new();
    let mut server = Socket::<Dealer>::new()
        .set_peer_keepalive(30)
        .set_peer_heartbeat_ivl(10)
        .bind(1, 0);
    let (mut client, hello) = Socket::<Dealer>::new()
        .set_peer_keepalive(30)
        .set_peer_heartbeat_ivl(10)
        .set_reconnect_wait(5)
        .connect(SERVER, 2, 0);
    net.post(A, vec![hello]);

    // server registers client
    step(&mut net, SERVER, &mut server, 10);
    assert!(server.peers() == 1);

    // a silent spell: server drops client
    step(&mut net, SERVER, &mut server, 50);
    assert!(server.peers() == 0);

    // client absorbs its session and heartbeats
    step(&mut net, A, &mut client, 60);

    // server answers the unknown heartbeat with a disconnect
    step(&mut net, SERVER, &mut server, 70);
    assert!(server.peers() == 0);

    // client receives the disconnect; the maintenance pass of the same
    // tick re-issues the connect
    step(&mut net, A, &mut client, 80);

    // server re-registers the client
    step(&mut net, SERVER, &mut server, 90);
    assert!(server.peers() == 1);

    step(&mut net, A, &mut client, 100);
    assert!(client.peers() == 1);
}

#[test]
fn data_send_fails_after_unfinished_handshake() {
    let mut net = Net::new();
    let mut server = Socket::<Dealer>::new()
        .set_peer_keepalive(30)
        .set_peer_heartbeat_ivl(10)
        .bind(1, 0);
    let (mut client, hello) = Socket::<Dealer>::new().connect(SERVER, 2, 0);
    net.post(A, vec![hello]);

    // the server has not answered yet
    step(&mut net, A, &mut client, 10);
    if let Err(e) = client.send(&vec![b"hello".to_vec()]) {
        assert!(e.message().contains("No socket peers"));
    } else {
        panic!("managed to send to uncompleted connection");
    }

    step(&mut net, SERVER, &mut server, 11);

    // now the client can absorb the server's answer
    step(&mut net, A, &mut client, 20);
    if let Err(_) = client.send(&vec![b"hello".to_vec()]) {
        panic!("send should have succeeded");
    }
}

#[test]
fn disconnected_socket_cant_send_data_messages() {
    let mut net = Net::new();
    let mut server = Socket::<Dealer>::new()
        .set_peer_keepalive(30)
        .set_peer_heartbeat_ivl(10)
        .bind(1, 0);
    let (mut client, hello) = Socket::<Dealer>::new().connect(SERVER, 2, 0);
    net.post(A, vec![hello]);

    step(&mut net, SERVER, &mut server, 10);
    assert!(server.peers() == 1);

    // the client stays silent past the keepalive
    step(&mut net, SERVER, &mut server, 50);
    assert!(server.peers() == 0);

    step(&mut net, A, &mut client, 55);
    client.send(&vec![b"hello".to_vec()]).unwrap();
    step(&mut net, A, &mut client, 60);

    // the server drops data from the forgotten session
    step(&mut net, SERVER, &mut server, 70);
    if let Ok(_) = server.recv(80) {
        panic!("server shouldnt have received data from disconnected client");
    }
}
