// Broadcast and receive-only patterns over the in-memory network.
use std::collections::HashMap;

use nbmq::dish::Dish;
use nbmq::radio::Radio;
use nbmq::socket::Socket;
use nbmq::transport::Datagram;

struct Net {
    boxes: HashMap<u64, Vec<Datagram>>,
}

impl Net {
    fn new() -> Net {
        Net { boxes: HashMap::new() }
    }

    fn post(&mut self, from: u64, outs: Vec<Datagram>) {
        for d in outs {
            self.boxes.entry(d.addr).or_insert_with(Vec::new).push(Datagram {
                data: d.data,
                addr: from,
            });
        }
    }

    fn take(&mut self, addr: u64) -> Vec<Datagram> {
        self.boxes.remove(&addr).unwrap_or_default()
    }
}

const SERVER: u64 = 1030;
const A: u64 = 9001;
const B: u64 = 9002;
const C: u64 = 9003;

fn step_radio(net: &mut Net, addr: u64, s: &mut Radio, now: u64) {
    let inbox = net.take(addr);
    let outs = s.tick(&inbox, now).unwrap();
    net.post(addr, outs);
}

fn step_dish(net: &mut Net, addr: u64, s: &mut Dish, now: u64) {
    let inbox = net.take(addr);
    let outs = s.tick(&inbox, now).unwrap();
    net.post(addr, outs);
}

#[test]
fn radio_errors_on_recv() {
    let mut radio = Socket::<Radio>::new().bind(1, 0);
    assert!(radio.recv(0).is_err() == true);
}

#[test]
fn dish_errors_on_send() {
    let mut dish = Socket::<Dish>::new().bind(1, 0);
    assert!(dish.send(&vec![b"test".to_vec()]).is_err() == true);
}

#[test]
fn radio_sends_to_multiple_dish() {
    let mut net = Net::new();
    let mut radio = Socket::<Radio>::new().bind(1, 0);
    let (mut dish_1, h1) = Socket::<Dish>::new().connect(SERVER, 2, 0);
    let (mut dish_2, h2) = Socket::<Dish>::new().connect(SERVER, 3, 0);
    let (mut dish_3, h3) = Socket::<Dish>::new().connect(SERVER, 4, 0);
    net.post(A, vec![h1]);
    net.post(B, vec![h2]);
    net.post(C, vec![h3]);

    step_radio(&mut net, SERVER, &mut radio, 10);
    radio.send(&vec![b"broadcast".to_vec()]).unwrap();
    step_radio(&mut net, SERVER, &mut radio, 11);

    for (addr, dish) in [(A, &mut dish_1), (B, &mut dish_2), (C, &mut dish_3)] {
        step_dish(&mut net, addr, dish, 20);

        let mut datas = vec![];
        while let Ok(data) = dish.recv(21) {
            datas.push(data);
        }

        assert!(datas.len() == 1);

        let message = String::from_utf8(datas[0][0].to_vec()).unwrap();
        assert!(message == "broadcast");
    }
}

#[test]
fn radio_maints_dish_on_disconnect() {
    // a radio with a short keepalive and two dishes: only the dish that
    // keeps heartbeating survives
    let mut net = Net::new();
    let mut radio = Socket::<Radio>::new().set_peer_keepalive(30).bind(1, 0);
    let (mut dish_1, h1) = Socket::<Dish>::new().set_peer_heartbeat_ivl(10).connect(SERVER, 2, 0);
    let (_dish_2, h2) = Socket::<Dish>::new().connect(SERVER, 3, 0);
    net.post(A, vec![h1]);
    net.post(B, vec![h2]);

    step_radio(&mut net, SERVER, &mut radio, 10);
    radio.send(&vec![b"broadcast".to_vec()]).unwrap();
    assert!(radio.peers() == 2);

    // dish one keeps talking; dish two stays silent
    step_dish(&mut net, A, &mut dish_1, 30);

    // by now dish two has been silent past the keepalive
    step_radio(&mut net, SERVER, &mut radio, 50);

    assert!(radio.peers() == 1);
}
