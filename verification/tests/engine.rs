use simple_p2p::{
    encode, gossip_tick, Address, EngineOutput, Message, NetEvent, PeerEndpoint, PeersStorage,
};

#[derive(Debug, Clone, PartialEq, Eq, Hash)]
struct Endpoint {
    id: u32,
    addr: Address,
}

impl Endpoint {
    fn new(id: u32, addr: Address) -> Self {
        Self { id, addr }
    }
}

impl PeerEndpoint for Endpoint {
    // The spec-level counterpart of `addr`; it is never called at run time.
    fn addr_spec(&self) -> Address {
        self.addr
    }

    fn addr(&self) -> Address {
        self.addr
    }

    fn same_as(&self, other: &Self) -> bool {
        self == other
    }

    fn dup(&self) -> Self {
        self.clone()
    }
}

fn addr(port: u16) -> Address {
    Address { ip0: 127, ip1: 0, ip2: 0, ip3: 1, port }
}

fn tail_as_sorted_set(list: &[Address]) -> Vec<u16> {
    let mut ports: Vec<u16> = list[1..].iter().map(|a| a.port).collect();
    ports.sort();
    ports.dedup();
    ports
}

#[test]
fn single_node_lists_only_itself() {
    let a_addr = addr(9000);
    let reg: PeersStorage<Endpoint> = PeersStorage::new(a_addr);
    assert_eq!(reg.get_peers_list(), vec![a_addr]);
}

#[test]
fn announce_registers_the_sender() {
    let a_addr = addr(9000);
    let b_addr = addr(9001);
    let mut reg: PeersStorage<Endpoint> = PeersStorage::new(a_addr);

    // B's connection to A arrives on some ephemeral transport address.
    let b_ep = Endpoint::new(1, addr(51001));
    let out = reg.handle_event(&NetEvent::Connected(b_ep.clone()));
    assert_eq!(out, EngineOutput::Silent);
    assert_eq!(reg.get_peers_list(), vec![a_addr]);

    let payload = encode(&Message::AnnouncePublicAddress(b_addr));
    let out = reg.handle_event(&NetEvent::Message(b_ep, payload));
    assert_eq!(out, EngineOutput::Silent);
    assert_eq!(reg.get_peers_list(), vec![a_addr, b_addr]);
}

#[test]
fn request_before_announce_lists_only_the_node() {
    let a_addr = addr(9000);
    let mut reg: PeersStorage<Endpoint> = PeersStorage::new(a_addr);

    let b_ep = Endpoint::new(1, addr(51001));
    let payload = encode(&Message::RequestPeerList);
    let out = reg.handle_event(&NetEvent::Message(b_ep, payload));
    // B has not announced yet, so the reply lists A alone.
    assert_eq!(out, EngineOutput::Reply(Message::PeerList(vec![a_addr])));
}

#[test]
fn peer_list_filters_self_and_sender() {
    let b_addr = addr(9001);
    let mut reg: PeersStorage<Endpoint> = PeersStorage::new(b_addr);

    let a_addr = addr(9000);
    let c_addr = addr(9002);
    // B's own bootstrap connection to A: the sender's transport address is
    // A's listen address.
    let a_ep = Endpoint::new(1, a_addr);
    let payload = encode(&Message::PeerList(vec![a_addr, b_addr, c_addr]));
    let out = reg.handle_event(&NetEvent::Message(a_ep, payload));
    assert_eq!(out, EngineOutput::ConnectTo(vec![c_addr]));
}

#[test]
fn gossip_resolves_known_sender() {
    let a_addr = addr(9000);
    let b_addr = addr(9001);
    let mut reg: PeersStorage<Endpoint> = PeersStorage::new(a_addr);

    let b_ep = Endpoint::new(1, addr(51001));
    reg.handle_event(&NetEvent::Message(
        b_ep.clone(),
        encode(&Message::AnnouncePublicAddress(b_addr)),
    ));
    let out = reg.handle_event(&NetEvent::Message(
        b_ep,
        encode(&Message::Gossip(String::from("proud-tern"))),
    ));
    assert_eq!(
        out,
        EngineOutput::Deliver(Some(b_addr), String::from("proud-tern"))
    );
}

#[test]
fn gossip_from_unknown_sender_is_delivered_unresolved() {
    let a_addr = addr(9000);
    let mut reg: PeersStorage<Endpoint> = PeersStorage::new(a_addr);

    let ghostly = Endpoint::new(7, addr(51007));
    let out = reg.handle_event(&NetEvent::Message(
        ghostly,
        encode(&Message::Gossip(String::from("proud-tern"))),
    ));
    assert_eq!(out, EngineOutput::Deliver(None, String::from("proud-tern")));
}

#[test]
fn malformed_payload_is_skipped_and_changes_nothing() {
    let a_addr = addr(9000);
    let mut reg: PeersStorage<Endpoint> = PeersStorage::new(a_addr);

    let b_ep = Endpoint::new(1, addr(51001));
    let out = reg.handle_event(&NetEvent::Message(b_ep, vec![0, 1, 2]));
    assert_eq!(out, EngineOutput::Skipped);
    assert_eq!(reg.get_peers_list(), vec![a_addr]);
}

#[test]
fn disconnect_removes_the_peer() {
    let a_addr = addr(9000);
    let b_addr = addr(9001);
    let mut reg: PeersStorage<Endpoint> = PeersStorage::new(a_addr);

    let b_ep = Endpoint::new(1, addr(51001));
    reg.handle_event(&NetEvent::Message(
        b_ep.clone(),
        encode(&Message::AnnouncePublicAddress(b_addr)),
    ));
    assert_eq!(reg.get_peers_list(), vec![a_addr, b_addr]);

    let out = reg.handle_event(&NetEvent::Disconnected(b_ep));
    assert_eq!(out, EngineOutput::Silent);
    assert_eq!(reg.get_peers_list(), vec![a_addr]);
}

#[test]
fn bootstrap_handshake_registers_and_greets() {
    let b_addr = addr(9001);
    let a_addr = addr(9000);
    let mut reg: PeersStorage<Endpoint> = PeersStorage::new(b_addr);

    let a_ep = Endpoint::new(1, a_addr);
    let msgs = reg.on_bootstrap_connected(&a_ep);
    assert_eq!(
        msgs,
        vec![
            Message::AnnouncePublicAddress(b_addr),
            Message::RequestPeerList
        ]
    );
    assert_eq!(reg.get_peers_list(), vec![b_addr, a_addr]);
}

#[test]
fn three_nodes_converge_to_full_mesh() {
    let a_addr = addr(9000);
    let b_addr = addr(9001);
    let c_addr = addr(9002);

    let mut reg_a: PeersStorage<Endpoint> = PeersStorage::new(a_addr);
    let mut reg_b: PeersStorage<Endpoint> = PeersStorage::new(b_addr);
    let mut reg_c: PeersStorage<Endpoint> = PeersStorage::new(c_addr);

    // B bootstraps through A.
    let b_to_a = Endpoint::new(10, a_addr);
    let a_from_b = Endpoint::new(11, addr(51001));
    let msgs = reg_b.on_bootstrap_connected(&b_to_a);
    for m in &msgs {
        let out = reg_a.handle_event(&NetEvent::Message(a_from_b.clone(), encode(m)));
        if let EngineOutput::Reply(reply) = out {
            // A's reply travels back to B over the same connection.
            let back = reg_b.handle_event(&NetEvent::Message(b_to_a.clone(), encode(&reply)));
            // Everyone A knows is either B itself or the bootstrap peer.
            assert_eq!(back, EngineOutput::ConnectTo(vec![]));
        }
    }

    // C bootstraps through B.
    let c_to_b = Endpoint::new(20, b_addr);
    let b_from_c = Endpoint::new(21, addr(51002));
    let msgs = reg_c.on_bootstrap_connected(&c_to_b);
    let mut fan_out: Vec<Address> = vec![];
    for m in &msgs {
        let out = reg_b.handle_event(&NetEvent::Message(b_from_c.clone(), encode(m)));
        if let EngineOutput::Reply(reply) = out {
            let back = reg_c.handle_event(&NetEvent::Message(c_to_b.clone(), encode(&reply)));
            if let EngineOutput::ConnectTo(addrs) = back {
                fan_out = addrs;
            } else {
                panic!("expected a fan-out step");
            }
        }
    }
    // C discovered exactly A through B's list.
    assert_eq!(fan_out, vec![a_addr]);

    // C connects to each candidate and announces itself.
    for candidate in &fan_out {
        let c_to_a = Endpoint::new(30, *candidate);
        let a_from_c = Endpoint::new(31, addr(51003));
        let announce = reg_c.on_candidate_connected(&c_to_a);
        let out = reg_a.handle_event(&NetEvent::Message(a_from_c, encode(&announce)));
        assert_eq!(out, EngineOutput::Silent);
    }

    // Every registry lists its own address first and then the other two, in
    // some order.
    let list_a = reg_a.get_peers_list();
    let list_b = reg_b.get_peers_list();
    let list_c = reg_c.get_peers_list();
    assert_eq!(list_a[0], a_addr);
    assert_eq!(list_b[0], b_addr);
    assert_eq!(list_c[0], c_addr);
    assert_eq!(tail_as_sorted_set(&list_a), vec![9001, 9002]);
    assert_eq!(tail_as_sorted_set(&list_b), vec![9000, 9002]);
    assert_eq!(tail_as_sorted_set(&list_c), vec![9000, 9001]);
}

#[test]
fn tick_with_no_receivers_sends_nothing() {
    let reg: PeersStorage<Endpoint> = PeersStorage::new(addr(9000));
    assert!(gossip_tick(&reg).is_none());
}

#[test]
fn tick_with_a_peer_broadcasts_gossip() {
    let a_addr = addr(9000);
    let b_addr = addr(9001);
    let mut reg: PeersStorage<Endpoint> = PeersStorage::new(a_addr);
    let b_ep = Endpoint::new(1, addr(51001));
    reg.handle_event(&NetEvent::Message(
        b_ep.clone(),
        encode(&Message::AnnouncePublicAddress(b_addr)),
    ));

    let (message, receivers) = gossip_tick(&reg).expect("a receiver is known");
    assert_eq!(receivers.len(), 1);
    assert_eq!(receivers[0].endpoint, b_ep);
    assert_eq!(receivers[0].public, b_addr);
    match message {
        Message::Gossip(text) => {
            // Two non-empty lowercase words joined by a single hyphen.
            let parts: Vec<&str> = text.split('-').collect();
            assert_eq!(parts.len(), 2);
            for part in parts {
                assert!(!part.is_empty());
                assert!(part.chars().all(|c| c.is_ascii_lowercase()));
            }
        }
        other => panic!("expected gossip, got {:?}", other),
    }
}
