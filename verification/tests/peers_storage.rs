use simple_p2p::{Address, PeerAddr, PeerEndpoint, PeersStorage};

#[derive(Debug, Clone, PartialEq, Eq, Hash)]
struct Endpoint {
    addr: Address,
}

impl Endpoint {
    fn new(addr: Address) -> Self {
        Self { addr }
    }
}

impl PeerEndpoint for Endpoint {
    // The spec-level counterpart of `addr`; it is never called at run time.
    fn addr_spec(&self) -> Address {
        self.addr
    }

    fn addr(&self) -> Address {
        self.addr
    }

    fn same_as(&self, other: &Self) -> bool {
        self.addr == other.addr
    }

    fn dup(&self) -> Self {
        self.clone()
    }
}

fn socket_addr(s: &str) -> Address {
    let (ip, port) = s.split_once(':').expect("Unable to parse string to Address");
    let mut octets = ip.split('.');
    let ip0: u8 = octets.next().unwrap().parse().unwrap();
    let ip1: u8 = octets.next().unwrap().parse().unwrap();
    let ip2: u8 = octets.next().unwrap().parse().unwrap();
    let ip3: u8 = octets.next().unwrap().parse().unwrap();
    let port: u16 = port.parse().unwrap();
    Address { ip0, ip1, ip2, ip3, port }
}

fn endpoint(s: &str) -> Endpoint {
    Endpoint::new(socket_addr(s))
}

#[test]
fn initially_only_self_addr_in_list() {
    let addr = socket_addr("127.0.0.1:4412");
    let map: PeersStorage<Endpoint> = PeersStorage::new(addr);

    assert_eq!(map.get_peers_list(), vec![addr]);
}

#[test]
fn old_one_appears() {
    let self_addr = socket_addr("127.0.0.1:4412");
    let old_addr = socket_addr("127.0.0.1:8000");
    let old = Endpoint::new(old_addr);

    let mut map: PeersStorage<Endpoint> = PeersStorage::new(self_addr);
    map.add_old_one(old);

    assert_eq!(map.get_peers_list(), vec![self_addr, old_addr]);
}

#[test]
fn get_old_one_pub_addr() {
    let self_addr = socket_addr("127.0.0.1:4412");
    let old_addr = socket_addr("127.0.0.1:8000");
    let old = Endpoint::new(old_addr);

    let mut map: PeersStorage<Endpoint> = PeersStorage::new(self_addr);
    map.add_old_one(old.clone());

    assert_eq!(map.get_pub_addr(&old), Some(old_addr));
}

#[test]
fn old_one_receiver() {
    let self_addr = socket_addr("127.0.0.1:4412");
    let old_addr = socket_addr("127.0.0.1:8000");
    let old = Endpoint::new(old_addr);

    let mut map: PeersStorage<Endpoint> = PeersStorage::new(self_addr);
    map.add_old_one(old.clone());

    assert_eq!(
        map.receivers(),
        vec![PeerAddr {
            endpoint: old,
            public: old_addr
        }]
    );
}

#[test]
fn new_one_appear() {
    let self_addr = socket_addr("127.0.0.1:4412");
    let new_addr = socket_addr("127.0.0.1:51523");
    let new_pub_addr = socket_addr("127.0.0.1:8000");
    let new_end = Endpoint::new(new_addr);

    let mut map: PeersStorage<Endpoint> = PeersStorage::new(self_addr);
    map.add_new_one(new_end, new_pub_addr);

    assert_eq!(map.get_peers_list(), vec![self_addr, new_pub_addr]);
}

#[test]
fn get_new_one_pub_addr() {
    let self_addr = socket_addr("127.0.0.1:4412");
    let new_addr = socket_addr("127.0.0.1:51523");
    let new_pub_addr = socket_addr("127.0.0.1:8000");
    let new_end = Endpoint::new(new_addr);

    let mut map: PeersStorage<Endpoint> = PeersStorage::new(self_addr);
    map.add_new_one(new_end.clone(), new_pub_addr);

    assert_eq!(map.get_pub_addr(&new_end), Some(new_pub_addr));
}

#[test]
fn new_one_receiver() {
    let self_addr = socket_addr("127.0.0.1:4412");
    let new_addr = socket_addr("127.0.0.1:51523");
    let new_pub_addr = socket_addr("127.0.0.1:8000");
    let new_end = Endpoint::new(new_addr);

    let mut map: PeersStorage<Endpoint> = PeersStorage::new(self_addr);
    map.add_new_one(new_end.clone(), new_pub_addr);

    assert_eq!(
        map.receivers(),
        vec![PeerAddr {
            endpoint: new_end,
            public: new_pub_addr
        }]
    );
}

#[test]
fn dropping_endpoint_works() {
    let mut map: PeersStorage<Endpoint> = PeersStorage::new(socket_addr("127.0.0.1:8000"));

    map.add_old_one(endpoint("127.0.0.1:8001"));
    map.drop(endpoint("127.0.0.1:8001"));

    assert_eq!(map.get_peers_list(), vec![socket_addr("127.0.0.1:8000")]);
}

#[test]
fn seed_upgraded_by_announce() {
    let self_addr = socket_addr("127.0.0.1:4412");
    let conn_addr = socket_addr("127.0.0.1:51523");
    let pub_addr = socket_addr("127.0.0.1:8000");
    let ep = Endpoint::new(conn_addr);

    let mut map: PeersStorage<Endpoint> = PeersStorage::new(self_addr);
    map.add_old_one(ep.clone());
    assert_eq!(map.get_pub_addr(&ep), Some(conn_addr));

    map.add_new_one(ep.clone(), pub_addr);
    assert_eq!(map.get_pub_addr(&ep), Some(pub_addr));
    assert_eq!(map.get_peers_list(), vec![self_addr, pub_addr]);
}

#[test]
fn re_registering_seed_is_a_no_op() {
    let self_addr = socket_addr("127.0.0.1:4412");
    let ep = endpoint("127.0.0.1:8000");

    let mut map: PeersStorage<Endpoint> = PeersStorage::new(self_addr);
    map.add_old_one(ep.clone());
    map.add_old_one(ep.clone());

    assert_eq!(
        map.get_peers_list(),
        vec![self_addr, socket_addr("127.0.0.1:8000")]
    );
}

#[test]
fn dropping_twice_is_idempotent() {
    let self_addr = socket_addr("127.0.0.1:4412");
    let ep = endpoint("127.0.0.1:8000");

    let mut map: PeersStorage<Endpoint> = PeersStorage::new(self_addr);
    map.add_old_one(ep.clone());
    map.drop(ep.clone());
    let after_once = map.get_peers_list();
    map.drop(ep);
    assert_eq!(map.get_peers_list(), after_once);
}

#[test]
fn unknown_endpoint_resolves_to_none() {
    let map: PeersStorage<Endpoint> = PeersStorage::new(socket_addr("127.0.0.1:4412"));
    assert_eq!(map.get_pub_addr(&endpoint("127.0.0.1:8000")), None);
}
