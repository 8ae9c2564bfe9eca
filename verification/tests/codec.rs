use simple_p2p::{decode, encode, Address, Message, ProtocolError};

fn addr(ip3: u8, port: u16) -> Address {
    Address { ip0: 127, ip1: 0, ip2: 0, ip3, port }
}

#[test]
fn announce_has_exact_wire_bytes() {
    let m = Message::AnnouncePublicAddress(addr(1, 4412));
    // 4412 = 0x113C
    assert_eq!(encode(&m), vec![0, 127, 0, 0, 1, 0x11, 0x3C]);
}

#[test]
fn announce_round_trips() {
    let m = Message::AnnouncePublicAddress(addr(1, 9000));
    assert_eq!(decode(&encode(&m)), Ok(m));
}

#[test]
fn request_peer_list_round_trips() {
    let m = Message::RequestPeerList;
    assert_eq!(encode(&m), vec![1]);
    assert_eq!(decode(&encode(&m)), Ok(m));
}

#[test]
fn peer_list_round_trips() {
    let m = Message::PeerList(vec![addr(1, 9000), addr(2, 9001), addr(3, 65535)]);
    assert_eq!(decode(&encode(&m)), Ok(m));
}

#[test]
fn empty_peer_list_round_trips() {
    let m = Message::PeerList(vec![]);
    assert_eq!(encode(&m), vec![2]);
    assert_eq!(decode(&encode(&m)), Ok(m));
}

#[test]
fn gossip_round_trips() {
    let m = Message::Gossip(String::from("proud-tern"));
    assert_eq!(decode(&encode(&m)), Ok(m));
}

#[test]
fn gossip_with_non_ascii_text_round_trips() {
    let m = Message::Gossip(String::from("réseau déchaîné ✓"));
    assert_eq!(decode(&encode(&m)), Ok(m));
}

#[test]
fn empty_payload_is_malformed() {
    assert_eq!(decode(&[]), Err(ProtocolError::Malformed));
}

#[test]
fn unknown_tag_is_malformed() {
    assert_eq!(decode(&[9]), Err(ProtocolError::Malformed));
}

#[test]
fn truncated_announce_is_malformed() {
    let mut bytes = encode(&Message::AnnouncePublicAddress(addr(1, 9000)));
    bytes.pop();
    assert_eq!(decode(&bytes), Err(ProtocolError::Malformed));
}

#[test]
fn oversized_request_is_malformed() {
    assert_eq!(decode(&[1, 0]), Err(ProtocolError::Malformed));
}

#[test]
fn ragged_peer_list_is_malformed() {
    let mut bytes = encode(&Message::PeerList(vec![addr(1, 9000)]));
    bytes.push(0);
    assert_eq!(decode(&bytes), Err(ProtocolError::Malformed));
}

#[test]
fn ragged_gossip_is_malformed() {
    let mut bytes = encode(&Message::Gossip(String::from("hi")));
    bytes.pop();
    assert_eq!(decode(&bytes), Err(ProtocolError::Malformed));
}

#[test]
fn gossip_with_surrogate_scalar_is_malformed() {
    // 0xD800 is a surrogate, not a Unicode scalar value.
    let bytes = vec![3, 0x00, 0x00, 0xD8, 0x00];
    assert_eq!(decode(&bytes), Err(ProtocolError::Malformed));
}

#[test]
fn gossip_with_out_of_range_scalar_is_malformed() {
    // 0x110000 is one past the greatest code point.
    let bytes = vec![3, 0x00, 0x11, 0x00, 0x00];
    assert_eq!(decode(&bytes), Err(ProtocolError::Malformed));
}
