use crate::addr::Address;
use vstd::prelude::*;
use vstd::string::StrSliceExecFns;
use vstd::utf8::char_is_scalar;
use vstd::utf8::char_u32_cast;
use vstd::utf8::is_scalar;

verus! {

/// Wire tag of `AnnouncePublicAddress`.
pub const TAG_ANNOUNCE: u8 = 0;

/// Wire tag of `RequestPeerList`.
pub const TAG_REQUEST: u8 = 1;

/// Wire tag of `PeerList`.
pub const TAG_PEER_LIST: u8 = 2;

/// Wire tag of `Gossip`.
pub const TAG_GOSSIP: u8 = 3;

/// One protocol message, as exchanged between peers.
#[derive(Debug, PartialEq)]
pub enum Message {
    /// "Here is the address I listen on."
    AnnouncePublicAddress(Address),
    /// "Send me everyone you know."
    RequestPeerList,
    /// The response to `RequestPeerList`.
    PeerList(Vec<Address>),
    /// A fire-and-forget broadcast payload.
    Gossip(String),
}

/// The mathematical value of a message.
#[verifier::ext_equal]
pub enum MessageView {
    AnnouncePublicAddress(Address),
    RequestPeerList,
    PeerList(Seq<Address>),
    Gossip(Seq<char>),
}

impl View for Message {
    type V = MessageView;

    open spec fn view(&self) -> MessageView {
        match self {
            Message::AnnouncePublicAddress(a) => MessageView::AnnouncePublicAddress(*a),
            Message::RequestPeerList => MessageView::RequestPeerList,
            Message::PeerList(v) => MessageView::PeerList(v@),
            Message::Gossip(s) => MessageView::Gossip(s@),
        }
    }
}

/// A decoding failure.
#[derive(Clone, Copy, Debug, PartialEq, Eq, Structural)]
pub enum ProtocolError {
    /// The payload is not a well-formed encoding of any message.
    Malformed,
}

/// Relies on core's `char::from_u32`: it returns `Some` exactly for values
/// outside the surrogate range and at most the greatest code point, and the
/// returned character casts back to the given value.
pub assume_specification[ char::from_u32 ](v: u32) -> (r: Option<char>)
    ensures
        r is Some <==> is_scalar(v),
        r matches Some(c) ==> c as u32 == v,
;

/// Relies on std's `String::push`: it appends the character to the string.
pub assume_specification[ String::push ](s: &mut String, c: char)
    ensures
        final(s)@ == old(s)@.push(c),
;

/// The six wire bytes of an address: the four IPv4 octets, then the port in
/// big-endian order.
pub open spec fn addr_bytes(a: Address) -> Seq<u8> {
    seq![a.ip0, a.ip1, a.ip2, a.ip3, (a.port >> 8) as u8, a.port as u8]
}

/// The address read back from six wire bytes.
pub open spec fn addr_of_bytes(b: Seq<u8>) -> Address
    recommends
        b.len() == 6,
{
    Address {
        ip0: b[0],
        ip1: b[1],
        ip2: b[2],
        ip3: b[3],
        port: ((b[4] as u16) << 8) | (b[5] as u16),
    }
}

/// The wire bytes of a sequence of addresses, six per address.
pub open spec fn addr_seq_bytes(s: Seq<Address>) -> Seq<u8>
    decreases s.len(),
{
    if s.len() == 0 {
        Seq::empty()
    } else {
        addr_bytes(s[0]) + addr_seq_bytes(s.drop_first())
    }
}

/// The addresses read back from wire bytes, six at a time.
pub open spec fn addrs_of_bytes(b: Seq<u8>) -> Seq<Address>
    recommends
        b.len() % 6 == 0,
    decreases b.len(),
{
    if b.len() < 6 {
        Seq::empty()
    } else {
        seq![addr_of_bytes(b.take(6))] + addrs_of_bytes(b.skip(6))
    }
}

/// The four big-endian wire bytes of a Unicode scalar value.
pub open spec fn scalar_bytes(v: u32) -> Seq<u8> {
    seq![(v >> 24) as u8, (v >> 16) as u8, (v >> 8) as u8, v as u8]
}

/// The scalar value read back from four wire bytes.
pub open spec fn scalar_of_bytes(b: Seq<u8>) -> u32
    recommends
        b.len() == 4,
{
    ((b[0] as u32) << 24) | ((b[1] as u32) << 16) | ((b[2] as u32) << 8) | (b[3] as u32)
}

/// The wire bytes of a character sequence: each character's scalar value as
/// four big-endian bytes.
pub open spec fn char_seq_bytes(s: Seq<char>) -> Seq<u8>
    decreases s.len(),
{
    if s.len() == 0 {
        Seq::empty()
    } else {
        scalar_bytes(s[0] as u32) + char_seq_bytes(s.drop_first())
    }
}

/// Whether gossip payload bytes split into whole four-byte groups that each
/// hold a Unicode scalar value.
pub open spec fn gossip_bytes_ok(b: Seq<u8>) -> bool
    decreases b.len(),
{
    if b.len() == 0 {
        true
    } else if b.len() < 4 {
        false
    } else {
        is_scalar(scalar_of_bytes(b.take(4))) && gossip_bytes_ok(b.skip(4))
    }
}

/// The characters read back from gossip payload bytes, four at a time.
pub open spec fn chars_of_bytes(b: Seq<u8>) -> Seq<char>
    recommends
        gossip_bytes_ok(b),
    decreases b.len(),
{
    if b.len() < 4 {
        Seq::empty()
    } else {
        seq![scalar_of_bytes(b.take(4)) as char] + chars_of_bytes(b.skip(4))
    }
}

/// The encoding of a message: its tag byte, then the variant's payload.
pub open spec fn spec_encode(m: MessageView) -> Seq<u8> {
    match m {
        MessageView::AnnouncePublicAddress(a) => seq![TAG_ANNOUNCE] + addr_bytes(a),
        MessageView::RequestPeerList => seq![TAG_REQUEST],
        MessageView::PeerList(s) => seq![TAG_PEER_LIST] + addr_seq_bytes(s),
        MessageView::Gossip(s) => seq![TAG_GOSSIP] + char_seq_bytes(s),
    }
}

/// The decoding relation: `Some` exactly when the bytes are a well-formed
/// encoding of some message.
pub open spec fn spec_decode(b: Seq<u8>) -> Option<MessageView> {
    if b.len() == 0 {
        None
    } else if b[0] == TAG_ANNOUNCE {
        if b.len() == 7 {
            Some(MessageView::AnnouncePublicAddress(addr_of_bytes(b.skip(1))))
        } else {
            None
        }
    } else if b[0] == TAG_REQUEST {
        if b.len() == 1 {
            Some(MessageView::RequestPeerList)
        } else {
            None
        }
    } else if b[0] == TAG_PEER_LIST {
        if (b.len() - 1) % 6 == 0 {
            Some(MessageView::PeerList(addrs_of_bytes(b.skip(1))))
        } else {
            None
        }
    } else if b[0] == TAG_GOSSIP {
        if gossip_bytes_ok(b.skip(1)) {
            Some(MessageView::Gossip(chars_of_bytes(b.skip(1))))
        } else {
            None
        }
    } else {
        None
    }
}

/// Appends the six wire bytes of an address.
fn push_addr(out: &mut Vec<u8>, a: &Address)
    ensures
        final(out)@ == old(out)@ + addr_bytes(*a),
{
    out.push(a.ip0);
    out.push(a.ip1);
    out.push(a.ip2);
    out.push(a.ip3);
    out.push(#[verifier::truncate] ((a.port >> 8) as u8));
    out.push(#[verifier::truncate] (a.port as u8));
    proof {
        assert(out@ =~= old(out)@ + addr_bytes(*a));
    }
}

/// Appends the four big-endian wire bytes of a scalar value.
fn push_scalar(out: &mut Vec<u8>, v: u32)
    ensures
        final(out)@ == old(out)@ + scalar_bytes(v),
{
    out.push(#[verifier::truncate] ((v >> 24) as u8));
    out.push(#[verifier::truncate] ((v >> 16) as u8));
    out.push(#[verifier::truncate] ((v >> 8) as u8));
    out.push(#[verifier::truncate] (v as u8));
    proof {
        assert(out@ =~= old(out)@ + scalar_bytes(v));
    }
}

/// Appending one address to a sequence appends its bytes to the encoding.
proof fn lemma_addr_seq_bytes_snoc(s: Seq<Address>, a: Address)
    ensures
        addr_seq_bytes(s.push(a)) == addr_seq_bytes(s) + addr_bytes(a),
    decreases s.len(),
{
    if s.len() == 0 {
        assert(s.push(a).drop_first() =~= Seq::<Address>::empty());
        assert(addr_seq_bytes(Seq::<Address>::empty()) == Seq::<u8>::empty());
        assert(addr_seq_bytes(s.push(a)) == addr_bytes(a) + Seq::<u8>::empty());
        assert(addr_seq_bytes(s.push(a)) =~= addr_seq_bytes(s) + addr_bytes(a));
    } else {
        assert(s.push(a).drop_first() =~= s.drop_first().push(a));
        lemma_addr_seq_bytes_snoc(s.drop_first(), a);
        vstd::seq_lib::lemma_concat_associative(
            addr_bytes(s[0]),
            addr_seq_bytes(s.drop_first()),
            addr_bytes(a),
        );
        assert(s.push(a)[0] == s[0]);
        assert(addr_seq_bytes(s.push(a)) == addr_bytes(s[0]) + addr_seq_bytes(
            s.drop_first().push(a),
        ));
        assert(addr_seq_bytes(s.push(a)) == addr_bytes(s[0]) + (addr_seq_bytes(s.drop_first())
            + addr_bytes(a)));
        assert(addr_seq_bytes(s) == addr_bytes(s[0]) + addr_seq_bytes(s.drop_first()));
        assert(addr_seq_bytes(s) + addr_bytes(a) == (addr_bytes(s[0]) + addr_seq_bytes(
            s.drop_first(),
        )) + addr_bytes(a));
        assert(addr_seq_bytes(s.push(a)) == addr_seq_bytes(s) + addr_bytes(a));
    }
}

/// Appending one character to a sequence appends its bytes to the encoding.
proof fn lemma_char_seq_bytes_snoc(s: Seq<char>, c: char)
    ensures
        char_seq_bytes(s.push(c)) == char_seq_bytes(s) + scalar_bytes(c as u32),
    decreases s.len(),
{
    if s.len() == 0 {
        assert(s.push(c).drop_first() =~= Seq::<char>::empty());
        assert(char_seq_bytes(Seq::<char>::empty()) == Seq::<u8>::empty());
        assert(char_seq_bytes(s.push(c)) == scalar_bytes(c as u32) + Seq::<u8>::empty());
        assert(char_seq_bytes(s.push(c)) =~= char_seq_bytes(s) + scalar_bytes(c as u32));
    } else {
        assert(s.push(c).drop_first() =~= s.drop_first().push(c));
        lemma_char_seq_bytes_snoc(s.drop_first(), c);
        vstd::seq_lib::lemma_concat_associative(
            scalar_bytes(s[0] as u32),
            char_seq_bytes(s.drop_first()),
            scalar_bytes(c as u32),
        );
        assert(s.push(c)[0] == s[0]);
        assert(char_seq_bytes(s.push(c)) == scalar_bytes(s[0] as u32) + char_seq_bytes(
            s.drop_first().push(c),
        ));
        assert(char_seq_bytes(s.push(c)) == scalar_bytes(s[0] as u32) + (char_seq_bytes(
            s.drop_first(),
        ) + scalar_bytes(c as u32)));
        assert(char_seq_bytes(s) == scalar_bytes(s[0] as u32) + char_seq_bytes(s.drop_first()));
        assert(char_seq_bytes(s) + scalar_bytes(c as u32) == (scalar_bytes(s[0] as u32)
            + char_seq_bytes(s.drop_first())) + scalar_bytes(c as u32));
        assert(char_seq_bytes(s.push(c)) == char_seq_bytes(s) + scalar_bytes(c as u32));
    }
}

/// Encodes a message to its wire bytes; total and deterministic.
pub fn encode(m: &Message) -> (r: Vec<u8>)
    ensures
        r@ == spec_encode(m@),
{
    let mut out: Vec<u8> = Vec::new();
    match m {
        Message::AnnouncePublicAddress(a) => {
            out.push(TAG_ANNOUNCE);
            push_addr(&mut out, a);
            proof {
                assert(out@ =~= spec_encode(m@));
            }
        },
        Message::RequestPeerList => {
            out.push(TAG_REQUEST);
            proof {
                assert(out@ =~= spec_encode(m@));
            }
        },
        Message::PeerList(v) => {
            out.push(TAG_PEER_LIST);
            let n = v.len();
            let mut i: usize = 0;
            while i < n
                invariant
                    n == v@.len(),
                    i <= n,
                    out@ == seq![TAG_PEER_LIST] + addr_seq_bytes(v@.take(i as int)),
                decreases n - i,
            {
                push_addr(&mut out, &v[i]);
                proof {
                    lemma_addr_seq_bytes_snoc(v@.take(i as int), v@[i as int]);
                    assert(v@.take(i + 1) =~= v@.take(i as int).push(v@[i as int]));
                    assert(out@ =~= seq![TAG_PEER_LIST] + addr_seq_bytes(v@.take(i + 1)));
                }
                i += 1;
            }
            proof {
                assert(v@.take(n as int) =~= v@);
            }
        },
        Message::Gossip(s) => {
            out.push(TAG_GOSSIP);
            let text: &str = s.as_str();
            let n = text.unicode_len();
            let mut i: usize = 0;
            while i < n
                invariant
                    text@ == s@,
                    n == s@.len(),
                    i <= n,
                    out@ == seq![TAG_GOSSIP] + char_seq_bytes(s@.take(i as int)),
                decreases n - i,
            {
                let c = text.get_char(i);
                push_scalar(&mut out, c as u32);
                proof {
                    lemma_char_seq_bytes_snoc(s@.take(i as int), s@[i as int]);
                    assert(s@.take(i + 1) =~= s@.take(i as int).push(s@[i as int]));
                    assert(out@ =~= seq![TAG_GOSSIP] + char_seq_bytes(s@.take(i + 1)));
                }
                i += 1;
            }
            proof {
                assert(s@.take(n as int) =~= s@);
            }
        },
    }
    out
}

/// Reads an address from six wire bytes starting at the given position.
fn read_addr(bytes: &[u8], i: usize) -> (a: Address)
    requires
        i + 6 <= bytes@.len(),
    ensures
        a == addr_of_bytes(bytes@.subrange(i as int, i as int + 6)),
{
    // Reading the length brings the fact that it fits in usize into scope,
    // which bounds the index arithmetic below.
    let n = bytes.len();
    assert(i + 6 <= n);
    let port: u16 = ((bytes[i + 4] as u16) << 8) | (bytes[i + 5] as u16);
    let a = Address {
        ip0: bytes[i],
        ip1: bytes[i + 1],
        ip2: bytes[i + 2],
        ip3: bytes[i + 3],
        port,
    };
    proof {
        let sub = bytes@.subrange(i as int, i as int + 6);
        assert(sub[0] == bytes@[i as int]);
        assert(sub[1] == bytes@[i as int + 1]);
        assert(sub[2] == bytes@[i as int + 2]);
        assert(sub[3] == bytes@[i as int + 3]);
        assert(sub[4] == bytes@[i as int + 4]);
        assert(sub[5] == bytes@[i as int + 5]);
    }
    a
}

/// `addrs_of_bytes` read index by index: one address per six-byte group.
proof fn lemma_addrs_of_bytes_index(b: Seq<u8>)
    requires
        b.len() % 6 == 0,
    ensures
        addrs_of_bytes(b).len() == b.len() / 6,
        forall|g: int|
            0 <= g < b.len() / 6 ==> addrs_of_bytes(b)[g] == addr_of_bytes(
                b.subrange(6 * g, 6 * g + 6),
            ),
    decreases b.len(),
{
    if b.len() == 0 {
    } else {
        lemma_addrs_of_bytes_index(b.skip(6));
        assert(b.take(6) =~= b.subrange(0, 6));
        assert forall|g: int| 0 <= g < b.len() / 6 implies addrs_of_bytes(b)[g] == addr_of_bytes(
            b.subrange(6 * g, 6 * g + 6),
        ) by {
            if g > 0 {
                assert(addrs_of_bytes(b)[g] == addrs_of_bytes(b.skip(6))[g - 1]);
                assert(b.skip(6).subrange(6 * (g - 1), 6 * (g - 1) + 6) =~= b.subrange(
                    6 * g,
                    6 * g + 6,
                ));
            }
        }
    }
}

/// `gossip_bytes_ok` read group by group: whole four-byte groups, each holding
/// a scalar value.
proof fn lemma_gossip_bytes_ok_iff(b: Seq<u8>)
    ensures
        gossip_bytes_ok(b) <==> (b.len() % 4 == 0 && forall|g: int|
            0 <= g < b.len() / 4 ==> is_scalar(scalar_of_bytes(#[trigger] b.subrange(
                4 * g,
                4 * g + 4,
            )))),
    decreases b.len(),
{
    if b.len() == 0 {
    } else if b.len() < 4 {
    } else {
        lemma_gossip_bytes_ok_iff(b.skip(4));
        assert(b.take(4) =~= b.subrange(0, 4));
        if gossip_bytes_ok(b) {
            assert forall|g: int| 0 <= g < b.len() / 4 implies is_scalar(
                scalar_of_bytes(#[trigger] b.subrange(4 * g, 4 * g + 4)),
            ) by {
                if g > 0 {
                    assert(is_scalar(
                        scalar_of_bytes(b.skip(4).subrange(4 * (g - 1), 4 * (g - 1) + 4)),
                    ));
                }
            }
        }
        if b.len() % 4 == 0 && forall|g: int|
            0 <= g < b.len() / 4 ==> is_scalar(scalar_of_bytes(#[trigger] b.subrange(
                4 * g,
                4 * g + 4,
            ))) {
            assert forall|g: int| 0 <= g < b.skip(4).len() / 4 implies is_scalar(
                scalar_of_bytes(#[trigger] b.skip(4).subrange(4 * g, 4 * g + 4)),
            ) by {
                assert(b.subrange(4 * (g + 1), 4 * (g + 1) + 4) =~= b.skip(4).subrange(
                    4 * g,
                    4 * g + 4,
                ));
                assert(is_scalar(scalar_of_bytes(b.subrange(4 * (g + 1), 4 * (g + 1) + 4))));
            }
            let z: int = 0;
            assert(is_scalar(scalar_of_bytes(b.subrange(4 * z, 4 * z + 4))));
            assert(b.subrange(4 * z, 4 * z + 4) =~= b.take(4));
        }
    }
}

/// `chars_of_bytes` read group by group: one character per four-byte group.
proof fn lemma_chars_of_bytes_index(b: Seq<u8>)
    requires
        b.len() % 4 == 0,
    ensures
        chars_of_bytes(b).len() == b.len() / 4,
        forall|g: int|
            0 <= g < b.len() / 4 ==> chars_of_bytes(b)[g] == scalar_of_bytes(
                #[trigger] b.subrange(4 * g, 4 * g + 4),
            ) as char,
    decreases b.len(),
{
    if b.len() == 0 {
    } else {
        lemma_chars_of_bytes_index(b.skip(4));
        assert(b.take(4) =~= b.subrange(0, 4));
        assert forall|g: int| 0 <= g < b.len() / 4 implies chars_of_bytes(b)[g] == scalar_of_bytes(
            #[trigger] b.subrange(4 * g, 4 * g + 4),
        ) as char by {
            if g > 0 {
                assert(chars_of_bytes(b)[g] == chars_of_bytes(b.skip(4))[g - 1]);
                assert(b.skip(4).subrange(4 * (g - 1), 4 * (g - 1) + 4) =~= b.subrange(
                    4 * g,
                    4 * g + 4,
                ));
            }
        }
    }
}

/// The byte length of an encoded address sequence: six per address.
proof fn lemma_addr_seq_bytes_len(s: Seq<Address>)
    ensures
        addr_seq_bytes(s).len() == 6 * s.len(),
    decreases s.len(),
{
    if s.len() == 0 {
    } else {
        lemma_addr_seq_bytes_len(s.drop_first());
    }
}

/// The byte length of an encoded character sequence: four per character.
proof fn lemma_char_seq_bytes_len(s: Seq<char>)
    ensures
        char_seq_bytes(s).len() == 4 * s.len(),
    decreases s.len(),
{
    if s.len() == 0 {
    } else {
        lemma_char_seq_bytes_len(s.drop_first());
    }
}

/// Reading back the six wire bytes of an address yields that address.
proof fn lemma_addr_round_trip(a: Address)
    ensures
        addr_of_bytes(addr_bytes(a)) == a,
{
    let p = a.port;
    assert((((((p >> 8) as u8) as u16) << 8) | ((p as u8) as u16)) == p) by (bit_vector);
    assert(addr_of_bytes(addr_bytes(a)).port == a.port);
}

/// Reading back the four wire bytes of a scalar value yields that value.
proof fn lemma_scalar_round_trip(v: u32)
    ensures
        scalar_of_bytes(scalar_bytes(v)) == v,
{
    assert(((((v >> 24) as u8) as u32) << 24) | ((((v >> 16) as u8) as u32) << 16) | ((((v
        >> 8) as u8) as u32) << 8) | ((v as u8) as u32) == v) by (bit_vector);
}

/// Decoding an encoded address sequence yields the original sequence.
proof fn lemma_addrs_round_trip(s: Seq<Address>)
    ensures
        addrs_of_bytes(addr_seq_bytes(s)) == s,
    decreases s.len(),
{
    if s.len() == 0 {
        assert(addrs_of_bytes(addr_seq_bytes(s)) =~= s);
    } else {
        let b = addr_seq_bytes(s);
        lemma_addr_seq_bytes_len(s);
        lemma_addr_seq_bytes_len(s.drop_first());
        assert(b == addr_bytes(s[0]) + addr_seq_bytes(s.drop_first()));
        assert(b.take(6) =~= addr_bytes(s[0]));
        assert(b.skip(6) =~= addr_seq_bytes(s.drop_first()));
        lemma_addr_round_trip(s[0]);
        lemma_addrs_round_trip(s.drop_first());
        assert(addrs_of_bytes(b) == seq![addr_of_bytes(b.take(6))] + addrs_of_bytes(b.skip(6)));
        assert(addrs_of_bytes(b) =~= s);
    }
}

/// An encoded character sequence is well-formed gossip payload and decodes to
/// the original characters.
proof fn lemma_chars_round_trip(s: Seq<char>)
    ensures
        gossip_bytes_ok(char_seq_bytes(s)),
        chars_of_bytes(char_seq_bytes(s)) == s,
    decreases s.len(),
{
    if s.len() == 0 {
        assert(gossip_bytes_ok(char_seq_bytes(s)));
        assert(chars_of_bytes(char_seq_bytes(s)) =~= s);
    } else {
        let b = char_seq_bytes(s);
        lemma_char_seq_bytes_len(s);
        lemma_char_seq_bytes_len(s.drop_first());
        assert(b == scalar_bytes(s[0] as u32) + char_seq_bytes(s.drop_first()));
        assert(b.take(4) =~= scalar_bytes(s[0] as u32));
        assert(b.skip(4) =~= char_seq_bytes(s.drop_first()));
        lemma_scalar_round_trip(s[0] as u32);
        char_is_scalar(s[0]);
        char_u32_cast(s[0], s[0] as u32);
        lemma_chars_round_trip(s.drop_first());
        assert(gossip_bytes_ok(b));
        assert(chars_of_bytes(b) == seq![scalar_of_bytes(b.take(4)) as char] + chars_of_bytes(
            b.skip(4),
        ));
        assert(chars_of_bytes(b) =~= s);
    }
}

/// Round-trip law: decoding the encoding of any message value yields exactly
/// that value.
pub proof fn lemma_round_trip(m: MessageView)
    ensures
        spec_decode(spec_encode(m)) == Some(m),
{
    let b = spec_encode(m);
    match m {
        MessageView::AnnouncePublicAddress(a) => {
            assert(b.len() == 7);
            assert(b[0] == TAG_ANNOUNCE);
            assert(b.skip(1) =~= addr_bytes(a));
            lemma_addr_round_trip(a);
        },
        MessageView::RequestPeerList => {
            assert(b.len() == 1);
            assert(b[0] == TAG_REQUEST);
        },
        MessageView::PeerList(s) => {
            lemma_addr_seq_bytes_len(s);
            assert(b[0] == TAG_PEER_LIST);
            assert(b.skip(1) =~= addr_seq_bytes(s));
            assert((b.len() - 1) % 6 == 0);
            lemma_addrs_round_trip(s);
        },
        MessageView::Gossip(s) => {
            lemma_char_seq_bytes_len(s);
            assert(b[0] == TAG_GOSSIP);
            assert(b.skip(1) =~= char_seq_bytes(s));
            lemma_chars_round_trip(s);
        },
    }
}

/// Decodes wire bytes back into a message; a payload that is not a well-formed
/// encoding yields `ProtocolError::Malformed`, never a panic.
pub fn decode(bytes: &[u8]) -> (r: Result<Message, ProtocolError>)
    ensures
        r matches Ok(m) ==> spec_decode(bytes@) == Some(m@),
        r matches Err(e) ==> spec_decode(bytes@) is None && e == ProtocolError::Malformed,
{
    let len = bytes.len();
    if len == 0 {
        return Err(ProtocolError::Malformed);
    }
    let tag = bytes[0];
    if tag == TAG_ANNOUNCE {
        if len == 7 {
            let a = read_addr(bytes, 1);
            proof {
                assert(bytes@.subrange(1, 7) =~= bytes@.skip(1));
            }
            Ok(Message::AnnouncePublicAddress(a))
        } else {
            Err(ProtocolError::Malformed)
        }
    } else if tag == TAG_REQUEST {
        if len == 1 {
            Ok(Message::RequestPeerList)
        } else {
            Err(ProtocolError::Malformed)
        }
    } else if tag == TAG_PEER_LIST {
        if (len - 1) % 6 != 0 {
            return Err(ProtocolError::Malformed);
        }
        let mut v: Vec<Address> = Vec::new();
        let mut i: usize = 1;
        while i < len
            invariant
                len == bytes@.len(),
                1 <= i <= len,
                (i - 1) % 6 == 0,
                (len - 1) % 6 == 0,
                v@.len() == (i - 1) / 6,
                forall|g: int|
                    0 <= g < v@.len() ==> v@[g] == addr_of_bytes(
                        #[trigger] bytes@.subrange(1 + 6 * g, 1 + 6 * g + 6),
                    ),
            decreases len - i,
        {
            let a = read_addr(bytes, i);
            v.push(a);
            proof {
                assert(bytes@.subrange(i as int, i as int + 6) == bytes@.subrange(
                    1 + 6 * ((i - 1) / 6),
                    1 + 6 * ((i - 1) / 6) + 6,
                ));
            }
            i += 6;
        }
        proof {
            let payload = bytes@.skip(1);
            lemma_addrs_of_bytes_index(payload);
            assert forall|g: int| 0 <= g < v@.len() implies v@[g] == addrs_of_bytes(payload)[g] by {
                assert(payload.subrange(6 * g, 6 * g + 6) =~= bytes@.subrange(
                    1 + 6 * g,
                    1 + 6 * g + 6,
                ));
            }
            assert(v@ =~= addrs_of_bytes(payload));
        }
        Ok(Message::PeerList(v))
    } else if tag == TAG_GOSSIP {
        if (len - 1) % 4 != 0 {
            proof {
                lemma_gossip_bytes_ok_iff(bytes@.skip(1));
            }
            return Err(ProtocolError::Malformed);
        }
        let mut text = String::new();
        let mut i: usize = 1;
        while i < len
            invariant
                len == bytes@.len(),
                bytes@[0] == TAG_GOSSIP,
                bytes@[0] != TAG_ANNOUNCE,
                bytes@[0] != TAG_REQUEST,
                bytes@[0] != TAG_PEER_LIST,
                1 <= i <= len,
                (i - 1) % 4 == 0,
                (len - 1) % 4 == 0,
                text@.len() == (i - 1) / 4,
                forall|g: int|
                    0 <= g < (i - 1) / 4 ==> is_scalar(scalar_of_bytes(
                        #[trigger] bytes@.subrange(1 + 4 * g, 1 + 4 * g + 4),
                    )),
                forall|g: int|
                    0 <= g < text@.len() ==> text@[g] == scalar_of_bytes(
                        #[trigger] bytes@.subrange(1 + 4 * g, 1 + 4 * g + 4),
                    ) as char,
            decreases len - i,
        {
            let v: u32 = ((bytes[i] as u32) << 24) | ((bytes[i + 1] as u32) << 16) | ((bytes[i
                + 2] as u32) << 8) | (bytes[i + 3] as u32);
            proof {
                let sub = bytes@.subrange(i as int, i as int + 4);
                assert(sub[0] == bytes@[i as int]);
                assert(sub[1] == bytes@[i as int + 1]);
                assert(sub[2] == bytes@[i as int + 2]);
                assert(sub[3] == bytes@[i as int + 3]);
                assert(v == scalar_of_bytes(sub));
                assert(bytes@.subrange(i as int, i as int + 4) == bytes@.subrange(
                    1 + 4 * ((i - 1) / 4),
                    1 + 4 * ((i - 1) / 4) + 4,
                ));
            }
            match char::from_u32(v) {
                Some(c) => {
                    text.push(c);
                    proof {
                        char_u32_cast(c, v);
                    }
                },
                None => {
                    proof {
                        lemma_gossip_bytes_ok_iff(bytes@.skip(1));
                        let g: int = ((i - 1) / 4) as int;
                        assert((i - 1) + 4 <= (len - 1));
                        assert(0 <= g < (len - 1) / 4);
                        assert(bytes@.skip(1).subrange(4 * g, 4 * g + 4) =~= bytes@.subrange(
                            1 + 4 * g,
                            1 + 4 * g + 4,
                        ));
                        assert(!is_scalar(scalar_of_bytes(
                            bytes@.skip(1).subrange(4 * g, 4 * g + 4),
                        )));
                        assert(!gossip_bytes_ok(bytes@.skip(1)));
                    }
                    return Err(ProtocolError::Malformed);
                },
            }
            i += 4;
        }
        proof {
            let payload = bytes@.skip(1);
            lemma_gossip_bytes_ok_iff(payload);
            assert forall|g: int| 0 <= g < payload.len() / 4 implies is_scalar(
                scalar_of_bytes(#[trigger] payload.subrange(4 * g, 4 * g + 4)),
            ) by {
                assert(payload.subrange(4 * g, 4 * g + 4) =~= bytes@.subrange(
                    1 + 4 * g,
                    1 + 4 * g + 4,
                ));
            }
            assert(gossip_bytes_ok(payload));
            lemma_chars_of_bytes_index(payload);
            assert forall|g: int| 0 <= g < text@.len() implies text@[g] == chars_of_bytes(
                payload,
            )[g] by {
                assert(payload.subrange(4 * g, 4 * g + 4) =~= bytes@.subrange(
                    1 + 4 * g,
                    1 + 4 * g + 4,
                ));
            }
            assert(text@ =~= chars_of_bytes(payload));
        }
        Ok(Message::Gossip(text))
    } else {
        Err(ProtocolError::Malformed)
    }
}

} // verus!
