use crate::addr::Address;
use crate::message::{decode, spec_decode, Message, MessageView};
use crate::peers_storage::{PeerEndpoint, PeersStorage, RegistryView};
use vstd::prelude::*;

verus! {

/// One inbound transport event, as the discovery engine sees it.
pub enum NetEvent<T: PeerEndpoint> {
    /// A framed payload arrived over the connection.
    Message(T, Vec<u8>),
    /// A connection was opened, by either side.
    Connected(T),
    /// A connection went away.
    Disconnected(T),
}

/// What the event loop must do next, beyond the registry change already
/// applied. The caller performs the sends and connects, which are transport
/// work.
#[derive(Debug, PartialEq)]
pub enum EngineOutput {
    /// Nothing to send.
    Silent,
    /// Send this message back to the event's sender.
    Reply(Message),
    /// Open a connection to each address in turn, handing each new endpoint
    /// to `on_candidate_connected`; failures are skipped per address.
    ConnectTo(Vec<Address>),
    /// Deliver a gossip text, with the sender's resolved address as
    /// provenance, or `None` for an unknown sender.
    Deliver(Option<Address>, String),
    /// The payload was malformed and has been discarded.
    Skipped,
}

/// The fan-out candidates taken from a received peer list: every listed
/// address except the node's own and the sender's transport address, in
/// order.
pub open spec fn candidate_addrs(
    addrs: Seq<Address>,
    self_addr: Address,
    sender_addr: Address,
) -> Seq<Address> {
    addrs.filter(|x: Address| x != self_addr && x != sender_addr)
}

/// The fan-out never targets the node's own address (so the registry is
/// never asked to store the node itself) nor the sender, which is already
/// connected.
pub proof fn lemma_candidates_exclude_self_and_sender(
    addrs: Seq<Address>,
    self_addr: Address,
    sender_addr: Address,
)
    ensures
        forall|i: int|
            0 <= i < candidate_addrs(addrs, self_addr, sender_addr).len() ==> (
            #[trigger] candidate_addrs(addrs, self_addr, sender_addr)[i]) != self_addr
                && candidate_addrs(addrs, self_addr, sender_addr)[i] != sender_addr,
    decreases addrs.len(),
{
    reveal(Seq::filter);
    if addrs.len() == 0 {
    } else {
        lemma_candidates_exclude_self_and_sender(addrs.drop_last(), self_addr, sender_addr);
        let c = candidate_addrs(addrs, self_addr, sender_addr);
        let shorter = candidate_addrs(addrs.drop_last(), self_addr, sender_addr);
        assert forall|i: int| 0 <= i < c.len() implies (#[trigger] c[i]) != self_addr && c[i]
            != sender_addr by {
            if addrs.last() != self_addr && addrs.last() != sender_addr {
                assert(c == shorter.push(addrs.last()));
                if i < shorter.len() {
                    assert(c[i] == shorter[i]);
                }
            } else {
                assert(c == shorter);
            }
        }
    }
}

/// Filters a received peer list down to the fan-out candidates.
fn filter_candidates<T: PeerEndpoint>(self_addr: Address, addrs: &Vec<Address>, sender: &T) -> (r:
    Vec<Address>)
    ensures
        r@ == candidate_addrs(addrs@, self_addr, sender.addr_spec()),
{
    let sender_addr = sender.addr();
    let mut r: Vec<Address> = Vec::new();
    let n = addrs.len();
    let mut i: usize = 0;
    proof {
        reveal(Seq::filter);
        assert(addrs@.take(0).filter(|x: Address| x != self_addr && x != sender_addr)
            =~= Seq::<Address>::empty());
    }
    while i < n
        invariant
            n == addrs@.len(),
            i <= n,
            r@ == candidate_addrs(addrs@.take(i as int), self_addr, sender_addr),
        decreases n - i,
    {
        let a = addrs[i];
        if !(a == self_addr) && !(a == sender_addr) {
            r.push(a);
        }
        proof {
            reveal(Seq::filter);
            assert(addrs@.take(i + 1).drop_last() =~= addrs@.take(i as int));
            assert(addrs@.take(i + 1).last() == addrs@[i as int]);
            assert(r@ == candidate_addrs(addrs@.take(i + 1), self_addr, sender_addr));
        }
        i += 1;
    }
    proof {
        assert(addrs@.take(n as int) =~= addrs@);
    }
    r
}

impl<T: PeerEndpoint> PeersStorage<T> {
    /// Handles one inbound transport event, applying the registry change it
    /// calls for and returning what the caller must do next. A payload that
    /// decodes to no message is discarded, never a failure of the loop.
    pub fn handle_event(&mut self, event: &NetEvent<T>) -> (out: EngineOutput)
        requires
            old(self)@.wf(),
        ensures
            final(self)@.wf(),
            (*event) matches NetEvent::Connected(_) ==> final(self)@ == old(self)@ && out
                == EngineOutput::Silent,
            (*event) matches NetEvent::Disconnected(e) ==> final(self)@ == old(self)@.removed(e)
                && out == EngineOutput::Silent,
            (*event) matches NetEvent::Message(sender, payload) ==> match spec_decode(payload@) {
                Some(MessageView::AnnouncePublicAddress(a)) => final(self)@ == old(
                    self,
                )@.announced_added(sender, a) && out == EngineOutput::Silent,
                Some(MessageView::RequestPeerList) => final(self)@ == old(self)@ && (out
                    matches EngineOutput::Reply(m) && m@ == MessageView::PeerList(
                    old(self)@.addresses(),
                )),
                Some(MessageView::PeerList(addrs)) => final(self)@ == old(self)@ && (out
                    matches EngineOutput::ConnectTo(v) && v@ == candidate_addrs(
                    addrs,
                    old(self)@.self_addr,
                    sender.addr_spec(),
                )),
                Some(MessageView::Gossip(t)) => final(self)@ == old(self)@ && (out
                    matches EngineOutput::Deliver(p, txt) && p == old(self)@.lookup(sender)
                    && txt@ == t),
                None => final(self)@ == old(self)@ && out == EngineOutput::Skipped,
            },
    {
        match event {
            NetEvent::Message(sender, payload) => {
                match decode(payload.as_slice()) {
                    Err(_) => EngineOutput::Skipped,
                    Ok(Message::AnnouncePublicAddress(a)) => {
                        self.add_new_one(sender.dup(), a);
                        EngineOutput::Silent
                    },
                    Ok(Message::RequestPeerList) => {
                        let list = self.get_peers_list();
                        EngineOutput::Reply(Message::PeerList(list))
                    },
                    Ok(Message::PeerList(addrs)) => {
                        let self_addr = self.self_addr();
                        EngineOutput::ConnectTo(filter_candidates(self_addr, &addrs, sender))
                    },
                    Ok(Message::Gossip(text)) => {
                        let p = self.get_pub_addr(sender);
                        EngineOutput::Deliver(p, text)
                    },
                }
            },
            NetEvent::Connected(_) => EngineOutput::Silent,
            NetEvent::Disconnected(e) => {
                self.drop(e.dup());
                EngineOutput::Silent
            },
        }
    }

    /// The bootstrap handshake, once the connection to the configured
    /// bootstrap peer is open: registers the endpoint as a seed and returns
    /// the two messages to send over it, the node's own announce and then the
    /// peer-list request.
    pub fn on_bootstrap_connected(&mut self, endpoint: &T) -> (msgs: Vec<Message>)
        requires
            old(self)@.wf(),
        ensures
            final(self)@ == old(self)@.seed_added(*endpoint),
            final(self)@.wf(),
            msgs@.len() == 2,
            msgs@[0]@ == MessageView::AnnouncePublicAddress(old(self)@.self_addr),
            msgs@[1]@ == MessageView::RequestPeerList,
    {
        let self_addr = self.self_addr();
        self.add_old_one(endpoint.dup());
        let mut msgs: Vec<Message> = Vec::new();
        msgs.push(Message::AnnouncePublicAddress(self_addr));
        msgs.push(Message::RequestPeerList);
        msgs
    }

    /// The fan-out step for one discovered candidate, once its connection is
    /// open: registers the new endpoint as a seed and returns the announce to
    /// send over it.
    pub fn on_candidate_connected(&mut self, endpoint: &T) -> (m: Message)
        requires
            old(self)@.wf(),
        ensures
            final(self)@ == old(self)@.seed_added(*endpoint),
            final(self)@.wf(),
            m@ == MessageView::AnnouncePublicAddress(old(self)@.self_addr),
    {
        let self_addr = self.self_addr();
        self.add_old_one(endpoint.dup());
        Message::AnnouncePublicAddress(self_addr)
    }
}

} // verus!
