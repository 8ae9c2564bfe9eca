use crate::message::{Message, MessageView};
use crate::peers_storage::{PeerAddr, PeerEndpoint, PeersStorage, RegistryView};
use vstd::prelude::*;
use vstd::string::StringExecFns;

verus! {

/// A lowercase ASCII letter.
pub open spec fn is_lowercase_letter(c: char) -> bool {
    97 <= c as u32 && c as u32 <= 122
}

/// The shape of a gossip text: two non-empty words of lowercase letters
/// joined by a single hyphen.
pub open spec fn gossip_shape(s: Seq<char>) -> bool {
    exists|i: int|
        {
            &&& 1 <= i <= s.len() - 2
            &&& #[trigger] s[i] == '-'
            &&& forall|j: int| 0 <= j < s.len() && j != i ==> is_lowercase_letter(#[trigger] s[j])
        }
}

/// Relies on petname::petname with its compiled-in default English word
/// lists: a two-word draw joins one adjective and one noun with the given
/// separator, and every word in those lists is a non-empty run of lowercase
/// ASCII letters. Which words come out is random and is not stated.
#[verifier::external_body]
fn random_petname() -> (r: Option<String>)
    ensures
        r matches Some(s) ==> gossip_shape(s@),
{
    petname::petname(2, "-")
}

/// The text of one gossip message: two lowercase words joined by a hyphen,
/// randomly drawn, with a fixed fallback of the same shape should the
/// generator yield nothing.
pub fn gossip_text() -> (t: String)
    ensures
        gossip_shape(t@),
{
    match random_petname() {
        Some(t) => t,
        None => {
            let t = String::from_str("idle-gossip");
            proof {
                reveal_strlit("idle-gossip");
                assert(t@.len() == 11);
                assert(t@[4] == '-');
                assert forall|j: int|
                    0 <= j < t@.len() && j != 4 implies is_lowercase_letter(#[trigger] t@[j]) by {
                    assert(t@[0] == 'i' && t@[1] == 'd' && t@[2] == 'l' && t@[3] == 'e' && t@[5]
                        == 'g' && t@[6] == 'o' && t@[7] == 's' && t@[8] == 's' && t@[9] == 'i'
                        && t@[10] == 'p');
                }
                assert(gossip_shape(t@));
            }
            t
        },
    }
}

/// One tick of the gossip emitter: `None` when there are no receivers (the
/// tick is a no-op, no sends and no error), otherwise the gossip message to
/// broadcast together with the snapshot of every broadcast target.
pub fn gossip_tick<T: PeerEndpoint>(reg: &PeersStorage<T>) -> (r: Option<
    (Message, Vec<PeerAddr<T>>),
>)
    ensures
        r is None <==> reg@.entries.len() == 0,
        r matches Some(p) ==> {
            &&& p.0@ matches MessageView::Gossip(txt) && gossip_shape(txt)
            &&& p.1@.len() == reg@.entries.len()
            &&& forall|i: int|
                0 <= i < p.1@.len() ==> (#[trigger] p.1@[i]).endpoint == reg@.entries[i].0
                    && p.1@[i].public == RegistryView::<T>::entry_addr(reg@.entries[i])
        },
{
    let receivers = reg.receivers();
    if receivers.len() == 0 {
        None
    } else {
        let text = gossip_text();
        Some((Message::Gossip(text), receivers))
    }
}

} // verus!
