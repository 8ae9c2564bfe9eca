use crate::addr::Address;
use vstd::prelude::*;

verus! {

/// What this crate needs from a live connection handle: it resolves to the
/// transport address of its connection, it can be compared with another
/// handle, and it can be duplicated cheaply. The transport layer (or a test
/// harness) implements this for its own handle type.
pub trait PeerEndpoint: Sized {
    /// The transport address of the connection, as a mathematical value.
    spec fn addr_spec(&self) -> Address;

    /// Returns the transport address of the connection.
    fn addr(&self) -> (a: Address)
        ensures
            a == self.addr_spec(),
    ;

    /// Decides whether two handles denote the same connection.
    fn same_as(&self, other: &Self) -> (r: bool)
        ensures
            r == (*self == *other),
    ;

    /// Duplicates the handle.
    fn dup(&self) -> (r: Self)
        ensures
            r == *self,
    ;
}

/// How a live connection is classified in the registry.
#[derive(Clone, Copy, Debug, PartialEq, Eq, Structural)]
pub enum PeerEntry {
    /// Connected before any handshake: only the transport address is known.
    Seed,
    /// The peer has announced the address it listens on.
    Announced(Address),
}

/// A broadcast target: a live connection handle together with the address the
/// registry resolves for it.
#[derive(Debug, PartialEq)]
pub struct PeerAddr<T: PeerEndpoint> {
    pub public: Address,
    pub endpoint: T,
}

/// Mathematical model of the registry: the node's own advertised address and
/// the sequence of live entries, each keyed by its connection handle.
#[verifier::ext_equal]
pub struct RegistryView<T> {
    pub self_addr: Address,
    pub entries: Seq<(T, PeerEntry)>,
}

impl<T: PeerEndpoint> RegistryView<T> {
    /// The address an entry contributes to listings: the announced address if
    /// one is known, otherwise the connection's transport address.
    pub open spec fn entry_addr(kv: (T, PeerEntry)) -> Address {
        match kv.1 {
            PeerEntry::Seed => kv.0.addr_spec(),
            PeerEntry::Announced(a) => a,
        }
    }

    /// Keys are unique: at most one entry per live connection.
    pub open spec fn wf(self) -> bool {
        forall|i: int, j: int|
            0 <= i < j < self.entries.len() ==> (#[trigger] self.entries[i]).0 != (
            #[trigger] self.entries[j]).0
    }

    /// Whether some entry is keyed by the given handle.
    pub open spec fn has_key(self, e: T) -> bool {
        exists|i: int| 0 <= i < self.entries.len() && (#[trigger] self.entries[i]).0 == e
    }

    /// The index of the entry keyed by the given handle (meaningful when
    /// `has_key` holds; unique when `wf` holds).
    pub open spec fn key_index(self, e: T) -> int {
        choose|i: int| 0 <= i < self.entries.len() && (#[trigger] self.entries[i]).0 == e
    }

    /// The resolved address of the entry keyed by the given handle, if any.
    pub open spec fn lookup(self, e: T) -> Option<Address> {
        if self.has_key(e) {
            Some(Self::entry_addr(self.entries[self.key_index(e)]))
        } else {
            None
        }
    }

    /// The full listing: the node's own address first, then one resolved
    /// address per entry.
    pub open spec fn addresses(self) -> Seq<Address> {
        Seq::new(
            self.entries.len() + 1,
            |i: int|
                if i == 0 {
                    self.self_addr
                } else {
                    Self::entry_addr(self.entries[i - 1])
                },
        )
    }

    /// The registry after registering a seed entry: unchanged if the handle is
    /// already present, else the new entry goes at the end.
    pub open spec fn seed_added(self, e: T) -> Self {
        if self.has_key(e) {
            self
        } else {
            RegistryView { self_addr: self.self_addr, entries: self.entries.push((e, PeerEntry::Seed)) }
        }
    }

    /// The registry after an announce: any entry for the handle is replaced
    /// (removed and re-added) by an announced entry.
    pub open spec fn announced_added(self, e: T, a: Address) -> Self {
        RegistryView {
            self_addr: self.self_addr,
            entries: self.removed(e).entries.push((e, PeerEntry::Announced(a))),
        }
    }

    /// The registry after a removal: unchanged if the handle is absent.
    pub open spec fn removed(self, e: T) -> Self {
        if self.has_key(e) {
            RegistryView {
                self_addr: self.self_addr,
                entries: self.entries.remove(self.key_index(e)),
            }
        } else {
            self
        }
    }
}

/// In-memory directory of live peers: one entry per connection handle, plus
/// the node's own advertised address.
pub struct PeersStorage<T: PeerEndpoint> {
    entries: Vec<(T, PeerEntry)>,
    self_pub_addr: Address,
}

impl<T: PeerEndpoint> View for PeersStorage<T> {
    type V = RegistryView<T>;

    closed spec fn view(&self) -> RegistryView<T> {
        RegistryView { self_addr: self.self_pub_addr, entries: self.entries@ }
    }
}

impl<T: PeerEndpoint> PeersStorage<T> {
    /// Creates an empty registry seeded with the node's own advertised
    /// address.
    pub fn new(self_pub_addr: Address) -> (r: Self)
        ensures
            r@ == (RegistryView::<T> { self_addr: self_pub_addr, entries: Seq::empty() }),
            r@.wf(),
    {
        let r = PeersStorage { entries: Vec::new(), self_pub_addr };
        proof {
            assert(r@ =~= RegistryView::<T> { self_addr: self_pub_addr, entries: Seq::empty() });
        }
        r
    }

    /// The node's own advertised address, fixed at creation.
    pub fn self_addr(&self) -> (a: Address)
        ensures
            a == self@.self_addr,
    {
        self.self_pub_addr
    }

    /// Finds the index of the entry keyed by the given handle, if any.
    fn position_of(&self, endpoint: &T) -> (r: Option<usize>)
        requires
            self@.wf(),
        ensures
            r is Some <==> self@.has_key(*endpoint),
            r matches Some(i) ==> 0 <= i < self@.entries.len() && self@.entries[i as int].0
                == *endpoint && i == self@.key_index(*endpoint),
    {
        let n = self.entries.len();
        let mut i: usize = 0;
        while i < n
            invariant
                self@.wf(),
                n == self@.entries.len(),
                i <= n,
                forall|j: int| 0 <= j < i ==> (#[trigger] self@.entries[j]).0 != *endpoint,
            decreases n - i,
        {
            if self.entries[i].0.same_as(endpoint) {
                proof {
                    assert(self@.has_key(*endpoint));
                    let k = self@.key_index(*endpoint);
                    assert(0 <= k < self@.entries.len() && self@.entries[k].0 == *endpoint);
                    assert(k == i as int);
                }
                return Some(i);
            }
            i += 1;
        }
        proof {
            assert(!self@.has_key(*endpoint));
        }
        None
    }

    /// Registers a seed entry for the handle unless one already exists; the
    /// connection's transport address serves as its listing fallback.
    pub fn add_old_one(&mut self, endpoint: T)
        requires
            old(self)@.wf(),
        ensures
            final(self)@ == old(self)@.seed_added(endpoint),
            final(self)@.wf(),
    {
        match self.position_of(&endpoint) {
            Some(_) => {
                // Already registered; re-registration is a no-op.
            },
            None => {
                self.entries.push((endpoint, PeerEntry::Seed));
                proof {
                    assert(self@ =~= old(self)@.seed_added(endpoint));
                    assert forall|i: int, j: int|
                        0 <= i < j < self@.entries.len() implies (#[trigger] self@.entries[i]).0
                        != (#[trigger] self@.entries[j]).0 by {
                        if j == self@.entries.len() - 1 {
                            assert(self@.entries[j].0 == endpoint);
                            assert(!old(self)@.has_key(endpoint));
                        }
                    }
                }
            },
        }
    }

    /// Registers an announced entry for the handle, replacing any existing
    /// entry (a seed may be upgraded once its announce arrives).
    pub fn add_new_one(&mut self, endpoint: T, pub_addr: Address)
        requires
            old(self)@.wf(),
        ensures
            final(self)@ == old(self)@.announced_added(endpoint, pub_addr),
            final(self)@.wf(),
    {
        match self.position_of(&endpoint) {
            Some(i) => {
                self.entries.remove(i);
                proof {
                    lemma_remove_keeps_wf(old(self)@, endpoint);
                    assert(self@ =~= old(self)@.removed(endpoint));
                }
            },
            None => {
                proof {
                    assert(self@ =~= old(self)@.removed(endpoint));
                }
            },
        }
        let ghost mid = self@;
        proof {
            assert(mid.wf());
            assert(!mid.has_key(endpoint)) by {
                lemma_removed_has_no_key(old(self)@, endpoint);
            }
        }
        self.entries.push((endpoint, PeerEntry::Announced(pub_addr)));
        proof {
            assert(self@ =~= old(self)@.announced_added(endpoint, pub_addr));
            assert forall|i: int, j: int|
                0 <= i < j < self@.entries.len() implies (#[trigger] self@.entries[i]).0 != (
                #[trigger] self@.entries[j]).0 by {
                if j == self@.entries.len() - 1 {
                    assert(self@.entries[i] == mid.entries[i]);
                    assert(!mid.has_key(endpoint));
                }
            }
        }
    }

    /// Removes the entry for the handle if one exists; removing an absent
    /// handle is a no-op.
    pub fn drop(&mut self, endpoint: T)
        requires
            old(self)@.wf(),
        ensures
            final(self)@ == old(self)@.removed(endpoint),
            final(self)@.wf(),
    {
        match self.position_of(&endpoint) {
            Some(i) => {
                self.entries.remove(i);
                proof {
                    lemma_remove_keeps_wf(old(self)@, endpoint);
                    assert(self@ =~= old(self)@.removed(endpoint));
                }
            },
            None => {},
        }
    }

    /// Lists the node's own advertised address first, then one resolved
    /// address per entry.
    pub fn get_peers_list(&self) -> (r: Vec<Address>)
        ensures
            r@ == self@.addresses(),
    {
        let mut r: Vec<Address> = Vec::new();
        r.push(self.self_pub_addr);
        let n = self.entries.len();
        let mut i: usize = 0;
        while i < n
            invariant
                n == self@.entries.len(),
                i <= n,
                r@.len() == i + 1,
                r@[0] == self@.self_addr,
                forall|j: int|
                    1 <= j <= i ==> r@[j] == RegistryView::<T>::entry_addr(
                        #[trigger] self@.entries[j - 1],
                    ),
            decreases n - i,
        {
            let a = match &self.entries[i].1 {
                PeerEntry::Seed => self.entries[i].0.addr(),
                PeerEntry::Announced(pub_addr) => *pub_addr,
            };
            r.push(a);
            i += 1;
        }
        proof {
            assert(r@ =~= self@.addresses());
        }
        r
    }

    /// Returns the broadcast targets: each live entry's handle paired with its
    /// resolved address, in entry order.
    pub fn receivers(&self) -> (r: Vec<PeerAddr<T>>)
        ensures
            r@.len() == self@.entries.len(),
            forall|i: int|
                0 <= i < r@.len() ==> (#[trigger] r@[i]).endpoint == self@.entries[i].0
                    && r@[i].public == RegistryView::<T>::entry_addr(self@.entries[i]),
    {
        let mut r: Vec<PeerAddr<T>> = Vec::new();
        let n = self.entries.len();
        let mut i: usize = 0;
        while i < n
            invariant
                n == self@.entries.len(),
                i <= n,
                r@.len() == i,
                forall|j: int|
                    0 <= j < i ==> (#[trigger] r@[j]).endpoint == self@.entries[j].0
                        && r@[j].public == RegistryView::<T>::entry_addr(self@.entries[j]),
            decreases n - i,
        {
            let public = match &self.entries[i].1 {
                PeerEntry::Seed => self.entries[i].0.addr(),
                PeerEntry::Announced(pub_addr) => *pub_addr,
            };
            let endpoint = self.entries[i].0.dup();
            r.push(PeerAddr { public, endpoint });
            i += 1;
        }
        r
    }

    /// Resolves the address of the entry keyed by the handle, or `None` if the
    /// handle is unknown.
    pub fn get_pub_addr(&self, endpoint: &T) -> (r: Option<Address>)
        requires
            self@.wf(),
        ensures
            r == self@.lookup(*endpoint),
    {
        match self.position_of(endpoint) {
            Some(i) => {
                let a = match &self.entries[i].1 {
                    PeerEntry::Seed => self.entries[i].0.addr(),
                    PeerEntry::Announced(pub_addr) => *pub_addr,
                };
                Some(a)
            },
            None => None,
        }
    }
}

/// How many times an address occurs in a listing.
pub open spec fn address_count(s: Seq<Address>, a: Address) -> nat
    decreases s.len(),
{
    if s.len() == 0 {
        0
    } else {
        (if s[0] == a {
            1nat
        } else {
            0nat
        }) + address_count(s.drop_first(), a)
    }
}

/// Appending one address raises its own count by one and leaves every other
/// count unchanged.
proof fn lemma_address_count_push(s: Seq<Address>, x: Address, a: Address)
    ensures
        address_count(s.push(x), a) == address_count(s, a) + (if x == a {
            1nat
        } else {
            0nat
        }),
    decreases s.len(),
{
    if s.len() == 0 {
        assert(s.push(x).drop_first() =~= Seq::<Address>::empty());
        assert(address_count(Seq::<Address>::empty(), a) == 0);
        assert(s.push(x)[0] == x);
    } else {
        assert(s.push(x).drop_first() =~= s.drop_first().push(x));
        lemma_address_count_push(s.drop_first(), x, a);
        assert(s.push(x)[0] == s[0]);
    }
}

/// An address that no element equals has count zero.
proof fn lemma_address_count_zero(s: Seq<Address>, a: Address)
    requires
        forall|i: int| 0 <= i < s.len() ==> s[i] != a,
    ensures
        address_count(s, a) == 0,
    decreases s.len(),
{
    if s.len() == 0 {
    } else {
        assert(forall|i: int| 0 <= i < s.drop_first().len() ==> s.drop_first()[i] == s[i + 1]);
        lemma_address_count_zero(s.drop_first(), a);
    }
}

/// A registry with no entries lists exactly its own address.
pub proof fn lemma_fresh_registry_lists_self<T: PeerEndpoint>(v: RegistryView<T>)
    requires
        v.entries.len() == 0,
    ensures
        v.addresses() =~= seq![v.self_addr],
{
}

/// After a seed registration of a fresh handle whose connection address is
/// new to the listing, the listing keeps the node's own address first and
/// gains that connection address at the end, exactly once.
pub proof fn lemma_seed_listing<T: PeerEndpoint>(v: RegistryView<T>, e: T)
    requires
        v.wf(),
        !v.has_key(e),
        e.addr_spec() != v.self_addr,
        forall|i: int|
            0 <= i < v.entries.len() ==> RegistryView::<T>::entry_addr(#[trigger] v.entries[i])
                != e.addr_spec(),
    ensures
        v.seed_added(e).addresses() =~= v.addresses().push(e.addr_spec()),
        v.seed_added(e).addresses()[0] == v.self_addr,
        address_count(v.seed_added(e).addresses(), e.addr_spec()) == 1,
{
    let w = v.seed_added(e);
    let a = e.addr_spec();
    assert(w.entries == v.entries.push((e, PeerEntry::Seed)));
    assert forall|i: int| 0 <= i < w.addresses().len() implies w.addresses()[i]
        == v.addresses().push(a)[i] by {
        if 1 <= i < w.addresses().len() - 1 {
            assert(w.entries[i - 1] == v.entries[i - 1]);
        }
    }
    assert(w.addresses() =~= v.addresses().push(a));
    assert forall|i: int| 0 <= i < v.addresses().len() implies v.addresses()[i] != a by {
        if i >= 1 {
            assert(RegistryView::<T>::entry_addr(v.entries[i - 1]) != a);
        }
    }
    lemma_address_count_zero(v.addresses(), a);
    lemma_address_count_push(v.addresses(), a, a);
}

/// After an announce registration of a fresh handle with an advertised
/// address new to the listing, the listing keeps the node's own address
/// first and gains the announced address at the end, exactly once; the
/// connection's own transport address is not what gets listed.
pub proof fn lemma_announced_listing<T: PeerEndpoint>(v: RegistryView<T>, e: T, p: Address)
    requires
        v.wf(),
        !v.has_key(e),
        p != v.self_addr,
        forall|i: int|
            0 <= i < v.entries.len() ==> RegistryView::<T>::entry_addr(#[trigger] v.entries[i])
                != p,
    ensures
        v.announced_added(e, p).addresses() =~= v.addresses().push(p),
        v.announced_added(e, p).addresses()[0] == v.self_addr,
        address_count(v.announced_added(e, p).addresses(), p) == 1,
        e.addr_spec() != p ==> address_count(v.announced_added(e, p).addresses(), e.addr_spec())
            == address_count(v.addresses(), e.addr_spec()),
{
    let w = v.announced_added(e, p);
    assert(v.removed(e) == v);
    assert(w.entries == v.entries.push((e, PeerEntry::Announced(p))));
    assert forall|i: int| 0 <= i < w.addresses().len() implies w.addresses()[i]
        == v.addresses().push(p)[i] by {
        if 1 <= i < w.addresses().len() - 1 {
            assert(w.entries[i - 1] == v.entries[i - 1]);
        }
    }
    assert(w.addresses() =~= v.addresses().push(p));
    assert forall|i: int| 0 <= i < v.addresses().len() implies v.addresses()[i] != p by {
        if i >= 1 {
            assert(RegistryView::<T>::entry_addr(v.entries[i - 1]) != p);
        }
    }
    lemma_address_count_zero(v.addresses(), p);
    lemma_address_count_push(v.addresses(), p, p);
    lemma_address_count_push(v.addresses(), p, e.addr_spec());
}

/// Removing a handle undoes its just-made seed registration.
pub proof fn lemma_remove_restores_seed<T: PeerEndpoint>(v: RegistryView<T>, e: T)
    requires
        v.wf(),
        !v.has_key(e),
    ensures
        v.seed_added(e).removed(e) == v,
{
    let w = v.seed_added(e);
    let n = v.entries.len() as int;
    assert(w.entries == v.entries.push((e, PeerEntry::Seed)));
    assert(w.entries[n].0 == e);
    assert(w.has_key(e));
    let k = w.key_index(e);
    assert(0 <= k < w.entries.len() && w.entries[k].0 == e);
    if k < n {
        assert(w.entries[k] == v.entries[k]);
        assert(false);
    }
    assert(w.entries.remove(n) =~= v.entries);
    assert(w.removed(e) =~= v);
}

/// Removing a handle undoes its just-made announce registration.
pub proof fn lemma_remove_restores_announced<T: PeerEndpoint>(v: RegistryView<T>, e: T, p: Address)
    requires
        v.wf(),
        !v.has_key(e),
    ensures
        v.announced_added(e, p).removed(e) == v,
{
    let w = v.announced_added(e, p);
    let n = v.entries.len() as int;
    assert(v.removed(e) == v);
    assert(w.entries == v.entries.push((e, PeerEntry::Announced(p))));
    assert(w.entries[n].0 == e);
    assert(w.has_key(e));
    let k = w.key_index(e);
    assert(0 <= k < w.entries.len() && w.entries[k].0 == e);
    if k < n {
        assert(w.entries[k] == v.entries[k]);
        assert(false);
    }
    assert(w.entries.remove(n) =~= v.entries);
    assert(w.removed(e) =~= v);
}

/// Removing the same handle twice leaves the same registry as removing it
/// once.
pub proof fn lemma_remove_idempotent<T: PeerEndpoint>(v: RegistryView<T>, e: T)
    requires
        v.wf(),
    ensures
        v.removed(e).removed(e) == v.removed(e),
{
    lemma_removed_has_no_key(v, e);
}

/// Removing an entry keeps keys unique.
proof fn lemma_remove_keeps_wf<T: PeerEndpoint>(v: RegistryView<T>, e: T)
    requires
        v.wf(),
    ensures
        v.removed(e).wf(),
{
    if v.has_key(e) {
        let k = v.key_index(e);
        let w = v.removed(e);
        assert forall|i: int, j: int|
            0 <= i < j < w.entries.len() implies (#[trigger] w.entries[i]).0 != (
        #[trigger] w.entries[j]).0 by {
            let i0: int = if i < k {
                i
            } else {
                i + 1
            };
            let j0: int = if j < k {
                j
            } else {
                j + 1
            };
            assert(w.entries[i] == v.entries[i0]);
            assert(w.entries[j] == v.entries[j0]);
        }
    }
}

/// After a removal under unique keys, the handle is no longer present.
proof fn lemma_removed_has_no_key<T: PeerEndpoint>(v: RegistryView<T>, e: T)
    requires
        v.wf(),
    ensures
        !v.removed(e).has_key(e),
{
    if v.has_key(e) {
        let k = v.key_index(e);
        let w = v.removed(e);
        if w.has_key(e) {
            let i = w.key_index(e);
            let i0: int = if i < k {
                i
            } else {
                i + 1
            };
            assert(w.entries[i] == v.entries[i0]);
            assert(v.entries[i0].0 == e && v.entries[k].0 == e && i0 != k);
            assert(false);
        }
    }
}

} // verus!
