//! Peer addresses and the book that keeps them.

use vstd::prelude::*;

verus! {

/// An IP address of eight 16-bit words in network order, an IPv4 address in
/// its IPv6-mapped form, and a port.
#[derive(Clone, Copy, Debug, PartialEq, Eq, Hash)]
pub struct SocketAddress {
    /// The words of the address.
    pub ip: [u16; 8],
    /// The port.
    pub port: u16,
}

impl SocketAddress {
    /// Whether the two socket addresses are the same.
    pub fn same(&self, other: &SocketAddress) -> (r: bool)
        ensures
            r == (*self == *other),
    {
        if self.port != other.port {
            return false;
        }
        let mut i: usize = 0;
        while i < 8
            invariant
                i <= 8,
                forall|j: int| 0 <= j < i ==> self.ip@[j] == other.ip@[j],
            decreases 8 - i,
        {
            if self.ip[i] != other.ip[i] {
                return false;
            }
            i += 1;
        }
        assert(self.ip@ =~= other.ip@);
        assert(self.ip == other.ip);
        true
    }
}

/// A peer's address as peers send it: the services that the peer offers and
/// where to reach it.
#[derive(Clone, Copy, Debug, PartialEq, Eq)]
pub struct NetAddress {
    /// The services that the peer offers, one bit each.
    pub services: u64,
    /// The words of the address, in network order.
    pub address: [u16; 8],
    /// The port.
    pub port: u16,
}

/// The bits of the services that a peer must offer: serving the full chain,
/// and serving witness data.
pub const REQUIRED_SERVICES: u64 = 9;

/// For how many seconds an address that a peer was seen at counts as fresh.
pub const FRESH_SECONDS: u64 = 5400;

/// The three words with which the address of a Tor hidden service begins.
pub open spec fn is_onion(address: Seq<u16>) -> bool {
    address[0] == 0xFD87 && address[1] == 0xD87E && address[2] == 0xEB43
}

impl NetAddress {
    /// Whether a socket can be opened to the address: it is not that of a
    /// Tor hidden service.
    pub open spec fn routable(&self) -> bool {
        !is_onion(self.address@)
    }

    /// Whether the peer offers every required service.
    pub open spec fn serves(&self) -> bool {
        self.services & REQUIRED_SERVICES == REQUIRED_SERVICES
    }

    /// Whether the book takes the address.
    pub open spec fn acceptable(&self) -> bool {
        self.routable() && self.serves()
    }

    /// The socket address of the peer.
    pub open spec fn socket(&self) -> SocketAddress {
        SocketAddress { ip: self.address, port: self.port }
    }

    /// Whether a socket can be opened to the address.
    pub fn is_routable(&self) -> (r: bool)
        ensures
            r == self.routable(),
    {
        has_socket_addr(self)
    }

    /// Whether the book takes the address.
    pub fn is_acceptable(&self) -> (r: bool)
        ensures
            r == self.acceptable(),
    {
        has_socket_addr(self) && self.services & REQUIRED_SERVICES == REQUIRED_SERVICES
    }

    /// The socket address of the peer.
    pub fn socket_addr(&self) -> (r: SocketAddress)
        ensures
            r == self.socket(),
    {
        SocketAddress { ip: self.address, port: self.port }
    }
}

/// `bitcoin::p2p::Address::socket_addr`: it gives a socket address for every
/// address but those that begin with the three words of a Tor hidden
/// service.
#[verifier::external_body]
fn has_socket_addr(a: &NetAddress) -> (r: bool)
    ensures
        r == !is_onion(a.address@),
{
    let services = bitcoin::p2p::ServiceFlags::from(a.services);
    bitcoin::p2p::Address { services, address: a.address, port: a.port }.socket_addr().is_ok()
}

/// Whether a peer that was seen at `last_seen` counts as fresh at `now`,
/// both in seconds since 1970.
pub open spec fn fresh(last_seen: u32, now: u64) -> bool {
    last_seen as int > now as int - FRESH_SECONDS as int
}

/// Whether a peer that was seen at `last_seen` counts as fresh at `now`.
pub fn is_fresh(last_seen: u32, now: u64) -> (r: bool)
    ensures
        r == fresh(last_seen, now),
{
    last_seen as u64 + FRESH_SECONDS > now
}

/// What the book keeps of a peer.
#[derive(Clone, Copy, Debug, PartialEq, Eq)]
pub struct AddressRecord {
    /// The peer's address and services.
    pub addr: NetAddress,
    /// When the peer was last seen, in seconds since 1970.
    pub last_seen: u32,
    /// The peer's ban score.
    pub ban_score: u32,
}

/// The records of a book, in the order in which their addresses came.
pub type Book = Seq<AddressRecord>;

/// Whether the book holds a record for the socket address.
pub open spec fn listed(s: Book, key: SocketAddress) -> bool {
    exists|i: int| 0 <= i < s.len() && (#[trigger] s[i]).addr.socket() == key
}

/// The place of the record for the socket address.
pub open spec fn slot(s: Book, key: SocketAddress) -> int {
    choose|i: int| 0 <= i < s.len() && (#[trigger] s[i]).addr.socket() == key
}

/// What holds of every book: each record's address is acceptable, and no
/// socket address has two records.
pub open spec fn valid_book(s: Book) -> bool {
    &&& forall|i: int| 0 <= i < s.len() ==> (#[trigger] s[i]).addr.acceptable()
    &&& forall|i: int, j: int|
        0 <= i < s.len() && 0 <= j < s.len() && i != j ==> (#[trigger] s[i]).addr.socket() != (
        #[trigger] s[j]).addr.socket()
}

/// The book after a record was stored: the record takes the place of the
/// one with its socket address, or comes last.
pub open spec fn upserted(s: Book, rec: AddressRecord) -> Book {
    if listed(s, rec.addr.socket()) {
        s.update(slot(s, rec.addr.socket()), rec)
    } else {
        s.push(rec)
    }
}

/// The first place of the book whose socket address is not in `exclude`;
/// the book's length if there is none.
pub open spec fn first_offered(s: Book, exclude: Seq<SocketAddress>, from: int) -> int
    decreases s.len() - from,
{
    if from >= s.len() {
        s.len() as int
    } else if !exclude.contains(s[from].addr.socket()) {
        from
    } else {
        first_offered(s, exclude, from + 1)
    }
}

/// Where the first record that is not excluded stands.
pub proof fn lemma_first_offered(s: Book, exclude: Seq<SocketAddress>, from: int)
    requires
        0 <= from <= s.len(),
    ensures
        from <= first_offered(s, exclude, from) <= s.len(),
        forall|j: int|
            from <= j < first_offered(s, exclude, from) ==> exclude.contains(
                (#[trigger] s[j]).addr.socket(),
            ),
        first_offered(s, exclude, from) < s.len() ==> !exclude.contains(
            s[first_offered(s, exclude, from)].addr.socket(),
        ),
    decreases s.len() - from,
{
    if from < s.len() && exclude.contains(s[from].addr.socket()) {
        lemma_first_offered(s, exclude, from + 1);
    }
}

/// Whether the list holds the socket address.
pub fn holds(list: &Vec<SocketAddress>, key: &SocketAddress) -> (r: bool)
    ensures
        r == list@.contains(*key),
{
    let mut i: usize = 0;
    while i < list.len()
        invariant
            i <= list@.len(),
            forall|j: int| 0 <= j < i ==> list@[j] != *key,
        decreases list@.len() - i,
    {
        if list[i].same(key) {
            return true;
        }
        i += 1;
    }
    false
}

/// The book of known peer addresses.
pub struct AddressStore {
    records: Vec<AddressRecord>,
}

impl View for AddressStore {
    type V = Book;

    closed spec fn view(&self) -> Book {
        self.records@
    }
}

impl AddressStore {
    /// The book's invariant.
    pub open spec fn wf(&self) -> bool {
        valid_book(self@)
    }

    /// A book without records.
    pub fn new() -> (r: AddressStore)
        ensures
            r.wf(),
            r@.len() == 0,
    {
        AddressStore { records: Vec::new() }
    }

    /// The number of records.
    pub fn len(&self) -> (r: usize)
        ensures
            r == self@.len(),
    {
        self.records.len()
    }

    /// The record at a place of the book.
    pub fn get(&self, i: usize) -> (r: Option<AddressRecord>)
        ensures
            r == (if i < self@.len() {
                Some(self@[i as int])
            } else {
                None
            }),
    {
        if i < self.records.len() {
            Some(self.records[i])
        } else {
            None
        }
    }

    /// Stores a record for the address if the address is acceptable: in
    /// place of the record with the same socket address, or as the last.
    /// An address that is not acceptable is not stored.
    pub fn store_peer(&mut self, addr: &NetAddress, last_seen: u32, ban_score: u32) -> (r: bool)
        requires
            old(self).wf(),
        ensures
            final(self).wf(),
            r == addr.acceptable(),
            r ==> final(self)@ == upserted(
                old(self)@,
                (AddressRecord { addr: *addr, last_seen, ban_score }),
            ),
            !r ==> final(self)@ == old(self)@,
    {
        if !addr.is_acceptable() {
            return false;
        }
        let rec = AddressRecord { addr: *addr, last_seen, ban_score };
        let key = addr.socket_addr();
        let ghost s = self@;
        let mut i: usize = 0;
        while i < self.records.len()
            invariant
                self@ == s,
                valid_book(s),
                s == old(self)@,
                key == rec.addr.socket(),
                addr.acceptable(),
                rec == (AddressRecord { addr: *addr, last_seen, ban_score }),
                i <= s.len(),
                forall|j: int| 0 <= j < i ==> (#[trigger] s[j]).addr.socket() != key,
            decreases s.len() - i,
        {
            if self.records[i].addr.socket_addr().same(&key) {
                proof {
                    let k = slot(s, key);
                    assert(s[i as int].addr.socket() == key);
                    assert(0 <= k < s.len() && s[k].addr.socket() == key);
                    assert(k == i);
                }
                self.records[i] = rec;
                return true;
            }
            i += 1;
        }
        self.records.push(rec);
        true
    }

    /// A record whose socket address is not in `exclude`: the first such
    /// record of the book. There is none only if every socket address of
    /// the book is excluded.
    pub fn get_a_peer(&self, exclude: &Vec<SocketAddress>) -> (r: Option<AddressRecord>)
        ensures
            r == (if first_offered(self@, exclude@, 0) < self@.len() {
                Some(self@[first_offered(self@, exclude@, 0)])
            } else {
                None
            }),
            r.is_none() <==> forall|i: int|
                0 <= i < self@.len() ==> exclude@.contains((#[trigger] self@[i]).addr.socket()),
            r.is_some() ==> !exclude@.contains(r.unwrap().addr.socket()),
    {
        let ghost s = self@;
        proof {
            lemma_first_offered(s, exclude@, 0);
        }
        let mut i: usize = 0;
        while i < self.records.len()
            invariant
                self@ == s,
                i <= s.len(),
                first_offered(s, exclude@, i as int) == first_offered(s, exclude@, 0),
            decreases s.len() - i,
        {
            let key = self.records[i].addr.socket_addr();
            if !holds(exclude, &key) {
                return Some(self.records[i]);
            }
            i += 1;
        }
        None
    }
}

} // verus!
