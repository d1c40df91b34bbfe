//! The peer keeper: it decides which addresses to dial so that the node
//! keeps a minimum of connections. The program around it dials, watches the
//! connections, looks up the DNS seeds, and reports what happened.

use crate::address::{
    first_offered, lemma_first_offered, listed, AddressStore, Book, SocketAddress,
};
use vstd::prelude::*;

verus! {

/// What the keeper is told.
#[derive(Debug)]
pub enum KeeperEvent {
    /// The keeper was woken without news.
    Wake,
    /// The connection at this place of the keeper's list has ended.
    Lost(usize),
    /// The DNS seeds were looked up and gave these addresses.
    Seeds(Vec<SocketAddress>),
}

/// What the program is to do after it has dialed.
#[derive(Clone, Copy, Debug, PartialEq, Eq, Structural)]
pub enum Next {
    /// Wait until a connection ends.
    Wait,
    /// Look up the DNS seeds and report them.
    LookupSeeds,
    /// Give up: no connection is left and no address to dial.
    Exhausted,
}

/// What the keeper decided.
#[derive(Debug)]
pub struct KeeperStep {
    /// The addresses to dial, in order; each dial adds a connection to the
    /// end of the list.
    pub dials: Vec<SocketAddress>,
    /// What to do then.
    pub next: Next,
}

/// How many connections are missing.
pub open spec fn missing(connections: nat, min_connections: nat) -> nat {
    if connections < min_connections {
        (min_connections - connections) as nat
    } else {
        0
    }
}

/// The addresses that the book gives for `need` connections when those in
/// `tried` were tried before: each time the first record whose address was
/// not tried, which then counts as tried.
pub open spec fn book_picks(book: Book, tried: Seq<SocketAddress>, need: nat) -> Seq<SocketAddress>
    decreases need,
{
    let k = first_offered(book, tried, 0);
    if need == 0 || k >= book.len() || k < 0 {
        Seq::empty()
    } else {
        seq![book[k].addr.socket()] + book_picks(
            book,
            tried.push(book[k].addr.socket()),
            (need - 1) as nat,
        )
    }
}

/// The addresses that the book gives are addresses of the book that were not
/// tried before, and no more than are needed. If they are fewer than are
/// needed, the book is used up: every address of the book was tried before or
/// is given now.
pub proof fn lemma_book_picks(book: Book, tried: Seq<SocketAddress>, need: nat)
    ensures
        book_picks(book, tried, need).len() <= need,
        forall|j: int|
            0 <= j < book_picks(book, tried, need).len() ==> !tried.contains(
                #[trigger] book_picks(book, tried, need)[j],
            ) && listed(book, book_picks(book, tried, need)[j]),
        book_picks(book, tried, need).len() < need ==> forall|i: int|
            0 <= i < book.len() ==> (tried + book_picks(book, tried, need)).contains(
                (#[trigger] book[i]).addr.socket(),
            ),
    decreases need,
{
    let k = first_offered(book, tried, 0);
    let picks = book_picks(book, tried, need);
    lemma_first_offered(book, tried, 0);
    if need == 0 {
    } else if k >= book.len() {
        assert forall|i: int| 0 <= i < book.len() implies (tried + picks).contains(
            (#[trigger] book[i]).addr.socket(),
        ) by {
            let a = book[i].addr.socket();
            assert(tried.contains(a));
            let w = choose|w: int| 0 <= w < tried.len() && tried[w] == a;
            assert((tried + picks)[w] == a);
        }
    } else {
        let a = book[k].addr.socket();
        let more = tried.push(a);
        let rest = book_picks(book, more, (need - 1) as nat);
        lemma_book_picks(book, more, (need - 1) as nat);
        assert(picks =~= seq![a] + rest);
        assert forall|j: int| 0 <= j < picks.len() implies !tried.contains(#[trigger] picks[j])
            && listed(book, picks[j]) by {
            if j == 0 {
                assert(book[k].addr.socket() == picks[0]);
            } else {
                assert(picks[j] == rest[j - 1]);
                if tried.contains(rest[j - 1]) {
                    let w = choose|w: int| 0 <= w < tried.len() && tried[w] == rest[j - 1];
                    assert(more[w] == rest[j - 1]);
                }
            }
        }
        assert(more + rest =~= tried + picks);
    }
}

/// The connections that are left after an event: one that was lost leaves
/// the list.
pub open spec fn left_after(connections: Seq<SocketAddress>, event: KeeperEvent) -> Seq<SocketAddress> {
    match event {
        KeeperEvent::Lost(i) => if i < connections.len() {
            connections.remove(i as int)
        } else {
            connections
        },
        _ => connections,
    }
}

/// The DNS cache after an event: seeds that were looked up take its place.
pub open spec fn cache_after(cache: Seq<SocketAddress>, event: KeeperEvent) -> Seq<SocketAddress> {
    match event {
        KeeperEvent::Seeds(v) => v@,
        _ => cache,
    }
}

/// `rand::rng` and `rand::Rng::next_u64`: a number from the thread's random
/// generator. Nothing is claimed of the number.
#[verifier::external_body]
fn random_u64() -> (r: u64) {
    rand::Rng::next_u64(&mut rand::rng())
}

/// The state of the peer keeper.
pub struct PeerKeeper {
    /// The least number of connections to keep.
    pub min_connections: usize,
    /// The addresses of the connections that were dialed and have not ended.
    pub connections: Vec<SocketAddress>,
    /// The addresses from the book that were dialed before, each once.
    pub tried: Vec<SocketAddress>,
    /// The addresses that the last lookup of the DNS seeds gave.
    pub dns_cache: Vec<SocketAddress>,
    /// Whether the DNS seeds are not to be used.
    pub nodns: bool,
}

impl PeerKeeper {
    /// The keeper's invariant: no address stands twice among those that
    /// were tried.
    pub open spec fn wf(&self) -> bool {
        self.tried@.no_duplicates()
    }

    /// A keeper that has dialed the given peers and nothing else.
    pub fn new(boot_peers: Vec<SocketAddress>, min_connections: usize, nodns: bool) -> (r: PeerKeeper)
        ensures
            r.wf(),
            r.min_connections == min_connections,
            r.connections == boot_peers,
            r.tried@.len() == 0,
            r.dns_cache@.len() == 0,
            r.nodns == nodns,
    {
        PeerKeeper {
            min_connections,
            connections: boot_peers,
            tried: Vec::new(),
            dns_cache: Vec::new(),
            nodns,
        }
    }

    /// How many connections are missing.
    pub open spec fn need(&self) -> nat {
        missing(self.connections@.len(), self.min_connections as nat)
    }

    /// Takes addresses from the book until no connection is missing or the
    /// book has no address left that was not tried.
    pub fn peers_from_db(&mut self, store: &AddressStore) -> (r: Vec<SocketAddress>)
        requires
            old(self).wf(),
        ensures
            final(self).wf(),
            r@ == book_picks(store@, old(self).tried@, old(self).need()),
            final(self).connections@ == old(self).connections@ + r@,
            final(self).tried@ == old(self).tried@ + r@,
            final(self).min_connections == old(self).min_connections,
            final(self).dns_cache == old(self).dns_cache,
            final(self).nodns == old(self).nodns,
            r@.len() <= old(self).need(),
            r@.len() < old(self).need() ==> book_picks(store@, final(self).tried@, 1).len() == 0,
    {
        let mut dials: Vec<SocketAddress> = Vec::new();
        let mut done = false;
        let ghost total = book_picks(store@, self.tried@, self.need());
        assert(self.connections@ + dials@ =~= self.connections@);
        assert(self.tried@ + dials@ =~= self.tried@);
        assert(dials@ + total =~= total);
        while !done && self.connections.len() < self.min_connections
            invariant
                self.wf(),
                self.min_connections == old(self).min_connections,
                self.dns_cache == old(self).dns_cache,
                self.nodns == old(self).nodns,
                self.connections@ == old(self).connections@ + dials@,
                self.tried@ == old(self).tried@ + dials@,
                dials@.len() <= old(self).need(),
                self.need() + dials@.len() == old(self).need(),
                !done ==> dials@ + book_picks(store@, self.tried@, self.need()) == total,
                done ==> dials@ == total && book_picks(store@, self.tried@, 1).len() == 0,
                total == book_picks(store@, old(self).tried@, old(self).need()),
            decreases
                    (if done {
                        0
                    } else {
                        1 + self.need()
                    }),
        {
            proof {
                lemma_first_offered(store@, self.tried@, 0);
            }
            match store.get_a_peer(&self.tried) {
                Some(rec) => {
                    let a = rec.addr.socket_addr();
                    let ghost before_tried = self.tried@;
                    let ghost before_dials = dials@;
                    let ghost rest = book_picks(store@, before_tried.push(a), (self.need() - 1) as nat);
                    self.tried.push(a);
                    self.connections.push(a);
                    dials.push(a);
                    assert(self.connections@ =~= old(self).connections@ + dials@);
                    assert(self.tried@ =~= old(self).tried@ + dials@);
                    assert(dials@ + rest =~= before_dials + (seq![a] + rest));
                },
                None => {
                    assert(dials@ + Seq::<SocketAddress>::empty() =~= dials@);
                    done = true;
                },
            }
        }
        proof {
            if !done {
                assert(dials@ + Seq::<SocketAddress>::empty() =~= dials@);
            }
        }
        dials
    }

    /// The address of the DNS cache that the random number `r` picks: the
    /// one at the place `r` modulo the length of the cache. An empty cache
    /// gives none.
    pub fn pick_seed(&self, r: u64) -> (a: Option<SocketAddress>)
        ensures
            a == (if self.dns_cache@.len() > 0 {
                Some(self.dns_cache@[r as int % self.dns_cache@.len() as int])
            } else {
                None
            }),
    {
        let n: usize = self.dns_cache.len();
        if n == 0 {
            return None;
        }
        let k: u64 = r % (n as u64);
        Some(self.dns_cache[k as usize])
    }

    /// Dials addresses of the DNS cache, picked at random, until no
    /// connection is missing. An empty cache gives nothing to dial.
    pub fn dns_lookup(&mut self) -> (r: Vec<SocketAddress>)
        ensures
            final(self).connections@ == old(self).connections@ + r@,
            final(self).tried == old(self).tried,
            final(self).min_connections == old(self).min_connections,
            final(self).dns_cache == old(self).dns_cache,
            final(self).nodns == old(self).nodns,
            r@.len() == (if old(self).dns_cache@.len() > 0 {
                old(self).need()
            } else {
                0
            }),
            forall|j: int| 0 <= j < r@.len() ==> old(self).dns_cache@.contains(#[trigger] r@[j]),
    {
        let mut dials: Vec<SocketAddress> = Vec::new();
        assert(self.connections@ + dials@ =~= self.connections@);
        if self.dns_cache.len() == 0 {
            return dials;
        }
        while self.connections.len() < self.min_connections
            invariant
                self.min_connections == old(self).min_connections,
                self.dns_cache == old(self).dns_cache,
                self.tried == old(self).tried,
                self.nodns == old(self).nodns,
                self.dns_cache@.len() > 0,
                self.connections@ == old(self).connections@ + dials@,
                self.need() + dials@.len() == old(self).need(),
                forall|j: int| 0 <= j < dials@.len() ==> self.dns_cache@.contains(#[trigger] dials@[j]),
            decreases self.need(),
        {
            let r = random_u64();
            match self.pick_seed(r) {
                Some(a) => {
                    self.connections.push(a);
                    dials.push(a);
                    assert(self.connections@ =~= old(self).connections@ + dials@);
                },
                None => {
                    assert(false);
                },
            }
        }
        dials
    }

    /// One turn of the keeper. A lost connection leaves the list, and seeds
    /// that were looked up become the DNS cache. Then the keeper takes
    /// addresses from the book. If connections are still missing and the
    /// DNS seeds may be used, it takes addresses from the DNS cache at
    /// random, or asks for a lookup if the cache is empty and was not just
    /// looked up. With no connection left after that, the keeper gives up.
    pub fn step(&mut self, store: &AddressStore, event: KeeperEvent) -> (r: KeeperStep)
        requires
            old(self).wf(),
        ensures
            final(self).wf(),
            final(self).min_connections == old(self).min_connections,
            final(self).nodns == old(self).nodns,
            final(self).dns_cache@ == cache_after(old(self).dns_cache@, event),
            final(self).connections@ == left_after(old(self).connections@, event) + r.dials@,
            ({
                let min = old(self).min_connections as nat;
                let base = left_after(old(self).connections@, event);
                let picks = book_picks(store@, old(self).tried@, missing(base.len(), min));
                let cache = cache_after(old(self).dns_cache@, event);
                let short = !old(self).nodns && base.len() + picks.len() < min;
                &&& final(self).tried@ == old(self).tried@ + picks
                &&& picks.len() <= r.dials@.len()
                &&& r.dials@.subrange(0, picks.len() as int) == picks
                &&& forall|j: int|
                    picks.len() <= j < r.dials@.len() ==> cache.contains(#[trigger] r.dials@[j])
                &&& if short && cache.len() > 0 {
                    base.len() + r.dials@.len() == min && r.next == Next::Wait
                } else if short && !(event is Seeds) {
                    r.dials@ == picks && r.next == Next::LookupSeeds
                } else {
                    r.dials@ == picks && r.next == (if base.len() + picks.len() == 0 {
                        Next::Exhausted
                    } else {
                        Next::Wait
                    })
                }
            }),
    {
        let mut refreshed = false;
        match event {
            KeeperEvent::Wake => {},
            KeeperEvent::Lost(i) => {
                if i < self.connections.len() {
                    self.connections.remove(i);
                }
            },
            KeeperEvent::Seeds(v) => {
                self.dns_cache = v;
                refreshed = true;
            },
        }
        let ghost base = self.connections@;
        let mut dials = self.peers_from_db(store);
        let ghost picks = dials@;
        assert(dials@.subrange(0, picks.len() as int) =~= picks);
        if !self.nodns && self.connections.len() < self.min_connections {
            if self.dns_cache.len() == 0 {
                if !refreshed {
                    return KeeperStep { dials, next: Next::LookupSeeds };
                }
            } else {
                let mut more = self.dns_lookup();
                let ghost extra = more@;
                dials.append(&mut more);
                assert(dials@ =~= picks + extra);
                assert(dials@.subrange(0, picks.len() as int) =~= picks);
                assert(self.connections@ =~= base + dials@);
                assert forall|j: int| picks.len() <= j < dials@.len() implies self.dns_cache@.contains(
                    #[trigger] dials@[j],
                ) by {
                    assert(dials@[j] == extra[j - picks.len()]);
                }
            }
        }
        let next = if self.connections.len() == 0 {
            Next::Exhausted
        } else {
            Next::Wait
        };
        KeeperStep { dials, next }
    }
}

} // verus!
