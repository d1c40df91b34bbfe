//! The older form of the dispatcher. It fetches the block of every new tip
//! through the download queue, and asks for the next block before it asks
//! for headers.

use crate::address::{AddressStore, NetAddress};
use crate::chain::{best, Chain, HeaderStore};
use crate::dispatcher::{
    any_wanted, book_after, chain_after, chain_after_headers, failure, headers_request, inv_reply,
    all_in_form, block_request, kept_in_form, lemma_failure_sticks, lemma_offer_one, offer, queue_after, sent_to, unwound,
    Dispatcher, BAN_BAD_POW, BAN_UNHANDLED,
};
use crate::error::SpvError;
use crate::message::{
    plain, sends_view, Inventory, Message, MessageView, Outbound, Outcome, ProcessResult,
    Reply,
};
use crate::peers::{PeerId, PeerTable};
use crate::pow::{Hash32, Header, Network};
use crate::queue::fresh_part;
use vstd::prelude::*;

verus! {

/// What the node asks of a peer: the block at the front of the queue, or,
/// with an empty queue, more headers.
pub open spec fn next_request(chain: Chain, peers: Set<PeerId>, q: Seq<Hash32>, peer: PeerId) -> Seq<
    (PeerId, MessageView),
> {
    if q.len() > 0 {
        sent_to(peers, peer, block_request(q[0]))
    } else {
        headers_request(chain, peers, peer)
    }
}

/// The hash of the tip after each of the headers was offered in order.
pub open spec fn tips(net: Network, s: Chain, hs: Seq<Header>) -> Seq<Hash32>
    decreases hs.len(),
{
    if hs.len() == 0 {
        Seq::empty()
    } else {
        tips(net, s, hs.drop_last()).push(chain_after(net, s, hs)[best(chain_after(net, s, hs))].hash)
    }
}

/// Whether a message of headers is taken in and moves the tip.
pub open spec fn moves_tip(net: Network, s: Chain, hs: Seq<Header>) -> bool {
    hs.len() > 0 && s.len() > 0 && failure(net, s, hs).is_none() && best(chain_after(net, s, hs)) != best(s)
}

/// The queue after a message of headers: if the tip moved, the hashes of
/// the tips that the queue does not hold join the queue, each once.
pub open spec fn queue_after_headers(net: Network, q: Seq<Hash32>, s: Chain, hs: Seq<Header>) -> Seq<Hash32> {
    if moves_tip(net, s, hs) {
        q + fresh_part(q, tips(net, s, hs))
    } else {
        q
    }
}

/// What the older dispatcher does about a message of headers.
pub open spec fn stale_headers_reply(net: Network, s: Chain,
    peers: Set<PeerId>,
    q: Seq<Hash32>,
    hs: Seq<Header>,
    peer: PeerId,
) -> Reply {
    let c = chain_after(net, s, hs);
    let queue = queue_after_headers(net, q, s, hs);
    if hs.len() == 0 {
        plain(Ok(ProcessResult::Ignored))
    } else if s.len() == 0 {
        plain(Err(SpvError::NoTip))
    } else if failure(net, s, hs) == Some(SpvError::BadProofOfWork) {
        plain(Ok(ProcessResult::Ban(BAN_BAD_POW)))
    } else if failure(net, s, hs).is_some() {
        plain(Ok(ProcessResult::Ignored))
    } else if best(c) == best(s) {
        plain(Ok(ProcessResult::Ack))
    } else {
        Reply {
            result: Ok(ProcessResult::Height(c[best(c)].height)),
            sends: sent_to(peers, peer, block_request(queue[0])) + next_request(c, peers, queue, peer),
            disconnected: unwound(net, s, hs),
        }
    }
}

/// What the older dispatcher does about an announcement.
pub open spec fn stale_inv_reply(
    chain: Chain,
    peers: Set<PeerId>,
    q: Seq<Hash32>,
    v: Seq<Inventory>,
    peer: PeerId,
) -> Reply {
    if inv_reply(chain, peers, v, peer).result == Ok::<ProcessResult, SpvError>(ProcessResult::Ack) {
        Reply {
            result: Ok(ProcessResult::Ack),
            sends: next_request(chain, peers, q, peer),
            disconnected: Seq::empty(),
        }
    } else {
        inv_reply(chain, peers, v, peer)
    }
}

/// What the older dispatcher answers to a message of `peer` that arrives at
/// `now`.
pub open spec fn stale_reply_to(net: Network, chain: Chain,
    peers: Set<PeerId>,
    q: Seq<Hash32>,
    msg: MessageView,
    peer: PeerId,
    now: u64,
) -> Reply {
    match msg {
        MessageView::Ping(nonce) => Reply {
            result: Ok(ProcessResult::Ack),
            sends: sent_to(peers, peer, MessageView::Pong(nonce)),
            disconnected: Seq::empty(),
        },
        MessageView::Headers(hs) => stale_headers_reply(net, chain, peers, q, hs, peer),
        MessageView::Block(b) => Reply {
            result: Ok(ProcessResult::Ack),
            sends: next_request(chain, peers, queue_after(q, b), peer),
            disconnected: Seq::empty(),
        },
        MessageView::Inv(v) => stale_inv_reply(chain, peers, q, v, peer),
        MessageView::Addr(v) => plain(
            Ok(
                if any_wanted(v, now) {
                    ProcessResult::Ack
                } else {
                    ProcessResult::Ignored
                },
            ),
        ),
        _ => plain(Ok(ProcessResult::Ban(BAN_UNHANDLED))),
    }
}

/// The queue of the older dispatcher after a message.
pub open spec fn stale_queue_next(net: Network, q: Seq<Hash32>, chain: Chain, msg: MessageView) -> Seq<Hash32> {
    match msg {
        MessageView::Block(b) => queue_after(q, b),
        MessageView::Headers(hs) => queue_after_headers(net, q, chain, hs),
        _ => q,
    }
}

/// What one more header adds to the tips.
pub proof fn lemma_tips_one(net: Network, s: Chain, hs: Seq<Header>, i: int)
    requires
        0 <= i < hs.len(),
    ensures
        tips(net, s, hs.take(i + 1)) == tips(net, s, hs.take(i)).push(
            chain_after(net, s, hs.take(i + 1))[best(chain_after(net, s, hs.take(i + 1)))].hash,
        ),
{
    assert(hs.take(i + 1).drop_last() =~= hs.take(i));
}

/// The older dispatcher, over the same parts of the node.
pub struct Node {
    /// The parts of the node.
    pub inner: Dispatcher,
}

impl Node {
    /// The node's invariant: that of its parts.
    pub open spec fn wf(&self) -> bool {
        self.inner.wf()
    }

    /// A node over the given stores and peers, with nothing to fetch.
    pub fn new(chain: HeaderStore, addresses: AddressStore, peers: PeerTable) -> (r: Node)
        requires
            chain.wf(),
            addresses.wf(),
        ensures
            r.wf(),
            r.inner.chain == chain,
            r.inner.addresses == addresses,
            r.inner.peers == peers,
            r.inner.queue@.len() == 0,
    {
        Node { inner: Dispatcher::new(chain, addresses, peers) }
    }

    /// Puts the genesis header into the chain, if the chain holds no header
    /// yet.
    pub fn load_headers(&mut self, genesis: &Header) -> (r: Result<(), SpvError>)
        requires
            old(self).wf(),
        ensures
            final(self).wf(),
            final(self).inner.chain.network() == old(self).inner.chain.network(),
            final(self).inner.addresses == old(self).inner.addresses,
            final(self).inner.peers == old(self).inner.peers,
            final(self).inner.queue == old(self).inner.queue,
            old(self).inner.chain@.len() > 0 ==> r.is_ok() && final(self).inner.chain@ == old(
                self,
            ).inner.chain@,
            old(self).inner.chain@.len() == 0 ==> (r.is_ok() <==> genesis.pow_ok()
                && crate::pow::expand(genesis.bits) > 0),
            r.is_err() ==> final(self).inner.chain@ == old(self).inner.chain@,
            old(self).inner.chain@.len() == 0 && r.is_ok() ==> final(self).inner.chain@.len() == 1,
            old(self).inner.chain@.len() == 0 && r.is_ok() ==> final(self).inner.chain@[0].header
                == *genesis,
    {
        self.inner.init(genesis)
    }

    /// The hash of the block that is to be fetched next.
    pub fn next_block(&self) -> (r: Option<Hash32>)
        ensures
            r == (if self.inner.queue@.len() > 0 {
                Some(self.inner.queue@[0])
            } else {
                None
            }),
    {
        self.inner.queue.front()
    }

    /// Puts the blocks that the queue does not hold into the queue, each
    /// once, and asks the peer for the block at the front. The result says
    /// whether the queue holds a block to ask for.
    pub fn download_blocks(&mut self, pid: PeerId, blocks: &Vec<Hash32>) -> (r: (bool, Vec<Outbound>))
        requires
            old(self).wf(),
        ensures
            final(self).wf(),
            final(self).inner.chain == old(self).inner.chain,
            final(self).inner.addresses == old(self).inner.addresses,
            final(self).inner.peers == old(self).inner.peers,
            final(self).inner.queue@ == old(self).inner.queue@ + fresh_part(
                old(self).inner.queue@,
                blocks@,
            ),
            r.0 == (final(self).inner.queue@.len() > 0),
            sends_view(r.1@) == (if r.0 {
                sent_to(old(self).inner.peers@, pid, block_request(final(self).inner.queue@[0]))
            } else {
                Seq::empty()
            }),
    {
        self.inner.queue.enqueue(blocks);
        (self.inner.queue.len() > 0, self.inner.request_block(pid))
    }

    /// Asks the peer for the block at the front of the queue, or, with an
    /// empty queue, for more headers.
    pub fn get_headers(&mut self, peer: PeerId) -> (r: Vec<Outbound>)
        requires
            old(self).wf(),
        ensures
            *final(self) == *old(self),
            sends_view(r@) == next_request(
                old(self).inner.chain@,
                old(self).inner.peers@,
                old(self).inner.queue@,
                peer,
            ),
    {
        if self.inner.queue.len() > 0 {
            self.inner.request_block(peer)
        } else {
            self.inner.get_headers(peer)
        }
    }

    /// A peer has connected: the node asks it for the next block or for
    /// headers.
    pub fn connected(&mut self, pid: PeerId) -> (r: Outcome)
        requires
            old(self).wf(),
        ensures
            *final(self) == *old(self),
            r@ == (Reply {
                result: Ok(ProcessResult::Ack),
                sends: next_request(
                    old(self).inner.chain@,
                    old(self).inner.peers@,
                    old(self).inner.queue@,
                    pid,
                ),
                disconnected: Seq::empty(),
            }),
    {
        Outcome {
            result: Ok(ProcessResult::Ack),
            sends: self.get_headers(pid),
            disconnected: Vec::new(),
        }
    }

    /// A peer has disconnected: nothing is to be done.
    pub fn disconnected(&self, _pid: PeerId) -> (r: Outcome)
        ensures
            r@ == plain(Ok(ProcessResult::Ack)),
    {
        Outcome::only(Ok(ProcessResult::Ack))
    }

    /// A ping is answered with a pong that carries its nonce.
    pub fn ping(&self, nonce: u64, peer: PeerId) -> (r: Outcome)
        ensures
            r@ == (Reply {
                result: Ok(ProcessResult::Ack),
                sends: sent_to(self.inner.peers@, peer, MessageView::Pong(nonce)),
                disconnected: Seq::empty(),
            }),
    {
        self.inner.ping(nonce, peer)
    }

    /// The messages that go out when `msg` is sent to `peer`.
    pub fn send(&self, peer: PeerId, msg: Message) -> (r: Vec<Outbound>)
        ensures
            sends_view(r@) == sent_to(self.inner.peers@, peer, msg@),
    {
        self.inner.send(peer, msg)
    }

    /// A message of headers: they are offered to the chain in order. If one
    /// is refused, the chain stays as it was; a header that does not meet
    /// its target is held against the peer. If the tip moved, the hashes of
    /// the tips that the queue does not hold join the download queue, and
    /// the node asks the peer for the block at the front of the queue,
    /// twice.
    pub fn headers(&mut self, headers: &Vec<Header>, peer: PeerId) -> (r: Outcome)
        requires
            old(self).wf(),
        ensures
            final(self).wf(),
            final(self).inner.chain.network() == old(self).inner.chain.network(),
            final(self).inner.addresses == old(self).inner.addresses,
            final(self).inner.peers == old(self).inner.peers,
            final(self).inner.chain@ == chain_after_headers(old(self).inner.chain.network(), old(self).inner.chain@, headers@),
            old(self).inner.chain@.len() > 0 && failure(
                old(self).inner.chain.network(),
                old(self).inner.chain@,
                headers@,
            ).is_none() ==> all_in_form(
                old(self).inner.chain.network(),
                old(self).inner.chain@,
                headers@,
            ),
            final(self).inner.queue@ == queue_after_headers(old(self).inner.chain.network(), old(self).inner.queue@,
                old(self).inner.chain@,
                headers@,
            ),
            r@ == stale_headers_reply(old(self).inner.chain.network(), old(self).inner.chain@,
                old(self).inner.peers@,
                old(self).inner.queue@,
                headers@,
                peer,
            ),
    {
        if headers.len() == 0 {
            return Outcome::only(Ok(ProcessResult::Ignored));
        }
        if self.inner.chain.len() == 0 {
            return Outcome::only(Err(SpvError::NoTip));
        }
        let ghost s = self.inner.chain@;
        let ghost net = self.inner.chain.network();
        let ghost hs = headers@;
        let mut work = self.inner.chain.snapshot();
        let mut moved = false;
        let mut disconnected: Vec<Header> = Vec::new();
        let mut download: Vec<Hash32> = Vec::new();
        let mut i: usize = 0;
        proof {
            self.inner.chain.lemma_wf();
            crate::chain::lemma_best(s);
        }
        while i < headers.len()
            invariant
                *self == *old(self),
                self.wf(),
                s == self.inner.chain@,
                hs == headers@,
                hs.len() > 0,
                s.len() > 0,
                work.wf(),
                work.network() == net,
                net == self.inner.chain.network(),
                i <= hs.len(),
                work@ == chain_after(net, s, hs.take(i as int)),
                failure(net, s, hs.take(i as int)).is_none(),
                disconnected@ == unwound(net, s, hs.take(i as int)),
                forall|j: int| 0 <= j < i ==> #[trigger] kept_in_form(net, s, hs, j),
                download@ == tips(net, s, hs.take(i as int)),
                s.len() <= work@.len(),
                moved == (best(work@) != best(s)),
                moved ==> best(work@) >= s.len(),
                best(s) < s.len(),
            decreases hs.len() - i,
        {
            proof {
                lemma_offer_one(net, s, hs, i as int);
                lemma_tips_one(net, s, hs, i as int);
            }
            match offer(&mut work, &headers[i], &mut disconnected) {
                Ok(tip_moved) => {
                    if tip_moved {
                        moved = true;
                    }
                    match work.tip() {
                        Some(tip) => {
                            download.push(tip.hash);
                        },
                        None => {
                            assert(false);
                        },
                    }
                },
                Err(SpvError::BadProofOfWork) => {
                    proof {
                        lemma_failure_sticks(net, s, hs, i + 1);
                    }
                    return Outcome::only(Ok(ProcessResult::Ban(BAN_BAD_POW)));
                },
                Err(_) => {
                    proof {
                        lemma_failure_sticks(net, s, hs, i + 1);
                    }
                    return Outcome::only(Ok(ProcessResult::Ignored));
                },
            }
            i += 1;
        }
        assert(hs.take(i as int) =~= hs);
        self.inner.chain = work;
        if !moved {
            return Outcome::only(Ok(ProcessResult::Ack));
        }
        let height: u32 = match self.inner.chain.tip() {
            Some(tip) => tip.height,
            None => 0,
        };
        let (_, mut sends) = self.download_blocks(peer, &download);
        let ghost first = sends_view(sends@);
        let mut more = self.get_headers(peer);
        let ghost second = sends_view(more@);
        sends.append(&mut more);
        assert(sends_view(sends@) =~= first + second);
        Outcome { result: Ok(ProcessResult::Height(height)), sends, disconnected }
    }

    /// A block has arrived: if it is the one that the queue waits for, it
    /// leaves the queue. The node then asks the peer for the next block or
    /// for headers.
    pub fn block(&mut self, block: &Header, peer: PeerId) -> (r: Outcome)
        requires
            old(self).wf(),
        ensures
            final(self).wf(),
            final(self).inner.chain == old(self).inner.chain,
            final(self).inner.addresses == old(self).inner.addresses,
            final(self).inner.peers == old(self).inner.peers,
            final(self).inner.queue@ == queue_after(old(self).inner.queue@, *block),
            r@ == (Reply {
                result: Ok(ProcessResult::Ack),
                sends: next_request(
                    old(self).inner.chain@,
                    old(self).inner.peers@,
                    queue_after(old(self).inner.queue@, *block),
                    peer,
                ),
                disconnected: Seq::empty(),
            }),
    {
        let hash = block.hash();
        proof {
            if self.inner.queue@.len() > 0 {
                let front = self.inner.queue@[0];
                assert(front.bytes@ == hash.bytes@ ==> front.bytes == hash.bytes);
            }
        }
        self.inner.queue.pop_if(&hash);
        Outcome {
            result: Ok(ProcessResult::Ack),
            sends: self.get_headers(peer),
            disconnected: Vec::new(),
        }
    }

    /// An announcement of blocks or transactions.
    pub fn inv(&mut self, v: &Vec<Inventory>, peer: PeerId) -> (r: Outcome)
        requires
            old(self).wf(),
        ensures
            *final(self) == *old(self),
            r@ == stale_inv_reply(
                old(self).inner.chain@,
                old(self).inner.peers@,
                old(self).inner.queue@,
                v@,
                peer,
            ),
    {
        let first = self.inner.inv(v, peer);
        match first.result {
            Ok(ProcessResult::Ack) => Outcome {
                result: Ok(ProcessResult::Ack),
                sends: self.get_headers(peer),
                disconnected: Vec::new(),
            },
            _ => first,
        }
    }

    /// Addresses of peers, told at the time `now`.
    pub fn addr_at(&mut self, v: &Vec<(u32, NetAddress)>, now: u64) -> (r: Outcome)
        requires
            old(self).wf(),
        ensures
            final(self).wf(),
            final(self).inner.chain == old(self).inner.chain,
            final(self).inner.peers == old(self).inner.peers,
            final(self).inner.queue == old(self).inner.queue,
            final(self).inner.addresses@ == book_after(old(self).inner.addresses@, v@, now),
            r@ == plain(
                Ok(
                    if any_wanted(v@, now) {
                        ProcessResult::Ack
                    } else {
                        ProcessResult::Ignored
                    },
                ),
            ),
    {
        self.inner.addr_at(v, now)
    }

    /// Whether `post` and `r` are what becomes of `pre` when it handles the
    /// message `msg` of `peer` at the time `now`.
    pub open spec fn handled(
        pre: Node,
        msg: MessageView,
        peer: PeerId,
        now: u64,
        post: Node,
        r: Reply,
    ) -> bool {
        &&& post.wf()
        &&& post.inner.peers == pre.inner.peers
        &&& post.inner.chain.network() == pre.inner.chain.network()
        &&& post.inner.chain@ == crate::dispatcher::chain_next(
            pre.inner.chain.network(),
            pre.inner.chain@,
            msg,
        )
        &&& post.inner.addresses@ == crate::dispatcher::book_next(pre.inner.addresses@, msg, now)
        &&& post.inner.queue@ == stale_queue_next(
            pre.inner.chain.network(),
            pre.inner.queue@,
            pre.inner.chain@,
            msg,
        )
        &&& r == stale_reply_to(
            pre.inner.chain.network(),
            pre.inner.chain@,
            pre.inner.peers@,
            pre.inner.queue@,
            msg,
            peer,
            now,
        )
    }

    /// Handles a message of `peer` that arrives at the time `now`, in
    /// seconds since 1970.
    pub fn process_at(&mut self, msg: &Message, peer: PeerId, now: u64) -> (r: Outcome)
        requires
            old(self).wf(),
        ensures
            Self::handled(*old(self), msg@, peer, now, *final(self), r@),
    {
        match msg {
            Message::Ping(nonce) => self.ping(*nonce, peer),
            Message::Headers(v) => self.headers(v, peer),
            Message::Block(b) => self.block(b, peer),
            Message::Inv(v) => self.inv(v, peer),
            Message::Addr(v) => self.addr_at(v, now),
            _ => Outcome::only(Ok(ProcessResult::Ban(BAN_UNHANDLED))),
        }
    }

    /// Handles a message of `peer`. Only a message of addresses depends on
    /// the time, which is then read from the machine's clock.
    pub fn process(&mut self, msg: &Message, peer: PeerId) -> (r: Outcome)
        requires
            old(self).wf(),
        ensures
            !(msg@ is Addr) ==> Self::handled(*old(self), msg@, peer, 0, *final(self), r@),
            msg@ is Addr ==> (r@ == plain(Err(SpvError::ClockError)) && *final(self) == *old(self))
                || (exists|now: u64| #[trigger]
                Self::handled(*old(self), msg@, peer, now, *final(self), r@)),
    {
        match msg {
            Message::Addr(v) => {
                let r = self.inner.addr(v);
                proof {
                    if r@ != plain(Err(SpvError::ClockError)) || self.inner.addresses
                        != old(self).inner.addresses {
                        let now = choose|now: u64|
                            self.inner.addresses@ == book_after(old(self).inner.addresses@, v@, now)
                                && r@ == plain(
                                Ok(
                                    if #[trigger] any_wanted(v@, now) {
                                        ProcessResult::Ack
                                    } else {
                                        ProcessResult::Ignored
                                    },
                                ),
                            );
                        assert(Self::handled(*old(self), msg@, peer, now, *self, r@));
                    }
                }
                r
            },
            _ => self.process_at(msg, peer, 0),
        }
    }

    /// The messages that carry the transaction to every connected peer,
    /// one each, in the order in which the table is walked.
    pub fn broadcast_transaction(&self, tx: &Vec<u8>) -> (r: Outcome)
        ensures
            r@.result == Ok::<ProcessResult, SpvError>(ProcessResult::Ack),
            r@.disconnected == Seq::<Header>::empty(),
            r@.sends.len() == self.inner.peers@.len(),
            exists|order: Seq<PeerId>| #[trigger]
                crate::peers::walks(order, self.inner.peers@) && r@.sends
                    == crate::dispatcher::tx_to_all(order, tx@),
    {
        self.inner.broadcast_transaction(tx)
    }

    /// A broadcaster for the peers that are connected now.
    pub fn get_broadcaster(&self) -> (r: crate::dispatcher::Broadcaster)
        ensures
            crate::peers::walks(r.peers@, self.inner.peers@),
    {
        self.inner.get_broadcaster()
    }
}

} // verus!
