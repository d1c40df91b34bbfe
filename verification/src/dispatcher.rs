//! The dispatcher: what the node does about each message of a peer.

use crate::address::{fresh, is_fresh, upserted, AddressRecord, AddressStore, Book, NetAddress};
use crate::chain::{
    after_add, best, entry_for, headers_of, known, lemma_best, lemma_tip_after_add,
    lemma_unwound_headers, locator, new_entry, placement, stores, unwinds, Chain, HeaderStore,
    Placement,
};
use crate::error::SpvError;
use crate::message::{
    plain, sends_view, InvType, Inventory, Message, MessageView, Outbound, Outcome, ProcessResult,
    Reply,
};
use crate::peers::{walks, PeerId, PeerTable};
use crate::pow::{Hash32, Header, Network};
use crate::queue::DownloadQueue;
use vstd::prelude::*;

verus! {

/// The highest protocol version that the node speaks.
pub const MAX_PROTOCOL_VERSION: u32 = 70001;

/// The rise of the ban score for a header that does not meet its target.
pub const BAN_BAD_POW: u32 = 100;

/// The rise of the ban score for announcing anything but blocks.
pub const BAN_UNWANTED_INV: u32 = 10;

/// The rise of the ban score for a message that the node does not handle.
pub const BAN_UNHANDLED: u32 = 1;

/// The messages that go out when `msg` is sent to `peer`: the message, if
/// the peer is connected.
pub open spec fn sent_to(peers: Set<PeerId>, peer: PeerId, msg: MessageView) -> Seq<
    (PeerId, MessageView),
> {
    if peers.contains(peer) {
        seq![(peer, msg)]
    } else {
        Seq::empty()
    }
}

/// The request for more headers: the chain's locator, with its first hash,
/// the tip, as the hash to stop at. A chain without headers asks nothing.
pub open spec fn headers_request(chain: Chain, peers: Set<PeerId>, peer: PeerId) -> Seq<
    (PeerId, MessageView),
> {
    if chain.len() > 0 {
        sent_to(
            peers,
            peer,
            MessageView::GetHeaders { locator: locator(chain), stop: locator(chain)[0] },
        )
    } else {
        Seq::empty()
    }
}

/// The error with which a header is refused.
pub open spec fn refusal(p: Placement) -> Option<SpvError> {
    match p {
        Placement::BadPow => Some(SpvError::BadProofOfWork),
        Placement::Orphan => Some(SpvError::OrphanHeader),
        Placement::Full => Some(SpvError::StoreError),
        _ => None,
    }
}

/// The chain after the headers were offered to it in order.
pub open spec fn chain_after(net: Network, s: Chain, hs: Seq<Header>) -> Chain
    decreases hs.len(),
{
    if hs.len() == 0 {
        s
    } else {
        after_add(net, chain_after(net, s, hs.drop_last()), hs.last())
    }
}

/// The error of the first header that is refused when the headers are
/// offered in order.
pub open spec fn failure(net: Network, s: Chain, hs: Seq<Header>) -> Option<SpvError>
    decreases hs.len(),
{
    if hs.len() == 0 {
        None
    } else if failure(net, s, hs.drop_last()).is_some() {
        failure(net, s, hs.drop_last())
    } else {
        refusal(placement(net, chain_after(net, s, hs.drop_last()), hs.last()))
    }
}

/// The headers that leave the trunk when the headers are offered in order:
/// for each reorganisation those from the tip of that moment downwards.
pub open spec fn unwound(net: Network, s: Chain, hs: Seq<Header>) -> Seq<Header>
    decreases hs.len(),
{
    if hs.len() == 0 {
        Seq::empty()
    } else {
        let c = chain_after(net, s, hs.drop_last());
        let before = unwound(net, s, hs.drop_last());
        if placement(net, c, hs.last()) == Placement::Reorg {
            before + headers_of(c, unwinds(c, hs.last()))
        } else {
            before
        }
    }
}

/// The chain after a message of headers: that after all of them were
/// offered, if none is refused; else the chain as it was.
pub open spec fn chain_after_headers(net: Network, s: Chain, hs: Seq<Header>) -> Chain {
    if s.len() == 0 || failure(net, s, hs).is_some() {
        s
    } else {
        chain_after(net, s, hs)
    }
}

/// What the node does about a message of headers.
pub open spec fn headers_reply(net: Network, s: Chain, peers: Set<PeerId>, hs: Seq<Header>, peer: PeerId) -> Reply {
    let c = chain_after(net, s, hs);
    if hs.len() == 0 {
        plain(Ok(ProcessResult::Ignored))
    } else if s.len() == 0 {
        plain(Err(SpvError::NoTip))
    } else if failure(net, s, hs) == Some(SpvError::BadProofOfWork) {
        plain(Ok(ProcessResult::Ban(BAN_BAD_POW)))
    } else if failure(net, s, hs).is_some() {
        plain(Ok(ProcessResult::Ignored))
    } else if best(c) != best(s) {
        Reply {
            result: Ok(ProcessResult::Height(c[best(c)].height)),
            sends: headers_request(c, peers, peer),
            disconnected: unwound(net, s, hs),
        }
    } else {
        plain(Ok(ProcessResult::Ack))
    }
}

/// The header at `i` of the message, if it is stored, is stored in its own
/// form: with its fields, its hash, the height above the header it builds
/// on, and that header's work plus its own.
pub open spec fn kept_in_form(net: Network, s: Chain, hs: Seq<Header>, i: int) -> bool {
    let c = chain_after(net, s, hs.take(i));
    stores(net, c, hs[i]) ==> entry_for(c, hs[i], new_entry(c, hs[i]))
}

/// Every header of the message that is stored is stored in its own form.
pub open spec fn all_in_form(net: Network, s: Chain, hs: Seq<Header>) -> bool {
    forall|i: int| 0 <= i < hs.len() ==> #[trigger] kept_in_form(net, s, hs, i)
}

/// Where the hash of every header of the message has 32 bytes, every
/// header of the message that is stored is stored in its own form.
pub proof fn lemma_all_in_form(net: Network, s: Chain, hs: Seq<Header>)
    requires
        forall|i: int| 0 <= i < hs.len() ==> (#[trigger] hs[i]).digest().len() == 32,
    ensures
        all_in_form(net, s, hs),
{
    assert forall|i: int| 0 <= i < hs.len() implies #[trigger] kept_in_form(net, s, hs, i) by {
        let c = chain_after(net, s, hs.take(i));
        if stores(net, c, hs[i]) {
            crate::chain::lemma_entry_exists(net, c, hs[i]);
        }
    }
}

/// Once a header is refused, the headers that follow do not matter.
pub proof fn lemma_failure_sticks(net: Network, s: Chain, hs: Seq<Header>, k: int)
    requires
        0 <= k <= hs.len(),
        failure(net, s, hs.take(k)).is_some(),
    ensures
        failure(net, s, hs) == failure(net, s, hs.take(k)),
    decreases hs.len() - k,
{
    if k == hs.len() {
        assert(hs.take(k) =~= hs);
    } else {
        assert(hs.take(k + 1).drop_last() =~= hs.take(k));
        lemma_failure_sticks(net, s, hs, k + 1);
    }
}

/// What one more header adds to the chain, to the failure and to the
/// headers that left the trunk.
pub proof fn lemma_offer_one(net: Network, s: Chain, hs: Seq<Header>, i: int)
    requires
        0 <= i < hs.len(),
        failure(net, s, hs.take(i)).is_none(),
    ensures
        chain_after(net, s, hs.take(i + 1)) == after_add(net, chain_after(net, s, hs.take(i)), hs[i]),
        failure(net, s, hs.take(i + 1)) == refusal(placement(net, chain_after(net, s, hs.take(i)), hs[i])),
        unwound(net, s, hs.take(i + 1)) == unwound(net, s, hs.take(i)) + unwound_by(net, chain_after(net, s, hs.take(i)),
            hs[i],
        ),
{
    assert(hs.take(i + 1).drop_last() =~= hs.take(i));
    assert(hs.take(i + 1).last() == hs[i]);
    let before = unwound(net, s, hs.take(i));
    assert(before + Seq::<Header>::empty() =~= before);
}

/// The request for the block with the given hash, with its witness data.
pub open spec fn block_request(hash: Hash32) -> MessageView {
    MessageView::GetData(seq![(Inventory { inv_type: InvType::WitnessBlock, hash })])
}

/// Every entry announces a block.
pub open spec fn all_blocks(v: Seq<Inventory>) -> bool {
    forall|i: int| 0 <= i < v.len() ==> (#[trigger] v[i]).inv_type == InvType::Block
}

/// Some entry names a hash that the chain does not hold.
pub open spec fn any_unknown(chain: Chain, v: Seq<Inventory>) -> bool {
    exists|i: int| 0 <= i < v.len() && !known(chain, (#[trigger] v[i]).hash@)
}

/// What the node does about an announcement: anything but a block is held
/// against the peer; a block that the chain does not hold makes the node ask
/// for headers; known blocks are of no interest.
pub open spec fn inv_reply(chain: Chain, peers: Set<PeerId>, v: Seq<Inventory>, peer: PeerId) -> Reply {
    if !all_blocks(v) {
        plain(Ok(ProcessResult::Ban(BAN_UNWANTED_INV)))
    } else if any_unknown(chain, v) {
        Reply {
            result: Ok(ProcessResult::Ack),
            sends: headers_request(chain, peers, peer),
            disconnected: Seq::empty(),
        }
    } else {
        plain(Ok(ProcessResult::Ignored))
    }
}

/// Whether the node keeps an address that it was told at `now`: the address
/// is acceptable and was seen at most 5400 seconds ago.
pub open spec fn wanted(entry: (u32, NetAddress), now: u64) -> bool {
    entry.1.acceptable() && fresh(entry.0, now)
}

/// The record under which the node keeps an address that it was told.
pub open spec fn record_of(entry: (u32, NetAddress)) -> AddressRecord {
    AddressRecord { addr: entry.1, last_seen: entry.0, ban_score: 0 }
}

/// The book after the wanted addresses of `v` were stored in order.
pub open spec fn book_after(s: Book, v: Seq<(u32, NetAddress)>, now: u64) -> Book
    decreases v.len(),
{
    if v.len() == 0 {
        s
    } else {
        let b = book_after(s, v.drop_last(), now);
        if wanted(v.last(), now) {
            upserted(b, record_of(v.last()))
        } else {
            b
        }
    }
}

/// Some address of `v` is wanted.
pub open spec fn any_wanted(v: Seq<(u32, NetAddress)>, now: u64) -> bool {
    exists|i: int| 0 <= i < v.len() && wanted(#[trigger] v[i], now)
}

/// The queue after the block with the given header arrived: the queue
/// without its front, if that is the block's hash.
pub open spec fn queue_after(q: Seq<Hash32>, block: Header) -> Seq<Hash32> {
    if q.len() > 0 && q[0]@ == block.digest() {
        q.subrange(1, q.len() as int)
    } else {
        q
    }
}

/// The headers that leave the trunk when `h` is offered to the chain.
pub open spec fn unwound_by(net: Network, s: Chain, h: Header) -> Seq<Header> {
    if placement(net, s, h) == Placement::Reorg {
        headers_of(s, unwinds(s, h))
    } else {
        Seq::empty()
    }
}

/// Offers one header to the store and appends to `gone` the headers that
/// left the trunk. The result says whether the tip moved.
pub(crate) fn offer(work: &mut HeaderStore, h: &Header, gone: &mut Vec<Header>) -> (r: Result<
    bool,
    SpvError,
>)
    requires
        old(work).wf(),
        old(work)@.len() > 0,
    ensures
        final(work).wf(),
        final(work).network() == old(work).network(),
        final(work)@ == after_add(old(work).network(), old(work)@, *h),
        old(work)@.len() <= final(work)@.len(),
        r.is_err() <==> refusal(placement(old(work).network(), old(work)@, *h)).is_some(),
        r.is_err() ==> refusal(placement(old(work).network(), old(work)@, *h)) == Some(r.unwrap_err()),
        r == Ok::<bool, SpvError>(true) ==> best(final(work)@) == old(work)@.len(),
        r == Ok::<bool, SpvError>(false) ==> best(final(work)@) == best(old(work)@),
        r == Ok::<bool, SpvError>(true) <==> placement(old(work).network(), old(work)@, *h)
            == Placement::Extends || placement(old(work).network(), old(work)@, *h)
            == Placement::Reorg,
        stores(old(work).network(), old(work)@, *h) ==> entry_for(
            old(work)@,
            *h,
            new_entry(old(work)@, *h),
        ),
        final(gone)@ == old(gone)@ + unwound_by(old(work).network(), old(work)@, *h),
{
    let ghost c = work@;
    let ghost net = work.network();
    proof {
        work.lemma_wf();
    }
    match work.add_header(h) {
        Ok(Some(placed)) => {
            proof {
                lemma_tip_after_add(net, c, *h);
            }
            if let Some(left) = placed.unwinds {
                proof {
                    lemma_unwound_headers(net, c, *h);
                }
                let mut found = work.headers_for(&left);
                gone.append(&mut found);
            } else {
                assert(gone@ =~= old(gone)@ + unwound_by(net, c, *h));
            }
            Ok(true)
        },
        Ok(None) => {
            proof {
                lemma_tip_after_add(net, c, *h);
                assert(gone@ =~= old(gone)@ + unwound_by(net, c, *h));
            }
            Ok(false)
        },
        Err(e) => {
            proof {
                assert(gone@ =~= old(gone)@ + unwound_by(net, c, *h));
            }
            Err(e)
        },
    }
}

/// What the node answers to a message of `peer` that arrives at `now`.
pub open spec fn reply_to(net: Network, chain: Chain,
    peers: Set<PeerId>,
    msg: MessageView,
    peer: PeerId,
    now: u64,
) -> Reply {
    match msg {
        MessageView::Ping(nonce) => Reply {
            result: Ok(ProcessResult::Ack),
            sends: sent_to(peers, peer, MessageView::Pong(nonce)),
            disconnected: Seq::empty(),
        },
        MessageView::Headers(hs) => headers_reply(net, chain, peers, hs, peer),
        MessageView::Block(_) => Reply {
            result: Ok(ProcessResult::Ack),
            sends: headers_request(chain, peers, peer),
            disconnected: Seq::empty(),
        },
        MessageView::Inv(v) => inv_reply(chain, peers, v, peer),
        MessageView::Addr(v) => plain(
            Ok(
                if any_wanted(v, now) {
                    ProcessResult::Ack
                } else {
                    ProcessResult::Ignored
                },
            ),
        ),
        _ => plain(Ok(ProcessResult::Ban(BAN_UNHANDLED))),
    }
}

/// The chain after a message.
pub open spec fn chain_next(net: Network, chain: Chain, msg: MessageView) -> Chain {
    match msg {
        MessageView::Headers(hs) => chain_after_headers(net, chain, hs),
        _ => chain,
    }
}

/// The book after a message that arrives at `now`.
pub open spec fn book_next(book: Book, msg: MessageView, now: u64) -> Book {
    match msg {
        MessageView::Addr(v) => book_after(book, v, now),
        _ => book,
    }
}

/// The queue after a message.
pub open spec fn queue_next(q: Seq<Hash32>, msg: MessageView) -> Seq<Hash32> {
    match msg {
        MessageView::Block(h) => queue_after(q, h),
        _ => q,
    }
}

/// `std::time::SystemTime::now` and `duration_since`: the seconds since
/// 1970 by the machine's clock, or nothing where the clock stands before
/// 1970. Nothing is claimed of the number.
#[verifier::external_body]
fn unix_seconds() -> (r: Option<u64>) {
    match std::time::SystemTime::now().duration_since(std::time::UNIX_EPOCH) {
        Ok(d) => Some(d.as_secs()),
        Err(_) => None,
    }
}

/// The parts of the node that the dispatcher reads and changes.
pub struct Dispatcher {
    /// The header chain.
    pub chain: HeaderStore,
    /// The book of peer addresses.
    pub addresses: AddressStore,
    /// The connected peers.
    pub peers: PeerTable,
    /// The blocks that wait to be fetched.
    pub queue: DownloadQueue,
}

/// Sends transactions to the peers that were connected when it was made.
pub struct Broadcaster {
    /// The peers to send to, each once.
    pub peers: Vec<PeerId>,
}

/// The messages that carry `tx` to each of `peers`, in order.
pub open spec fn tx_to_all(peers: Seq<PeerId>, tx: Seq<u8>) -> Seq<(PeerId, MessageView)> {
    Seq::new(peers.len(), |i: int| (peers[i], MessageView::Tx(tx)))
}

/// A copy of the bytes.
fn copy_bytes(v: &Vec<u8>) -> (r: Vec<u8>)
    ensures
        r@ == v@,
{
    let mut out: Vec<u8> = Vec::new();
    let mut i: usize = 0;
    while i < v.len()
        invariant
            i <= v@.len(),
            out@ == v@.subrange(0, i as int),
        decreases v@.len() - i,
    {
        out.push(v[i]);
        assert(out@ =~= v@.subrange(0, i + 1));
        i += 1;
    }
    assert(out@ =~= v@);
    out
}

/// The messages that carry `tx` to each of `peers`.
fn fan_out(peers: &Vec<PeerId>, tx: &Vec<u8>) -> (r: Vec<Outbound>)
    ensures
        sends_view(r@) == tx_to_all(peers@, tx@),
{
    let mut out: Vec<Outbound> = Vec::new();
    let mut i: usize = 0;
    while i < peers.len()
        invariant
            i <= peers@.len(),
            out@.len() == i,
            forall|j: int| 0 <= j < i ==> (#[trigger] out@[j])@ == (peers@[j], MessageView::Tx(tx@)),
        decreases peers@.len() - i,
    {
        out.push(Outbound { peer: peers[i], message: Message::Tx(copy_bytes(tx)) });
        i += 1;
    }
    assert(sends_view(out@) =~= tx_to_all(peers@, tx@));
    out
}

impl Broadcaster {
    /// The messages that carry the transaction to every peer. Without peers
    /// there is nothing to send.
    pub fn broadcast_transaction(&self, tx: &Vec<u8>) -> (r: Vec<Outbound>)
        ensures
            sends_view(r@) == tx_to_all(self.peers@, tx@),
            r@.len() == self.peers@.len(),
    {
        let r = fan_out(&self.peers, tx);
        assert(sends_view(r@).len() == r@.len());
        r
    }
}

impl Dispatcher {
    /// The dispatcher's invariant: that of each of its parts.
    pub open spec fn wf(&self) -> bool {
        self.chain.wf() && self.addresses.wf() && self.queue.wf()
    }

    /// A dispatcher over the given stores and peers, with nothing to fetch.
    pub fn new(chain: HeaderStore, addresses: AddressStore, peers: PeerTable) -> (r: Dispatcher)
        requires
            chain.wf(),
            addresses.wf(),
        ensures
            r.wf(),
            r.chain == chain,
            r.addresses == addresses,
            r.peers == peers,
            r.queue@.len() == 0,
    {
        Dispatcher { chain, addresses, peers, queue: DownloadQueue::new() }
    }

    /// Puts the genesis header into the chain, if the chain holds no header
    /// yet.
    pub fn init(&mut self, genesis: &Header) -> (r: Result<(), SpvError>)
        requires
            old(self).wf(),
        ensures
            final(self).wf(),
            final(self).chain.network() == old(self).chain.network(),
            final(self).addresses == old(self).addresses,
            final(self).peers == old(self).peers,
            final(self).queue == old(self).queue,
            old(self).chain@.len() > 0 ==> r.is_ok() && final(self).chain@ == old(self).chain@,
            old(self).chain@.len() == 0 ==> (r.is_ok() <==> genesis.pow_ok() && crate::pow::expand(
                genesis.bits,
            ) > 0),
            r.is_err() ==> final(self).chain@ == old(self).chain@,
            old(self).chain@.len() == 0 && r.is_ok() ==> final(self).chain@.len() == 1,
            old(self).chain@.len() == 0 && r.is_ok() ==> final(self).chain@[0].header == *genesis,
            old(self).chain@.len() == 0 && r.is_ok() ==> final(self).chain@[0].height == 0,
    {
        self.chain.init(genesis)
    }

    /// The messages that go out when `msg` is sent to `peer`: the message,
    /// if the peer is connected.
    pub fn send(&self, peer: PeerId, msg: Message) -> (r: Vec<Outbound>)
        ensures
            sends_view(r@) == sent_to(self.peers@, peer, msg@),
    {
        let mut out: Vec<Outbound> = Vec::new();
        if self.peers.contains(peer) {
            out.push(Outbound { peer, message: msg });
        }
        assert(sends_view(out@) =~= sent_to(self.peers@, peer, msg@));
        out
    }

    /// The request for the headers that `peer` has beyond the tip.
    pub fn get_headers(&self, peer: PeerId) -> (r: Vec<Outbound>)
        requires
            self.wf(),
        ensures
            sends_view(r@) == headers_request(self.chain@, self.peers@, peer),
    {
        let locator = self.chain.header_locators();
        if locator.len() > 0 {
            let stop = locator[0];
            self.send(peer, Message::GetHeaders { locator, stop })
        } else {
            let out: Vec<Outbound> = Vec::new();
            assert(sends_view(out@) =~= Seq::empty());
            out
        }
    }

    /// The request to `peer` for the block at the front of the download
    /// queue, with its witness data. With an empty queue, or a peer that is
    /// not connected, nothing is asked.
    pub fn request_block(&self, peer: PeerId) -> (r: Vec<Outbound>)
        ensures
            sends_view(r@) == (if self.queue@.len() > 0 {
                sent_to(self.peers@, peer, block_request(self.queue@[0]))
            } else {
                Seq::empty()
            }),
    {
        match self.queue.front() {
            Some(ask) => {
                let mut inventory: Vec<Inventory> = Vec::new();
                inventory.push(Inventory { inv_type: InvType::WitnessBlock, hash: ask });
                assert(inventory@ =~= seq![(Inventory { inv_type: InvType::WitnessBlock, hash: ask })]);
                self.send(peer, Message::GetData(inventory))
            },
            None => {
                let none: Vec<Outbound> = Vec::new();
                assert(sends_view(none@) =~= Seq::empty());
                none
            },
        }
    }

    /// A peer has connected: the node asks it for headers.
    pub fn connected(&self, pid: PeerId) -> (r: Outcome)
        requires
            self.wf(),
        ensures
            r@ == (Reply {
                result: Ok(ProcessResult::Ack),
                sends: headers_request(self.chain@, self.peers@, pid),
                disconnected: Seq::empty(),
            }),
    {
        Outcome {
            result: Ok(ProcessResult::Ack),
            sends: self.get_headers(pid),
            disconnected: Vec::new(),
        }
    }

    /// A peer has disconnected: nothing is to be done.
    pub fn disconnected(&self, _pid: PeerId) -> (r: Outcome)
        ensures
            r@ == plain(Ok(ProcessResult::Ack)),
    {
        Outcome::only(Ok(ProcessResult::Ack))
    }

    /// A ping is answered with a pong that carries its nonce.
    pub fn ping(&self, nonce: u64, peer: PeerId) -> (r: Outcome)
        ensures
            r@ == (Reply {
                result: Ok(ProcessResult::Ack),
                sends: sent_to(self.peers@, peer, MessageView::Pong(nonce)),
                disconnected: Seq::empty(),
            }),
    {
        Outcome {
            result: Ok(ProcessResult::Ack),
            sends: self.send(peer, Message::Pong(nonce)),
            disconnected: Vec::new(),
        }
    }

    /// An announcement of blocks or transactions.
    pub fn inv(&self, v: &Vec<Inventory>, peer: PeerId) -> (r: Outcome)
        requires
            self.wf(),
        ensures
            r@ == inv_reply(self.chain@, self.peers@, v@, peer),
    {
        let mut ask_for_headers = false;
        let mut i: usize = 0;
        while i < v.len()
            invariant
                self.wf(),
                i <= v@.len(),
                all_blocks(v@.subrange(0, i as int)),
                ask_for_headers == any_unknown(self.chain@, v@.subrange(0, i as int)),
            decreases v@.len() - i,
        {
            let ghost head = v@.subrange(0, i as int);
            let ghost next = v@.subrange(0, i + 1);
            match v[i].inv_type {
                InvType::Block => {
                    let unknown = self.chain.get_header(&v[i].hash).is_none();
                    proof {
                        assert forall|j: int| 0 <= j < next.len() implies (#[trigger] next[j]).inv_type
                            == InvType::Block by {
                            if j < i {
                                assert(head[j] == next[j]);
                            }
                        }
                        if any_unknown(self.chain@, head) {
                            let k = choose|k: int|
                                0 <= k < head.len() && !known(self.chain@, (#[trigger] head[k]).hash@);
                            assert(next[k] == head[k]);
                        }
                        if unknown {
                            assert(!known(self.chain@, next[i as int].hash@));
                        }
                        if any_unknown(self.chain@, next) {
                            let k = choose|k: int|
                                0 <= k < next.len() && !known(self.chain@, (#[trigger] next[k]).hash@);
                            if k < i {
                                assert(head[k] == next[k]);
                            }
                        }
                    }
                    if unknown {
                        ask_for_headers = true;
                    }
                },
                _ => {
                    assert(v@[i as int].inv_type != InvType::Block);
                    return Outcome::only(Ok(ProcessResult::Ban(BAN_UNWANTED_INV)));
                },
            }
            i += 1;
        }
        assert(v@.subrange(0, i as int) =~= v@);
        if ask_for_headers {
            Outcome {
                result: Ok(ProcessResult::Ack),
                sends: self.get_headers(peer),
                disconnected: Vec::new(),
            }
        } else {
            Outcome::only(Ok(ProcessResult::Ignored))
        }
    }

    /// A message of headers: they are offered to the chain in order. If one
    /// is refused, the chain stays as it was; a header that does not meet
    /// its target is held against the peer. If the tip moved, the node asks
    /// the peer for more headers and reports the new height.
    pub fn headers(&mut self, headers: &Vec<Header>, peer: PeerId) -> (r: Outcome)
        requires
            old(self).wf(),
        ensures
            final(self).wf(),
            final(self).chain.network() == old(self).chain.network(),
            final(self).addresses == old(self).addresses,
            final(self).peers == old(self).peers,
            final(self).queue == old(self).queue,
            final(self).chain@ == chain_after_headers(old(self).chain.network(), old(self).chain@, headers@),
            old(self).chain@.len() > 0 && failure(
                old(self).chain.network(),
                old(self).chain@,
                headers@,
            ).is_none() ==> all_in_form(old(self).chain.network(), old(self).chain@, headers@),
            r@ == headers_reply(old(self).chain.network(), old(self).chain@, old(self).peers@, headers@, peer),
    {
        if headers.len() == 0 {
            return Outcome::only(Ok(ProcessResult::Ignored));
        }
        if self.chain.len() == 0 {
            return Outcome::only(Err(SpvError::NoTip));
        }
        let ghost s = self.chain@;
        let ghost net = self.chain.network();
        let ghost hs = headers@;
        let mut work = self.chain.snapshot();
        let mut moved = false;
        let mut disconnected: Vec<Header> = Vec::new();
        let mut i: usize = 0;
        proof {
            self.chain.lemma_wf();
            lemma_best(s);
        }
        while i < headers.len()
            invariant
                *self == *old(self),
                self.wf(),
                s == self.chain@,
                hs == headers@,
                hs.len() > 0,
                s.len() > 0,
                work.wf(),
                work.network() == net,
                net == self.chain.network(),
                i <= hs.len(),
                work@ == chain_after(net, s, hs.take(i as int)),
                failure(net, s, hs.take(i as int)).is_none(),
                disconnected@ == unwound(net, s, hs.take(i as int)),
                forall|j: int| 0 <= j < i ==> #[trigger] kept_in_form(net, s, hs, j),
                s.len() <= work@.len(),
                moved == (best(work@) != best(s)),
                moved ==> best(work@) >= s.len(),
                best(s) < s.len(),
            decreases hs.len() - i,
        {
            proof {
                lemma_offer_one(net, s, hs, i as int);
            }
            match offer(&mut work, &headers[i], &mut disconnected) {
                Ok(tip_moved) => {
                    if tip_moved {
                        moved = true;
                    }
                },
                Err(SpvError::BadProofOfWork) => {
                    proof {
                        lemma_failure_sticks(net, s, hs, i + 1);
                    }
                    return Outcome::only(Ok(ProcessResult::Ban(BAN_BAD_POW)));
                },
                Err(_) => {
                    proof {
                        lemma_failure_sticks(net, s, hs, i + 1);
                    }
                    return Outcome::only(Ok(ProcessResult::Ignored));
                },
            }
            i += 1;
        }
        assert(hs.take(i as int) =~= hs);
        self.chain = work;
        if moved {
            let height: u32 = match self.chain.tip() {
                Some(tip) => tip.height,
                None => 0,
            };
            Outcome { result: Ok(ProcessResult::Height(height)), sends: self.get_headers(peer), disconnected }
        } else {
            Outcome::only(Ok(ProcessResult::Ack))
        }
    }

    /// A block has arrived: if it is the one that the queue waits for, it
    /// leaves the queue. The node then asks the peer for more headers.
    pub fn block(&mut self, block: &Header, peer: PeerId) -> (r: Outcome)
        requires
            old(self).wf(),
        ensures
            final(self).wf(),
            final(self).chain == old(self).chain,
            final(self).addresses == old(self).addresses,
            final(self).peers == old(self).peers,
            final(self).queue@ == queue_after(old(self).queue@, *block),
            r@ == (Reply {
                result: Ok(ProcessResult::Ack),
                sends: headers_request(old(self).chain@, old(self).peers@, peer),
                disconnected: Seq::empty(),
            }),
    {
        let hash = block.hash();
        proof {
            if self.queue@.len() > 0 {
                let front = self.queue@[0];
                assert(front.bytes@ == hash.bytes@ ==> front.bytes == hash.bytes);
            }
        }
        self.queue.pop_if(&hash);
        Outcome {
            result: Ok(ProcessResult::Ack),
            sends: self.get_headers(peer),
            disconnected: Vec::new(),
        }
    }

    /// Addresses of peers, told at the time `now`: those that are wanted are
    /// stored, each with the time at which it was seen and a ban score of
    /// zero.
    pub fn addr_at(&mut self, v: &Vec<(u32, NetAddress)>, now: u64) -> (r: Outcome)
        requires
            old(self).wf(),
        ensures
            final(self).wf(),
            final(self).chain == old(self).chain,
            final(self).peers == old(self).peers,
            final(self).queue == old(self).queue,
            final(self).addresses@ == book_after(old(self).addresses@, v@, now),
            r@ == plain(
                Ok(
                    if any_wanted(v@, now) {
                        ProcessResult::Ack
                    } else {
                        ProcessResult::Ignored
                    },
                ),
            ),
    {
        let mut stored = false;
        let mut i: usize = 0;
        while i < v.len()
            invariant
                self.wf(),
                self.chain == old(self).chain,
                self.peers == old(self).peers,
                self.queue == old(self).queue,
                i <= v@.len(),
                self.addresses@ == book_after(old(self).addresses@, v@.subrange(0, i as int), now),
                stored == any_wanted(v@.subrange(0, i as int), now),
            decreases v@.len() - i,
        {
            let ghost head = v@.subrange(0, i as int);
            let ghost next = v@.subrange(0, i + 1);
            proof {
                assert(next.drop_last() =~= head);
                assert(next.last() == v@[i as int]);
                if any_wanted(head, now) {
                    let k = choose|k: int| 0 <= k < head.len() && wanted(#[trigger] head[k], now);
                    assert(next[k] == head[k]);
                }
                if any_wanted(next, now) && !wanted(v@[i as int], now) {
                    let k = choose|k: int| 0 <= k < next.len() && wanted(#[trigger] next[k], now);
                    assert(head[k] == next[k]);
                }
                if wanted(v@[i as int], now) {
                    assert(wanted(next[i as int], now));
                }
            }
            let seen: u32 = v[i].0;
            let a: NetAddress = v[i].1;
            if is_fresh(seen, now) {
                if self.addresses.store_peer(&a, seen, 0) {
                    stored = true;
                }
            }
            i += 1;
        }
        assert(v@.subrange(0, i as int) =~= v@);
        Outcome::only(
            Ok(
                if stored {
                    ProcessResult::Ack
                } else {
                    ProcessResult::Ignored
                },
            ),
        )
    }

    /// Whether `post` and `r` are what becomes of `pre` when it handles the
    /// message `msg` of `peer` at the time `now`.
    pub open spec fn handled(
        pre: Dispatcher,
        msg: MessageView,
        peer: PeerId,
        now: u64,
        post: Dispatcher,
        r: Reply,
    ) -> bool {
        &&& post.wf()
        &&& post.peers == pre.peers
        &&& post.chain.network() == pre.chain.network()
        &&& post.chain@ == chain_next(pre.chain.network(), pre.chain@, msg)
        &&& post.addresses@ == book_next(pre.addresses@, msg, now)
        &&& post.queue@ == queue_next(pre.queue@, msg)
        &&& r == reply_to(pre.chain.network(), pre.chain@, pre.peers@, msg, peer, now)
    }

    /// Handles a message of `peer` that arrives at the time `now`, in
    /// seconds since 1970.
    pub fn process_at(&mut self, msg: &Message, peer: PeerId, now: u64) -> (r: Outcome)
        requires
            old(self).wf(),
        ensures
            Self::handled(*old(self), msg@, peer, now, *final(self), r@),
    {
        match msg {
            Message::Ping(nonce) => self.ping(*nonce, peer),
            Message::Headers(v) => self.headers(v, peer),
            Message::Block(b) => self.block(b, peer),
            Message::Inv(v) => self.inv(v, peer),
            Message::Addr(v) => self.addr_at(v, now),
            _ => Outcome::only(Ok(ProcessResult::Ban(BAN_UNHANDLED))),
        }
    }

    /// Addresses of peers, told now by the machine's clock. Where the clock
    /// cannot be read nothing is stored.
    pub fn addr(&mut self, v: &Vec<(u32, NetAddress)>) -> (r: Outcome)
        requires
            old(self).wf(),
        ensures
            final(self).wf(),
            final(self).chain == old(self).chain,
            final(self).peers == old(self).peers,
            final(self).queue == old(self).queue,
            (r@ == plain(Err(SpvError::ClockError)) && final(self).addresses == old(self).addresses)
                || (exists|now: u64|
                final(self).addresses@ == book_after(old(self).addresses@, v@, now) && r@ == plain(
                    Ok(
                        if #[trigger] any_wanted(v@, now) {
                            ProcessResult::Ack
                        } else {
                            ProcessResult::Ignored
                        },
                    ),
                )),
    {
        match unix_seconds() {
            Some(now) => self.addr_at(v, now),
            None => Outcome::only(Err(SpvError::ClockError)),
        }
    }

    /// Handles a message of `peer`. Only a message of addresses depends on
    /// the time, which is then read from the machine's clock.
    pub fn process(&mut self, msg: &Message, peer: PeerId) -> (r: Outcome)
        requires
            old(self).wf(),
        ensures
            !(msg@ is Addr) ==> Self::handled(*old(self), msg@, peer, 0, *final(self), r@),
            msg@ is Addr ==> (r@ == plain(Err(SpvError::ClockError)) && *final(self) == *old(self))
                || (exists|now: u64| #[trigger]
                Self::handled(*old(self), msg@, peer, now, *final(self), r@)),
    {
        match msg {
            Message::Addr(_) => match unix_seconds() {
                Some(now) => self.process_at(msg, peer, now),
                None => Outcome::only(Err(SpvError::ClockError)),
            },
            _ => self.process_at(msg, peer, 0),
        }
    }

    /// The messages that carry the transaction to every connected peer,
    /// one each, in the order in which the table is walked. Without peers
    /// there is nothing to send.
    pub fn broadcast_transaction(&self, tx: &Vec<u8>) -> (r: Outcome)
        ensures
            r@.result == Ok::<ProcessResult, SpvError>(ProcessResult::Ack),
            r@.disconnected == Seq::<Header>::empty(),
            r@.sends.len() == self.peers@.len(),
            exists|order: Seq<PeerId>| #[trigger]
                walks(order, self.peers@) && r@.sends == tx_to_all(order, tx@),
    {
        let ids = self.peers.ids();
        let r = Outcome {
            result: Ok(ProcessResult::Ack),
            sends: fan_out(&ids, tx),
            disconnected: Vec::new(),
        };
        assert(walks(ids@, self.peers@) && r@.sends == tx_to_all(ids@, tx@));
        r
    }

    /// A broadcaster for the peers that are connected now.
    pub fn get_broadcaster(&self) -> (r: Broadcaster)
        ensures
            walks(r.peers@, self.peers@),
    {
        Broadcaster { peers: self.peers.ids() }
    }
}

} // verus!
