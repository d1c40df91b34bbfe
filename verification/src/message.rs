//! The messages that the node takes from its peers and sends to them, as far
//! as the node reads or writes them.

use crate::address::NetAddress;
use crate::error::SpvError;
use crate::peers::PeerId;
use crate::pow::{Hash32, Header};
use vstd::prelude::*;

verus! {

/// The answer of the node to a message or an event.
#[derive(Clone, Copy, Debug, PartialEq, Eq, Structural)]
pub enum ProcessResult {
    /// The message was taken.
    Ack,
    /// The message was taken, and the tip is now at this height.
    Height(u32),
    /// The message held nothing of interest.
    Ignored,
    /// The peer's ban score is to rise by this much.
    Ban(u32),
}

/// The kinds of things that an inventory entry can announce.
#[derive(Clone, Copy, Debug, PartialEq, Eq, Structural)]
pub enum InvType {
    /// An error.
    Error,
    /// A transaction.
    Transaction,
    /// A block.
    Block,
    /// A block with its witness data.
    WitnessBlock,
    /// A transaction with its witness data.
    WitnessTransaction,
    /// Anything else.
    Other,
}

/// An inventory entry: a kind and a hash.
#[derive(Clone, Copy, Debug, PartialEq, Eq)]
pub struct Inventory {
    /// What the entry announces or asks for.
    pub inv_type: InvType,
    /// The hash of the thing.
    pub hash: Hash32,
}

/// A message.
#[derive(Clone, Debug, PartialEq, Eq)]
pub enum Message {
    /// A ping with its nonce.
    Ping(u64),
    /// The answer to a ping, with the ping's nonce.
    Pong(u64),
    /// Block headers.
    Headers(Vec<Header>),
    /// A request for the headers that follow the first known hash of the
    /// locator, up to `stop`.
    GetHeaders { locator: Vec<Hash32>, stop: Hash32 },
    /// An announcement of blocks or transactions.
    Inv(Vec<Inventory>),
    /// A request for blocks or transactions.
    GetData(Vec<Inventory>),
    /// A block, of which the node reads the header.
    Block(Header),
    /// Addresses of peers, each with the time at which it was last seen.
    Addr(Vec<(u32, NetAddress)>),
    /// A transaction in its wire form.
    Tx(Vec<u8>),
    /// Any other message.
    Other,
}

/// What a message holds.
pub enum MessageView {
    Ping(u64),
    Pong(u64),
    Headers(Seq<Header>),
    GetHeaders { locator: Seq<Hash32>, stop: Hash32 },
    Inv(Seq<Inventory>),
    GetData(Seq<Inventory>),
    Block(Header),
    Addr(Seq<(u32, NetAddress)>),
    Tx(Seq<u8>),
    Other,
}

impl View for Message {
    type V = MessageView;

    open spec fn view(&self) -> MessageView {
        match *self {
            Message::Ping(n) => MessageView::Ping(n),
            Message::Pong(n) => MessageView::Pong(n),
            Message::Headers(v) => MessageView::Headers(v@),
            Message::GetHeaders { locator, stop } => MessageView::GetHeaders { locator: locator@, stop },
            Message::Inv(v) => MessageView::Inv(v@),
            Message::GetData(v) => MessageView::GetData(v@),
            Message::Block(h) => MessageView::Block(h),
            Message::Addr(v) => MessageView::Addr(v@),
            Message::Tx(v) => MessageView::Tx(v@),
            Message::Other => MessageView::Other,
        }
    }
}

/// A message that is to be sent to a peer.
#[derive(Clone, Debug, PartialEq, Eq)]
pub struct Outbound {
    /// The peer to send to.
    pub peer: PeerId,
    /// What to send.
    pub message: Message,
}

impl View for Outbound {
    type V = (PeerId, MessageView);

    open spec fn view(&self) -> (PeerId, MessageView) {
        (self.peer, self.message@)
    }
}

/// What a list of messages to send holds.
pub open spec fn sends_view(v: Seq<Outbound>) -> Seq<(PeerId, MessageView)> {
    Seq::new(v.len(), |i: int| v[i]@)
}

/// What the node does about a message or an event: its answer to the
/// transport, the messages to send, and the headers that left the trunk.
#[derive(Debug, PartialEq, Eq)]
pub struct Outcome {
    /// The answer to the transport.
    pub result: Result<ProcessResult, SpvError>,
    /// The messages to send, in order.
    pub sends: Vec<Outbound>,
    /// The headers that left the trunk, in the order in which the layer
    /// above is to hear of them.
    pub disconnected: Vec<Header>,
}

/// What an outcome holds.
pub struct Reply {
    pub result: Result<ProcessResult, SpvError>,
    pub sends: Seq<(PeerId, MessageView)>,
    pub disconnected: Seq<Header>,
}

impl View for Outcome {
    type V = Reply;

    open spec fn view(&self) -> Reply {
        Reply { result: self.result, sends: sends_view(self.sends@), disconnected: self.disconnected@ }
    }
}

/// An answer without messages to send and without headers that left the
/// trunk.
pub open spec fn plain(result: Result<ProcessResult, SpvError>) -> Reply {
    Reply { result, sends: Seq::empty(), disconnected: Seq::empty() }
}

impl Outcome {
    /// An outcome that is only an answer.
    pub fn only(result: Result<ProcessResult, SpvError>) -> (r: Outcome)
        ensures
            r@ == plain(result),
    {
        let r = Outcome { result, sends: Vec::new(), disconnected: Vec::new() };
        assert(r@.sends =~= Seq::empty());
        r
    }
}

} // verus!
