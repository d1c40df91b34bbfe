//! The table of connected peers.

use std::collections::HashSet;
use vstd::prelude::*;
use vstd::std_specs::iter::IteratorSpec;

verus! {

/// The number that the transport gives a peer when it connects.
pub type PeerId = u64;

/// Whether `order` names each peer of `peers` once and no other peer: an
/// order in which the table can be walked.
pub open spec fn walks(order: Seq<PeerId>, peers: Set<PeerId>) -> bool {
    order.no_duplicates() && order.to_set() == peers && order.len() == peers.len()
}

/// The peers that are connected.
pub struct PeerTable {
    ids: HashSet<PeerId>,
}

impl View for PeerTable {
    type V = Set<PeerId>;

    closed spec fn view(&self) -> Set<PeerId> {
        self.ids@
    }
}

impl PeerTable {
    /// A table without peers.
    pub fn new() -> (r: PeerTable)
        ensures
            r@ == Set::<PeerId>::empty(),
    {
        PeerTable { ids: HashSet::new() }
    }

    /// The number of peers.
    pub fn len(&self) -> (r: usize)
        ensures
            r == self@.len(),
    {
        self.ids.len()
    }

    /// Whether the peer is connected.
    pub fn contains(&self, pid: PeerId) -> (r: bool)
        ensures
            r == self@.contains(pid),
    {
        broadcast use vstd::std_specs::hash::group_hash_axioms;

        self.ids.contains(&pid)
    }

    /// Puts a peer that connected into the table; the result says whether
    /// it was not there before.
    pub fn insert(&mut self, pid: PeerId) -> (r: bool)
        ensures
            r == !old(self)@.contains(pid),
            final(self)@ == old(self)@.insert(pid),
    {
        broadcast use vstd::std_specs::hash::group_hash_axioms;

        self.ids.insert(pid)
    }

    /// Takes a peer that disconnected out of the table; the result says
    /// whether it was there.
    pub fn remove(&mut self, pid: PeerId) -> (r: bool)
        ensures
            r == old(self)@.contains(pid),
            final(self)@ == old(self)@.remove(pid),
    {
        broadcast use vstd::std_specs::hash::group_hash_axioms;

        self.ids.remove(&pid)
    }

    /// The connected peers, each once, in the order in which the table is
    /// walked; that order is not laid down.
    pub fn ids(&self) -> (r: Vec<PeerId>)
        ensures
            walks(r@, self@),
    {
        broadcast use vstd::std_specs::hash::group_hash_axioms;

        let mut out: Vec<PeerId> = Vec::new();
        let ghost keys = vstd::std_specs::hash::spec_hash_keys_iter(&self.ids).remaining();
        for x in iter: self.ids.iter()
            invariant
                iter.seq() == keys,
                out@.len() == iter.index(),
                forall|i: int| 0 <= i < out@.len() ==> out@[i] == *iter.seq()[i],
        {
            out.push(*x);
        }
        assert(out@ =~= keys.unref());
        out
    }
}

} // verus!
