//! The ways in which an operation of the node can fail.

use vstd::prelude::*;

verus! {

/// What went wrong.
#[derive(Clone, Copy, Debug, PartialEq, Eq, Structural)]
pub enum SpvError {
    /// A header's hash is above the target that the header names.
    BadProofOfWork,
    /// A header builds on a header that the store does not hold.
    OrphanHeader,
    /// The header store holds no header at all.
    NoTip,
    /// The store cannot hold the value: a height, a sum of work or a length
    /// would pass what the store can represent.
    StoreError,
    /// The clock could not be read.
    ClockError,
    /// The peer keeper has no connection left and no address to dial.
    PeerExhausted,
}

impl SpvError {
    /// A short description of the error.
    pub fn message(&self) -> (r: &'static str)
        ensures
            r@ == (match *self {
                SpvError::BadProofOfWork => "bad proof of work"@,
                SpvError::OrphanHeader => "unconnected header"@,
                SpvError::NoTip => "no chain tip found"@,
                SpvError::StoreError => "store limit reached"@,
                SpvError::ClockError => "clock before 1970"@,
                SpvError::PeerExhausted => "no more peers to connect"@,
            }),
    {
        match self {
            SpvError::BadProofOfWork => "bad proof of work",
            SpvError::OrphanHeader => "unconnected header",
            SpvError::NoTip => "no chain tip found",
            SpvError::StoreError => "store limit reached",
            SpvError::ClockError => "clock before 1970",
            SpvError::PeerExhausted => "no more peers to connect",
        }
    }
}

} // verus!
