//! The core of a Bitcoin SPV node: the header chain with its proof-of-work
//! and best-chain rules, the address book, the peer table, the block
//! download queue, the message dispatcher and the peer keeper.
//!
//! Everything here works on plain values. Sockets, the transport, disk and
//! DNS belong to the program around this library, which performs the sends
//! and dials that the functions here hand back.
//!
//! - `num`: unsigned 256-bit numbers
//! - `pow`: headers, hashes, targets, work and the rules of the networks
//! - `chain`: the header store, its tip, reorganisations and locators
//! - `batches`: what whole messages of headers do to a chain
//! - `retarget`: that stored headers keep to the targets of their network
//! - `address`: peer addresses and the address book
//! - `peers`: the table of connected peers
//! - `queue`: the block download queue, which holds no hash twice
//! - `message`: messages, answers and what is to be sent
//! - `dispatcher`: what the node does about each message
//! - `node`: the older form of the dispatcher
//! - `keeper`: whom to dial to stay connected
//! - `error`: the ways to fail

pub mod address;
pub mod batches;
pub mod chain;
pub mod dispatcher;
pub mod error;
pub mod keeper;
pub mod message;
pub mod node;
pub mod num;
pub mod peers;
pub mod pow;
pub mod queue;
pub mod retarget;
