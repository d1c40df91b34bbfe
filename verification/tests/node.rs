use spv_node::address::{AddressStore, NetAddress};
use spv_node::chain::HeaderStore;
use spv_node::error::SpvError;
use spv_node::message::{InvType, Inventory, Message, Outbound, Outcome, ProcessResult};
use spv_node::node::Node;
use spv_node::peers::PeerTable;
use spv_node::pow::{Hash32, Header, Network};

fn null_hash() -> Hash32 {
    Hash32 { bytes: [0u8; 32] }
}

fn forge(prev: Hash32, salt: u8) -> Header {
    let mut h = Header {
        version: 1,
        prev_hash: prev,
        merkle_root: Hash32 { bytes: [salt; 32] },
        time: 1_600_000_000,
        bits: 0x207fffff,
        nonce: 0,
    };
    while !h.check_pow() {
        h.nonce += 1;
    }
    h
}

fn grow(from: &Header, n: usize, salt: u8) -> Vec<Header> {
    let mut out: Vec<Header> = Vec::new();
    let mut prev = from.hash();
    for _ in 0..n {
        let h = forge(prev, salt);
        prev = h.hash();
        out.push(h);
    }
    out
}

fn old_node(n: usize, peers: &[u64]) -> (Node, Vec<Header>) {
    let mut node = Node::new(HeaderStore::new(Network::Regtest), AddressStore::new(), PeerTable::new());
    let g = forge(null_hash(), 0);
    node.load_headers(&g).unwrap();
    let mut all = vec![g];
    for h in grow(&g, n, 0) {
        node.inner.chain.add_header(&h).unwrap();
        all.push(h);
    }
    for p in peers {
        node.inner.peers.insert(*p);
    }
    (node, all)
}

fn ask_block(peer: u64, hash: Hash32) -> Outbound {
    let inv = vec![Inventory { inv_type: InvType::WitnessBlock, hash }];
    Outbound { peer, message: Message::GetData(inv) }
}

fn ask_headers(node: &Node, peer: u64) -> Outbound {
    let locator = node.inner.chain.header_locators();
    let stop = locator[0];
    Outbound { peer, message: Message::GetHeaders { locator, stop } }
}

fn just(result: ProcessResult) -> Outcome {
    Outcome { result: Ok(result), sends: vec![], disconnected: vec![] }
}

#[test]
fn load_headers_puts_the_genesis_in() {
    let mut node = Node::new(HeaderStore::new(Network::Regtest), AddressStore::new(), PeerTable::new());
    let g = forge(null_hash(), 0);
    assert_eq!(node.load_headers(&g), Ok(()));
    assert_eq!(node.inner.chain.tip().unwrap().header, g);
    assert_eq!(node.next_block(), None);
}

#[test]
fn old_node_asks_for_headers_with_an_empty_queue() {
    let (mut node, _) = old_node(2, &[1]);
    let out = node.connected(1);
    assert_eq!(out.result, Ok(ProcessResult::Ack));
    assert_eq!(out.sends, vec![ask_headers(&node, 1)]);
    assert_eq!(node.get_headers(1), vec![ask_headers(&node, 1)]);
    assert!(node.get_headers(2).is_empty());
}

#[test]
fn old_node_asks_for_the_next_block_first() {
    let (mut node, all) = old_node(2, &[1]);
    let (some, sends) = node.download_blocks(1, &vec![all[1].hash(), all[2].hash()]);
    assert!(some);
    assert_eq!(sends, vec![ask_block(1, all[1].hash())]);
    assert_eq!(node.next_block(), Some(all[1].hash()));
    assert_eq!(node.connected(1).sends, vec![ask_block(1, all[1].hash())]);
    // a peer that is not connected is asked nothing
    let (some, sends) = node.download_blocks(9, &vec![]);
    assert!(some);
    assert!(sends.is_empty());
}

#[test]
fn download_blocks_with_nothing_to_fetch() {
    let (mut node, _) = old_node(0, &[1]);
    let (some, sends) = node.download_blocks(1, &vec![]);
    assert!(!some);
    assert!(sends.is_empty());
}

#[test]
fn old_node_queues_the_new_tips() {
    let (mut node, all) = old_node(1, &[1]);
    let more = grow(&all[1], 3, 0);
    let out = node.process(&Message::Headers(more.clone()), 1);
    assert_eq!(out.result, Ok(ProcessResult::Height(4)));
    let ask = ask_block(1, more[0].hash());
    assert_eq!(out.sends, vec![ask.clone(), ask]);
    assert!(out.disconnected.is_empty());
    assert_eq!(node.inner.queue.len(), 3);
    assert_eq!(node.next_block(), Some(more[0].hash()));
    assert_eq!(node.inner.chain.tip().unwrap().hash, more[2].hash());
}

#[test]
fn old_node_acknowledges_known_headers() {
    let (mut node, all) = old_node(2, &[1]);
    let tip = node.inner.chain.tip().unwrap();
    let out = node.process(&Message::Headers(vec![all[1], all[2]]), 1);
    assert_eq!(out, just(ProcessResult::Ack));
    assert_eq!(node.inner.queue.len(), 0);
    assert_eq!(node.inner.chain.tip().unwrap(), tip);
}

#[test]
fn old_node_keeps_side_branch_headers() {
    let (mut node, all) = old_node(2, &[1]);
    let side = forge(all[0].hash(), 3);
    let out = node.process(&Message::Headers(vec![side]), 1);
    assert_eq!(out, just(ProcessResult::Ack));
    assert!(node.inner.chain.get_header(&side.hash()).is_some());
    assert_eq!(node.inner.chain.tip().unwrap().hash, all[2].hash());
}

#[test]
fn old_node_reorg() {
    let (mut node, x) = old_node(3, &[1]);
    let y = grow(&x[1], 3, 1);
    let out = node.process(&Message::Headers(y.clone()), 1);
    assert_eq!(out.result, Ok(ProcessResult::Height(4)));
    assert_eq!(out.disconnected, vec![x[3], x[2]]);
    // the tip after each header: twice the old tip, then the new one;
    // the queue takes each once
    assert_eq!(node.next_block(), Some(x[3].hash()));
    assert_eq!(node.inner.queue.len(), 2);
    assert!(node.inner.queue.contains(&y[2].hash()));
    let ask = ask_block(1, x[3].hash());
    assert_eq!(out.sends, vec![ask.clone(), ask]);
}

#[test]
fn old_node_bad_pow_and_orphans() {
    let (mut node, all) = old_node(1, &[1]);
    let mut bad = forge(all[1].hash(), 0);
    while bad.check_pow() {
        bad.nonce += 1;
    }
    assert_eq!(node.process(&Message::Headers(vec![bad]), 1), just(ProcessResult::Ban(100)));
    let orphan = forge(Hash32 { bytes: [3u8; 32] }, 0);
    assert_eq!(node.process(&Message::Headers(vec![orphan]), 1), just(ProcessResult::Ignored));
    assert_eq!(node.process(&Message::Headers(vec![]), 1), just(ProcessResult::Ignored));
    assert_eq!(node.inner.chain.len(), 2);
}

#[test]
fn old_node_without_a_tip() {
    let mut node = Node::new(HeaderStore::new(Network::Regtest), AddressStore::new(), PeerTable::new());
    let h = forge(null_hash(), 0);
    let out = node.process(&Message::Headers(vec![h]), 1);
    assert_eq!(out.result, Err(SpvError::NoTip));
}

#[test]
fn old_node_block_then_next_request() {
    let (mut node, all) = old_node(2, &[1]);
    node.download_blocks(1, &vec![all[1].hash(), all[2].hash()]);
    let out = node.process(&Message::Block(all[1]), 1);
    assert_eq!(out.result, Ok(ProcessResult::Ack));
    assert_eq!(out.sends, vec![ask_block(1, all[2].hash())]);
    let out = node.process(&Message::Block(all[2]), 1);
    assert_eq!(out.sends, vec![ask_headers(&node, 1)]);
    assert_eq!(node.next_block(), None);
}

#[test]
fn old_node_inv() {
    let (mut node, all) = old_node(1, &[1]);
    let unknown = vec![Inventory { inv_type: InvType::Block, hash: Hash32 { bytes: [1u8; 32] } }];
    let out = node.process(&Message::Inv(unknown.clone()), 1);
    assert_eq!(out.result, Ok(ProcessResult::Ack));
    assert_eq!(out.sends, vec![ask_headers(&node, 1)]);
    node.download_blocks(1, &vec![all[1].hash()]);
    let out = node.process(&Message::Inv(unknown), 1);
    assert_eq!(out.sends, vec![ask_block(1, all[1].hash())]);
    let known = vec![Inventory { inv_type: InvType::Block, hash: all[1].hash() }];
    assert_eq!(node.process(&Message::Inv(known), 1), just(ProcessResult::Ignored));
    let tx = vec![Inventory { inv_type: InvType::Transaction, hash: all[1].hash() }];
    assert_eq!(node.process(&Message::Inv(tx), 1), just(ProcessResult::Ban(10)));
}

#[test]
fn old_node_ping_addr_and_the_rest() {
    let (mut node, _) = old_node(0, &[1]);
    let out = node.process(&Message::Ping(5), 1);
    assert_eq!(out.sends, vec![Outbound { peer: 1, message: Message::Pong(5) }]);
    assert_eq!(node.process(&Message::Other, 1), just(ProcessResult::Ban(1)));
    assert_eq!(node.disconnected(1), just(ProcessResult::Ack));
    let a = NetAddress { services: 9, address: [0, 0, 0, 0, 0, 0xffff, 0x0102, 0x0304], port: 8333 };
    assert_eq!(node.process_at(&Message::Addr(vec![(1000, a)]), 1, 2000), just(ProcessResult::Ack));
    assert_eq!(node.addr_at(&vec![(1000, a)], 999_999), just(ProcessResult::Ignored));
    assert_eq!(node.inner.addresses.len(), 1);
    assert_eq!(node.send(1, Message::Pong(1)).len(), 1);
    assert_eq!(node.ping(2, 7), just(ProcessResult::Ack));
}

#[test]
fn old_node_broadcast() {
    let (node, _) = old_node(0, &[4, 5]);
    let out = node.broadcast_transaction(&vec![9]);
    let mut sends = out.sends;
    sends.sort_by_key(|o| o.peer);
    assert_eq!(sends.len(), 2);
    assert_eq!(sends[0], Outbound { peer: 4, message: Message::Tx(vec![9]) });
    assert_eq!(sends[1], Outbound { peer: 5, message: Message::Tx(vec![9]) });
    let mut peers = node.get_broadcaster().peers;
    peers.sort();
    assert_eq!(peers, vec![4, 5]);
}

#[test]
fn download_blocks_never_queues_a_hash_twice() {
    let (mut node, all) = old_node(2, &[1]);
    node.download_blocks(1, &vec![all[1].hash()]);
    let (some, sends) = node.download_blocks(1, &vec![all[2].hash(), all[1].hash(), all[2].hash()]);
    assert!(some);
    assert_eq!(sends, vec![ask_block(1, all[1].hash())]);
    assert_eq!(node.inner.queue.len(), 2);
    assert!(node.inner.queue.pop_if(&all[1].hash()));
    assert_eq!(node.next_block(), Some(all[2].hash()));
    assert!(node.inner.queue.pop_if(&all[2].hash()));
    assert_eq!(node.next_block(), None);
}
