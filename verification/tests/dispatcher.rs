use spv_node::address::{AddressStore, NetAddress, SocketAddress};
use spv_node::chain::HeaderStore;
use spv_node::dispatcher::{Dispatcher, BAN_BAD_POW, BAN_UNHANDLED, BAN_UNWANTED_INV, MAX_PROTOCOL_VERSION};
use spv_node::error::SpvError;
use spv_node::message::{InvType, Inventory, Message, Outbound, Outcome, ProcessResult};
use spv_node::peers::PeerTable;
use spv_node::pow::{Hash32, Header, Network};

const EASY: u32 = 0x207fffff;

fn zero_hash() -> Hash32 {
    Hash32 { bytes: [0u8; 32] }
}

fn dig(prev: Hash32, salt: u8) -> Header {
    let mut h = Header {
        version: 1,
        prev_hash: prev,
        merkle_root: Hash32 { bytes: [salt; 32] },
        time: 1_600_000_000,
        bits: EASY,
        nonce: 0,
    };
    while !h.check_pow() {
        h.nonce += 1;
    }
    h
}

fn extend(from: &Header, n: usize, salt: u8) -> Vec<Header> {
    let mut out: Vec<Header> = Vec::new();
    let mut prev = from.hash();
    for _ in 0..n {
        let h = dig(prev, salt);
        prev = h.hash();
        out.push(h);
    }
    out
}

// A dispatcher whose chain has `n` headers on the genesis header, with the
// given peers connected; and the headers of the chain.
fn node(n: usize, peers: &[u64]) -> (Dispatcher, Vec<Header>) {
    let mut chain = HeaderStore::new(Network::Regtest);
    let g = dig(zero_hash(), 0);
    chain.init(&g).unwrap();
    let mut all = vec![g];
    for h in extend(&g, n, 0) {
        chain.add_header(&h).unwrap();
        all.push(h);
    }
    let mut table = PeerTable::new();
    for p in peers {
        table.insert(*p);
    }
    (Dispatcher::new(chain, AddressStore::new(), table), all)
}

fn get_headers_for(d: &Dispatcher, peer: u64) -> Vec<Outbound> {
    let locator = d.chain.header_locators();
    let stop = locator[0];
    vec![Outbound { peer, message: Message::GetHeaders { locator, stop } }]
}

fn only(result: ProcessResult) -> Outcome {
    Outcome { result: Ok(result), sends: vec![], disconnected: vec![] }
}

fn ip4(a: u8, b: u8, c: u8, d: u8) -> [u16; 8] {
    [0, 0, 0, 0, 0, 0xffff, (a as u16) << 8 | b as u16, (c as u16) << 8 | d as u16]
}

#[test]
fn constants_of_the_protocol() {
    assert_eq!(MAX_PROTOCOL_VERSION, 70001);
    assert_eq!(BAN_BAD_POW, 100);
    assert_eq!(BAN_UNWANTED_INV, 10);
    assert_eq!(BAN_UNHANDLED, 1);
}

#[test]
fn ping_is_answered_with_pong() {
    let (mut d, _) = node(0, &[7]);
    let out = d.process(&Message::Ping(99), 7);
    assert_eq!(out.result, Ok(ProcessResult::Ack));
    assert_eq!(out.sends, vec![Outbound { peer: 7, message: Message::Pong(99) }]);
    assert!(out.disconnected.is_empty());
}

#[test]
fn ping_of_an_unknown_peer_sends_nothing() {
    let (mut d, _) = node(0, &[7]);
    assert_eq!(d.process(&Message::Ping(1), 8), only(ProcessResult::Ack));
}

#[test]
fn unhandled_messages_cost_one() {
    let (mut d, _) = node(0, &[1]);
    assert_eq!(d.process(&Message::Other, 1), only(ProcessResult::Ban(1)));
    assert_eq!(d.process(&Message::Pong(3), 1), only(ProcessResult::Ban(1)));
    assert_eq!(d.process(&Message::Tx(vec![1, 2, 3]), 1), only(ProcessResult::Ban(1)));
    assert_eq!(d.process(&Message::GetData(vec![]), 1), only(ProcessResult::Ban(1)));
    let ask = Message::GetHeaders { locator: vec![], stop: zero_hash() };
    assert_eq!(d.process(&ask, 1), only(ProcessResult::Ban(1)));
}

#[test]
fn connected_asks_for_headers() {
    let (d, all) = node(3, &[5]);
    let out = d.connected(5);
    assert_eq!(out.result, Ok(ProcessResult::Ack));
    assert_eq!(out.sends, get_headers_for(&d, 5));
    match &out.sends[0].message {
        Message::GetHeaders { locator, stop } => {
            assert_eq!(*stop, all[3].hash());
            assert_eq!(locator[0], all[3].hash());
            assert_eq!(*locator.last().unwrap(), all[0].hash());
        }
        _ => panic!("not a request for headers"),
    }
}

#[test]
fn connected_with_an_empty_chain_asks_nothing() {
    let d = Dispatcher::new(HeaderStore::new(Network::Regtest), AddressStore::new(), PeerTable::new());
    assert_eq!(d.connected(1), only(ProcessResult::Ack));
}

#[test]
fn disconnected_is_acknowledged() {
    let (d, _) = node(0, &[5]);
    assert_eq!(d.disconnected(5), only(ProcessResult::Ack));
}

#[test]
fn empty_headers_are_ignored() {
    let (mut d, _) = node(2, &[1]);
    assert_eq!(d.process(&Message::Headers(vec![]), 1), only(ProcessResult::Ignored));
    assert_eq!(d.chain.len(), 3);
}

#[test]
fn headers_without_a_tip_fail() {
    let mut d = Dispatcher::new(HeaderStore::new(Network::Regtest), AddressStore::new(), PeerTable::new());
    let h = dig(zero_hash(), 0);
    let out = d.process(&Message::Headers(vec![h]), 1);
    assert_eq!(out.result, Err(SpvError::NoTip));
    assert!(out.sends.is_empty());
}

#[test]
fn headers_paging() {
    let (mut d, all) = node(100, &[1]);
    assert_eq!(d.chain.tip().unwrap().height, 100);
    let batch = extend(&all[100], 2000, 0);
    let out = d.process(&Message::Headers(batch.clone()), 1);
    assert_eq!(out.result, Ok(ProcessResult::Height(2100)));
    assert!(out.disconnected.is_empty());
    let tip = d.chain.tip().unwrap();
    assert_eq!(tip.height, 2100);
    assert_eq!(tip.hash, batch[1999].hash());
    assert_eq!(out.sends, get_headers_for(&d, 1));
    // the same batch again: all known, nothing more to ask
    let again = d.process(&Message::Headers(batch), 1);
    assert_eq!(again, only(ProcessResult::Ack));
    assert_eq!(d.chain.tip().unwrap(), tip);
}

#[test]
fn reorg_depth_two() {
    let (mut d, x) = node(102, &[2]);
    let y = extend(&x[100], 3, 1);
    let out = d.process(&Message::Headers(y.clone()), 2);
    assert_eq!(out.result, Ok(ProcessResult::Height(103)));
    assert_eq!(out.disconnected, vec![x[102], x[101]]);
    let tip = d.chain.tip().unwrap();
    assert_eq!(tip.hash, y[2].hash());
    assert_eq!(tip.height, 103);
    assert_eq!(out.sends, get_headers_for(&d, 2));
}

#[test]
fn bad_pow_bans_and_rolls_back() {
    let (mut d, all) = node(3, &[3]);
    let good = extend(&all[3], 2, 0);
    let mut bad = dig(good[1].hash(), 0);
    while bad.check_pow() {
        bad.nonce += 1;
    }
    let out = d.process(&Message::Headers(vec![good[0], good[1], bad]), 3);
    assert_eq!(out, only(ProcessResult::Ban(100)));
    // not even the good headers before it were kept
    assert_eq!(d.chain.len(), 4);
    assert_eq!(d.chain.tip().unwrap().hash, all[3].hash());
    assert!(d.chain.get_header(&good[0].hash()).is_none());
}

#[test]
fn orphan_headers_are_ignored() {
    let (mut d, all) = node(1, &[3]);
    let next = dig(all[1].hash(), 0);
    let orphan = dig(Hash32 { bytes: [5u8; 32] }, 0);
    let out = d.process(&Message::Headers(vec![next, orphan]), 3);
    assert_eq!(out, only(ProcessResult::Ignored));
    assert_eq!(d.chain.len(), 2);
}

#[test]
fn side_branch_headers_are_acknowledged() {
    let (mut d, all) = node(2, &[3]);
    let side = dig(all[0].hash(), 4);
    let out = d.process(&Message::Headers(vec![side]), 3);
    assert_eq!(out, only(ProcessResult::Ack));
    assert_eq!(d.chain.len(), 4);
    assert_eq!(d.chain.tip().unwrap().hash, all[2].hash());
}

#[test]
fn two_reorgs_in_one_message() {
    // trunk g-a1; b1,b2 take over; then c1,c2,c3 take over
    let (mut d, a) = node(1, &[1]);
    let b = extend(&a[0], 2, 1);
    let c = extend(&a[0], 3, 2);
    let batch = vec![b[0], b[1], c[0], c[1], c[2]];
    let out = d.process(&Message::Headers(batch), 1);
    assert_eq!(out.result, Ok(ProcessResult::Height(3)));
    assert_eq!(out.disconnected, vec![a[1], b[1], b[0]]);
    assert_eq!(d.chain.tip().unwrap().hash, c[2].hash());
}

#[test]
fn unwanted_inv() {
    let (mut d, _) = node(1, &[4]);
    let inv = vec![
        Inventory { inv_type: InvType::Transaction, hash: Hash32 { bytes: [1u8; 32] } },
        Inventory { inv_type: InvType::Transaction, hash: Hash32 { bytes: [2u8; 32] } },
    ];
    assert_eq!(d.process(&Message::Inv(inv), 4), only(ProcessResult::Ban(10)));
}

#[test]
fn inv_with_a_block_and_a_transaction_is_unwanted() {
    let (mut d, _) = node(1, &[4]);
    let inv = vec![
        Inventory { inv_type: InvType::Block, hash: Hash32 { bytes: [1u8; 32] } },
        Inventory { inv_type: InvType::WitnessBlock, hash: Hash32 { bytes: [2u8; 32] } },
    ];
    assert_eq!(d.process(&Message::Inv(inv), 4), only(ProcessResult::Ban(10)));
}

#[test]
fn inv_of_an_unknown_block_asks_for_headers() {
    let (mut d, all) = node(1, &[4]);
    let inv = vec![
        Inventory { inv_type: InvType::Block, hash: all[1].hash() },
        Inventory { inv_type: InvType::Block, hash: Hash32 { bytes: [2u8; 32] } },
    ];
    let out = d.process(&Message::Inv(inv), 4);
    assert_eq!(out.result, Ok(ProcessResult::Ack));
    assert_eq!(out.sends, get_headers_for(&d, 4));
}

#[test]
fn inv_of_known_blocks_is_ignored() {
    let (mut d, all) = node(2, &[4]);
    let inv = vec![
        Inventory { inv_type: InvType::Block, hash: all[1].hash() },
        Inventory { inv_type: InvType::Block, hash: all[2].hash() },
    ];
    assert_eq!(d.process(&Message::Inv(inv), 4), only(ProcessResult::Ignored));
    assert_eq!(d.process(&Message::Inv(vec![]), 4), only(ProcessResult::Ignored));
}

#[test]
fn block_pops_the_queue_front() {
    let (mut d, all) = node(2, &[6]);
    d.queue.enqueue(&vec![all[1].hash(), all[2].hash()]);
    // out of order: the queue stays
    let out = d.process(&Message::Block(all[2]), 6);
    assert_eq!(out.result, Ok(ProcessResult::Ack));
    assert_eq!(out.sends, get_headers_for(&d, 6));
    assert_eq!(d.queue.len(), 2);
    // the awaited block
    d.process(&Message::Block(all[1]), 6);
    assert_eq!(d.queue.len(), 1);
    assert_eq!(d.queue.front(), Some(all[2].hash()));
    d.process(&Message::Block(all[2]), 6);
    assert_eq!(d.queue.len(), 0);
    // with an empty queue nothing changes
    let out = d.process(&Message::Block(all[2]), 6);
    assert_eq!(out.result, Ok(ProcessResult::Ack));
    assert_eq!(d.queue.len(), 0);
}

#[test]
fn addr_filtering() {
    let (mut d, _) = node(0, &[1]);
    let now: u64 = 1_700_000_000;
    let a = NetAddress { services: 9, address: ip4(8, 8, 8, 8), port: 8333 };
    let b = NetAddress { services: 9, address: ip4(8, 8, 4, 4), port: 8333 };
    let c = NetAddress {
        services: 9,
        address: [0xFD87, 0xD87E, 0xEB43, 1, 2, 3, 4, 5],
        port: 8333,
    };
    let e = NetAddress { services: 1, address: ip4(1, 1, 1, 1), port: 8333 };
    let list = vec![
        ((now - 1000) as u32, a),
        ((now - 10000) as u32, b),
        ((now - 1000) as u32, c),
        ((now - 1000) as u32, e),
    ];
    let out = d.process_at(&Message::Addr(list), 1, now);
    assert_eq!(out, only(ProcessResult::Ack));
    assert_eq!(d.addresses.len(), 1);
    let rec = d.addresses.get(0).unwrap();
    assert_eq!(rec.addr, a);
    assert_eq!(rec.last_seen, (now - 1000) as u32);
    assert_eq!(rec.ban_score, 0);
}

#[test]
fn addr_without_wanted_addresses_is_ignored() {
    let (mut d, _) = node(0, &[1]);
    let now: u64 = 1_700_000_000;
    let old = NetAddress { services: 9, address: ip4(8, 8, 8, 8), port: 8333 };
    let list = vec![((now - 5400) as u32, old)];
    assert_eq!(d.process_at(&Message::Addr(list), 1, now), only(ProcessResult::Ignored));
    assert_eq!(d.addresses.len(), 0);
    assert_eq!(d.process_at(&Message::Addr(vec![]), 1, now), only(ProcessResult::Ignored));
}

#[test]
fn addr_freshness_edge() {
    let (mut d, _) = node(0, &[1]);
    let now: u64 = 1_700_000_000;
    let a = NetAddress { services: 0x409, address: ip4(8, 8, 8, 8), port: 8333 };
    let list = vec![((now - 5399) as u32, a)];
    assert_eq!(d.process_at(&Message::Addr(list), 1, now), only(ProcessResult::Ack));
    assert_eq!(d.addresses.len(), 1);
}

#[test]
fn addr_with_a_small_clock_does_not_wrap() {
    let (mut d, _) = node(0, &[1]);
    let a = NetAddress { services: 9, address: ip4(8, 8, 8, 8), port: 8333 };
    assert_eq!(d.addr_at(&vec![(0, a)], 100), only(ProcessResult::Ack));
    assert_eq!(d.addr_at(&vec![(0, a)], 5400), only(ProcessResult::Ignored));
}

#[test]
fn addr_by_the_clock() {
    let (mut d, _) = node(0, &[1]);
    let now = std::time::SystemTime::now()
        .duration_since(std::time::UNIX_EPOCH)
        .unwrap()
        .as_secs();
    let a = NetAddress { services: 9, address: ip4(8, 8, 8, 8), port: 8333 };
    let b = NetAddress { services: 9, address: ip4(9, 9, 9, 9), port: 8333 };
    let list = vec![((now - 60) as u32, a), ((now - 100_000) as u32, b)];
    assert_eq!(d.process(&Message::Addr(list.clone()), 1), only(ProcessResult::Ack));
    assert_eq!(d.addresses.len(), 1);
    assert_eq!(d.addresses.get(0).unwrap().addr, a);
    assert_eq!(d.addr(&list), only(ProcessResult::Ack));
    assert_eq!(d.addresses.len(), 1);
}

#[test]
fn addr_stores_again_under_the_same_socket() {
    let (mut d, _) = node(0, &[1]);
    let now: u64 = 1_700_000_000;
    let a = NetAddress { services: 9, address: ip4(8, 8, 8, 8), port: 8333 };
    let a2 = NetAddress { services: 0xd, address: ip4(8, 8, 8, 8), port: 8333 };
    let list = vec![((now - 1000) as u32, a), ((now - 10) as u32, a2)];
    assert_eq!(d.process_at(&Message::Addr(list), 1, now), only(ProcessResult::Ack));
    assert_eq!(d.addresses.len(), 1);
    let rec = d.addresses.get(0).unwrap();
    assert_eq!(rec.addr, a2);
    assert_eq!(rec.last_seen, (now - 10) as u32);
}

#[test]
fn broadcast_without_peers_sends_nothing() {
    let (d, _) = node(0, &[]);
    let out = d.broadcast_transaction(&vec![1, 2, 3]);
    assert_eq!(out, only(ProcessResult::Ack));
    assert!(d.get_broadcaster().broadcast_transaction(&vec![1, 2, 3]).is_empty());
}

#[test]
fn broadcast_reaches_every_peer() {
    let (d, _) = node(0, &[3, 1, 2]);
    let tx = vec![0xde, 0xad];
    let expected: Vec<Outbound> = [1u64, 2, 3]
        .iter()
        .map(|p| Outbound { peer: *p, message: Message::Tx(tx.clone()) })
        .collect();
    let out = d.broadcast_transaction(&tx);
    assert_eq!(out.result, Ok(ProcessResult::Ack));
    assert!(out.disconnected.is_empty());
    // one message to each peer; the order of the peers is not laid down
    let mut sends = out.sends;
    sends.sort_by_key(|o| o.peer);
    assert_eq!(sends, expected);
    let b = d.get_broadcaster();
    let mut peers = b.peers.clone();
    peers.sort();
    assert_eq!(peers, vec![1, 2, 3]);
    let mut sends = b.broadcast_transaction(&tx);
    sends.sort_by_key(|o| o.peer);
    assert_eq!(sends, expected);
}

#[test]
fn send_reaches_connected_peers_only() {
    let (d, _) = node(0, &[3]);
    assert_eq!(d.send(3, Message::Pong(1)), vec![Outbound { peer: 3, message: Message::Pong(1) }]);
    assert!(d.send(4, Message::Pong(1)).is_empty());
}

#[test]
fn init_through_the_dispatcher() {
    let mut d = Dispatcher::new(HeaderStore::new(Network::Regtest), AddressStore::new(), PeerTable::new());
    let g = dig(zero_hash(), 0);
    assert_eq!(d.init(&g), Ok(()));
    assert_eq!(d.chain.tip().unwrap().header, g);
    let mut bad = g;
    while bad.check_pow() {
        bad.nonce += 1;
    }
    let mut e = Dispatcher::new(HeaderStore::new(Network::Regtest), AddressStore::new(), PeerTable::new());
    assert_eq!(e.init(&bad), Err(SpvError::BadProofOfWork));
    assert_eq!(e.chain.len(), 0);
}

#[test]
fn socket_addresses_compare_by_value() {
    let a = SocketAddress { ip: ip4(1, 2, 3, 4), port: 1 };
    let b = SocketAddress { ip: ip4(1, 2, 3, 4), port: 1 };
    let c = SocketAddress { ip: ip4(1, 2, 3, 5), port: 1 };
    let e = SocketAddress { ip: ip4(1, 2, 3, 4), port: 2 };
    assert!(a.same(&b));
    assert!(!a.same(&c));
    assert!(!a.same(&e));
}

#[test]
fn request_block_asks_for_the_queue_front() {
    let (mut d, all) = node(2, &[6]);
    assert!(d.request_block(6).is_empty());
    d.queue.enqueue(&vec![all[1].hash(), all[2].hash()]);
    let inv = vec![Inventory { inv_type: InvType::WitnessBlock, hash: all[1].hash() }];
    assert_eq!(d.request_block(6), vec![Outbound { peer: 6, message: Message::GetData(inv) }]);
    // a peer that is not connected is asked nothing
    assert!(d.request_block(7).is_empty());
}
