use spv_node::chain::HeaderStore;
use spv_node::error::SpvError;
use spv_node::num::U256;
use spv_node::pow::{header_work, next_bits, Hash32, Header, Network, Rules};

fn from_hex(s: &str) -> [u8; 32] {
    let mut out = [0u8; 32];
    let bytes = s.as_bytes();
    for i in 0..32 {
        let hi = (bytes[2 * i] as char).to_digit(16).unwrap() as u8;
        let lo = (bytes[2 * i + 1] as char).to_digit(16).unwrap() as u8;
        out[i] = hi * 16 + lo;
    }
    out
}

// A hash as block explorers print it: most significant byte first.
fn shown(s: &str) -> Hash32 {
    let mut b = from_hex(s);
    b.reverse();
    Hash32 { bytes: b }
}

fn zero() -> Hash32 {
    Hash32 { bytes: [0u8; 32] }
}

fn mainnet_genesis() -> Header {
    Header {
        version: 1,
        prev_hash: zero(),
        merkle_root: shown("4a5e1e4baab89f3a32518a88c31bc87f618f76673e2cc77ab2127b7afdeda33b"),
        time: 1231006505,
        bits: 0x1d00ffff,
        nonce: 2083236893,
    }
}

fn mainnet_block_1() -> Header {
    Header {
        version: 1,
        prev_hash: shown("000000000019d6689c085ae165831e934ff763ae46a2a6c172b3f1b60a8ce26f"),
        merkle_root: shown("0e3e2357e806b6cdb1f70b54c3a3a17b6714ee1f0e68bebb44a74b1efd512098"),
        time: 1231469665,
        bits: 0x1d00ffff,
        nonce: 2573394689,
    }
}

const EASY: u32 = 0x207fffff;

// A header on `prev` that meets the easiest target; `salt` tells siblings apart.
fn mine(prev: Hash32, salt: u8) -> Header {
    let mut h = Header {
        version: 1,
        prev_hash: prev,
        merkle_root: Hash32 { bytes: [salt; 32] },
        time: 1_600_000_000,
        bits: EASY,
        nonce: 0,
    };
    while !h.check_pow() {
        h.nonce += 1;
    }
    h
}

fn easy_genesis() -> Header {
    mine(zero(), 0)
}

// A store with a genesis header and `n` headers on top; the headers in order.
fn easy_chain(n: usize) -> (HeaderStore, Vec<Header>) {
    let mut store = HeaderStore::new(Network::Regtest);
    let g = easy_genesis();
    store.init(&g).unwrap();
    let mut all = vec![g];
    for _ in 0..n {
        let h = mine(all.last().unwrap().hash(), 0);
        assert!(store.add_header(&h).unwrap().is_some());
        all.push(h);
    }
    (store, all)
}

#[test]
fn genesis_hash_is_the_known_one() {
    let expected = shown("000000000019d6689c085ae165831e934ff763ae46a2a6c172b3f1b60a8ce26f");
    assert_eq!(mainnet_genesis().hash(), expected);
}

#[test]
fn genesis_hash_matches_the_bitcoin_crate() {
    let g = bitcoin::blockdata::constants::genesis_block(bitcoin::Network::Bitcoin);
    let ours = mainnet_genesis();
    assert_eq!(ours.hash().bytes, bitcoin::hashes::Hash::to_byte_array(g.header.block_hash()));
    assert_eq!(ours.merkle_root.bytes, bitcoin::hashes::Hash::to_byte_array(g.header.merkle_root));
}

#[test]
fn hash_depends_on_every_field() {
    let g = mainnet_genesis();
    let mut other = g;
    other.nonce += 1;
    assert_ne!(g.hash(), other.hash());
    assert_ne!(g.hash(), g.prev_hash);
    assert_ne!(g.hash(), g.merkle_root);
}

#[test]
fn mainnet_headers_meet_their_target() {
    assert!(mainnet_genesis().check_pow());
    assert!(mainnet_block_1().check_pow());
}

#[test]
fn wrong_nonce_fails_the_target() {
    let mut g = mainnet_genesis();
    g.nonce = 1;
    assert!(!g.check_pow());
}

#[test]
fn negative_mantissa_gives_target_zero() {
    // sign bit of the mantissa set: the target is zero, which no hash meets
    let mut h = easy_genesis();
    h.bits = 0x20800000;
    assert!(!h.check_pow());
    assert_eq!(header_work(0x20800000), None);
}

#[test]
fn work_of_the_first_mainnet_target() {
    assert_eq!(header_work(0x1d00ffff), Some(U256 { hi: 0, lo: 0x1_0001_0001 }));
}

#[test]
fn work_of_the_easiest_target_is_two() {
    assert_eq!(header_work(EASY), Some(U256 { hi: 0, lo: 2 }));
}

#[test]
fn work_of_target_one_is_half_the_range() {
    // exponent 1: the mantissa 0x010000 moved right by two bytes is 1
    assert_eq!(header_work(0x01010000), Some(U256 { hi: 1u128 << 127, lo: 0 }));
}

#[test]
fn work_of_target_two() {
    // 2^256 / 3
    let third = u128::MAX / 3;
    assert_eq!(header_work(0x01020000), Some(U256 { hi: third, lo: third }));
}

#[test]
fn work_of_small_exponents() {
    // exponent 3: the mantissa itself; 2^256 / 0x10000
    assert_eq!(header_work(0x0300ffff), Some(U256 { hi: 1u128 << 112, lo: 0 }));
    // exponent 0: the mantissa is moved out entirely
    assert_eq!(header_work(0x00ffffff), None);
}

#[test]
fn empty_store_has_no_tip() {
    let store = HeaderStore::new(Network::Bitcoin);
    assert_eq!(store.len(), 0);
    assert!(store.tip().is_none());
    assert!(store.header_locators().is_empty());
}

#[test]
fn init_stores_the_genesis_header() {
    let mut store = HeaderStore::new(Network::Bitcoin);
    let g = mainnet_genesis();
    assert_eq!(store.init(&g), Ok(()));
    let tip = store.tip().unwrap();
    assert_eq!(tip.header, g);
    assert_eq!(tip.hash, g.hash());
    assert_eq!(tip.height, 0);
    assert_eq!(tip.work, U256 { hi: 0, lo: 0x1_0001_0001 });
    assert_eq!(store.len(), 1);
}

#[test]
fn init_twice_keeps_the_first_genesis() {
    let mut store = HeaderStore::new(Network::Bitcoin);
    store.init(&mainnet_genesis()).unwrap();
    assert_eq!(store.init(&easy_genesis()), Ok(()));
    assert_eq!(store.len(), 1);
    assert_eq!(store.tip().unwrap().header, mainnet_genesis());
}

#[test]
fn init_refuses_a_genesis_without_work() {
    let mut store = HeaderStore::new(Network::Bitcoin);
    let mut g = mainnet_genesis();
    g.nonce = 1;
    assert_eq!(store.init(&g), Err(SpvError::BadProofOfWork));
    assert_eq!(store.len(), 0);
}

#[test]
fn add_header_on_an_empty_store_is_an_orphan() {
    let mut store = HeaderStore::new(Network::Bitcoin);
    assert_eq!(store.add_header(&mainnet_block_1()).unwrap_err(), SpvError::OrphanHeader);
}

#[test]
fn extending_the_tip() {
    let mut store = HeaderStore::new(Network::Bitcoin);
    store.init(&mainnet_genesis()).unwrap();
    let b1 = mainnet_block_1();
    let placed = store.add_header(&b1).unwrap().unwrap();
    assert_eq!(placed.stored.header, b1);
    assert_eq!(
        placed.stored.hash,
        shown("00000000839a8e6886ab5951d76f411475428afc90947ee320161bbf18eb6048")
    );
    assert_eq!(placed.stored.height, 1);
    assert_eq!(placed.stored.work, U256 { hi: 0, lo: 0x2_0002_0002 });
    assert_eq!(placed.unwinds, None);
    assert_eq!(placed.forwards, Some(vec![b1.hash()]));
    assert_eq!(store.tip().unwrap(), placed.stored);
    assert_eq!(store.get_header(&b1.hash()), Some(placed.stored));
}

#[test]
fn same_header_twice_changes_nothing() {
    let mut store = HeaderStore::new(Network::Bitcoin);
    store.init(&mainnet_genesis()).unwrap();
    let b1 = mainnet_block_1();
    assert!(store.add_header(&b1).unwrap().is_some());
    let tip = store.tip().unwrap();
    assert!(store.add_header(&b1).unwrap().is_none());
    assert_eq!(store.len(), 2);
    assert_eq!(store.tip().unwrap(), tip);
    // the genesis header is known too
    assert!(store.add_header(&mainnet_genesis()).unwrap().is_none());
    assert_eq!(store.len(), 2);
}

#[test]
fn bad_proof_of_work_is_refused() {
    let mut store = HeaderStore::new(Network::Bitcoin);
    store.init(&mainnet_genesis()).unwrap();
    let mut b1 = mainnet_block_1();
    b1.nonce += 1;
    assert_eq!(store.add_header(&b1).unwrap_err(), SpvError::BadProofOfWork);
    assert_eq!(store.len(), 1);
    assert!(store.get_header(&b1.hash()).is_none());
}

#[test]
fn bad_proof_of_work_comes_before_orphan() {
    let mut store = HeaderStore::new(Network::Bitcoin);
    store.init(&mainnet_genesis()).unwrap();
    let mut h = mainnet_block_1();
    h.prev_hash = Hash32 { bytes: [7u8; 32] };
    h.nonce = 0;
    assert!(!h.check_pow());
    assert_eq!(store.add_header(&h).unwrap_err(), SpvError::BadProofOfWork);
}

#[test]
fn unknown_parent_is_an_orphan() {
    let (mut store, _) = easy_chain(2);
    let h = mine(Hash32 { bytes: [9u8; 32] }, 1);
    assert_eq!(store.add_header(&h).unwrap_err(), SpvError::OrphanHeader);
    assert_eq!(store.len(), 3);
}

#[test]
fn sibling_with_equal_work_does_not_move_the_tip() {
    let (mut store, all) = easy_chain(2);
    let tip = store.tip().unwrap();
    let sibling = mine(all[1].hash(), 1);
    assert_ne!(sibling.hash(), all[2].hash());
    assert!(store.add_header(&sibling).unwrap().is_none());
    assert_eq!(store.tip().unwrap(), tip);
    // but it is stored
    let stored = store.get_header(&sibling.hash()).unwrap();
    assert_eq!(stored.height, 2);
    assert_eq!(stored.work, tip.work);
    assert_eq!(store.len(), 4);
}

#[test]
fn reorg_names_the_unwound_and_the_joined() {
    // g - a1 - a2 - a3 is the trunk; b2, b3 on a1 tie; b4 takes over
    let (mut store, a) = easy_chain(3);
    let b2 = mine(a[1].hash(), 1);
    let b3 = mine(b2.hash(), 1);
    let b4 = mine(b3.hash(), 1);
    assert!(store.add_header(&b2).unwrap().is_none());
    assert!(store.add_header(&b3).unwrap().is_none());
    assert_eq!(store.tip().unwrap().hash, a[3].hash());
    let placed = store.add_header(&b4).unwrap().unwrap();
    assert_eq!(placed.stored.height, 4);
    assert_eq!(placed.stored.work, U256 { hi: 0, lo: 10 });
    assert_eq!(placed.unwinds, Some(vec![a[3].hash(), a[2].hash()]));
    assert_eq!(placed.forwards, Some(vec![b2.hash(), b3.hash(), b4.hash()]));
    assert_eq!(store.tip().unwrap().hash, b4.hash());
    // the unwound headers stay in the store
    assert!(store.get_header(&a[3].hash()).is_some());
}

#[test]
fn reorg_from_a_lower_fork_to_a_shorter_path() {
    // the new branch parts at the genesis header
    let (mut store, a) = easy_chain(1);
    let b1 = mine(a[0].hash(), 2);
    let b2 = mine(b1.hash(), 2);
    assert!(store.add_header(&b1).unwrap().is_none());
    let placed = store.add_header(&b2).unwrap().unwrap();
    assert_eq!(placed.unwinds, Some(vec![a[1].hash()]));
    assert_eq!(placed.forwards, Some(vec![b1.hash(), b2.hash()]));
}

#[test]
fn unwind_tip_takes_only_the_tip() {
    let (mut store, a) = easy_chain(2);
    assert!(!store.unwind_tip(&a[1].hash()));
    assert_eq!(store.len(), 3);
    assert!(store.unwind_tip(&a[2].hash()));
    assert_eq!(store.len(), 2);
    assert_eq!(store.tip().unwrap().hash, a[1].hash());
    assert!(store.get_header(&a[2].hash()).is_none());
    assert!(!store.unwind_tip(&a[2].hash()));
}

#[test]
fn unwind_tip_can_empty_the_store() {
    let (mut store, a) = easy_chain(0);
    assert!(store.unwind_tip(&a[0].hash()));
    assert_eq!(store.len(), 0);
    assert!(store.tip().is_none());
    assert!(!store.unwind_tip(&a[0].hash()));
}

#[test]
fn undoing_a_reorg_brings_back_the_old_tip() {
    let (mut store, a) = easy_chain(2);
    let b2 = mine(a[1].hash(), 1);
    let b3 = mine(b2.hash(), 1);
    assert!(store.add_header(&b2).unwrap().is_none());
    let old_tip = store.tip().unwrap();
    let placed = store.add_header(&b3).unwrap().unwrap();
    assert_eq!(placed.unwinds, Some(vec![a[2].hash()]));
    // unwind the joined headers from the new tip downwards
    let forwards = placed.forwards.unwrap();
    assert!(store.unwind_tip(&forwards[1]));
    assert_eq!(store.tip().unwrap(), old_tip);
    assert!(!store.unwind_tip(&forwards[0]));
    assert_eq!(store.tip().unwrap(), old_tip);
}

#[test]
fn after_unwinding_the_first_of_equal_work_is_the_tip() {
    let (mut store, a) = easy_chain(1);
    let b1 = mine(a[0].hash(), 1);
    let c2 = mine(b1.hash(), 1);
    assert!(store.add_header(&b1).unwrap().is_none());
    assert!(store.add_header(&c2).unwrap().is_some());
    assert!(store.unwind_tip(&c2.hash()));
    // a1 and b1 have equal work; a1 came first
    assert_eq!(store.tip().unwrap().hash, a[1].hash());
}

#[test]
fn locator_of_a_lone_genesis() {
    let (store, a) = easy_chain(0);
    assert_eq!(store.header_locators(), vec![a[0].hash()]);
}

#[test]
fn locator_steps_double() {
    let (store, a) = easy_chain(20);
    let heights: Vec<usize> = vec![20, 19, 18, 16, 12, 4, 0];
    let expected: Vec<Hash32> = heights.iter().map(|h| a[*h].hash()).collect();
    assert_eq!(store.header_locators(), expected);
}

#[test]
fn locator_of_short_chains() {
    let (store, a) = easy_chain(1);
    assert_eq!(store.header_locators(), vec![a[1].hash(), a[0].hash()]);
    let (store, a) = easy_chain(4);
    let expected: Vec<Hash32> = [4usize, 3, 2, 0].iter().map(|h| a[*h].hash()).collect();
    assert_eq!(store.header_locators(), expected);
    let (store, a) = easy_chain(5);
    let expected: Vec<Hash32> = [5usize, 4, 3, 1, 0].iter().map(|h| a[*h].hash()).collect();
    assert_eq!(store.header_locators(), expected);
}

#[test]
fn locator_starts_at_the_tip_after_a_reorg() {
    let (mut store, a) = easy_chain(2);
    let b2 = mine(a[1].hash(), 1);
    let b3 = mine(b2.hash(), 1);
    store.add_header(&b2).unwrap();
    store.add_header(&b3).unwrap();
    let loc = store.header_locators();
    assert_eq!(loc, vec![b3.hash(), b2.hash(), a[1].hash(), a[0].hash()]);
    assert_eq!(loc[0], store.tip().unwrap().hash);
}

#[test]
fn snapshot_is_independent() {
    let (store, a) = easy_chain(1);
    let mut copy = store.snapshot();
    let h = mine(a[1].hash(), 0);
    assert!(copy.add_header(&h).unwrap().is_some());
    assert_eq!(copy.len(), 3);
    assert_eq!(store.len(), 2);
    assert_eq!(store.tip().unwrap().hash, a[1].hash());
}

#[test]
fn stored_headers_meet_their_targets() {
    let (store, a) = easy_chain(5);
    for h in &a {
        let stored = store.get_header(&h.hash()).unwrap();
        assert!(stored.header.check_pow());
        assert_eq!(stored.hash, stored.header.hash());
    }
}

#[test]
fn u256_order_and_sum() {
    let a = U256 { hi: 1, lo: 0 };
    let b = U256 { hi: 0, lo: u128::MAX };
    assert!(b.lt(&a));
    assert!(b.le(&a));
    assert!(a.le(&a));
    assert!(!a.lt(&a));
    assert!(!a.le(&b));
    assert_eq!(b.checked_add(&U256 { hi: 0, lo: 2 }), Some(U256 { hi: 1, lo: 1 }));
    let top = U256 { hi: u128::MAX, lo: u128::MAX };
    assert_eq!(top.checked_add(&U256 { hi: 0, lo: 1 }), None);
    assert_eq!(top.checked_add(&U256::zero()), Some(top));
    assert_eq!(a.checked_add(&U256 { hi: u128::MAX, lo: 0 }), None);
}

#[test]
fn error_messages() {
    assert_eq!(SpvError::BadProofOfWork.message(), "bad proof of work");
    assert_eq!(SpvError::OrphanHeader.message(), "unconnected header");
    assert_eq!(SpvError::NoTip.message(), "no chain tip found");
    assert_eq!(SpvError::PeerExhausted.message(), "no more peers to connect");
}

#[test]
fn rules_of_the_networks() {
    let main = Rules {
        interval: 2016,
        spacing: 600,
        min_difficulty: false,
        no_retargeting: false,
        limit_bits: 0x1d00ffff,
    };
    assert_eq!(Network::Bitcoin.get_rules(), main);
    assert_eq!(Network::Testnet.get_rules(), Rules { min_difficulty: true, ..main });
    assert_eq!(Network::Signet.get_rules(), Rules { limit_bits: 0x1e0377ae, ..main });
    assert_eq!(
        Network::Regtest.get_rules(),
        Rules { min_difficulty: true, no_retargeting: true, limit_bits: 0x207fffff, ..main }
    );
    assert_eq!(HeaderStore::new(Network::Signet).get_network(), Network::Signet);
}

#[test]
fn next_bits_after_an_interval() {
    let two_weeks: u64 = 14 * 24 * 3600;
    // at the easiest target a slow interval changes nothing
    assert_eq!(next_bits(Network::Bitcoin, 0x1d00ffff, two_weeks), Some(0x1d00ffff));
    assert_eq!(next_bits(Network::Bitcoin, 0x1d00ffff, 4 * two_weeks), Some(0x1d00ffff));
    // half the time: half the target
    assert_eq!(next_bits(Network::Bitcoin, 0x1d00ffff, two_weeks / 2), Some(0x1c7fff80));
    // no less than a quarter
    assert_eq!(next_bits(Network::Bitcoin, 0x1d00ffff, two_weeks / 4), Some(0x1c3fffc0));
    assert_eq!(next_bits(Network::Bitcoin, 0x1d00ffff, 0), Some(0x1c3fffc0));
    // from a harder target, twice the time gives twice the target
    assert_eq!(next_bits(Network::Testnet, 0x1c3fffc0, 2 * two_weeks), Some(0x1c7fff80));
    // no more than four times
    assert_eq!(next_bits(Network::Bitcoin, 0x1b0404cb, 100 * two_weeks), Some(0x1b10132c));
    // the easiest target of signet is another
    assert_eq!(next_bits(Network::Signet, 0x1e0377ae, 4 * two_weeks), Some(0x1e0377ae));
    assert_eq!(next_bits(Network::Signet, 0x1d00ffff, 4 * two_weeks), Some(0x1d03fffc));
}

#[test]
fn next_bits_without_retargeting() {
    assert_eq!(next_bits(Network::Regtest, 0x207fffff, 1), Some(0x207fffff));
    assert_eq!(next_bits(Network::Regtest, 0x1d00ffff, 99), Some(0x1d00ffff));
}

#[test]
fn next_bits_of_a_target_too_large() {
    assert_eq!(next_bits(Network::Bitcoin, 0x207fffff, 1_209_600), None);
    // the largest compact target from which one can be computed
    assert_eq!(next_bits(Network::Bitcoin, 0x1e0377ae, 1_209_600), Some(0x1d00ffff));
    assert_eq!(next_bits(Network::Bitcoin, 0x1e0377af, 1_209_600), None);
}

#[test]
fn wrong_target_is_bad_proof_of_work() {
    // meets its own, easy target, but the main network lays down another
    let mut store = HeaderStore::new(Network::Bitcoin);
    store.init(&mainnet_genesis()).unwrap();
    let h = mine(mainnet_genesis().hash(), 0);
    assert!(h.check_pow());
    assert_eq!(store.add_header(&h).unwrap_err(), SpvError::BadProofOfWork);
    assert_eq!(store.len(), 1);
}

fn mine_with(prev: Hash32, bits: u32, time: u32) -> Header {
    let mut h = Header {
        version: 1,
        prev_hash: prev,
        merkle_root: Hash32 { bytes: [0u8; 32] },
        time,
        bits,
        nonce: 0,
    };
    while !h.check_pow() {
        h.nonce += 1;
    }
    h
}

#[test]
fn late_headers_may_have_the_easiest_target() {
    // the genesis header has a target just below the easiest
    const NEAR: u32 = 0x207ffffe;
    let t0: u32 = 1_600_000_000;
    let mut store = HeaderStore::new(Network::Regtest);
    let g = mine_with(zero(), NEAR, t0);
    store.init(&g).unwrap();
    // in time: the target of the genesis header
    let wrong = mine_with(g.hash(), EASY, t0 + 1200);
    assert_eq!(store.add_header(&wrong).unwrap_err(), SpvError::BadProofOfWork);
    let a1 = mine_with(g.hash(), NEAR, t0 + 1200);
    assert!(store.add_header(&a1).unwrap().is_some());
    // late: the easiest target, and no other
    let wrong = mine_with(a1.hash(), NEAR, t0 + 2401);
    assert_eq!(store.add_header(&wrong).unwrap_err(), SpvError::BadProofOfWork);
    let a2 = mine_with(a1.hash(), EASY, t0 + 2401);
    assert!(store.add_header(&a2).unwrap().is_some());
    // in time again: the target of the last header that was not an exception
    let wrong = mine_with(a2.hash(), EASY, t0 + 2500);
    assert_eq!(store.add_header(&wrong).unwrap_err(), SpvError::BadProofOfWork);
    let a3 = mine_with(a2.hash(), NEAR, t0 + 2500);
    assert!(store.add_header(&a3).unwrap().is_some());
    assert_eq!(store.tip().unwrap().height, 3);
}

#[test]
fn without_exceptions_the_target_is_inherited() {
    let t0: u32 = 1_600_000_000;
    let mut store = HeaderStore::new(Network::Signet);
    let g = mine_with(zero(), EASY, t0);
    store.init(&g).unwrap();
    let late = mine_with(g.hash(), 0x207ffffe, t0 + 100_000);
    assert_eq!(store.add_header(&late).unwrap_err(), SpvError::BadProofOfWork);
    let a1 = mine_with(g.hash(), EASY, t0 + 100_000);
    assert!(store.add_header(&a1).unwrap().is_some());
}

#[test]
fn interval_start_without_retargeting_inherits() {
    let (store, a) = easy_chain(2017);
    assert_eq!(store.tip().unwrap().height, 2017);
    assert_eq!(store.tip().unwrap().hash, a[2017].hash());
}

#[test]
fn interval_start_with_a_target_too_large() {
    // on a network that sets its target anew, an easy chain stops at 2015
    let mut store = HeaderStore::new(Network::Bitcoin);
    let g = easy_genesis();
    store.init(&g).unwrap();
    let mut prev = g;
    for _ in 0..2015 {
        let h = mine(prev.hash(), 0);
        assert!(store.add_header(&h).unwrap().is_some());
        prev = h;
    }
    let h = mine(prev.hash(), 0);
    assert_eq!(store.add_header(&h).unwrap_err(), SpvError::StoreError);
    assert_eq!(store.tip().unwrap().height, 2015);
}

#[test]
fn a_known_header_with_a_failing_copy_of_its_hash_cannot_hide() {
    // the target is tested before the store is asked for the hash
    let (mut store, a) = easy_chain(1);
    let mut bad = a[1];
    while bad.check_pow() {
        bad.nonce += 1;
    }
    assert_eq!(store.add_header(&bad).unwrap_err(), SpvError::BadProofOfWork);
    assert!(store.add_header(&a[1]).unwrap().is_none());
}
