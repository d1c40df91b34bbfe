//! Block headers, their hashes, and the proof-of-work rule.

use crate::num::{two_128, two_256, U256};
use vstd::arithmetic::power2::pow2;
use vstd::prelude::*;

verus! {

/// A 32-byte hash, in the byte order in which it is computed and sent.
#[derive(Clone, Copy, Debug, PartialEq, Eq, Hash)]
pub struct Hash32 {
    /// The bytes of the hash.
    pub bytes: [u8; 32],
}

impl View for Hash32 {
    type V = Seq<u8>;

    open spec fn view(&self) -> Seq<u8> {
        self.bytes@
    }
}

impl Hash32 {
    /// Whether the two hashes hold the same bytes.
    pub fn same(&self, other: &Hash32) -> (r: bool)
        ensures
            r == (self@ == other@),
            r == (*self == *other),
    {
        let mut i: usize = 0;
        while i < 32
            invariant
                i <= 32,
                forall|j: int| 0 <= j < i ==> self.bytes@[j] == other.bytes@[j],
            decreases 32 - i,
        {
            if self.bytes[i] != other.bytes[i] {
                return false;
            }
            i += 1;
        }
        assert(self.bytes@ =~= other.bytes@);
        assert(self.bytes == other.bytes);
        true
    }
}

/// The number that a sequence of bytes stands for, least significant byte
/// first.
pub open spec fn le_value(b: Seq<u8>) -> nat
    decreases b.len(),
{
    if b.len() == 0 {
        0
    } else {
        b[0] as nat + 256 * le_value(b.subrange(1, b.len() as int))
    }
}

/// The array whose first `k` bytes are those of `b`, and whose other
/// bytes are zero.
pub open spec fn bytes_upto(b: Seq<u8>, k: nat) -> [u8; 32]
    decreases k,
{
    if k == 0 {
        vstd::array::spec_array_fill_for_copy_type::<u8, 32>(0)
    } else {
        vstd::array::spec_array_update(bytes_upto(b, (k - 1) as nat), k - 1, b[k - 1])
    }
}

proof fn lemma_bytes_upto(b: Seq<u8>, k: nat)
    requires
        k <= 32,
        b.len() == 32,
    ensures
        forall|i: int| 0 <= i < k ==> bytes_upto(b, k)@[i] == b[i],
    decreases k,
{
    broadcast use vstd::array::group_array_axioms;

    if k > 0 {
        lemma_bytes_upto(b, (k - 1) as nat);
    }
}

/// Every sequence of 32 bytes is the content of a hash.
pub proof fn lemma_hash_exists(b: Seq<u8>)
    requires
        b.len() == 32,
    ensures
        exists|x: Hash32| x@ == b,
{
    broadcast use vstd::array::group_array_axioms;

    lemma_bytes_upto(b, 32);
    let x = Hash32 { bytes: bytes_upto(b, 32) };
    assert(x@ =~= b);
}

/// The fields of a block header.
#[derive(Clone, Copy, Debug, PartialEq, Eq)]
pub struct Header {
    /// The block version.
    pub version: i32,
    /// The hash of the header this one builds on.
    pub prev_hash: Hash32,
    /// The root of the block's transaction tree.
    pub merkle_root: Hash32,
    /// The time the miner claims, in seconds since 1970.
    pub time: u32,
    /// The proof-of-work target in compact form.
    pub bits: u32,
    /// The nonce that the miner chose.
    pub nonce: u32,
}

/// The double SHA-256 hash of a header's 80-byte wire form, as a function of
/// the header's fields.
pub uninterp spec fn header_digest(
    version: i32,
    prev_hash: Seq<u8>,
    merkle_root: Seq<u8>,
    time: u32,
    bits: u32,
    nonce: u32,
) -> Seq<u8>;

impl Header {
    /// The header's hash.
    pub open spec fn digest(self) -> Seq<u8> {
        header_digest(
            self.version,
            self.prev_hash@,
            self.merkle_root@,
            self.time,
            self.bits,
            self.nonce,
        )
    }

    /// Whether the header's hash, read as a number, is at most the target
    /// that the header names.
    pub open spec fn pow_ok(self) -> bool {
        le_value(self.digest()) <= expand(self.bits)
    }

    /// The header's hash.
    pub fn hash(&self) -> (r: Hash32)
        ensures
            r@ == self.digest(),
    {
        block_hash(self)
    }

    /// Checks the header's proof of work against its own target.
    pub fn check_pow(&self) -> (r: bool)
        ensures
            r == self.pow_ok(),
    {
        let hash = block_hash(self);
        let target = compact_target(self.bits);
        target_met(&target, &hash)
    }
}

/// The target that a compact value stands for: a mantissa of three bytes,
/// moved left by the exponent in the top byte less three, in bytes. A mantissa
/// with its sign bit set gives zero; the shift counts modulo 256 bits, and
/// bits moved past the 256th are lost.
pub open spec fn expand(bits: u32) -> nat {
    let e = (bits / 0x100_0000) as nat;
    let m = (bits % 0x100_0000) as nat;
    if e <= 3 {
        let mant = m / pow2((8 * (3 - e)) as nat);
        if mant > 0x7F_FFFF {
            0
        } else {
            mant
        }
    } else if m > 0x7F_FFFF {
        0
    } else {
        (m * pow2(((8 * (e - 3)) % 256) as nat)) % two_256()
    }
}

/// The work that a header with the given compact target adds to its chain.
pub open spec fn block_work(bits: u32) -> nat {
    two_256() / (expand(bits) + 1)
}

/// Every target is below two to the power 256, so every header adds work.
pub proof fn lemma_block_work_positive(bits: u32)
    ensures
        expand(bits) < two_256(),
        1 <= block_work(bits) <= two_256(),
{
    let e = (bits / 0x100_0000) as nat;
    let m = (bits % 0x100_0000) as nat;
    let n = two_256() as int;
    let h = two_128() as int;
    assert(n >= h) by (nonlinear_arith)
        requires
            n == h * h,
            h >= 1,
    ;
    if e <= 3 {
        let d = pow2((8 * (3 - e)) as nat) as int;
        vstd::arithmetic::power2::lemma_pow2_pos((8 * (3 - e)) as nat);
        assert((m as int) / d <= m as int) by (nonlinear_arith)
            requires
                d > 0,
                m >= 0,
        ;
    } else {
        let x = (m * pow2(((8 * (e - 3)) % 256) as nat)) as int;
        assert(0 <= x % n < n) by (nonlinear_arith)
            requires
                n > 0,
        ;
    }
    let t = expand(bits) as int;
    assert(1 <= n / (t + 1) <= n) by (nonlinear_arith)
        requires
            0 <= t < n,
    ;
}

/// The networks whose rules the node knows.
#[derive(Clone, Copy, Debug, PartialEq, Eq, Structural)]
pub enum Network {
    /// The main network.
    Bitcoin,
    /// The test network.
    Testnet,
    /// The signed test network.
    Signet,
    /// A private network for tests.
    Regtest,
}

/// What a network lays down about the targets of its headers.
#[derive(Clone, Copy, Debug, PartialEq, Eq, Structural)]
pub struct Rules {
    /// After how many headers the target is set anew.
    pub interval: u64,
    /// The time that a block is meant to take, in seconds.
    pub spacing: u64,
    /// Whether a header that comes late may have the easiest target.
    pub min_difficulty: bool,
    /// Whether the target is never set anew.
    pub no_retargeting: bool,
    /// The easiest target of the network, in compact form.
    pub limit_bits: u32,
}

impl Network {
    /// The rules of the network.
    pub open spec fn rules(self) -> Rules {
        match self {
            Network::Bitcoin => Rules {
                interval: 2016,
                spacing: 600,
                min_difficulty: false,
                no_retargeting: false,
                limit_bits: 0x1d00ffff,
            },
            Network::Testnet => Rules {
                interval: 2016,
                spacing: 600,
                min_difficulty: true,
                no_retargeting: false,
                limit_bits: 0x1d00ffff,
            },
            Network::Signet => Rules {
                interval: 2016,
                spacing: 600,
                min_difficulty: false,
                no_retargeting: false,
                limit_bits: 0x1e0377ae,
            },
            Network::Regtest => Rules {
                interval: 2016,
                spacing: 600,
                min_difficulty: true,
                no_retargeting: true,
                limit_bits: 0x207fffff,
            },
        }
    }

    /// The rules of the network.
    pub fn get_rules(&self) -> (r: Rules)
        ensures
            r == self.rules(),
    {
        network_params(*self)
    }
}

/// The compact target that follows `last_bits` when the headers of one
/// interval took `timespan` seconds, on a network that sets its target anew
/// and has the easiest target `limit_bits`.
pub uninterp spec fn retargeted(last_bits: u32, timespan: u64, limit_bits: u32) -> u32;

/// Four times the length of an interval, in seconds: the longest time that
/// counts when a target is set anew.
pub const MAX_TIMESPAN: u64 = 4838400;

/// The targets from which a new target can be computed: those whose
/// product with the longest timespan stays below two to the power 256.
pub open spec fn retargetable(bits: u32) -> bool {
    expand(bits) * (MAX_TIMESPAN as nat) < two_256()
}

/// The compact target that follows `last_bits` on the network after an
/// interval of `timespan` seconds; none where `last_bits` stands for a
/// target from which no new one can be computed. A network that never sets
/// its target anew keeps `last_bits`.
pub fn next_bits(network: Network, last_bits: u32, timespan: u64) -> (r: Option<u32>)
    ensures
        r.is_some() <==> network.rules().no_retargeting || retargetable(last_bits),
        r.is_some() ==> r.unwrap() == (if network.rules().no_retargeting {
            last_bits
        } else {
            retargeted(last_bits, timespan, network.rules().limit_bits)
        }),
{
    let rules = network.get_rules();
    if rules.no_retargeting {
        return Some(last_bits);
    }
    let target = compact_target(last_bits);
    let most = U256 {
        hi: 0x377aef2669de1558cd0447bbf33,
        lo: 0x6aae22599d11488c00377aef2669de15,
    };
    proof {
        assert(most@ * (MAX_TIMESPAN as nat) < two_256() <= (most@ + 1) * (MAX_TIMESPAN as nat));
    }
    if target.le(&most) {
        Some(next_work_required(network, last_bits, timespan))
    } else {
        None
    }
}

/// `bitcoin::params::Params::new` with its fields, and
/// `Params::difficulty_adjustment_interval` and `Target::to_compact_lossy`
/// on them: the parameters of the network as the `bitcoin` crate lists
/// them.
#[verifier::external_body]
fn network_params(network: Network) -> (r: Rules)
    ensures
        r == network.rules(),
{
    let p = bitcoin::params::Params::new(match network {
        Network::Bitcoin => bitcoin::Network::Bitcoin,
        Network::Testnet => bitcoin::Network::Testnet,
        Network::Signet => bitcoin::Network::Signet,
        Network::Regtest => bitcoin::Network::Regtest,
    });
    Rules {
        interval: p.difficulty_adjustment_interval(),
        spacing: p.pow_target_spacing,
        min_difficulty: p.allow_min_difficulty_blocks,
        no_retargeting: p.no_pow_retargeting,
        limit_bits: p.max_attainable_target.to_compact_lossy().to_consensus(),
    }
}

/// `bitcoin::CompactTarget::from_next_work_required`: on a network that sets
/// its target anew the result depends on the last target, the timespan and
/// the network's easiest target alone. The call multiplies the last target
/// by at most the longest timespan; the product must not pass 256 bits.
#[verifier::external_body]
fn next_work_required(network: Network, last_bits: u32, timespan: u64) -> (r: u32)
    requires
        !network.rules().no_retargeting,
        retargetable(last_bits),
    ensures
        r == retargeted(last_bits, timespan, network.rules().limit_bits),
{
    let last = bitcoin::CompactTarget::from_consensus(last_bits);
    let params = bitcoin::params::Params::new(match network {
        Network::Bitcoin => bitcoin::Network::Bitcoin,
        Network::Testnet => bitcoin::Network::Testnet,
        Network::Signet => bitcoin::Network::Signet,
        Network::Regtest => bitcoin::Network::Regtest,
    });
    bitcoin::CompactTarget::from_next_work_required(last, timespan, params).to_consensus()
}

/// `bitcoin::block::Header::block_hash`: the result is the hash of the header
/// made of the given fields, and depends on nothing else.
#[verifier::external_body]
fn block_hash(h: &Header) -> (r: Hash32)
    ensures
        r@ == header_digest(h.version, h.prev_hash@, h.merkle_root@, h.time, h.bits, h.nonce),
{
    let header = bitcoin::block::Header {
        version: bitcoin::block::Version::from_consensus(h.version),
        prev_blockhash: bitcoin::hashes::Hash::from_byte_array(h.prev_hash.bytes),
        merkle_root: bitcoin::hashes::Hash::from_byte_array(h.merkle_root.bytes),
        time: h.time,
        bits: bitcoin::CompactTarget::from_consensus(h.bits),
        nonce: h.nonce,
    };
    Hash32 { bytes: bitcoin::hashes::Hash::to_byte_array(header.block_hash()) }
}

/// `bitcoin::Target::from_compact`: the result is the target that the compact
/// value expands to.
#[verifier::external_body]
fn compact_target(bits: u32) -> (r: U256)
    ensures
        r@ == expand(bits),
{
    let c = bitcoin::CompactTarget::from_consensus(bits);
    let b = bitcoin::Target::from_compact(c).to_le_bytes();
    U256 {
        lo: u128::from_le_bytes(b[..16].try_into().unwrap()),
        hi: u128::from_le_bytes(b[16..].try_into().unwrap()),
    }
}

/// `bitcoin::Target::is_met_by`: true exactly when the hash, read as a number
/// with its least significant byte first, is at most the target.
#[verifier::external_body]
fn target_met(target: &U256, hash: &Hash32) -> (r: bool)
    ensures
        r == (le_value(hash@) <= target@),
{
    let mut b = [0u8; 32];
    b[..16].copy_from_slice(&target.lo.to_le_bytes());
    b[16..].copy_from_slice(&target.hi.to_le_bytes());
    bitcoin::Target::from_le_bytes(b).is_met_by(bitcoin::hashes::Hash::from_byte_array(hash.bytes))
}

/// `bitcoin::Target::to_work`: for a target of two or more the result is two
/// to the power 256 divided by the target plus one, rounded down; for the
/// targets zero and one it is the largest 256-bit number.
#[verifier::external_body]
fn target_work(target: &U256) -> (r: U256)
    ensures
        target@ >= 2 ==> r@ == two_256() / (target@ + 1),
        target@ <= 1 ==> r@ == two_256() - 1,
{
    let mut b = [0u8; 32];
    b[..16].copy_from_slice(&target.lo.to_le_bytes());
    b[16..].copy_from_slice(&target.hi.to_le_bytes());
    let w = bitcoin::Target::from_le_bytes(b).to_work().to_le_bytes();
    U256 {
        lo: u128::from_le_bytes(w[..16].try_into().unwrap()),
        hi: u128::from_le_bytes(w[16..].try_into().unwrap()),
    }
}

/// The work of one header with the given compact target, where it is below
/// two to the power 256: that is, for every target but zero.
pub fn header_work(bits: u32) -> (r: Option<U256>)
    ensures
        r.is_some() <==> expand(bits) > 0,
        r.is_some() ==> r.unwrap()@ == block_work(bits) && r.unwrap()@ >= 1,
{
    let target = compact_target(bits);
    proof {
        crate::num::lemma_u256_bounds(target, U256 { hi: 0, lo: 0 });
        crate::num::lemma_u256_bounds(target, U256 { hi: 0, lo: 1 });
        assert(U256 { hi: 0, lo: 0 }@ == 0);
        assert(U256 { hi: 0, lo: 1 }@ == 1);
        let t = target@ as int;
        let n = two_256() as int;
        if t >= 1 {
            assert(n / (t + 1) >= 1 && n / (t + 1) < n) by (nonlinear_arith)
                requires
                    1 <= t < n,
            ;
        }
    }
    if target.hi == 0 && target.lo == 0 {
        None
    } else if target.hi == 0 && target.lo == 1 {
        let half: u128 = 0x8000_0000_0000_0000_0000_0000_0000_0000;
        proof {
            let h = half as int;
            assert(two_128() == 2 * h);
            assert(((2 * h) * (2 * h)) / 2 == h * (2 * h)) by (nonlinear_arith);
            assert(target@ == 1);
            assert(two_256() == (2 * h) * (2 * h));
        }
        Some(U256 { hi: half, lo: 0 })
    } else {
        Some(target_work(&target))
    }
}

} // verus!
