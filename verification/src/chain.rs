//! The store of block headers: a tree rooted at the genesis header, with the
//! header of greatest cumulative work as its tip.

use crate::error::SpvError;
use crate::num::{lemma_u256_bounds, two_256, U256};
use crate::retarget::{lemma_push_on_target, lemma_remove_on_target, on_target};
use crate::pow::{
    block_work, header_work, lemma_block_work_positive, next_bits, retargetable, retargeted, Hash32,
    Header, Network, Rules,
};
use vstd::prelude::*;

verus! {

/// A header as the store holds it.
#[derive(Clone, Copy, Debug, PartialEq, Eq)]
pub struct StoredHeader {
    /// The header.
    pub header: Header,
    /// The header's hash.
    pub hash: Hash32,
    /// The number of headers between this one and the genesis header.
    pub height: u32,
    /// The work of this header and of all headers it builds on.
    pub work: U256,
}

/// The sequence of headers of a store, in the order in which they came.
pub type Chain = Seq<StoredHeader>;

/// Whether the chain holds a header with the given hash.
pub open spec fn known(s: Chain, hash: Seq<u8>) -> bool {
    exists|j: int| 0 <= j < s.len() && #[trigger] s[j].hash@ == hash
}

/// The place of the header with the given hash, where the chain holds one.
pub open spec fn index_of(s: Chain, hash: Seq<u8>) -> int {
    choose|j: int| 0 <= j < s.len() && #[trigger] s[j].hash@ == hash
}

/// The place of the header that the header at `i` builds on.
pub open spec fn parent(s: Chain, i: int) -> int {
    index_of(s, s[i].header.prev_hash@)
}

/// The header at `i` builds on an earlier header of the chain, one higher
/// and with that header's work plus its own.
pub open spec fn linked(s: Chain, i: int) -> bool {
    let p = parent(s, i);
    &&& 0 <= p < i
    &&& s[p].hash@ == s[i].header.prev_hash@
    &&& s[i].height == s[p].height + 1
    &&& s[i].work@ == s[p].work@ + block_work(s[i].header.bits)
}

/// No two headers of the chain have the same hash.
pub open spec fn distinct(s: Chain) -> bool {
    forall|i: int, j: int|
        0 <= i < s.len() && 0 <= j < s.len() && i != j ==> #[trigger] s[i].hash@ != #[trigger] s[j].hash@
}

/// What holds of every chain of a store: each header carries its own hash
/// and meets its target, no hash occurs twice, the first header is the
/// genesis header, and every other header builds on an earlier one.
pub open spec fn valid_chain(s: Chain) -> bool {
    &&& forall|i: int|
        0 <= i < s.len() ==> (#[trigger] s[i]).hash@ == s[i].header.digest() && s[i].header.pow_ok()
    &&& distinct(s)
    &&& s.len() > 0 ==> s[0].height == 0 && s[0].work@ == block_work(s[0].header.bits)
    &&& forall|i: int| 0 < i < s.len() ==> #[trigger] linked(s, i)
}

/// The place of the tip: the first header among those of greatest work.
pub open spec fn best(s: Chain) -> int
    decreases s.len(),
{
    if s.len() <= 1 {
        0
    } else {
        let b = best(s.drop_last());
        if s.last().work@ > s[b].work@ {
            s.len() - 1
        } else {
            b
        }
    }
}

/// The tip has the greatest work of the chain, and every header before it
/// has less: among headers of equal work the first to come is the tip.
pub proof fn lemma_best(s: Chain)
    requires
        s.len() > 0,
    ensures
        0 <= best(s) < s.len(),
        forall|i: int| 0 <= i < s.len() ==> (#[trigger] s[i]).work@ <= s[best(s)].work@,
        forall|i: int| 0 <= i < best(s) ==> (#[trigger] s[i]).work@ < s[best(s)].work@,
    decreases s.len(),
{
    if s.len() > 1 {
        let d = s.drop_last();
        lemma_best(d);
        assert forall|i: int| 0 <= i < s.len() implies (#[trigger] s[i]).work@ <= s[best(s)].work@ by {
            if i < d.len() {
                assert(d[i] == s[i]);
            }
        }
        assert forall|i: int| 0 <= i < best(s) implies (#[trigger] s[i]).work@ < s[best(s)].work@ by {
            assert(d[i] == s[i]);
        }
    }
}

/// A place that has the two properties of the tip is the tip.
pub proof fn lemma_best_unique(s: Chain, t: int)
    requires
        0 <= t < s.len(),
        forall|i: int| 0 <= i < s.len() ==> (#[trigger] s[i]).work@ <= s[t].work@,
        forall|i: int| 0 <= i < t ==> (#[trigger] s[i]).work@ < s[t].work@,
    ensures
        best(s) == t,
{
    lemma_best(s);
    let b = best(s);
    if b < t {
        assert(s[b].work@ < s[t].work@);
        assert(s[t].work@ <= s[b].work@);
    }
    if t < b {
        assert(s[t].work@ < s[b].work@);
        assert(s[b].work@ <= s[t].work@);
    }
}

/// In a chain without repeated hashes a header's hash is found at the
/// header's own place.
pub proof fn lemma_index_of(s: Chain, j: int)
    requires
        distinct(s),
        0 <= j < s.len(),
    ensures
        known(s, s[j].hash@),
        index_of(s, s[j].hash@) == j,
{
    assert(s[j].hash@ == s[j].hash@);
    let k = index_of(s, s[j].hash@);
    assert(0 <= k < s.len() && s[k].hash@ == s[j].hash@);
}

/// What becomes of a header that is offered to a chain.
#[derive(Clone, Copy, Debug, PartialEq, Eq, Structural)]
pub enum Placement {
    /// The chain holds the header already.
    Known,
    /// The header's hash is above its target, or its target is not the one
    /// that the network lays down.
    BadPow,
    /// The chain does not hold the header that this one builds on.
    Orphan,
    /// The header's height or work is more than the store can represent, or
    /// the target that the network lays down cannot be computed.
    Full,
    /// The header is stored on a branch that has no more work than the tip.
    Side,
    /// The header builds on the tip and becomes the tip.
    Extends,
    /// The header builds on another header and has more work than the tip:
    /// its branch becomes the trunk.
    Reorg,
}

/// The height and the sum of work of a header that builds on the header at
/// `p` can be represented.
pub open spec fn fits(s: Chain, p: int, bits: u32) -> bool {
    s[p].height < u32::MAX && s[p].work@ + block_work(bits) < two_256()
}

/// The last header at or below `i` that does not have the easiest target by
/// exception: walking down from `i`, the first header that has another
/// target, stands at the start of an interval, or is the genesis header.
pub open spec fn last_real(limit_bits: u32, interval: int, s: Chain, i: int) -> int
    decreases i,
{
    if 0 < i < s.len() && 0 <= parent(s, i) < i && s[i].height as int % interval != 0
        && s[i].header.bits == limit_bits {
        last_real(limit_bits, interval, s, parent(s, i))
    } else {
        i
    }
}

/// The seconds that the interval took which ends with the header at `p`:
/// from the time of the header `interval - 1` steps below it to its own;
/// zero if the times run backwards.
pub open spec fn timespan(s: Chain, p: int, interval: int) -> u64 {
    let first = nth_parent(s, p, (interval - 1) as nat);
    if s[p].header.time >= s[first].header.time {
        (s[p].header.time - s[first].header.time) as u64
    } else {
        0
    }
}

/// The compact target that the network lays down for a header of the given
/// time that builds on the header at `p`. Within an interval it is the
/// target of the header below; where late headers may have the easiest
/// target, it is that target for a header that comes more than two
/// spacings late, and else the target of the last header that did not have
/// it by exception. At the start of an interval the target is set anew,
/// from the time that the last interval took; there is none where the last
/// target is one from which no new target can be computed.
pub open spec fn required_bits(net: Network, s: Chain, p: int, time: u32) -> Option<u32> {
    let r = net.rules();
    if (s[p].height + 1) % (r.interval as int) != 0 {
        if !r.min_difficulty {
            Some(s[p].header.bits)
        } else if time > s[p].header.time + 2 * r.spacing {
            Some(r.limit_bits)
        } else {
            Some(s[last_real(r.limit_bits, r.interval as int, s, p)].header.bits)
        }
    } else if r.no_retargeting {
        Some(s[p].header.bits)
    } else if retargetable(s[p].header.bits) {
        Some(retargeted(s[p].header.bits, timespan(s, p, r.interval as int), r.limit_bits))
    } else {
        None
    }
}

/// What becomes of `h` when it is offered to the chain `s` of the network
/// `net`.
pub open spec fn placement(net: Network, s: Chain, h: Header) -> Placement {
    let p = index_of(s, h.prev_hash@);
    if !h.pow_ok() {
        Placement::BadPow
    } else if known(s, h.digest()) {
        Placement::Known
    } else if !known(s, h.prev_hash@) {
        Placement::Orphan
    } else if required_bits(net, s, p, h.time).is_none() {
        Placement::Full
    } else if required_bits(net, s, p, h.time) != Some(h.bits) {
        Placement::BadPow
    } else if !fits(s, p, h.bits) {
        Placement::Full
    } else if p == best(s) {
        Placement::Extends
    } else if s[p].work@ + block_work(h.bits) > s[best(s)].work@ {
        Placement::Reorg
    } else {
        Placement::Side
    }
}

/// Whether the chain takes the header in.
pub open spec fn stores(net: Network, s: Chain, h: Header) -> bool {
    placement(net, s, h) == Placement::Side || placement(net, s, h) == Placement::Extends || placement(net, s, h)
        == Placement::Reorg
}

/// `e` is the form in which the chain `s` stores the header `h`.
pub open spec fn entry_for(s: Chain, h: Header, e: StoredHeader) -> bool {
    let p = index_of(s, h.prev_hash@);
    &&& e.header == h
    &&& e.hash@ == h.digest()
    &&& e.height == s[p].height + 1
    &&& e.work@ == s[p].work@ + block_work(h.bits)
}

/// The form in which the chain `s` stores the header `h`.
pub open spec fn new_entry(s: Chain, h: Header) -> StoredHeader {
    choose|e: StoredHeader| entry_for(s, h, e)
}

/// The chain after `h` was offered to it.
pub open spec fn after_add(net: Network, s: Chain, h: Header) -> Chain {
    if stores(net, s, h) {
        s.push(new_entry(s, h))
    } else {
        s
    }
}

/// A header whose hash has 32 bytes and which the chain takes in has a form
/// in which it is stored.
pub proof fn lemma_entry_exists(net: Network, s: Chain, h: Header)
    requires
        h.digest().len() == 32,
        stores(net, s, h),
    ensures
        entry_for(s, h, new_entry(s, h)),
{
    let p = index_of(s, h.prev_hash@);
    crate::pow::lemma_hash_exists(h.digest());
    let x = choose|x: Hash32| x@ == h.digest();
    let n = (s[p].work@ + block_work(h.bits)) as nat;
    crate::num::lemma_u256_exists(n);
    let w = choose|w: U256| w@ == n;
    let e = StoredHeader { header: h, hash: x, height: (s[p].height + 1) as u32, work: w };
    assert(entry_for(s, h, e));
}

/// There is one form only in which a chain stores a header.
pub proof fn lemma_entry_unique(s: Chain, h: Header, e: StoredHeader)
    requires
        entry_for(s, h, e),
    ensures
        new_entry(s, h) == e,
{
    let n = new_entry(s, h);
    assert(entry_for(s, h, n));
    assert(n.hash.bytes@ =~= e.hash.bytes@);
    assert(n.hash.bytes == e.hash.bytes);
    lemma_u256_bounds(n.work, e.work);
}

/// The header at which the branches that end at `a` and at `b` part: the
/// last header that both build on.
pub open spec fn fork(s: Chain, a: int, b: int) -> int
    decreases a + b,
{
    if a == b {
        a
    } else if a <= 0 || b <= 0 || a >= s.len() || b >= s.len() {
        0
    } else if !(0 <= parent(s, a) < a && 0 <= parent(s, b) < b) {
        0
    } else if s[a].height > s[b].height {
        fork(s, parent(s, a), b)
    } else if s[b].height > s[a].height {
        fork(s, a, parent(s, b))
    } else {
        fork(s, parent(s, a), parent(s, b))
    }
}

/// The hashes of the headers from the one at `from` down to the one at `to`,
/// which `from` builds on; the hash at `to` is left out.
pub open spec fn path_down(s: Chain, from: int, to: int) -> Seq<Hash32>
    decreases from,
{
    if from <= to || from >= s.len() || !(0 <= parent(s, from) < from) {
        Seq::empty()
    } else {
        seq![s[from].hash] + path_down(s, parent(s, from), to)
    }
}

/// The hashes that leave the trunk when `h` is stored: from the old tip
/// down to where the branch of `h` parts from the trunk.
pub open spec fn unwinds(s: Chain, h: Header) -> Seq<Hash32> {
    let p = index_of(s, h.prev_hash@);
    path_down(s, best(s), fork(s, best(s), p))
}

/// The hashes that join the trunk when `h` is stored: from where the branch
/// of `h` parts from the trunk up to `h` itself.
pub open spec fn forwards(s: Chain, h: Header) -> Seq<Hash32> {
    let p = index_of(s, h.prev_hash@);
    path_down(s, p, fork(s, best(s), p)).reverse().push(new_entry(s, h).hash)
}

/// Only the genesis header has height zero.
pub proof fn lemma_height_zero(s: Chain, i: int)
    requires
        valid_chain(s),
        0 <= i < s.len(),
    ensures
        s[i].height == 0 <==> i == 0,
{
    if i > 0 {
        assert(linked(s, i));
    }
}

/// The fork of two branches lies at or before both of their ends.
pub proof fn lemma_fork_below(s: Chain, a: int, b: int)
    requires
        0 <= a < s.len(),
        0 <= b < s.len(),
    ensures
        0 <= fork(s, a, b) <= a,
        fork(s, a, b) <= b,
    decreases a + b,
{
    if a == b {
    } else if a <= 0 || b <= 0 {
    } else if !(0 <= parent(s, a) < a && 0 <= parent(s, b) < b) {
    } else if s[a].height > s[b].height {
        lemma_fork_below(s, parent(s, a), b);
    } else if s[b].height > s[a].height {
        lemma_fork_below(s, a, parent(s, b));
    } else {
        lemma_fork_below(s, parent(s, a), parent(s, b));
    }
}

/// Storing a header keeps the chain valid, and the new header becomes the tip
/// exactly when it has more work than the old tip.
pub proof fn lemma_push_valid(net: Network, s: Chain, h: Header, e: StoredHeader)
    requires
        valid_chain(s),
        stores(net, s, h),
        entry_for(s, h, e),
    ensures
        after_add(net, s, h) == s.push(e),
        valid_chain(s.push(e)),
        best(s.push(e)) == (if e.work@ > s[best(s)].work@ {
            s.len() as int
        } else {
            best(s)
        }),
{
    lemma_entry_unique(s, h, e);
    let n = s.len() as int;
    let t = s.push(e);
    let p = index_of(s, h.prev_hash@);
    assert(known(s, h.prev_hash@));
    assert(0 <= p < n && s[p].hash@ == h.prev_hash@);
    assert(!known(s, h.digest()));
    assert forall|i: int, j: int| 0 <= i < t.len() && 0 <= j < t.len() && i != j implies #[trigger] t[i].hash@
        != #[trigger] t[j].hash@ by {
        if i < n && j < n {
            assert(s[i].hash@ != s[j].hash@);
        } else if i < n {
            assert(s[i].hash@ != h.digest());
        } else {
            assert(s[j].hash@ != h.digest());
        }
    }
    assert(distinct(t));
    assert forall|i: int| 0 < i < t.len() implies #[trigger] linked(t, i) by {
        if i < n {
            assert(linked(s, i));
            let q = parent(s, i);
            lemma_index_of(t, q);
            assert(t[q].hash@ == t[i].header.prev_hash@);
        } else {
            lemma_index_of(t, p);
            assert(t[p].hash@ == t[i].header.prev_hash@);
        }
    }
    assert(t.drop_last() =~= s);
    lemma_best(s);
    assert(t.last() == e);
    assert(t[best(s)] == s[best(s)]);
}

/// A header has more work than the header it builds on, so the tip has no
/// header that builds on it.
pub proof fn lemma_tip_is_leaf(s: Chain, i: int)
    requires
        valid_chain(s),
        0 < i < s.len(),
    ensures
        parent(s, i) != best(s),
        s[i].work@ > s[parent(s, i)].work@,
{
    assert(linked(s, i));
    lemma_block_work_positive(s[i].header.bits);
    lemma_best(s);
}

/// Taking the tip out of a valid chain leaves a valid chain.
pub proof fn lemma_remove_tip_valid(s: Chain)
    requires
        valid_chain(s),
        s.len() > 0,
    ensures
        valid_chain(s.remove(best(s))),
{
    lemma_best(s);
    let t = best(s);
    let r = s.remove(t);
    if t == 0 && s.len() > 1 {
        lemma_tip_is_leaf(s, 1);
        assert(linked(s, 1));
    }
    assert forall|i: int, j: int| 0 <= i < r.len() && 0 <= j < r.len() && i != j implies #[trigger] r[i].hash@
        != #[trigger] r[j].hash@ by {
        let oi = if i < t { i } else { i + 1 };
        let oj = if j < t { j } else { j + 1 };
        assert(s[oi].hash@ != s[oj].hash@);
    }
    assert(distinct(r));
    assert forall|i: int| 0 < i < r.len() implies #[trigger] linked(r, i) by {
        let oi = if i < t { i } else { i + 1 };
        lemma_tip_is_leaf(s, oi);
        assert(linked(s, oi));
        let q = parent(s, oi);
        let nq = if q < t { q } else { q - 1 };
        assert(r[nq] == s[q]);
        lemma_index_of(r, nq);
        assert(r[nq].hash@ == r[i].header.prev_hash@);
    }
    assert forall|i: int| 0 <= i < r.len() implies (#[trigger] r[i]).hash@ == r[i].header.digest()
        && r[i].header.pow_ok() by {
        let oi = if i < t { i } else { i + 1 };
        assert(r[i] == s[oi]);
    }
}

/// The place of the header that the header at `i` builds on; the genesis
/// header stands for its own.
pub open spec fn step_down(s: Chain, i: int) -> int {
    if 0 < i < s.len() && 0 <= parent(s, i) < i {
        parent(s, i)
    } else {
        i
    }
}

/// The place reached from `i` by `n` steps towards the genesis header.
pub open spec fn nth_parent(s: Chain, i: int, n: nat) -> int
    decreases n,
{
    if n == 0 {
        i
    } else {
        step_down(s, nth_parent(s, i, (n - 1) as nat))
    }
}

/// The part of the locator of the branch that ends at `t`, at height `top`,
/// which starts `off` headers below `t`; it ends with the genesis hash. The
/// distances from `t` are 0, 1, 2, 4, 8 and so on.
pub open spec fn locator_from(s: Chain, t: int, top: nat, off: nat) -> Seq<Hash32>
    decreases
            (if off < top {
                top - off
            } else {
                0
            }),
{
    if off >= top {
        seq![s[0].hash]
    } else {
        seq![s[nth_parent(s, t, off)].hash] + locator_from(
            s,
            t,
            top,
            if off == 0 {
                1
            } else {
                2 * off
            },
        )
    }
}

/// The locator of a chain: the hashes of the trunk at the distances 0, 1, 2,
/// 4, 8 and so on below the tip, as far as they lie above the genesis
/// header, and then the genesis hash. A chain without headers has none.
pub open spec fn locator(s: Chain) -> Seq<Hash32> {
    if s.len() == 0 {
        Seq::empty()
    } else {
        locator_from(s, best(s), s[best(s)].height as nat, 0)
    }
}

/// Stepping down from a header is stepping down from the header it builds
/// on, one step less.
pub proof fn lemma_nth_shift(s: Chain, a: int, n: nat)
    requires
        valid_chain(s),
        0 < a < s.len(),
    ensures
        nth_parent(s, a, n + 1) == nth_parent(s, parent(s, a), n),
    decreases n,
{
    assert(linked(s, a));
    if n == 0 {
        assert(nth_parent(s, a, 1) == step_down(s, nth_parent(s, a, 0)));
    } else {
        lemma_nth_shift(s, a, (n - 1) as nat);
    }
}

/// Each step down from a header lowers the height by one, until the genesis
/// header is reached.
pub proof fn lemma_nth_height(s: Chain, a: int, n: nat)
    requires
        valid_chain(s),
        0 <= a < s.len(),
        n <= s[a].height,
    ensures
        0 <= nth_parent(s, a, n) <= a,
        s[nth_parent(s, a, n)].height == s[a].height - n,
        n > 0 ==> nth_parent(s, a, n) < a,
    decreases n,
{
    if n > 0 {
        lemma_nth_height(s, a, (n - 1) as nat);
        let m = nth_parent(s, a, (n - 1) as nat);
        lemma_height_zero(s, m);
        assert(linked(s, m));
    }
}

/// The fork of two branches lies on both: it is reached from either end by
/// as many steps down as the end is higher than the fork.
pub proof fn lemma_fork_common(s: Chain, a: int, b: int)
    requires
        valid_chain(s),
        0 <= a < s.len(),
        0 <= b < s.len(),
    ensures
        0 <= fork(s, a, b) < s.len(),
        s[fork(s, a, b)].height <= s[a].height,
        s[fork(s, a, b)].height <= s[b].height,
        nth_parent(s, a, (s[a].height - s[fork(s, a, b)].height) as nat) == fork(s, a, b),
        nth_parent(s, b, (s[b].height - s[fork(s, a, b)].height) as nat) == fork(s, a, b),
    decreases a + b,
{
    lemma_fork_below(s, a, b);
    lemma_height_zero(s, a);
    lemma_height_zero(s, b);
    if a == b {
    } else if a <= 0 || b <= 0 {
        lemma_nth_height(s, a, s[a].height as nat);
        lemma_nth_height(s, b, s[b].height as nat);
        lemma_height_zero(s, nth_parent(s, a, s[a].height as nat));
        lemma_height_zero(s, nth_parent(s, b, s[b].height as nat));
    } else {
        assert(linked(s, a));
        assert(linked(s, b));
        let pa = parent(s, a);
        let pb = parent(s, b);
        if s[a].height > s[b].height {
            lemma_fork_common(s, pa, b);
            lemma_nth_shift(s, a, (s[pa].height - s[fork(s, a, b)].height) as nat);
        } else if s[b].height > s[a].height {
            lemma_fork_common(s, a, pb);
            lemma_nth_shift(s, b, (s[pb].height - s[fork(s, a, b)].height) as nat);
        } else {
            lemma_fork_common(s, pa, pb);
            lemma_nth_shift(s, a, (s[pa].height - s[fork(s, a, b)].height) as nat);
            lemma_nth_shift(s, b, (s[pb].height - s[fork(s, a, b)].height) as nat);
        }
    }
}

/// Above the fork the two branches share no header: at every height above
/// that of the fork, up to the lower of the two ends, they hold different
/// headers.
pub proof fn lemma_fork_deepest(s: Chain, a: int, b: int, k: int)
    requires
        valid_chain(s),
        0 <= a < s.len(),
        0 <= b < s.len(),
        s[fork(s, a, b)].height < k,
        k <= s[a].height,
        k <= s[b].height,
    ensures
        nth_parent(s, a, (s[a].height - k) as nat) != nth_parent(s, b, (s[b].height - k) as nat),
    decreases a + b,
{
    lemma_height_zero(s, a);
    lemma_height_zero(s, b);
    if a == b {
    } else if a <= 0 || b <= 0 {
    } else {
        assert(linked(s, a));
        assert(linked(s, b));
        let pa = parent(s, a);
        let pb = parent(s, b);
        if s[a].height > s[b].height {
            lemma_fork_deepest(s, pa, b, k);
            lemma_nth_shift(s, a, (s[pa].height - k) as nat);
        } else if s[b].height > s[a].height {
            lemma_fork_deepest(s, a, pb, k);
            lemma_nth_shift(s, b, (s[pb].height - k) as nat);
        } else if k < s[a].height {
            lemma_fork_deepest(s, pa, pb, k);
            lemma_nth_shift(s, a, (s[pa].height - k) as nat);
            lemma_nth_shift(s, b, (s[pb].height - k) as nat);
        }
    }
}

/// The path from a header down to a header `n` steps below it holds `n`
/// hashes: that of the header itself, and of each header on the way.
pub proof fn lemma_path_steps(s: Chain, a: int, n: nat)
    requires
        valid_chain(s),
        0 <= a < s.len(),
        n <= s[a].height,
    ensures
        path_down(s, a, nth_parent(s, a, n)).len() == n,
        forall|j: int|
            0 <= j < n ==> #[trigger] path_down(s, a, nth_parent(s, a, n))[j] == s[nth_parent(
                s,
                a,
                j as nat,
            )].hash,
    decreases n,
{
    let f = nth_parent(s, a, n);
    lemma_nth_height(s, a, n);
    if n > 0 {
        lemma_height_zero(s, a);
        assert(linked(s, a));
        let pa = parent(s, a);
        lemma_nth_shift(s, a, (n - 1) as nat);
        lemma_path_steps(s, pa, (n - 1) as nat);
        let rest = path_down(s, pa, f);
        assert forall|j: int| 0 <= j < n implies #[trigger] path_down(s, a, f)[j] == s[nth_parent(
            s,
            a,
            j as nat,
        )].hash by {
            if j > 0 {
                lemma_nth_shift(s, a, (j - 1) as nat);
                assert(path_down(s, a, f)[j] == rest[j - 1]);
            }
        }
    }
}

/// The hashes that leave the trunk in a reorganisation are those of the old
/// tip and of the headers below it, as far as they lie above the fork.
pub proof fn lemma_unwinds_are_trunk(s: Chain, h: Header, j: int)
    requires
        valid_chain(s),
        s.len() > 0,
        known(s, h.prev_hash@),
        0 <= j < unwinds(s, h).len(),
    ensures
        unwinds(s, h).len() == s[best(s)].height - s[fork(
            s,
            best(s),
            index_of(s, h.prev_hash@),
        )].height,
        unwinds(s, h)[j] == s[nth_parent(s, best(s), j as nat)].hash,
{
    lemma_best(s);
    let t = best(s);
    let p = index_of(s, h.prev_hash@);
    lemma_fork_common(s, t, p);
    lemma_path_steps(s, t, (s[t].height - s[fork(s, t, p)].height) as nat);
}

/// How many hashes leave the trunk in a reorganisation: as many as the old
/// tip is higher than the fork.
pub proof fn lemma_unwinds_count(s: Chain, h: Header)
    requires
        valid_chain(s),
        s.len() > 0,
        known(s, h.prev_hash@),
    ensures
        unwinds(s, h).len() == s[best(s)].height - s[fork(
            s,
            best(s),
            index_of(s, h.prev_hash@),
        )].height,
{
    lemma_best(s);
    let t = best(s);
    let p = index_of(s, h.prev_hash@);
    lemma_fork_common(s, t, p);
    lemma_path_steps(s, t, (s[t].height - s[fork(s, t, p)].height) as nat);
}

/// Every stored header meets the target that it names.
pub proof fn lemma_stored_meets_target(s: Chain, i: int)
    requires
        valid_chain(s),
        0 <= i < s.len(),
    ensures
        crate::pow::le_value(s[i].hash@) <= crate::pow::expand(s[i].header.bits),
{
    assert(s[i].header.pow_ok());
}

/// A stored header that has no more work than the tip leaves the tip where
/// it is; one with more work becomes the tip.
pub proof fn lemma_incumbent_stays(net: Network, s: Chain, h: Header, e: StoredHeader)
    requires
        valid_chain(s),
        stores(net, s, h),
        entry_for(s, h, e),
    ensures
        e.work@ <= s[best(s)].work@ ==> best(after_add(net, s, h)) == best(s),
        e.work@ > s[best(s)].work@ ==> best(after_add(net, s, h)) == s.len(),
        placement(net, s, h) == Placement::Side <==> e.work@ <= s[best(s)].work@,
{
    lemma_push_valid(net, s, h, e);
    lemma_best(s);
    lemma_block_work_positive(h.bits);
}

/// A header that was offered without an error is known afterwards: offering
/// it again changes nothing.
pub proof fn lemma_add_twice(net: Network, s: Chain, h: Header, e: StoredHeader)
    requires
        valid_chain(s),
        placement(net, s, h) == Placement::Known || (stores(net, s, h) && entry_for(s, h, e)),
    ensures
        placement(net, after_add(net, s, h), h) == Placement::Known,
        after_add(net, after_add(net, s, h), h) == after_add(net, s, h),
{
    if stores(net, s, h) {
        lemma_push_valid(net, s, h, e);
        let t = s.push(e);
        assert(t[s.len() as int].hash@ == h.digest());
    }
}

/// After a header became the tip, unwinding the tip gives back the chain as
/// it was, and with it the old tip.
pub proof fn lemma_reorg_undone(net: Network, s: Chain, h: Header, e: StoredHeader)
    requires
        valid_chain(s),
        placement(net, s, h) == Placement::Reorg || placement(net, s, h) == Placement::Extends,
        entry_for(s, h, e),
    ensures
        best(after_add(net, s, h)) == s.len(),
        after_add(net, s, h).remove(best(after_add(net, s, h))) == s,
{
    lemma_incumbent_stays(net, s, h, e);
    lemma_push_valid(net, s, h, e);
    assert(s.push(e).remove(s.len() as int) =~= s);
}

/// The headers that the chain holds under the given hashes.
pub open spec fn headers_of(s: Chain, hashes: Seq<Hash32>) -> Seq<Header> {
    Seq::new(hashes.len(), |j: int| s[index_of(s, hashes[j]@)].header)
}

/// Every hash on a path through the chain is the hash of a header of the
/// chain.
pub proof fn lemma_path_known(s: Chain, from: int, to: int)
    requires
        valid_chain(s),
        0 <= from < s.len(),
    ensures
        forall|j: int|
            0 <= j < path_down(s, from, to).len() ==> known(s, (#[trigger] path_down(s, from, to)[j])@),
    decreases from,
{
    if from <= to || !(0 <= parent(s, from) < from) {
    } else {
        lemma_path_known(s, parent(s, from), to);
        let rest = path_down(s, parent(s, from), to);
        let all = path_down(s, from, to);
        assert forall|j: int| 0 <= j < all.len() implies known(s, (#[trigger] all[j])@) by {
            if j == 0 {
                assert(s[from].hash@ == all[0]@);
            } else {
                assert(all[j] == rest[j - 1]);
            }
        }
    }
}

/// Storing one more header does not change the headers that the chain holds
/// under hashes it knew before.
pub proof fn lemma_headers_of_push(s: Chain, e: StoredHeader, hashes: Seq<Hash32>)
    requires
        distinct(s.push(e)),
        forall|j: int| 0 <= j < hashes.len() ==> known(s, (#[trigger] hashes[j])@),
    ensures
        headers_of(s.push(e), hashes) == headers_of(s, hashes),
        forall|j: int| 0 <= j < hashes.len() ==> known(s.push(e), (#[trigger] hashes[j])@),
{
    let t = s.push(e);
    assert forall|j: int| 0 <= j < hashes.len() implies s[index_of(s, hashes[j]@)].header
        == t[index_of(t, hashes[j]@)].header && known(t, (#[trigger] hashes[j])@) by {
        assert(known(s, hashes[j]@));
        let k = index_of(s, hashes[j]@);
        assert(t[k] == s[k]);
        lemma_index_of(t, k);
    }
    assert(headers_of(t, hashes) =~= headers_of(s, hashes));
}

/// Offering a header to a valid chain leaves a valid chain that is no
/// shorter. The tip moves to the new header exactly when the header extends
/// the tip or reorganises the chain.
pub proof fn lemma_tip_after_add(net: Network, s: Chain, h: Header)
    requires
        valid_chain(s),
        s.len() > 0,
        stores(net, s, h) ==> entry_for(s, h, new_entry(s, h)),
    ensures
        valid_chain(after_add(net, s, h)),
        s.len() <= after_add(net, s, h).len(),
        placement(net, s, h) == Placement::Extends || placement(net, s, h) == Placement::Reorg ==> best(
            after_add(net, s, h),
        ) == s.len(),
        !(placement(net, s, h) == Placement::Extends || placement(net, s, h) == Placement::Reorg) ==> best(
            after_add(net, s, h),
        ) == best(s),
{
    if stores(net, s, h) {
        lemma_incumbent_stays(net, s, h, new_entry(s, h));
        lemma_push_valid(net, s, h, new_entry(s, h));
    }
}

/// The hashes that leave the trunk in a reorganisation are hashes of the
/// chain, before and after, and stand for the same headers.
pub proof fn lemma_unwound_headers(net: Network, s: Chain, h: Header)
    requires
        valid_chain(s),
        s.len() > 0,
        stores(net, s, h),
        entry_for(s, h, new_entry(s, h)),
    ensures
        headers_of(after_add(net, s, h), unwinds(s, h)) == headers_of(s, unwinds(s, h)),
        forall|j: int|
            0 <= j < unwinds(s, h).len() ==> known(after_add(net, s, h), (#[trigger] unwinds(s, h)[j])@),
{
    lemma_best(s);
    lemma_push_valid(net, s, h, new_entry(s, h));
    lemma_path_known(s, best(s), fork(s, best(s), index_of(s, h.prev_hash@)));
    lemma_headers_of_push(s, new_entry(s, h), unwinds(s, h));
}

/// The locator of a chain with headers starts with the hash of the tip.
pub proof fn lemma_locator_starts_at_tip(s: Chain)
    requires
        valid_chain(s),
        s.len() > 0,
    ensures
        locator(s).len() > 0,
        locator(s)[0] == s[best(s)].hash,
{
    lemma_best(s);
    lemma_height_zero(s, best(s));
}

/// The hashes that join the trunk below the new header are not the hash of
/// the old tip.
pub proof fn lemma_joined_not_tip(s: Chain, p: int, j: int)
    requires
        valid_chain(s),
        0 <= p < s.len(),
        0 <= j < path_down(s, p, fork(s, best(s), p)).len(),
    ensures
        path_down(s, p, fork(s, best(s), p))[j]@ != s[best(s)].hash@,
{
    lemma_best(s);
    let t = best(s);
    let f = fork(s, t, p);
    lemma_fork_common(s, t, p);
    let n = (s[p].height - s[f].height) as nat;
    lemma_path_steps(s, p, n);
    let x = nth_parent(s, p, j as nat);
    lemma_nth_height(s, p, j as nat);
    lemma_nth_height(s, t, 0);
    if s[x].hash@ == s[t].hash@ {
        assert(x == t);
        lemma_fork_deepest(s, t, p, s[t].height as int);
    }
}

/// A reorganisation is undone by unwinding what joined the trunk, from the
/// new tip downwards, and offering again what left it. Unwinding the new
/// tip gives back the chain as it was, with its old tip; the other hashes
/// that joined are not the tip then, so unwinding them changes nothing;
/// and the headers that left the trunk are known, so offering them changes
/// nothing.
pub proof fn lemma_reorg_fully_undone(net: Network, s: Chain, h: Header, e: StoredHeader)
    requires
        valid_chain(s),
        placement(net, s, h) == Placement::Reorg,
        entry_for(s, h, e),
    ensures
        after_add(net, s, h).remove(best(after_add(net, s, h))) == s,
        forall|j: int|
            0 <= j < forwards(s, h).len() - 1 ==> (#[trigger] forwards(s, h)[j])@ != s[best(s)].hash@,
        forall|j: int|
            0 <= j < unwinds(s, h).len() ==> placement(
                net,
                s,
                #[trigger] headers_of(s, unwinds(s, h))[j],
            ) == Placement::Known,
{
    lemma_reorg_undone(net, s, h, e);
    lemma_best(s);
    let t = best(s);
    let p = index_of(s, h.prev_hash@);
    assert(known(s, h.prev_hash@));
    let f = fork(s, t, p);
    let up = path_down(s, p, f);
    assert forall|j: int| 0 <= j < forwards(s, h).len() - 1 implies (#[trigger] forwards(s, h)[j])@
        != s[t].hash@ by {
        lemma_joined_not_tip(s, p, up.len() - 1 - j);
        assert(forwards(s, h)[j] == up[up.len() - 1 - j]);
    }
    lemma_path_known(s, t, f);
    assert forall|j: int| 0 <= j < unwinds(s, h).len() implies placement(
        net,
        s,
        #[trigger] headers_of(s, unwinds(s, h))[j],
    ) == Placement::Known by {
        let u = unwinds(s, h)[j];
        assert(known(s, u@));
        let k = index_of(s, u@);
        assert(s[k].hash@ == s[k].header.digest() && s[k].header.pow_ok());
    }
}

/// What `add_header` hands back for a header that became the tip.
#[derive(Clone, Debug)]
pub struct Placed {
    /// The header as it was stored.
    pub stored: StoredHeader,
    /// After a reorganisation: the hashes that left the trunk, from the old
    /// tip downwards.
    pub unwinds: Option<Vec<Hash32>>,
    /// The hashes that joined the trunk, upwards, ending with the new tip.
    pub forwards: Option<Vec<Hash32>>,
}

/// The in-memory store of headers.
pub struct HeaderStore {
    network: Network,
    rules: Rules,
    entries: Vec<StoredHeader>,
    tip: usize,
}

impl View for HeaderStore {
    type V = Chain;

    closed spec fn view(&self) -> Chain {
        self.entries@
    }
}

impl HeaderStore {
    /// The store's invariant: its chain is valid, and the store knows its
    /// tip.
    pub closed spec fn wf(&self) -> bool {
        &&& self.rules == self.network.rules()
        &&& valid_chain(self.entries@)
        &&& on_target(self.network, self.entries@)
        &&& self.entries@.len() > 0 ==> self.tip == best(self.entries@)
    }

    /// A valid store holds a valid chain whose headers name the targets
    /// that the store's network lays down.
    pub proof fn lemma_wf(&self)
        requires
            self.wf(),
        ensures
            valid_chain(self@),
            on_target(self.network(), self@),
    {
    }

    /// The network whose rules the store applies.
    pub closed spec fn network(&self) -> Network {
        self.network
    }

    /// A store for the headers of the network, without any header.
    pub fn new(network: Network) -> (r: HeaderStore)
        ensures
            r.wf(),
            r@.len() == 0,
            r.network() == network,
    {
        HeaderStore { network, rules: network.get_rules(), entries: Vec::new(), tip: 0 }
    }

    /// The network whose rules the store applies.
    pub fn get_network(&self) -> (r: Network)
        ensures
            r == self.network(),
    {
        self.network
    }

    /// The number of headers in the store.
    pub fn len(&self) -> (r: usize)
        ensures
            r == self@.len(),
    {
        self.entries.len()
    }

    /// Puts the genesis header into a store that holds no header yet; a store
    /// that holds one is left as it is. The header must meet its own target,
    /// and its work must be below two to the power 256.
    pub fn init(&mut self, genesis: &Header) -> (r: Result<(), SpvError>)
        requires
            old(self).wf(),
        ensures
            final(self).wf(),
            final(self).network() == old(self).network(),
            old(self)@.len() > 0 ==> r.is_ok() && final(self)@ == old(self)@,
            old(self)@.len() == 0 ==> (r.is_ok() <==> genesis.pow_ok() && crate::pow::expand(
                genesis.bits,
            ) > 0),
            old(self)@.len() == 0 && !genesis.pow_ok() ==> r == Err::<(), SpvError>(
                SpvError::BadProofOfWork,
            ),
            old(self)@.len() == 0 && genesis.pow_ok() && r.is_err() ==> r == Err::<(), SpvError>(
                SpvError::StoreError,
            ),
            r.is_err() ==> final(self)@ == old(self)@,
            old(self)@.len() == 0 && r.is_ok() ==> {
                &&& final(self)@.len() == 1
                &&& final(self)@[0].header == *genesis
                &&& final(self)@[0].hash@ == genesis.digest()
                &&& final(self)@[0].height == 0
                &&& final(self)@[0].work@ == block_work(genesis.bits)
            },
    {
        if self.entries.len() > 0 {
            return Ok(());
        }
        if !genesis.check_pow() {
            return Err(SpvError::BadProofOfWork);
        }
        match header_work(genesis.bits) {
            None => Err(SpvError::StoreError),
            Some(work) => {
                let e = StoredHeader { header: *genesis, hash: genesis.hash(), height: 0, work };
                self.entries.push(e);
                self.tip = 0;
                Ok(())
            },
        }
    }

    /// The place of the header with the given hash.
    fn find(&self, hash: &Hash32) -> (r: Option<usize>)
        ensures
            r.is_some() <==> known(self@, hash@),
            r.is_some() ==> r.unwrap() < self@.len() && self@[r.unwrap() as int].hash@ == hash@,
            r.is_some() && distinct(self@) ==> r.unwrap() == index_of(self@, hash@),
    {
        let mut i: usize = 0;
        while i < self.entries.len()
            invariant
                i <= self.entries@.len(),
                forall|j: int| 0 <= j < i ==> (#[trigger] self.entries@[j]).hash@ != hash@,
            decreases self.entries@.len() - i,
        {
            if self.entries[i].hash.same(hash) {
                proof {
                    if distinct(self@) {
                        lemma_index_of(self@, i as int);
                    }
                }
                return Some(i);
            }
            i += 1;
        }
        None
    }

    /// The two branches that end at `t` and at `p`, each from its end down
    /// to the fork.
    fn branches(&self, t: usize, p: usize) -> (r: (Vec<Hash32>, Vec<Hash32>))
        requires
            self.wf(),
            t < self@.len(),
            p < self@.len(),
        ensures
            r.0@ == path_down(self@, t as int, fork(self@, t as int, p as int)),
            r.1@ == path_down(self@, p as int, fork(self@, t as int, p as int)),
    {
        let ghost s = self@;
        let ghost f = fork(s, t as int, p as int);
        let mut down: Vec<Hash32> = Vec::new();
        let mut up: Vec<Hash32> = Vec::new();
        let mut a: usize = t;
        let mut b: usize = p;
        while a != b
            invariant
                self.wf(),
                s == self@,
                a < s.len(),
                b < s.len(),
                fork(s, a as int, b as int) == f,
                down@ + path_down(s, a as int, f) == path_down(s, t as int, f),
                up@ + path_down(s, b as int, f) == path_down(s, p as int, f),
            decreases a + b,
        {
            let ha: u32 = self.entries[a].height;
            let hb: u32 = self.entries[b].height;
            proof {
                lemma_height_zero(s, a as int);
                lemma_height_zero(s, b as int);
                lemma_fork_below(s, a as int, b as int);
                if a > 0 {
                    assert(linked(s, a as int));
                    lemma_fork_below(s, parent(s, a as int), b as int);
                }
                if b > 0 {
                    assert(linked(s, b as int));
                    lemma_fork_below(s, a as int, parent(s, b as int));
                }
                if a > 0 && b > 0 {
                    lemma_fork_below(s, parent(s, a as int), parent(s, b as int));
                }
            }
            if ha >= hb {
                let pa = self.find(&self.entries[a].header.prev_hash);
                let ghost old_down = down@;
                down.push(self.entries[a].hash);
                assert(down@ + path_down(s, parent(s, a as int), f) =~= old_down + path_down(
                    s,
                    a as int,
                    f,
                ));
                match pa {
                    Some(q) => {
                        a = q;
                    },
                    None => {
                        assert(false);
                    },
                }
            }
            if hb >= ha {
                let pb = self.find(&self.entries[b].header.prev_hash);
                let ghost old_up = up@;
                up.push(self.entries[b].hash);
                assert(up@ + path_down(s, parent(s, b as int), f) =~= old_up + path_down(
                    s,
                    b as int,
                    f,
                ));
                match pb {
                    Some(q) => {
                        b = q;
                    },
                    None => {
                        assert(false);
                    },
                }
            }
        }
        assert(down@ + path_down(s, a as int, f) =~= down@);
        assert(up@ + path_down(s, b as int, f) =~= up@);
        (down, up)
    }

    /// The compact target that the network lays down for a header of the
    /// given time that builds on the header at `p`.
    fn required(&self, p: usize, time: u32) -> (r: Option<u32>)
        requires
            self.wf(),
            p < self@.len(),
        ensures
            r == required_bits(self.network(), self@, p as int, time),
    {
        let ghost s = self@;
        let rules = self.rules;
        let base = self.entries[p];
        if (base.height as u64 + 1) % rules.interval != 0 {
            if !rules.min_difficulty {
                return Some(base.header.bits);
            }
            if time as u64 > base.header.time as u64 + 2 * rules.spacing {
                return Some(rules.limit_bits);
            }
            let mut i: usize = p;
            while i > 0 && self.entries[i].height as u64 % rules.interval != 0
                && self.entries[i].header.bits == rules.limit_bits
                invariant
                    self.wf(),
                    s == self@,
                    rules == self.network().rules(),
                    i < s.len(),
                    last_real(rules.limit_bits, rules.interval as int, s, i as int) == last_real(
                        rules.limit_bits,
                        rules.interval as int,
                        s,
                        p as int,
                    ),
                decreases i,
            {
                proof {
                    assert(linked(s, i as int));
                }
                match self.find(&self.entries[i].header.prev_hash) {
                    Some(q) => {
                        i = q;
                    },
                    None => {
                        assert(false);
                    },
                }
            }
            return Some(self.entries[i].header.bits);
        }
        if rules.no_retargeting {
            return Some(base.header.bits);
        }
        let mut cur: usize = p;
        let mut k: u64 = 0;
        while k < rules.interval - 1
            invariant
                self.wf(),
                s == self@,
                rules == self.network().rules(),
                p < s.len(),
                s[p as int].height + 1 >= rules.interval,
                k <= rules.interval - 1,
                cur < s.len(),
                cur == nth_parent(s, p as int, k as nat),
                s[cur as int].height == s[p as int].height - k,
            decreases rules.interval - 1 - k,
        {
            proof {
                lemma_height_zero(s, cur as int);
                assert(linked(s, cur as int));
            }
            match self.find(&self.entries[cur].header.prev_hash) {
                Some(q) => {
                    cur = q;
                },
                None => {
                    assert(false);
                },
            }
            k += 1;
        }
        let first = self.entries[cur].header.time;
        let span: u64 = if base.header.time >= first {
            (base.header.time - first) as u64
        } else {
            0
        };
        next_bits(self.network, base.header.bits, span)
    }

    /// Offers a header to the store. The header must meet its own target. A
    /// header that the store holds already changes nothing. Any other
    /// header must build on a header of the store and name the target that
    /// the network lays down for it; it is then stored, and becomes the tip if
    /// it has more work than the tip. For a new tip the result names the
    /// hashes that joined the trunk and, where the new tip does not build
    /// on the old one, those that left it.
    pub fn add_header(&mut self, h: &Header) -> (r: Result<Option<Placed>, SpvError>)
        requires
            old(self).wf(),
        ensures
            final(self).wf(),
            final(self).network() == old(self).network(),
            final(self)@ == after_add(old(self).network(), old(self)@, *h),
            stores(old(self).network(), old(self)@, *h) ==> entry_for(old(self)@, *h, new_entry(old(self)@, *h)),
            match placement(old(self).network(), old(self)@, *h) {
                Placement::Known | Placement::Side => r matches Ok(None),
                Placement::BadPow => r matches Err(SpvError::BadProofOfWork),
                Placement::Orphan => r matches Err(SpvError::OrphanHeader),
                Placement::Full => r matches Err(SpvError::StoreError),
                Placement::Extends => r matches Ok(Some(pl)) && pl.stored == new_entry(
                    old(self)@,
                    *h,
                ) && pl.unwinds.is_none() && pl.forwards.is_some() && pl.forwards.unwrap()@
                    == seq![pl.stored.hash],
                Placement::Reorg => r matches Ok(Some(pl)) && pl.stored == new_entry(old(self)@, *h)
                    && pl.unwinds.is_some() && pl.unwinds.unwrap()@ == unwinds(old(self)@, *h)
                    && pl.forwards.is_some() && pl.forwards.unwrap()@ == forwards(old(self)@, *h),
            },
    {
        let ghost s = self@;
        let ghost net = self.network();
        let hash = h.hash();
        if !h.check_pow() {
            return Err(SpvError::BadProofOfWork);
        }
        if self.find(&hash).is_some() {
            return Ok(None);
        }
        let p: usize = match self.find(&h.prev_hash) {
            None => {
                return Err(SpvError::OrphanHeader);
            },
            Some(p) => p,
        };
        let base = self.entries[p];
        match self.required(p, h.time) {
            None => {
                return Err(SpvError::StoreError);
            },
            Some(bits) => {
                if bits != h.bits {
                    return Err(SpvError::BadProofOfWork);
                }
            },
        }
        if base.height == u32::MAX {
            return Err(SpvError::StoreError);
        }
        let own = match header_work(h.bits) {
            None => {
                proof {
                    lemma_u256_bounds(base.work, base.work);
                    let n = two_256() as int;
                    assert(n / 1 == n) by (nonlinear_arith);
                    assert(block_work(h.bits) == two_256());
                }
                return Err(SpvError::StoreError);
            },
            Some(w) => w,
        };
        let work = match base.work.checked_add(&own) {
            None => {
                return Err(SpvError::StoreError);
            },
            Some(w) => w,
        };
        let e = StoredHeader { header: *h, hash, height: base.height + 1, work };
        proof {
            lemma_best(s);
            lemma_push_valid(net, s, *h, e);
            lemma_push_on_target(net, s, *h, e);
        }
        let n: usize = self.entries.len();
        if p == self.tip {
            self.entries.push(e);
            self.tip = n;
            let mut joined: Vec<Hash32> = Vec::new();
            joined.push(hash);
            assert(joined@ =~= seq![hash]);
            return Ok(Some(Placed { stored: e, unwinds: None, forwards: Some(joined) }));
        }
        if !self.entries[self.tip].work.lt(&work) {
            self.entries.push(e);
            return Ok(None);
        }
        let (left, up) = self.branches(self.tip, p);
        let mut joined: Vec<Hash32> = Vec::new();
        let mut k: usize = up.len();
        while k > 0
            invariant
                k <= up@.len(),
                joined@.len() == up@.len() - k,
                forall|j: int| 0 <= j < joined@.len() ==> joined@[j] == up@[up@.len() - 1 - j],
            decreases k,
        {
            k -= 1;
            joined.push(up[k]);
        }
        assert(joined@ =~= up@.reverse());
        joined.push(hash);
        self.entries.push(e);
        self.tip = n;
        Ok(Some(Placed { stored: e, unwinds: Some(left), forwards: Some(joined) }))
    }

    /// Takes the header with the given hash out of the store if it is the
    /// tip; the tip is then again the first header among those of greatest
    /// work. Any other hash changes nothing.
    pub fn unwind_tip(&mut self, hash: &Hash32) -> (r: bool)
        requires
            old(self).wf(),
        ensures
            final(self).wf(),
            final(self).network() == old(self).network(),
            r == (old(self)@.len() > 0 && old(self)@[best(old(self)@)].hash@ == hash@),
            r ==> final(self)@ == old(self)@.remove(best(old(self)@)),
            !r ==> final(self)@ == old(self)@,
    {
        if self.entries.len() == 0 {
            return false;
        }
        proof {
            lemma_best(self@);
            lemma_remove_tip_valid(self@);
            lemma_remove_on_target(self.network, self@);
        }
        if !self.entries[self.tip].hash.same(hash) {
            return false;
        }
        self.entries.remove(self.tip);
        self.tip = 0;
        let ghost s = self.entries@;
        let mut k: usize = 1;
        if self.entries.len() > 0 {
            assert(s.take(1).len() == 1);
        }
        while k < self.entries.len()
            invariant
                s == self.entries@,
                self.network == old(self).network,
                self.rules == old(self).rules,
                1 <= k,
                s.len() > 0 ==> k <= s.len() && self.tip == best(s.take(k as int)) && self.tip < k,
            decreases s.len() - k,
        {
            proof {
                assert(s.take(k + 1).drop_last() =~= s.take(k as int));
                assert(s.take(k + 1).last() == s[k as int]);
                assert(s.take(k + 1)[self.tip as int] == s[self.tip as int]);
            }
            if self.entries[self.tip].work.lt(&self.entries[k].work) {
                self.tip = k;
            }
            k += 1;
        }
        assert(s.len() > 0 ==> s.take(k as int) =~= s);
        true
    }

    /// The locator of the store's trunk; its first hash is that of the tip.
    pub fn header_locators(&self) -> (r: Vec<Hash32>)
        requires
            self.wf(),
        ensures
            r@ == locator(self@),
            self@.len() > 0 ==> r@.len() > 0 && r@[0] == self@[best(self@)].hash,
    {
        let mut out: Vec<Hash32> = Vec::new();
        if self.entries.len() == 0 {
            return out;
        }
        let ghost s = self@;
        let t: usize = self.tip;
        proof {
            lemma_best(s);
            lemma_height_zero(s, t as int);
        }
        let top: u32 = self.entries[t].height;
        let mut cur: usize = t;
        let mut d: u32 = 0;
        let mut off: u64 = 0;
        while d < top
            invariant
                self.wf(),
                s == self@,
                t < s.len(),
                top == s[t as int].height,
                cur < s.len(),
                cur == nth_parent(s, t as int, d as nat),
                s[cur as int].height == top - d,
                d <= top,
                d <= off <= 2 * top,
                out@ + locator_from(s, t as int, top as nat, off as nat) == locator_from(
                    s,
                    t as int,
                    top as nat,
                    0,
                ),
                d == 0 ==> off == 0,
                d > 0 ==> out@.len() > 0 && out@[0] == s[t as int].hash,
            decreases top - d,
        {
            proof {
                lemma_height_zero(s, cur as int);
                assert(linked(s, cur as int));
            }
            if d as u64 == off {
                let ghost before = out@;
                out.push(self.entries[cur].hash);
                let ghost at = off as nat;
                off = if off == 0 {
                    1
                } else {
                    2 * off
                };
                assert(out@ + locator_from(s, t as int, top as nat, off as nat) =~= before
                    + locator_from(s, t as int, top as nat, at));
            }
            match self.find(&self.entries[cur].header.prev_hash) {
                Some(q) => {
                    cur = q;
                },
                None => {
                    assert(false);
                },
            }
            d += 1;
        }
        let ghost before = out@;
        out.push(self.entries[0].hash);
        assert(out@ =~= before + locator_from(s, t as int, top as nat, off as nat));
        out
    }

    /// A store that holds the same chain.
    pub fn snapshot(&self) -> (r: HeaderStore)
        requires
            self.wf(),
        ensures
            r.wf(),
            r@ == self@,
            r.network() == self.network(),
    {
        let mut entries: Vec<StoredHeader> = Vec::new();
        let mut i: usize = 0;
        while i < self.entries.len()
            invariant
                i <= self.entries@.len(),
                entries@ == self.entries@.subrange(0, i as int),
            decreases self.entries@.len() - i,
        {
            entries.push(self.entries[i]);
            assert(entries@ =~= self.entries@.subrange(0, i + 1));
            i += 1;
        }
        assert(entries@ =~= self.entries@);
        HeaderStore { network: self.network, rules: self.rules, entries, tip: self.tip }
    }

    /// The headers that the store holds under the given hashes.
    pub(crate) fn headers_for(&self, hashes: &Vec<Hash32>) -> (r: Vec<Header>)
        requires
            self.wf(),
            forall|j: int| 0 <= j < hashes@.len() ==> known(self@, (#[trigger] hashes@[j])@),
        ensures
            r@ == headers_of(self@, hashes@),
    {
        let mut out: Vec<Header> = Vec::new();
        let mut i: usize = 0;
        while i < hashes.len()
            invariant
                self.wf(),
                forall|j: int| 0 <= j < hashes@.len() ==> known(self@, (#[trigger] hashes@[j])@),
                i <= hashes@.len(),
                out@.len() == i,
                forall|j: int| 0 <= j < i ==> out@[j] == headers_of(self@, hashes@)[j],
            decreases hashes@.len() - i,
        {
            assert(known(self@, hashes@[i as int]@));
            match self.find(&hashes[i]) {
                Some(k) => {
                    out.push(self.entries[k].header);
                },
                None => {
                    assert(false);
                },
            }
            i += 1;
        }
        assert(out@ =~= headers_of(self@, hashes@));
        out
    }

    /// The header with the given hash, where the store holds it.
    pub fn get_header(&self, hash: &Hash32) -> (r: Option<StoredHeader>)
        requires
            self.wf(),
        ensures
            r.is_some() <==> known(self@, hash@),
            r.is_some() ==> r.unwrap() == self@[index_of(self@, hash@)],
    {
        match self.find(hash) {
            Some(i) => Some(self.entries[i]),
            None => None,
        }
    }

    /// The tip: the first header among those of greatest work. A store
    /// without headers has none.
    pub fn tip(&self) -> (r: Option<StoredHeader>)
        requires
            self.wf(),
        ensures
            r.is_some() <==> self@.len() > 0,
            r.is_some() ==> r.unwrap() == self@[best(self@)],
    {
        if self.entries.len() == 0 {
            None
        } else {
            proof {
                lemma_best(self@);
            }
            Some(self.entries[self.tip])
        }
    }
}

} // verus!
