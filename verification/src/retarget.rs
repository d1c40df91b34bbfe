//! Every stored header names the target that its network lays down: that
//! this holds of a chain is kept when a header is stored and when the tip
//! is taken out.

use crate::chain::{
    best, distinct, entry_for, index_of, last_real, lemma_best, lemma_index_of, lemma_push_valid,
    lemma_remove_tip_valid, lemma_tip_is_leaf, linked, nth_parent, parent, required_bits, stores,
    valid_chain, Chain, StoredHeader,
};
use crate::pow::{Header, Network};
use vstd::prelude::*;

verus! {

/// The header at `i` names the target that the network lays down for it.
pub open spec fn targeted(net: Network, s: Chain, i: int) -> bool {
    required_bits(net, s, parent(s, i), s[i].header.time) == Some(s[i].header.bits)
}

/// Every header of the chain but the genesis header names the target that
/// the network lays down for it.
pub open spec fn on_target(net: Network, s: Chain) -> bool {
    forall|i: int| 0 < i < s.len() ==> #[trigger] targeted(net, s, i)
}

/// The place that a header has after the header at `t` was taken out.
pub open spec fn shifted(t: int, i: int) -> int {
    if i < t {
        i
    } else {
        i - 1
    }
}

proof fn lemma_parent_pushed(s: Chain, e: StoredHeader, i: int)
    requires
        valid_chain(s),
        distinct(s.push(e)),
        0 < i < s.len(),
    ensures
        parent(s.push(e), i) == parent(s, i),
        0 <= parent(s, i) < i,
{
    assert(linked(s, i));
    let t = s.push(e);
    let q = parent(s, i);
    lemma_index_of(t, q);
    assert(t[q].hash@ == t[i].header.prev_hash@);
}

/// The steps down from a header of the chain do not change when another
/// header is stored.
pub proof fn lemma_nth_pushed(s: Chain, e: StoredHeader, i: int, n: nat)
    requires
        valid_chain(s),
        distinct(s.push(e)),
        0 <= i < s.len(),
    ensures
        nth_parent(s.push(e), i, n) == nth_parent(s, i, n),
        0 <= nth_parent(s, i, n) <= i,
    decreases n,
{
    if n > 0 {
        lemma_nth_pushed(s, e, i, (n - 1) as nat);
        let m = nth_parent(s, i, (n - 1) as nat);
        if m > 0 {
            lemma_parent_pushed(s, e, m);
        }
    }
}

proof fn lemma_last_real_pushed(limit_bits: u32, interval: int, s: Chain, e: StoredHeader, i: int)
    requires
        valid_chain(s),
        distinct(s.push(e)),
        0 <= i < s.len(),
    ensures
        last_real(limit_bits, interval, s.push(e), i) == last_real(limit_bits, interval, s, i),
        0 <= last_real(limit_bits, interval, s, i) <= i,
    decreases i,
{
    if i > 0 {
        lemma_parent_pushed(s, e, i);
        lemma_last_real_pushed(limit_bits, interval, s, e, parent(s, i));
    }
}

/// The target that the network lays down on top of a header does not change
/// when another header is stored.
pub proof fn lemma_required_pushed(net: Network, s: Chain, e: StoredHeader, p: int, time: u32)
    requires
        valid_chain(s),
        distinct(s.push(e)),
        0 <= p < s.len(),
    ensures
        required_bits(net, s.push(e), p, time) == required_bits(net, s, p, time),
{
    let r = net.rules();
    lemma_last_real_pushed(r.limit_bits, r.interval as int, s, e, p);
    lemma_nth_pushed(s, e, p, (r.interval - 1) as nat);
}

/// A chain whose headers all name the targets of the network still does so
/// after a header was stored.
pub proof fn lemma_push_on_target(net: Network, s: Chain, h: Header, e: StoredHeader)
    requires
        valid_chain(s),
        on_target(net, s),
        stores(net, s, h),
        entry_for(s, h, e),
    ensures
        on_target(net, s.push(e)),
{
    lemma_push_valid(net, s, h, e);
    let t = s.push(e);
    let n = s.len() as int;
    assert forall|i: int| 0 < i < t.len() implies #[trigger] targeted(net, t, i) by {
        if i < n {
            assert(targeted(net, s, i));
            lemma_parent_pushed(s, e, i);
            lemma_required_pushed(net, s, e, parent(s, i), s[i].header.time);
        } else {
            let p = index_of(s, h.prev_hash@);
            assert(0 <= p < n && s[p].hash@ == h.prev_hash@);
            lemma_index_of(t, p);
            assert(t[p].hash@ == t[i].header.prev_hash@);
            lemma_required_pushed(net, s, e, p, h.time);
        }
    }
}

proof fn lemma_parent_removed(s: Chain, i: int)
    requires
        valid_chain(s),
        0 < i < s.len(),
        i != best(s),
    ensures
        0 < best(s) < s.len(),
        0 <= parent(s, i) < i,
        parent(s, i) != best(s),
        parent(s.remove(best(s)), shifted(best(s), i)) == shifted(best(s), parent(s, i)),
        0 < shifted(best(s), i) < s.len() - 1,
        shifted(best(s), parent(s, i)) < shifted(best(s), i),
        s.remove(best(s))[shifted(best(s), i)] == s[i],
{
    lemma_best(s);
    lemma_tip_is_leaf(s, i);
    lemma_tip_is_leaf(s, 1);
    assert(linked(s, 1));
    assert(linked(s, i));
    lemma_remove_tip_valid(s);
    let t = best(s);
    let r = s.remove(t);
    let q = parent(s, i);
    assert(r[shifted(t, q)] == s[q]);
    assert(r[shifted(t, i)] == s[i]);
    lemma_index_of(r, shifted(t, q));
}

proof fn lemma_nth_removed(s: Chain, i: int, n: nat)
    requires
        valid_chain(s),
        0 <= i < s.len(),
        i != best(s),
    ensures
        0 <= nth_parent(s, i, n) <= i,
        nth_parent(s, i, n) != best(s),
        nth_parent(s.remove(best(s)), shifted(best(s), i), n) == shifted(
            best(s),
            nth_parent(s, i, n),
        ),
    decreases n,
{
    if n > 0 {
        lemma_nth_removed(s, i, (n - 1) as nat);
        let m = nth_parent(s, i, (n - 1) as nat);
        if m > 0 {
            lemma_parent_removed(s, m);
        }
    }
}

proof fn lemma_last_real_removed(limit_bits: u32, interval: int, s: Chain, i: int)
    requires
        valid_chain(s),
        0 <= i < s.len(),
        i != best(s),
    ensures
        0 <= last_real(limit_bits, interval, s, i) <= i,
        last_real(limit_bits, interval, s, i) != best(s),
        last_real(limit_bits, interval, s.remove(best(s)), shifted(best(s), i)) == shifted(
            best(s),
            last_real(limit_bits, interval, s, i),
        ),
    decreases i,
{
    if i > 0 {
        lemma_parent_removed(s, i);
        lemma_last_real_removed(limit_bits, interval, s, parent(s, i));
    }
}

/// The target that the network lays down on top of a header does not change
/// when the tip, another header, is taken out.
pub proof fn lemma_required_removed(net: Network, s: Chain, p: int, time: u32)
    requires
        valid_chain(s),
        0 <= p < s.len(),
        p != best(s),
    ensures
        required_bits(net, s.remove(best(s)), shifted(best(s), p), time) == required_bits(
            net,
            s,
            p,
            time,
        ),
{
    let r = net.rules();
    let t = best(s);
    lemma_best(s);
    lemma_last_real_removed(r.limit_bits, r.interval as int, s, p);
    lemma_nth_removed(s, p, (r.interval - 1) as nat);
    let a = last_real(r.limit_bits, r.interval as int, s, p);
    let b = nth_parent(s, p, (r.interval - 1) as nat);
    assert(s.remove(t)[shifted(t, p)] == s[p]);
    assert(s.remove(t)[shifted(t, a)] == s[a]);
    assert(s.remove(t)[shifted(t, b)] == s[b]);
}

/// A chain whose headers all name the targets of the network still does so
/// after its tip was taken out.
pub proof fn lemma_remove_on_target(net: Network, s: Chain)
    requires
        valid_chain(s),
        on_target(net, s),
        s.len() > 0,
    ensures
        on_target(net, s.remove(best(s))),
{
    lemma_best(s);
    let t = best(s);
    let r = s.remove(t);
    assert forall|j: int| 0 < j < r.len() implies #[trigger] targeted(net, r, j) by {
        let i = if j < t {
            j
        } else {
            j + 1
        };
        assert(targeted(net, s, i));
        lemma_parent_removed(s, i);
        lemma_required_removed(net, s, parent(s, i), s[i].header.time);
    }
}

} // verus!
