//! What whole messages of headers do to a chain: general statements about
//! the answer, the tip and the headers that leave the trunk.

use crate::chain::{
    best, fork, forwards, headers_of, index_of, known, lemma_best, lemma_index_of,
    lemma_nth_height, lemma_reorg_fully_undone, lemma_tip_after_add, lemma_unwinds_are_trunk,
    lemma_unwinds_count, new_entry, nth_parent, placement, unwinds, valid_chain, Chain, Placement,
};
use crate::dispatcher::{
    all_in_form, chain_after, chain_after_headers, failure, headers_reply, headers_request,
    kept_in_form, lemma_failure_sticks, lemma_offer_one, unwound, BAN_BAD_POW,
};
use crate::error::SpvError;
use crate::message::{plain, ProcessResult, Reply};
use crate::peers::PeerId;
use crate::pow::{Header, Network};
use crate::retarget::lemma_nth_pushed;
use vstd::prelude::*;

verus! {

/// A message whose first refused header does not meet its target is held
/// against the peer with the full score, and the chain stays as it was:
/// whatever the store holds, and whatever follows in the message.
pub proof fn lemma_bad_pow_banned(
    net: Network,
    s: Chain,
    peers: Set<PeerId>,
    hs: Seq<Header>,
    peer: PeerId,
    k: int,
)
    requires
        s.len() > 0,
        0 <= k < hs.len(),
        failure(net, s, hs.take(k)).is_none(),
        !hs[k].pow_ok(),
    ensures
        headers_reply(net, s, peers, hs, peer) == plain(Ok(ProcessResult::Ban(BAN_BAD_POW))),
        chain_after_headers(net, s, hs) == s,
{
    lemma_offer_one(net, s, hs, k);
    lemma_failure_sticks(net, s, hs, k + 1);
}

/// A single header that is stored without more work than the tip is
/// acknowledged: the tip stays, nothing is sent, and no header leaves the
/// trunk.
pub proof fn lemma_incumbent_kept(net: Network, s: Chain, peers: Set<PeerId>, h: Header, peer: PeerId)
    requires
        valid_chain(s),
        s.len() > 0,
        all_in_form(net, s, seq![h]),
        placement(net, s, h) == Placement::Side,
    ensures
        headers_reply(net, s, peers, seq![h], peer) == plain(Ok(ProcessResult::Ack)),
        chain_after_headers(net, s, seq![h]) == s.push(new_entry(s, h)),
        best(chain_after_headers(net, s, seq![h])) == best(s),
        new_entry(s, h).work@ <= s[best(s)].work@,
{
    let hs = seq![h];
    assert(hs.take(0) =~= Seq::<Header>::empty());
    assert(hs.take(1) =~= hs);
    assert(kept_in_form(net, s, hs, 0));
    lemma_offer_one(net, s, hs, 0);
    lemma_tip_after_add(net, s, h);
    crate::chain::lemma_incumbent_stays(net, s, h, new_entry(s, h));
}

/// The header at `i` of the message builds on the tip of that moment and
/// becomes the tip.
pub open spec fn extends_at(net: Network, s: Chain, hs: Seq<Header>, i: int) -> bool {
    placement(net, chain_after(net, s, hs.take(i)), hs[i]) == Placement::Extends
}

/// Every header of the message in turn builds on the tip and becomes the
/// tip.
pub open spec fn all_extend(net: Network, s: Chain, hs: Seq<Header>) -> bool {
    forall|i: int| 0 <= i < hs.len() ==> #[trigger] extends_at(net, s, hs, i)
}

proof fn lemma_extending_prefix(net: Network, s: Chain, hs: Seq<Header>, n: int)
    requires
        valid_chain(s),
        s.len() > 0,
        all_in_form(net, s, hs),
        all_extend(net, s, hs),
        0 <= n <= hs.len(),
    ensures
        valid_chain(chain_after(net, s, hs.take(n))),
        chain_after(net, s, hs.take(n)).len() == s.len() + n,
        failure(net, s, hs.take(n)).is_none(),
        unwound(net, s, hs.take(n)).len() == 0,
        best(chain_after(net, s, hs.take(n))) == (if n == 0 {
            best(s)
        } else {
            s.len() + n - 1
        }),
        chain_after(net, s, hs.take(n))[best(chain_after(net, s, hs.take(n)))].height == s[best(
            s,
        )].height + n,
        forall|i: int| 0 <= i < n ==> (#[trigger] chain_after(net, s, hs.take(n))[s.len() + i]).header == hs[i],
        forall|k: int| 0 <= k < s.len() ==> #[trigger] chain_after(net, s, hs.take(n))[k] == s[k],
    decreases n,
{
    if n == 0 {
        assert(hs.take(0) =~= Seq::<Header>::empty());
    } else {
        lemma_extending_prefix(net, s, hs, n - 1);
        let c = chain_after(net, s, hs.take(n - 1));
        let h = hs[n - 1];
        let e = new_entry(c, h);
        assert(extends_at(net, s, hs, n - 1));
        assert(kept_in_form(net, s, hs, n - 1));
        lemma_offer_one(net, s, hs, n - 1);
        lemma_tip_after_add(net, c, h);
        lemma_best(c);
        let d = chain_after(net, s, hs.take(n));
        assert(d == c.push(e));
        assert forall|i: int| 0 <= i < n implies (#[trigger] d[s.len() + i]).header == hs[i] by {
            if i < n - 1 {
                assert(d[s.len() + i] == c[s.len() + i]);
            }
        }
        assert forall|k: int| 0 <= k < s.len() implies #[trigger] d[k] == s[k] by {
            assert(d[k] == c[k]);
        }
    }
}

/// A message of headers that each in turn build on the tip moves the tip
/// to the last of them, as many heights up as there are headers. All of
/// them are stored, after the headers that were there. The answer is the
/// new height, one request for more headers goes to the peer, with the new
/// tip first in its locator, and no header leaves the trunk.
pub proof fn lemma_extending_headers(
    net: Network,
    s: Chain,
    peers: Set<PeerId>,
    hs: Seq<Header>,
    peer: PeerId,
)
    requires
        valid_chain(s),
        s.len() > 0,
        hs.len() > 0,
        all_in_form(net, s, hs),
        all_extend(net, s, hs),
    ensures
        chain_after_headers(net, s, hs).len() == s.len() + hs.len(),
        forall|i: int|
            0 <= i < hs.len() ==> (#[trigger] chain_after_headers(net, s, hs)[s.len() + i]).header
                == hs[i],
        forall|k: int| 0 <= k < s.len() ==> #[trigger] chain_after_headers(net, s, hs)[k] == s[k],
        best(chain_after_headers(net, s, hs)) == s.len() + hs.len() - 1,
        chain_after_headers(net, s, hs)[best(chain_after_headers(net, s, hs))].height == s[best(
            s,
        )].height + hs.len(),
        headers_reply(net, s, peers, hs, peer) == (Reply {
            result: Ok(
                ProcessResult::Height(
                    chain_after_headers(net, s, hs)[best(chain_after_headers(net, s, hs))].height,
                ),
            ),
            sends: headers_request(chain_after_headers(net, s, hs), peers, peer),
            disconnected: Seq::empty(),
        }),
{
    lemma_extending_prefix(net, s, hs, hs.len() as int);
    assert(hs.take(hs.len() as int) =~= hs);
    lemma_best(s);
    assert(unwound(net, s, hs) =~= Seq::<Header>::empty());
}

/// The header at `i` of the message is stored without more work than the
/// tip.
pub open spec fn side_at(net: Network, s: Chain, hs: Seq<Header>, i: int) -> bool {
    placement(net, chain_after(net, s, hs.take(i)), hs[i]) == Placement::Side
}

/// The message builds a branch that takes over with its last header: every
/// header before the last is stored without more work than the tip, and
/// the last has more work and does not build on the tip.
pub open spec fn takes_over(net: Network, s: Chain, hs: Seq<Header>) -> bool {
    &&& hs.len() > 0
    &&& forall|i: int| 0 <= i < hs.len() - 1 ==> #[trigger] side_at(net, s, hs, i)
    &&& placement(net, chain_after(net, s, hs.drop_last()), hs.last()) == Placement::Reorg
}

proof fn lemma_side_prefix(net: Network, s: Chain, hs: Seq<Header>, n: int)
    requires
        valid_chain(s),
        s.len() > 0,
        all_in_form(net, s, hs),
        takes_over(net, s, hs),
        0 <= n <= hs.len() - 1,
    ensures
        valid_chain(chain_after(net, s, hs.take(n))),
        chain_after(net, s, hs.take(n)).len() >= s.len(),
        failure(net, s, hs.take(n)).is_none(),
        unwound(net, s, hs.take(n)).len() == 0,
        best(chain_after(net, s, hs.take(n))) == best(s),
        forall|k: int| 0 <= k < s.len() ==> #[trigger] chain_after(net, s, hs.take(n))[k] == s[k],
        forall|m: nat| #[trigger]
            nth_parent(chain_after(net, s, hs.take(n)), best(s), m) == nth_parent(s, best(s), m),
    decreases n,
{
    if n == 0 {
        assert(hs.take(0) =~= Seq::<Header>::empty());
    } else {
        lemma_side_prefix(net, s, hs, n - 1);
        let c = chain_after(net, s, hs.take(n - 1));
        let h = hs[n - 1];
        let e = new_entry(c, h);
        assert(side_at(net, s, hs, n - 1));
        assert(kept_in_form(net, s, hs, n - 1));
        lemma_offer_one(net, s, hs, n - 1);
        lemma_tip_after_add(net, c, h);
        lemma_best(s);
        let d = chain_after(net, s, hs.take(n));
        assert(d == c.push(e));
        assert forall|k: int| 0 <= k < s.len() implies #[trigger] d[k] == s[k] by {
            assert(d[k] == c[k]);
        }
        assert forall|m: nat| #[trigger] nth_parent(d, best(s), m) == nth_parent(s, best(s), m) by {
            lemma_nth_pushed(c, e, best(s), m);
        }
    }
}

proof fn lemma_left_headers(s: Chain, before: Chain, h: Header)
    requires
        valid_chain(s),
        valid_chain(before),
        0 < s.len() <= before.len(),
        forall|k: int| 0 <= k < s.len() ==> #[trigger] before[k] == s[k],
        best(before) == best(s),
        forall|m: nat| #[trigger] nth_parent(before, best(s), m) == nth_parent(s, best(s), m),
        known(before, h.prev_hash@),
    ensures
        headers_of(before, unwinds(before, h)).len() == s[best(s)].height - before[fork(
            before,
            best(s),
            index_of(before, h.prev_hash@),
        )].height,
        forall|j: int|
            0 <= j < headers_of(before, unwinds(before, h)).len() ==> #[trigger] headers_of(
                before,
                unwinds(before, h),
            )[j] == s[nth_parent(s, best(s), j as nat)].header,
{
    lemma_best(s);
    let t = best(s);
    lemma_unwinds_count(before, h);
    let gone = headers_of(before, unwinds(before, h));
    assert(before[t] == s[t]);
    assert forall|j: int| 0 <= j < gone.len() implies #[trigger] gone[j] == s[nth_parent(
        s,
        t,
        j as nat,
    )].header by {
        lemma_unwinds_are_trunk(before, h, j);
        let x = nth_parent(s, t, j as nat);
        assert(x == nth_parent(before, t, j as nat));
        lemma_nth_height(s, t, j as nat);
        assert(before[x] == s[x]);
        lemma_index_of(before, x);
    }
}

/// A message that builds a branch which takes over with its last header
/// moves the tip to that header. The answer is the new height, one request
/// for more headers goes to the peer, and the headers that leave the trunk
/// are reported from the old tip downwards: the old tip, the header it
/// builds on, and so on, as far as they lie above the fork.
pub proof fn lemma_branch_takes_over(
    net: Network,
    s: Chain,
    peers: Set<PeerId>,
    hs: Seq<Header>,
    peer: PeerId,
)
    requires
        valid_chain(s),
        s.len() > 0,
        all_in_form(net, s, hs),
        takes_over(net, s, hs),
    ensures
        ({
            let before = chain_after(net, s, hs.drop_last());
            let c = chain_after_headers(net, s, hs);
            let reply = headers_reply(net, s, peers, hs, peer);
            let meet = fork(before, best(s), index_of(before, hs.last().prev_hash@));
            &&& best(before) == best(s)
            &&& c == before.push(new_entry(before, hs.last()))
            &&& best(c) == c.len() - 1
            &&& c[best(c)].header == hs.last()
            &&& reply.result == Ok::<ProcessResult, SpvError>(ProcessResult::Height(c[best(c)].height))
            &&& reply.sends == headers_request(c, peers, peer)
            &&& reply.disconnected.len() == s[best(s)].height - before[meet].height
            &&& forall|j: int|
                0 <= j < reply.disconnected.len() ==> #[trigger] reply.disconnected[j] == s[nth_parent(
                    s,
                    best(s),
                    j as nat,
                )].header
        }),
{
    let n = hs.len() - 1;
    let before = chain_after(net, s, hs.drop_last());
    let h = hs.last();
    let c = chain_after(net, s, hs);
    assert(hs.take(n) =~= hs.drop_last());
    assert(hs.take(n + 1) =~= hs);
    lemma_side_prefix(net, s, hs, n);
    lemma_best(s);
    assert(placement(net, before, h) == Placement::Reorg);
    assert(kept_in_form(net, s, hs, n));
    assert(failure(net, s, hs).is_none() && c == before.push(new_entry(before, h)) && unwound(
        net,
        s,
        hs,
    ) =~= headers_of(before, unwinds(before, h))) by {
        lemma_offer_one(net, s, hs, n);
    }
    assert(best(c) == before.len() && valid_chain(c)) by {
        lemma_tip_after_add(net, before, h);
    }
    assert(known(before, h.prev_hash@));
    lemma_left_headers(s, before, h);
}

/// After a branch took over, unwinding the new tip brings back the old tip
/// and the trunk below it; the headers of the branch that stay stored are
/// not the tip, so unwinding them changes nothing, and the headers that
/// left the trunk are known, so offering them again changes nothing.
pub proof fn lemma_takeover_undone(net: Network, s: Chain, hs: Seq<Header>)
    requires
        valid_chain(s),
        s.len() > 0,
        all_in_form(net, s, hs),
        takes_over(net, s, hs),
    ensures
        ({
            let before = chain_after(net, s, hs.drop_last());
            let c = chain_after_headers(net, s, hs);
            &&& c.remove(best(c)) == before
            &&& best(before) == best(s)
            &&& before[best(before)] == s[best(s)]
            &&& forall|m: nat| #[trigger]
                nth_parent(before, best(before), m) == nth_parent(s, best(s), m)
            &&& forall|j: int|
                0 <= j < forwards(before, hs.last()).len() - 1 ==> (#[trigger] forwards(
                    before,
                    hs.last(),
                )[j])@ != s[best(s)].hash@
            &&& forall|j: int|
                0 <= j < unwinds(before, hs.last()).len() ==> placement(
                    net,
                    before,
                    #[trigger] headers_of(before, unwinds(before, hs.last()))[j],
                ) == Placement::Known
        }),
{
    let n = hs.len() - 1;
    let before = chain_after(net, s, hs.drop_last());
    let h = hs.last();
    assert(hs.take(n) =~= hs.drop_last());
    assert(hs.take(n + 1) =~= hs);
    lemma_side_prefix(net, s, hs, n);
    lemma_best(s);
    assert(kept_in_form(net, s, hs, n));
    assert(failure(net, s, hs).is_none() && chain_after(net, s, hs) == before.push(
        new_entry(before, h),
    )) by {
        lemma_offer_one(net, s, hs, n);
    }
    assert(before[best(s)] == s[best(s)]);
    lemma_reorg_fully_undone(net, before, h, new_entry(before, h));
}

} // verus!
