//! The queue of blocks that wait to be fetched. It holds no hash twice.

use crate::pow::Hash32;
use std::collections::VecDeque;
use vstd::prelude::*;

verus! {

/// The hashes of `blocks` that join the queue `q`, in the order of
/// `blocks`: those that the queue does not hold, each at its first
/// occurrence only.
pub open spec fn fresh_part(q: Seq<Hash32>, blocks: Seq<Hash32>) -> Seq<Hash32>
    decreases blocks.len(),
{
    if blocks.len() == 0 {
        Seq::empty()
    } else {
        let before = fresh_part(q, blocks.drop_last());
        if q.contains(blocks.last()) || before.contains(blocks.last()) {
            before
        } else {
            before.push(blocks.last())
        }
    }
}

/// The first place at or after `from` whose hash the queue does not hold;
/// the length of `blocks` if there is none.
pub open spec fn first_new(q: Seq<Hash32>, blocks: Seq<Hash32>, from: int) -> int
    decreases blocks.len() - from,
{
    if from >= blocks.len() {
        blocks.len() as int
    } else if !q.contains(blocks[from]) {
        from
    } else {
        first_new(q, blocks, from + 1)
    }
}

/// Where the first new hash stands: the hashes before it are in the queue,
/// and it is not.
pub proof fn lemma_first_new(q: Seq<Hash32>, blocks: Seq<Hash32>, from: int)
    requires
        0 <= from <= blocks.len(),
    ensures
        from <= first_new(q, blocks, from) <= blocks.len(),
        forall|j: int| from <= j < first_new(q, blocks, from) ==> q.contains(#[trigger] blocks[j]),
        first_new(q, blocks, from) < blocks.len() ==> !q.contains(blocks[first_new(q, blocks, from)]),
    decreases blocks.len() - from,
{
    if from < blocks.len() && q.contains(blocks[from]) {
        lemma_first_new(q, blocks, from + 1);
    }
}

/// What joins the queue has no hash twice and none that the queue holds;
/// each of its hashes is one of `blocks`, and each hash of `blocks` is in
/// the queue or joins it.
pub proof fn lemma_fresh_part(q: Seq<Hash32>, blocks: Seq<Hash32>)
    ensures
        fresh_part(q, blocks).no_duplicates(),
        q.disjoint(fresh_part(q, blocks)),
        forall|j: int|
            0 <= j < fresh_part(q, blocks).len() ==> blocks.contains(#[trigger] fresh_part(q, blocks)[j]),
        forall|j: int|
            0 <= j < blocks.len() ==> q.contains(#[trigger] blocks[j]) || fresh_part(
                q,
                blocks,
            ).contains(blocks[j]),
    decreases blocks.len(),
{
    let f = fresh_part(q, blocks);
    if blocks.len() > 0 {
        let head = blocks.drop_last();
        let before = fresh_part(q, head);
        let x = blocks.last();
        lemma_fresh_part(q, head);
        assert forall|j: int| 0 <= j < f.len() implies blocks.contains(#[trigger] f[j]) by {
            if j < before.len() {
                assert(f[j] == before[j]);
                let k = choose|k: int| 0 <= k < head.len() && head[k] == before[j];
                assert(blocks[k] == f[j]);
            } else {
                assert(blocks[blocks.len() - 1] == f[j]);
            }
        }
        assert forall|j: int| 0 <= j < blocks.len() implies q.contains(#[trigger] blocks[j])
            || f.contains(blocks[j]) by {
            if j < head.len() {
                assert(head[j] == blocks[j]);
                if before.contains(head[j]) {
                    let k = choose|k: int| 0 <= k < before.len() && before[k] == head[j];
                    assert(f[k] == blocks[j]);
                }
            } else if !q.contains(x) {
                if before.contains(x) {
                    let k = choose|k: int| 0 <= k < before.len() && before[k] == x;
                    assert(f[k] == x);
                } else {
                    assert(f[f.len() - 1] == x);
                }
            }
        }
        assert forall|i: int, j: int| 0 <= i < q.len() && 0 <= j < f.len() implies q[i] != f[j] by {
            if j < before.len() {
                assert(f[j] == before[j]);
            }
        }
    }
}

/// The hashes before the first new one do not matter: what joins the queue
/// is what joins it of `blocks` from the first new hash on.
pub proof fn lemma_fresh_from_first(q: Seq<Hash32>, blocks: Seq<Hash32>, k: int)
    requires
        0 <= k <= blocks.len(),
        forall|j: int| 0 <= j < k ==> q.contains(#[trigger] blocks[j]),
    ensures
        fresh_part(q, blocks) == fresh_part(q, blocks.subrange(k, blocks.len() as int)),
    decreases blocks.len(),
{
    let tail = blocks.subrange(k, blocks.len() as int);
    if k == blocks.len() {
        lemma_fresh_all_known(q, blocks);
    } else {
        assert(tail.drop_last() =~= blocks.drop_last().subrange(k, blocks.len() - 1));
        assert(tail.last() == blocks.last());
        assert forall|j: int| 0 <= j < k implies q.contains(#[trigger] blocks.drop_last()[j]) by {
            assert(blocks.drop_last()[j] == blocks[j]);
        }
        lemma_fresh_from_first(q, blocks.drop_last(), k);
    }
}

/// Hashes that the queue holds all do not join it.
pub proof fn lemma_fresh_all_known(q: Seq<Hash32>, blocks: Seq<Hash32>)
    requires
        forall|j: int| 0 <= j < blocks.len() ==> q.contains(#[trigger] blocks[j]),
    ensures
        fresh_part(q, blocks).len() == 0,
    decreases blocks.len(),
{
    if blocks.len() > 0 {
        assert forall|j: int| 0 <= j < blocks.len() - 1 implies q.contains(
            #[trigger] blocks.drop_last()[j],
        ) by {
            assert(blocks.drop_last()[j] == blocks[j]);
        }
        lemma_fresh_all_known(q, blocks.drop_last());
        assert(q.contains(blocks[blocks.len() - 1]));
    }
}

/// Block hashes in the order in which they are to be fetched.
pub struct DownloadQueue {
    hashes: VecDeque<Hash32>,
}

impl View for DownloadQueue {
    type V = Seq<Hash32>;

    closed spec fn view(&self) -> Seq<Hash32> {
        self.hashes@
    }
}

impl DownloadQueue {
    /// The queue's invariant: it holds no hash twice.
    pub open spec fn wf(&self) -> bool {
        self@.no_duplicates()
    }

    /// An empty queue.
    pub fn new() -> (r: DownloadQueue)
        ensures
            r.wf(),
            r@.len() == 0,
    {
        DownloadQueue { hashes: VecDeque::new() }
    }

    /// The number of hashes in the queue.
    pub fn len(&self) -> (r: usize)
        ensures
            r == self@.len(),
    {
        self.hashes.len()
    }

    /// Whether the queue holds the hash.
    pub fn contains(&self, hash: &Hash32) -> (r: bool)
        ensures
            r == self@.contains(*hash),
    {
        let mut i: usize = 0;
        while i < self.hashes.len()
            invariant
                i <= self.hashes@.len(),
                forall|j: int| 0 <= j < i ==> self.hashes@[j] != *hash,
            decreases self.hashes@.len() - i,
        {
            if self.hashes[i].same(hash) {
                return true;
            }
            i += 1;
        }
        false
    }

    /// Appends the hashes of `blocks` that the queue does not hold yet, in
    /// their order and each once. What the queue held stays in front.
    pub fn enqueue(&mut self, blocks: &Vec<Hash32>)
        requires
            old(self).wf(),
        ensures
            final(self).wf(),
            final(self)@ == old(self)@ + fresh_part(old(self)@, blocks@),
    {
        let ghost q = self@;
        proof {
            assert(blocks@.take(0) =~= Seq::<Hash32>::empty());
            assert(q + fresh_part(q, blocks@.take(0)) =~= q);
        }
        let mut k: usize = 0;
        while k < blocks.len()
            invariant
                q == old(self)@,
                k <= blocks@.len(),
                self@.no_duplicates(),
                self@ == q + fresh_part(q, blocks@.take(k as int)),
            decreases blocks@.len() - k,
        {
            let ghost before = fresh_part(q, blocks@.take(k as int));
            let ghost x = blocks@[k as int];
            proof {
                assert(blocks@.take(k + 1).drop_last() =~= blocks@.take(k as int));
                assert(blocks@.take(k + 1).last() == x);
                if q.contains(x) {
                    let w = choose|w: int| 0 <= w < q.len() && q[w] == x;
                    assert((q + before)[w] == x);
                }
                if before.contains(x) {
                    let w = choose|w: int| 0 <= w < before.len() && before[w] == x;
                    assert((q + before)[q.len() + w] == x);
                }
                if (q + before).contains(x) {
                    let w = choose|w: int| 0 <= w < (q + before).len() && (q + before)[w] == x;
                    if w < q.len() {
                        assert(q[w] == x);
                    } else {
                        assert(before[w - q.len()] == x);
                    }
                }
            }
            if !self.contains(&blocks[k]) {
                self.hashes.push_back(blocks[k]);
                assert(self@ =~= q + before.push(x));
            }
            k += 1;
        }
        assert(blocks@.take(k as int) =~= blocks@);
    }

    /// The hash that is to be fetched next.
    pub fn front(&self) -> (r: Option<Hash32>)
        ensures
            r == (if self@.len() > 0 {
                Some(self@[0])
            } else {
                None
            }),
    {
        if self.hashes.len() > 0 {
            Some(self.hashes[0])
        } else {
            None
        }
    }

    /// Takes the front hash out of the queue if it is `hash`; anything else
    /// leaves the queue as it is.
    pub fn pop_if(&mut self, hash: &Hash32) -> (r: bool)
        requires
            old(self).wf(),
        ensures
            final(self).wf(),
            r == (old(self)@.len() > 0 && old(self)@[0] == *hash),
            r ==> final(self)@ == old(self)@.subrange(1, old(self)@.len() as int),
            !r ==> final(self)@ == old(self)@,
    {
        if self.hashes.len() > 0 && self.hashes[0].same(hash) {
            let _ = self.hashes.pop_front();
            true
        } else {
            false
        }
    }
}

} // verus!
