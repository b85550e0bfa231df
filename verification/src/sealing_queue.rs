//! The queue of candidate blocks that have been built and await a seal.

use vstd::prelude::*;
use crate::primitives::{BlockHash, Transaction};

verus! {

/// A candidate block that is fully built but not sealed.
pub struct ClosedBlock {
    /// The hash that a seal must solve: the block's hash without its seal.
    pub hash: BlockHash,
    /// The hash of the block that this one builds on.
    pub parent: BlockHash,
    /// The transactions that the block embeds.
    pub transactions: Vec<Transaction>,
}

/// The queue has a block of the given pre-seal hash.
pub open spec fn queued(q: Seq<ClosedBlock>, hash: BlockHash) -> bool {
    exists|i: int| 0 <= i < q.len() && (#[trigger] q[i]).hash == hash
}

/// The place of the block of the given pre-seal hash.
pub open spec fn place_of(q: Seq<ClosedBlock>, hash: BlockHash) -> int {
    choose|i: int| 0 <= i < q.len() && (#[trigger] q[i]).hash == hash
}

/// No two blocks of the queue share a pre-seal hash.
pub open spec fn distinct_hashes(q: Seq<ClosedBlock>) -> bool {
    forall|i: int, j: int| 0 <= i < j < q.len() ==> (#[trigger] q[i]).hash != (#[trigger] q[j]).hash
}

/// The queue without the block of the given pre-seal hash.
pub open spec fn without(q: Seq<ClosedBlock>, hash: BlockHash) -> Seq<ClosedBlock> {
    if queued(q, hash) {
        q.remove(place_of(q, hash))
    } else {
        q
    }
}

/// The block of the given pre-seal hash, if the queue has one.
pub open spec fn found(q: Seq<ClosedBlock>, hash: BlockHash) -> Option<ClosedBlock> {
    if queued(q, hash) {
        Some(q[place_of(q, hash)])
    } else {
        None
    }
}

/// The queue after `block` has been pushed: a block of the same pre-seal hash
/// gives way, `block` becomes the newest, and the oldest leaves where the
/// queue would hold more than `capacity` blocks.
pub open spec fn pushed(q: Seq<ClosedBlock>, capacity: usize, block: ClosedBlock) -> Seq<ClosedBlock> {
    let grown = without(q, block.hash).push(block);
    if grown.len() > capacity {
        grown.remove(0)
    } else {
        grown
    }
}

/// In a queue of distinct hashes a block's place is the only one with its
/// hash.
pub proof fn lemma_place_unique(q: Seq<ClosedBlock>, i: int)
    requires
        distinct_hashes(q),
        0 <= i < q.len(),
    ensures
        queued(q, q[i].hash),
        place_of(q, q[i].hash) == i,
{
    let j = place_of(q, q[i].hash);
    if j < i {
        assert(q[j].hash != q[i].hash);
    } else if i < j {
        assert(q[i].hash != q[j].hash);
    }
}

/// Removing a block keeps the hashes distinct, and its hash is then gone.
pub proof fn lemma_remove_distinct(q: Seq<ClosedBlock>, i: int)
    requires
        distinct_hashes(q),
        0 <= i < q.len(),
    ensures
        distinct_hashes(q.remove(i)),
        !queued(q.remove(i), q[i].hash),
        forall|hash: BlockHash| hash != q[i].hash ==> (#[trigger] queued(q.remove(i), hash) <==> queued(q, hash)),
{
    let out = q.remove(i);
    assert forall|k: int| 0 <= k < out.len() implies #[trigger] out[k] == q[if k < i { k } else { k + 1 }] by {}
    if queued(out, q[i].hash) {
        let k = place_of(out, q[i].hash);
        let j = if k < i { k } else { k + 1 };
        if j < i {
            assert(q[j].hash != q[i].hash);
        } else {
            assert(q[i].hash != q[j].hash);
        }
    }
    assert forall|hash: BlockHash| hash != q[i].hash implies (#[trigger] queued(out, hash) <==> queued(
        q,
        hash,
    )) by {
        if queued(out, hash) {
            let k = place_of(out, hash);
            assert(q[if k < i { k } else { k + 1 }].hash == hash);
        }
        if queued(q, hash) {
            let j = place_of(q, hash);
            assert(out[if j < i { j } else { j - 1 }].hash == hash);
        }
    }
}

/// Pushing keeps the hashes distinct and the queue within its capacity.
pub proof fn lemma_pushed_distinct(q: Seq<ClosedBlock>, capacity: usize, block: ClosedBlock)
    requires
        distinct_hashes(q),
        q.len() <= capacity,
    ensures
        distinct_hashes(pushed(q, capacity, block)),
        pushed(q, capacity, block).len() <= capacity,
{
    let rest = without(q, block.hash);
    if queued(q, block.hash) {
        lemma_remove_distinct(q, place_of(q, block.hash));
    }
    let grown = rest.push(block);
    assert forall|i: int, j: int| 0 <= i < j < grown.len() implies (#[trigger] grown[i]).hash != (
    #[trigger] grown[j]).hash by {
        if j == rest.len() {
            assert(rest[i].hash == block.hash ==> queued(rest, block.hash));
        } else {
            assert(grown[i] == rest[i] && grown[j] == rest[j]);
        }
    }
    if grown.len() > capacity {
        lemma_remove_distinct(grown, 0);
    }
}

/// Exactly once. After the block of a pre-seal hash has been taken, the
/// queue has no block of that hash: a second `take` finds nothing.
pub proof fn lemma_take_is_once(q: Seq<ClosedBlock>, hash: BlockHash)
    requires
        distinct_hashes(q),
    ensures
        distinct_hashes(without(q, hash)),
        found(without(q, hash), hash) is None,
{
    if queued(q, hash) {
        lemma_remove_distinct(q, place_of(q, hash));
    }
}

/// A bounded queue of candidate blocks, oldest first, found by pre-seal hash.
pub struct SealingQueue {
    blocks: Vec<ClosedBlock>,
    capacity: usize,
}

impl View for SealingQueue {
    type V = Seq<ClosedBlock>;

    closed spec fn view(&self) -> Seq<ClosedBlock> {
        self.blocks@
    }
}

impl SealingQueue {
    /// The greatest number of blocks that the queue keeps.
    pub closed spec fn capacity(&self) -> usize {
        self.capacity
    }

    /// The invariant that every operation keeps: distinct pre-seal hashes, no
    /// more blocks than the capacity.
    pub open spec fn wf(&self) -> bool {
        distinct_hashes(self@) && self@.len() <= self.capacity()
    }

    /// An empty queue that keeps at most `capacity` blocks.
    pub fn new(capacity: usize) -> (queue: Self)
        ensures
            queue.wf(),
            queue@ == Seq::<ClosedBlock>::empty(),
            queue.capacity() == capacity,
    {
        SealingQueue { blocks: Vec::new(), capacity }
    }

    /// Looks for the block of the given pre-seal hash.
    fn position(&self, hash: BlockHash) -> (at: Option<usize>)
        requires
            self.wf(),
        ensures
            match at {
                Some(i) => i < self@.len() && queued(self@, hash) && place_of(self@, hash) == i,
                None => !queued(self@, hash),
            },
    {
        let mut i: usize = 0;
        while i < self.blocks.len()
            invariant
                self.wf(),
                i <= self.blocks.len(),
                forall|j: int| 0 <= j < i ==> (#[trigger] self.blocks@[j]).hash != hash,
            decreases self.blocks.len() - i,
        {
            if self.blocks[i].hash == hash {
                proof {
                    lemma_place_unique(self@, i as int);
                }
                return Some(i);
            }
            i += 1;
        }
        None
    }

    /// Appends `block` as the newest candidate. A queued block of the same
    /// pre-seal hash gives way to it, and the oldest block leaves where the
    /// queue would exceed its capacity.
    pub fn push(&mut self, block: ClosedBlock)
        requires
            old(self).wf(),
        ensures
            final(self).wf(),
            final(self).capacity() == old(self).capacity(),
            final(self)@ == pushed(old(self)@, old(self).capacity(), block),
    {
        proof {
            lemma_pushed_distinct(self@, self.capacity, block);
        }
        match self.position(block.hash) {
            Some(i) => {
                self.blocks.remove(i);
            },
            None => {},
        }
        self.blocks.push(block);
        if self.blocks.len() > self.capacity {
            self.blocks.remove(0);
        }
    }

    /// Removes and returns the block of the given pre-seal hash; `None`, and
    /// the queue as it was, where there is none.
    pub fn take(&mut self, hash: BlockHash) -> (block: Option<ClosedBlock>)
        requires
            old(self).wf(),
        ensures
            final(self).wf(),
            final(self).capacity() == old(self).capacity(),
            final(self)@ == without(old(self)@, hash),
            block == found(old(self)@, hash),
    {
        proof {
            lemma_take_is_once(self@, hash);
        }
        match self.position(hash) {
            Some(i) => Some(self.blocks.remove(i)),
            None => None,
        }
    }

    /// Drops every candidate.
    pub fn clear(&mut self)
        requires
            old(self).wf(),
        ensures
            final(self).wf(),
            final(self).capacity() == old(self).capacity(),
            final(self)@ == Seq::<ClosedBlock>::empty(),
    {
        self.blocks = Vec::new();
    }

    /// The number of queued candidates.
    pub fn len(&self) -> (len: usize)
        ensures
            len == self@.len(),
    {
        self.blocks.len()
    }

    /// The newest candidate, if there is one.
    pub fn newest(&self) -> (block: Option<&ClosedBlock>)
        ensures
            match block {
                Some(b) => self@.len() > 0 && *b == self@.last(),
                None => self@.len() == 0,
            },
    {
        let len = self.blocks.len();
        if len == 0 {
            None
        } else {
            Some(&self.blocks[len - 1])
        }
    }
}

} // verus!
