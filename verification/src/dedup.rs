//! Bounded first-in-first-out record of recently applied request ids.
//!
//! Every replicated state machine keeps one of these. A request id that is
//! still in the record has already been applied once; its mutation is
//! suppressed on a retry, which gives exactly-once semantics within the
//! capacity window.

use vstd::prelude::*;

verus! {

/// How many request ids the record is meant to retain.
pub const DEDUP_CAPACITY: usize = 50;

/// A bounded queue of the most recently applied request ids.
///
/// `note` reports whether an id is new and records it, evicting the oldest
/// id once more than `DEDUP_CAPACITY` are held.
pub struct DedupQueue {
    ids: Vec<u64>,
}

impl View for DedupQueue {
    type V = Seq<u64>;

    closed spec fn view(&self) -> Seq<u64> {
        self.ids@
    }
}

/// The sequence left after one eviction round: the oldest id leaves only
/// when the record is over capacity.
pub open spec fn evicted(ids: Seq<u64>) -> Seq<u64> {
    if ids.len() > DEDUP_CAPACITY {
        ids.skip(1)
    } else {
        ids
    }
}

impl DedupQueue {
    pub fn new() -> (r: DedupQueue)
        ensures
            r@ == Seq::<u64>::empty(),
    {
        DedupQueue { ids: Vec::new() }
    }

    /// Whether `id` was applied recently enough to still be on record.
    pub fn contains(&self, id: u64) -> (r: bool)
        ensures
            r == self@.contains(id),
    {
        let mut i: usize = 0;
        while i < self.ids.len()
            invariant
                i <= self.ids.len(),
                forall|j: int| 0 <= j < i ==> self.ids@[j] != id,
            decreases self.ids.len() - i,
        {
            if self.ids[i] == id {
                return true;
            }
            i = i + 1;
        }
        false
    }

    /// Record `id`, evicting the oldest entry when over capacity.
    /// Returns whether `id` was fresh, that is, not yet on record.
    pub fn note(&mut self, id: u64) -> (fresh: bool)
        ensures
            fresh == !old(self)@.contains(id),
            final(self)@ == evicted(old(self)@).push(id),
    {
        let fresh = !self.contains(id);
        if self.ids.len() > DEDUP_CAPACITY {
            self.ids.remove(0);
            proof {
                assert(self.ids@ =~= old(self)@.skip(1));
            }
        }
        self.ids.push(id);
        fresh
    }

    /// The recorded ids, oldest first: what a snapshot of the record
    /// must hold.
    pub fn items(&self) -> (r: Vec<u64>)
        ensures
            r@ == self@,
    {
        let mut r: Vec<u64> = Vec::new();
        let n = self.ids.len();
        let mut i: usize = 0;
        while i < n
            invariant
                n == self.ids@.len(),
                i <= n,
                r@.len() == i,
                forall|j: int| 0 <= j < i ==> r@[j] == self.ids@[j],
            decreases n - i,
        {
            r.push(self.ids[i]);
            i = i + 1;
        }
        proof {
            assert(r@ =~= self.ids@);
        }
        r
    }

    /// An id just recorded is on record: a retry that follows at once is
    /// recognised as a duplicate.
    pub proof fn lemma_note_records(pre: Seq<u64>, id: u64)
        ensures
            evicted(pre).push(id).contains(id),
    {
        let post = evicted(pre).push(id);
        assert(post[post.len() - 1] == id);
    }
}

} // verus!
