//! Pending retraction work: references to appended batches that are known to be
//! applied, so that their txns records may be retracted.

use vstd::prelude::*;
use crate::entry::BatchRef;

verus! {

/// A set of batches whose append records are known to be applied and so may be
/// retracted from the txns shard.
///
/// A `Tidy` may be merged with another and may be dropped at any time: dropping
/// one only delays reclaiming space in the txns shard, it never makes a result
/// wrong.
#[derive(Debug)]
pub struct Tidy {
    retractions: Vec<BatchRef>,
}

impl Tidy {
    /// The batches to retract, in the order they were added; no batch twice.
    pub closed spec fn spec_retractions(&self) -> Seq<BatchRef> {
        self.retractions@
    }

    pub open spec fn wf(&self) -> bool {
        self.spec_retractions().no_duplicates()
    }

    /// The batches to retract, as a set.
    pub open spec fn spec_set(&self) -> Set<BatchRef> {
        self.spec_retractions().to_set()
    }

    /// No retraction work.
    pub fn new() -> (r: Tidy)
        ensures
            r.wf(),
            r.spec_retractions() == Seq::<BatchRef>::empty(),
    {
        Tidy { retractions: Vec::new() }
    }

    pub fn len(&self) -> (r: usize)
        ensures
            r == self.spec_retractions().len(),
    {
        self.retractions.len()
    }

    pub fn is_empty(&self) -> (r: bool)
        ensures
            r <==> self.spec_retractions().len() == 0,
    {
        self.retractions.len() == 0
    }

    /// The `i`-th batch to retract.
    pub fn get(&self, i: usize) -> (r: BatchRef)
        requires
            i < self.spec_retractions().len(),
        ensures
            r == self.spec_retractions()[i as int],
    {
        self.retractions[i]
    }

    pub fn contains(&self, b: BatchRef) -> (r: bool)
        ensures
            r <==> self.spec_retractions().contains(b),
    {
        let mut i: usize = 0;
        while i < self.retractions.len()
            invariant
                i <= self.retractions.len(),
                forall|k: int| 0 <= k < i ==> self.retractions@[k] != b,
            decreases self.retractions.len() - i,
        {
            if self.retractions[i] == b {
                return true;
            }
            i = i + 1;
        }
        false
    }

    /// Adds `b` unless it is there already.
    pub(crate) fn insert(&mut self, b: BatchRef)
        requires
            old(self).wf(),
        ensures
            final(self).wf(),
            old(self).spec_retractions().contains(b) ==> final(self).spec_retractions() == old(
                self).spec_retractions(),
            !old(self).spec_retractions().contains(b) ==> final(self).spec_retractions() == old(
                self).spec_retractions().push(b),
            final(self).spec_set() == old(self).spec_set().insert(b),
    {
        if !self.contains(b) {
            let ghost s0 = self.retractions@;
            self.retractions.push(b);
            assert forall|i: int, j: int|
                0 <= i < self.retractions@.len() && 0 <= j < self.retractions@.len() && i != j
                    implies self.retractions@[i] != self.retractions@[j] by {
                if i < s0.len() && j < s0.len() {
                    assert(s0[i] != s0[j]);
                } else if i < s0.len() {
                    assert(s0.contains(s0[i]));
                } else {
                    assert(s0.contains(s0[j]));
                }
            }
            proof {
                s0.lemma_push_to_set_commute(b);
            }
        } else {
            assert(self.spec_set() =~= old(self).spec_set().insert(b));
        }
    }

    /// Adds the work of `other` to this one.
    pub fn merge(&mut self, other: Tidy)
        requires
            old(self).wf(),
            other.wf(),
        ensures
            final(self).wf(),
            final(self).spec_set() == old(self).spec_set().union(other.spec_set()),
            old(self).spec_retractions().is_prefix_of(final(self).spec_retractions()),
            old(self).spec_retractions().len() == 0 ==> final(self).spec_retractions()
                == other.spec_retractions(),
    {
        let mut i: usize = 0;
        while i < other.retractions.len()
            invariant
                i <= other.retractions.len(),
                self.wf(),
                self.spec_set() == old(self).spec_set().union(other.retractions@.take(i as int).to_set()),
                old(self).spec_retractions().is_prefix_of(self.spec_retractions()),
                other.wf(),
                old(self).spec_retractions().len() == 0 ==> self.spec_retractions()
                    == other.retractions@.take(i as int),
            decreases other.retractions.len() - i,
        {
            let ghost before = self.spec_retractions();
            proof {
                let t = other.retractions@;
                if old(self).spec_retractions().len() == 0 {
                    assert forall|k: int| 0 <= k < i implies t.take(i as int)[k] != t[i as int] by {
                        assert(t.take(i as int)[k] == t[k]);
                    }
                    assert(!t.take(i as int).contains(t[i as int]));
                }
            }
            self.insert(other.retractions[i]);
            proof {
                let t = other.retractions@;
                assert(t.take(i as int + 1) =~= t.take(i as int).push(t[i as int]));
                t.take(i as int).lemma_push_to_set_commute(t[i as int]);
                assert(self.spec_set() =~= old(self).spec_set().union(t.take(i as int + 1).to_set()));
                assert(self.spec_retractions().subrange(0, old(self).spec_retractions().len() as int)
                    =~= before.subrange(0, old(self).spec_retractions().len() as int));
            }
            i = i + 1;
        }
        assert(other.retractions@.take(i as int) =~= other.retractions@);
    }
}

} // verus!
