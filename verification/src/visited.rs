use vstd::prelude::*;

use crate::addr::Address;

verus! {

/// The process-lifetime set of addresses already enqueued for or visited
/// during one crawl run. An address enters at most once, at the moment it is
/// first discovered; membership test and insertion are one step
/// (`check_and_insert`), which is the atomic check-and-insert the crawl's
/// duplicate-suppression contract rests on.
pub struct VisitedSet {
    items: Vec<Address>,
}

impl View for VisitedSet {
    type V = Set<Address>;

    closed spec fn view(&self) -> Set<Address> {
        self.items@.to_set()
    }
}

impl VisitedSet {
    /// Internal soundness: an address is held at most once.
    pub closed spec fn wf(&self) -> bool {
        self.items@.no_duplicates()
    }

    /// The number of addresses held.
    pub closed spec fn count(&self) -> nat {
        self.items@.len()
    }

    /// The count is the cardinality of the set of addresses held, which is
    /// finite.
    pub proof fn lemma_count_is_cardinality(&self)
        requires
            self.wf(),
        ensures
            self@.finite(),
            self@.len() == self.count(),
    {
        broadcast use vstd::seq_lib::seq_to_set_is_finite;

        self.items@.unique_seq_to_set();
    }

    /// The empty set.
    pub fn new() -> (r: VisitedSet)
        ensures
            r@ == Set::<Address>::empty(),
            r.wf(),
            r.count() == 0,
    {
        let r = VisitedSet { items: Vec::new() };
        proof {
            assert(r@ =~= Set::<Address>::empty());
        }
        r
    }

    /// Whether `a` was already discovered.
    pub fn contains(&self, a: &Address) -> (r: bool)
        ensures
            r == self@.contains(*a),
    {
        let mut j: usize = 0;
        while j < self.items.len()
            invariant
                j <= self.items@.len(),
                forall|i: int| 0 <= i < j ==> self.items@[i] != *a,
            decreases self.items@.len() - j,
        {
            if self.items[j] == *a {
                assert(self.items@.contains(*a));
                return true;
            }
            j += 1;
        }
        assert(!self.items@.contains(*a));
        false
    }

    /// Membership test and insertion in one atomic step: inserts `a` and
    /// reports whether it was absent. Two branches asking about the same
    /// address cannot both see it as unseen.
    pub fn check_and_insert(&mut self, a: Address) -> (fresh: bool)
        requires
            old(self).wf(),
        ensures
            final(self).wf(),
            fresh == !old(self)@.contains(a),
            final(self)@ == old(self)@.insert(a),
            final(self).count() == old(self).count() + (if fresh {
                1int
            } else {
                0int
            }),
    {
        if self.contains(&a) {
            proof {
                assert(final(self)@ =~= old(self)@.insert(a));
            }
            false
        } else {
            proof {
                assert(!self.items@.contains(a));
            }
            self.items.push(a);
            proof {
                broadcast use vstd::seq_lib::group_seq_properties;

                assert(final(self)@ =~= old(self)@.insert(a));
            }
            true
        }
    }
}

} // verus!
