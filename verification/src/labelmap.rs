use vstd::prelude::*;

use crate::addr::Address;

verus! {

/// A finite mapping from addresses to labels, held as an association list
/// with pairwise distinct keys. It backs both the label cache's store mirror
/// and the per-call resolution results.
pub struct AddrMap {
    items: Vec<(Address, String)>,
}

/// The mapping an association list stands for; a later pair would win, and
/// the well-formedness below rules repeated keys out altogether.
pub open spec fn map_of(s: Seq<(Address, String)>) -> Map<Address, Seq<char>>
    decreases s.len(),
{
    if s.len() == 0 {
        Map::empty()
    } else {
        map_of(s.drop_last()).insert(s.last().0, s.last().1@)
    }
}

/// The keys of an association list, in order.
pub open spec fn keys_of_pairs(s: Seq<(Address, String)>) -> Seq<Address> {
    s.map_values(|p: (Address, String)| p.0)
}

/// Membership and lookup in `map_of` read off the association list: a key
/// is present exactly when some pair holds it, and with distinct keys the
/// pair's label is the mapping's value.
proof fn lemma_map_of(s: Seq<(Address, String)>)
    requires
        keys_of_pairs(s).no_duplicates(),
    ensures
        forall|a: Address|
            #[trigger] map_of(s).contains_key(a) <==> exists|i: int| 0 <= i < s.len() && s[i].0 == a,
        forall|i: int| 0 <= i < s.len() ==> map_of(s)[#[trigger] s[i].0] == s[i].1@,
    decreases s.len(),
{
    if s.len() > 0 {
        let prefix = s.drop_last();
        assert(keys_of_pairs(prefix) =~= keys_of_pairs(s).drop_last());
        lemma_map_of(prefix);
        assert forall|i: int| 0 <= i < s.len() implies map_of(s)[#[trigger] s[i].0] == s[i].1@ by {
            if i < s.len() - 1 {
                assert(keys_of_pairs(s)[i] == s[i].0);
                assert(keys_of_pairs(s)[s.len() - 1] == s.last().0);
                assert(s[i].0 != s.last().0);
                assert(map_of(s)[s[i].0] == map_of(prefix)[prefix[i].0]);
            }
        }
        assert forall|a: Address| #[trigger]
            map_of(s).contains_key(a) implies exists|i: int| 0 <= i < s.len() && s[i].0 == a by {
            if a == s.last().0 {
                assert(s[s.len() - 1].0 == a);
            } else {
                assert(map_of(prefix).contains_key(a));
                let i = choose|i: int| 0 <= i < prefix.len() && prefix[i].0 == a;
                assert(prefix[i] == s[i]);
                assert(s[i].0 == a);
            }
        }
        assert forall|a: Address| (exists|i: int| 0 <= i < s.len() && s[i].0 == a) implies #[trigger]
            map_of(s).contains_key(a) by {
            let i = choose|i: int| 0 <= i < s.len() && s[i].0 == a;
            if i < s.len() - 1 {
                assert(prefix[i] == s[i]);
                assert(prefix[i].0 == a);
                assert(map_of(prefix).contains_key(a));
            }
        }
    }
}

impl View for AddrMap {
    type V = Map<Address, Seq<char>>;

    closed spec fn view(&self) -> Map<Address, Seq<char>> {
        map_of(self.items@)
    }
}

impl AddrMap {
    /// Internal soundness: keys are pairwise distinct.
    pub closed spec fn wf(&self) -> bool {
        keys_of_pairs(self.items@).no_duplicates()
    }

    /// The empty mapping.
    pub fn new() -> (r: AddrMap)
        ensures
            r@ == Map::<Address, Seq<char>>::empty(),
            r.wf(),
    {
        AddrMap { items: Vec::new() }
    }

    /// The label `a` maps to, if any.
    pub fn get(&self, a: &Address) -> (r: Option<&String>)
        requires
            self.wf(),
        ensures
            match r {
                Some(l) => self@.contains_key(*a) && l@ == self@[*a],
                None => !self@.contains_key(*a),
            },
    {
        proof {
            lemma_map_of(self.items@);
        }
        let mut j: usize = 0;
        while j < self.items.len()
            invariant
                self.wf(),
                j <= self.items@.len(),
                forall|i: int| 0 <= i < j ==> self.items@[i].0 != *a,
            decreases self.items@.len() - j,
        {
            if self.items[j].0 == *a {
                proof {
                    lemma_map_of(self.items@);
                }
                return Some(&self.items[j].1);
            }
            j += 1;
        }
        proof {
            lemma_map_of(self.items@);
            assert(forall|i: int| 0 <= i < self.items@.len() ==> self.items@[i].0 != *a);
        }
        None
    }

    /// Whether `a` has a label here.
    pub fn contains_key(&self, a: &Address) -> (r: bool)
        requires
            self.wf(),
        ensures
            r == self@.contains_key(*a),
    {
        match self.get(a) {
            Some(_) => true,
            None => false,
        }
    }

    /// Binds `a` to `l` unless `a` is already bound: the first resolution of
    /// an address wins, a later one never overwrites it.
    pub fn insert_if_absent(&mut self, a: Address, l: String) -> (fresh: bool)
        requires
            old(self).wf(),
        ensures
            final(self).wf(),
            fresh == !old(self)@.contains_key(a),
            final(self)@ == if old(self)@.contains_key(a) {
                old(self)@
            } else {
                old(self)@.insert(a, l@)
            },
    {
        let present = self.contains_key(&a);
        if present {
            false
        } else {
            proof {
                lemma_map_of(self.items@);
            }
            self.items.push((a, l));
            proof {
                let s = self.items@;
                let ks = keys_of_pairs(s);
                assert(s.drop_last() =~= old(self).items@);
                assert(ks.drop_last() =~= keys_of_pairs(old(self).items@));
                assert(forall|i: int|
                    0 <= i < old(self).items@.len() ==> old(self).items@[i].0 != a);
                assert(ks[ks.len() - 1] == a);
                assert forall|i: int, j: int|
                    0 <= i < j < ks.len() implies ks[i] != ks[j] by {
                    if j < ks.len() - 1 {
                        assert(ks.drop_last()[i] == ks[i]);
                        assert(ks.drop_last()[j] == ks[j]);
                    } else {
                        assert(ks[i] == keys_of_pairs(old(self).items@)[i]);
                        assert(keys_of_pairs(old(self).items@)[i] == old(self).items@[i].0);
                    }
                }
                assert(ks.no_duplicates());
            }
            true
        }
    }
}

} // verus!
