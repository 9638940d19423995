use vstd::prelude::*;

use crate::addr::Address;
use crate::labelmap::AddrMap;

verus! {

// The label-resolution cache. One batched resolution partitions its input
// into hits against the store mirror and misses; the misses are put to each
// label provider in priority order, chopped into sub-batches no larger than
// the provider cap, with bounded backoff-and-retry on a rate-limit signal;
// results merge first-wins, and every new resolution is written back to the
// store before it is returned. The providers themselves are outside
// collaborators: a `ResolveSession` tells its caller which query to make
// next, and takes the outcome back.

/// What one provider call came to, as the provider adapter classifies it.
pub enum ProviderOutcome {
    /// The provider resolved a subset of the queried addresses.
    Labels(Vec<(Address, String)>),
    /// The provider signalled a rate limit: the same sub-batch may be
    /// retried after a backoff.
    RateLimited,
    /// A passing failure (network, malformed response): the provider found
    /// nothing for this sub-batch.
    Transient,
    /// A lasting failure: treated no differently, the crawl prefers partial
    /// results to halting.
    Fatal,
}

/// One provider query the session asks its caller to make: which provider,
/// which addresses, and how long to back off first (zero but for a retry).
pub struct Query {
    pub provider: usize,
    pub addresses: Vec<Address>,
    pub backoff_secs: u64,
}

/// The sub-batch starting at `start`: at most `cap` addresses.
pub open spec fn chunk_at(misses: Seq<Address>, start: int, cap: int) -> Seq<Address> {
    misses.subrange(
        start,
        if start + cap <= misses.len() {
            start + cap
        } else {
            misses.len() as int
        },
    )
}

/// `m` extended with the pairs whose address is in `chunk`, first
/// resolution wins: a pair never overwrites a binding already present.
pub open spec fn merge_pairs(
    m: Map<Address, Seq<char>>,
    pairs: Seq<(Address, String)>,
    chunk: Seq<Address>,
) -> Map<Address, Seq<char>>
    decreases pairs.len(),
{
    if pairs.len() == 0 {
        m
    } else {
        let q = merge_pairs(m, pairs.drop_last(), chunk);
        if chunk.contains(pairs.last().0) && !q.contains_key(pairs.last().0) {
            q.insert(pairs.last().0, pairs.last().1@)
        } else {
            q
        }
    }
}

/// The distinct elements of `s`, in order of first occurrence.
pub open spec fn distinct_of(s: Seq<Address>) -> Seq<Address>
    decreases s.len(),
{
    if s.len() == 0 {
        Seq::empty()
    } else {
        let p = distinct_of(s.drop_last());
        if p.contains(s.last()) {
            p
        } else {
            p.push(s.last())
        }
    }
}

/// The label the priority-ordered providers resolve `a` to: the first
/// provider in order that knows `a` wins.
pub open spec fn resolved_label(ms: Seq<Map<Address, Seq<char>>>, a: Address) -> Option<Seq<char>>
    decreases ms.len(),
{
    if ms.len() == 0 {
        None
    } else if ms[0].contains_key(a) {
        Some(ms[0][a])
    } else {
        resolved_label(ms.drop_first(), a)
    }
}

/// The views of a list of provider stand-ins.
pub open spec fn provider_maps(ps: Seq<AddrMap>) -> Seq<Map<Address, Seq<char>>> {
    ps.map_values(|p: AddrMap| p@)
}

/// The backoff before attempt number `attempts` at one sub-batch: nothing
/// before the first try, then exponentially growing.
pub open spec fn backoff_of(attempts: u64) -> u64 {
    if attempts == 0 {
        0
    } else {
        1u64 << attempts
    }
}

/// Membership in `distinct_of` is membership in the original.
pub proof fn lemma_distinct_of(s: Seq<Address>)
    ensures
        distinct_of(s).no_duplicates(),
        forall|a: Address| #[trigger] distinct_of(s).contains(a) <==> s.contains(a),
    decreases s.len(),
{
    if s.len() > 0 {
        let dl = s.drop_last();
        lemma_distinct_of(dl);
        let p = distinct_of(dl);
        assert forall|a: Address| #[trigger] distinct_of(s).contains(a) implies s.contains(a) by {
            if p.contains(a) {
                assert(dl.contains(a));
                let k = choose|k: int| 0 <= k < dl.len() && dl[k] == a;
                assert(s[k] == a);
            } else {
                assert(a == s.last());
                assert(s[s.len() - 1] == a);
            }
        }
        assert forall|a: Address| s.contains(a) implies #[trigger] distinct_of(s).contains(a) by {
            let k = choose|k: int| 0 <= k < s.len() && s[k] == a;
            if k < s.len() - 1 {
                assert(dl[k] == a);
                assert(p.contains(a));
                if !p.contains(s.last()) {
                    assert(distinct_of(s)[choose|j: int|
                        0 <= j < p.len() && p[j] == a] == a);
                }
            } else {
                assert(a == s.last());
                if p.contains(a) {
                } else {
                    assert(distinct_of(s).last() == a);
                }
            }
        }
        if !p.contains(s.last()) {
            assert forall|i: int, j: int|
                0 <= i < j < distinct_of(s).len() implies distinct_of(s)[i] != distinct_of(
                s,
            )[j] by {
                if j < p.len() {
                } else {
                    assert(distinct_of(s)[j] == s.last());
                    assert(distinct_of(s)[i] == p[i]);
                    assert(p.contains(p[i]));
                }
            }
        }
    }
}

/// Membership in a filtered sequence is membership plus the predicate.
pub proof fn lemma_filter_contains_iff(s: Seq<Address>, pred: spec_fn(Address) -> bool)
    ensures
        forall|a: Address| #[trigger] s.filter(pred).contains(a) <==> s.contains(a) && pred(a),
    decreases s.len(),
{
    reveal(Seq::filter);
    if s.len() > 0 {
        let dl = s.drop_last();
        lemma_filter_contains_iff(dl, pred);
        assert forall|a: Address| #[trigger]
            s.filter(pred).contains(a) implies s.contains(a) && pred(a) by {
            if dl.filter(pred).contains(a) {
                let k = choose|k: int| 0 <= k < dl.len() && dl[k] == a;
                assert(s[k] == a);
            } else {
                assert(a == s.last());
                assert(s[s.len() - 1] == a);
            }
        }
        assert forall|a: Address| s.contains(a) && pred(a) implies #[trigger] s.filter(
            pred,
        ).contains(a) by {
            let k = choose|k: int| 0 <= k < s.len() && s[k] == a;
            if k < s.len() - 1 {
                assert(dl[k] == a);
                assert(dl.filter(pred).contains(a));
                let j = choose|j: int| 0 <= j < dl.filter(pred).len() && dl.filter(pred)[j] == a;
                if pred(s.last()) {
                    assert(s.filter(pred)[j] == a);
                } else {
                    assert(s.filter(pred)[j] == a);
                }
            } else {
                assert(a == s.last());
                assert(s.filter(pred).last() == a);
            }
        }
    }
}

/// What the priority sweep resolves: an address is resolved exactly when
/// some provider knows it, and the winning label is the first such
/// provider's.
pub proof fn lemma_resolved_label(pms: Seq<Map<Address, Seq<char>>>, a: Address)
    ensures
        (resolved_label(pms, a) is Some) <==> exists|p: int|
            0 <= p < pms.len() && (#[trigger] pms[p]).contains_key(a),
        forall|p: int|
            0 <= p < pms.len() && (#[trigger] pms[p]).contains_key(a) && (forall|q: int|
                0 <= q < p ==> !(#[trigger] pms[q]).contains_key(a)) ==> resolved_label(pms, a)
                == Some(pms[p][a]),
    decreases pms.len(),
{
    if pms.len() > 0 {
        let rest = pms.drop_first();
        lemma_resolved_label(rest, a);
        assert(forall|p: int| 0 <= p < rest.len() ==> #[trigger] rest[p] == pms[p + 1]);
        if pms[0].contains_key(a) {
        } else {
            assert((resolved_label(pms, a) is Some) <==> exists|p: int|
                0 <= p < pms.len() && (#[trigger] pms[p]).contains_key(a)) by {
                if exists|p: int| 0 <= p < pms.len() && (#[trigger] pms[p]).contains_key(a) {
                    let p = choose|p: int| 0 <= p < pms.len() && (#[trigger] pms[p]).contains_key(a);
                    assert(p >= 1);
                    assert(rest[p - 1].contains_key(a));
                }
                if exists|p: int| 0 <= p < rest.len() && (#[trigger] rest[p]).contains_key(a) {
                    let p = choose|p: int| 0 <= p < rest.len() && (#[trigger] rest[p]).contains_key(a);
                    assert(pms[p + 1].contains_key(a));
                }
            }
            assert forall|p: int|
                0 <= p < pms.len() && (#[trigger] pms[p]).contains_key(a) && (forall|q: int|
                    0 <= q < p ==> !(#[trigger] pms[q]).contains_key(a)) implies resolved_label(
                pms,
                a,
            ) == Some(pms[p][a]) by {
                assert(p >= 1);
                assert(rest[p - 1].contains_key(a));
                assert(forall|q: int| 0 <= q < p - 1 ==> !(#[trigger] rest[q]).contains_key(a));
            }
        }
    }
}

/// What the first-wins merge holds: a key is present when it was present
/// before or a pair in the sub-batch brought it; old bindings stay; a new
/// binding carries its pair's label.
pub proof fn lemma_merge_pairs(
    m: Map<Address, Seq<char>>,
    pairs: Seq<(Address, String)>,
    chunk: Seq<Address>,
)
    requires
        crate::labelmap::keys_of_pairs(pairs).no_duplicates(),
    ensures
        forall|x: Address| #[trigger]
            merge_pairs(m, pairs, chunk).contains_key(x) <==> m.contains_key(x) || (chunk.contains(
                x,
            ) && crate::labelmap::keys_of_pairs(pairs).contains(x)),
        forall|x: Address| #[trigger]
            m.contains_key(x) ==> merge_pairs(m, pairs, chunk)[x] == m[x],
        forall|j: int|
            0 <= j < pairs.len() && chunk.contains((#[trigger] pairs[j]).0) && !m.contains_key(
                pairs[j].0,
            ) ==> merge_pairs(m, pairs, chunk)[pairs[j].0] == pairs[j].1@,
    decreases pairs.len(),
{
    let ks = crate::labelmap::keys_of_pairs(pairs);
    if pairs.len() > 0 {
        let dl = pairs.drop_last();
        let kdl = crate::labelmap::keys_of_pairs(dl);
        assert(kdl =~= ks.drop_last());
        assert(kdl.no_duplicates()) by {
            assert(forall|i: int| 0 <= i < kdl.len() ==> kdl[i] == ks[i]);
        }
        lemma_merge_pairs(m, dl, chunk);
        let q = merge_pairs(m, dl, chunk);
        let last = pairs.last();
        assert forall|x: Address| #[trigger]
            merge_pairs(m, pairs, chunk).contains_key(x) <==> m.contains_key(x) || (chunk.contains(
                x,
            ) && ks.contains(x)) by {
            assert(ks[ks.len() - 1] == last.0);
            if x != last.0 {
                assert(ks.contains(x) == kdl.contains(x)) by {
                    if kdl.contains(x) {
                        let j = choose|j: int| 0 <= j < kdl.len() && kdl[j] == x;
                        assert(ks[j] == x);
                    }
                    if ks.contains(x) {
                        let j = choose|j: int| 0 <= j < ks.len() && ks[j] == x;
                        assert(j < ks.len() - 1);
                        assert(kdl[j] == x);
                    }
                }
            } else {
                assert(ks.contains(x)) by {
                    assert(ks[ks.len() - 1] == x);
                }
            }
        }
        assert forall|j: int|
            0 <= j < pairs.len() && chunk.contains((#[trigger] pairs[j]).0) && !m.contains_key(
                pairs[j].0,
            ) implies merge_pairs(m, pairs, chunk)[pairs[j].0] == pairs[j].1@ by {
            if j < pairs.len() - 1 {
                assert(dl[j] == pairs[j]);
                assert(q[pairs[j].0] == pairs[j].1@);
                assert(pairs[j].0 != last.0) by {
                    assert(ks[j] == pairs[j].0);
                    assert(ks[ks.len() - 1] == last.0);
                }
                if chunk.contains(last.0) && !q.contains_key(last.0) {
                }
            } else {
                assert(!q.contains_key(last.0)) by {
                    if q.contains_key(last.0) {
                        assert(chunk.contains(last.0) && kdl.contains(last.0));
                        let i = choose|i: int| 0 <= i < kdl.len() && kdl[i] == last.0;
                        assert(ks[i] == last.0);
                        assert(ks[ks.len() - 1] == last.0);
                    }
                }
            }
        }
    }
}

/// Whether the sweep standing at provider `p_now`, position `pos_now` has
/// already put address `a` to provider `p`: earlier providers saw every
/// miss, the current one the misses before the position.
pub open spec fn swept(ms: Seq<Address>, p_now: int, pos_now: int, p: int, a: Address) -> bool {
    p < p_now || (p == p_now && exists|k: int| 0 <= k < pos_now && ms[k] == a)
}

/// One batched resolution in flight: the fixed miss list, the merged
/// results so far, and where the provider sweep stands. The caller asks
/// `next_query` what to do, performs the provider call, and hands the
/// outcome to `on_response`; `finish` writes the new resolutions back.
pub struct ResolveSession {
    misses: Vec<Address>,
    found: AddrMap,
    provider_idx: usize,
    chunk_start: usize,
    attempts: u64,
    awaiting: bool,
    n_providers: usize,
    batch_cap: usize,
    retry_limit: u64,
    store0: Ghost<Map<Address, Seq<char>>>,
    queries: Ghost<Seq<(int, Seq<Address>)>>,
}

impl ResolveSession {
    /// The fixed miss batch: the input addresses the store could not serve.
    pub closed spec fn misses(&self) -> Seq<Address> {
        self.misses@
    }

    /// The labels gathered so far: the store hits and the merged provider
    /// results.
    pub closed spec fn found_map(&self) -> Map<Address, Seq<char>> {
        self.found@
    }

    /// The provider the sweep stands at.
    pub closed spec fn provider_index(&self) -> int {
        self.provider_idx as int
    }

    /// The start of the current sub-batch within the misses.
    pub closed spec fn chunk_pos(&self) -> int {
        self.chunk_start as int
    }

    /// How many rate-limited tries the current sub-batch has cost.
    pub closed spec fn attempts(&self) -> u64 {
        self.attempts
    }

    /// Whether a query is outstanding.
    pub closed spec fn is_awaiting(&self) -> bool {
        self.awaiting
    }

    /// How many providers the sweep covers.
    pub closed spec fn n_providers(&self) -> int {
        self.n_providers as int
    }

    /// The provider cap: no query carries more addresses.
    pub closed spec fn batch_cap(&self) -> int {
        self.batch_cap as int
    }

    /// How many retries a rate-limited sub-batch is granted.
    pub closed spec fn retry_limit(&self) -> u64 {
        self.retry_limit
    }

    /// The store mirror as it stood when the session was opened.
    pub closed spec fn store_snapshot(&self) -> Map<Address, Seq<char>> {
        self.store0@
    }

    /// Every query issued so far: the provider asked and the addresses sent.
    pub closed spec fn queries(&self) -> Seq<(int, Seq<Address>)> {
        self.queries@
    }

    /// The session's invariant. The misses are distinct and none of them
    /// was in the store when the session was opened; every query sent so
    /// far fit the provider cap and asked only about misses.
    pub closed spec fn wf(&self) -> bool {
        &&& self.found.wf()
        &&& self.batch_cap >= 1
        &&& self.retry_limit <= 16
        &&& self.attempts <= self.retry_limit
        &&& self.misses@.no_duplicates()
        &&& (forall|i: int|
            0 <= i < self.misses@.len() ==> !self.store0@.contains_key(
                #[trigger] self.misses@[i],
            ))
        &&& (self.provider_idx < self.n_providers && self.misses@.len() > 0 ==> self.chunk_start
            < self.misses@.len())
        &&& (self.provider_idx >= self.n_providers ==> self.chunk_start == 0)
        &&& (self.awaiting ==> self.provider_idx < self.n_providers && self.chunk_start
            < self.misses@.len())
        &&& (forall|i: int|
            0 <= i < self.queries@.len() ==> 0 <= (#[trigger] self.queries@[i]).0
                < self.n_providers)
        &&& (forall|i: int|
            0 <= i < self.queries@.len() ==> (#[trigger] self.queries@[i]).1.len()
                <= self.batch_cap)
        &&& (forall|i: int, j: int|
            0 <= i < self.queries@.len() && 0 <= j < self.queries@[i].1.len()
                ==> self.misses@.contains(#[trigger] self.queries@[i].1[j]))
    }

    /// Whether the sweep is over: every provider was asked about every
    /// sub-batch, or there was nothing to ask.
    pub open spec fn done(&self) -> bool {
        !self.is_awaiting() && (self.provider_index() >= self.n_providers() || self.misses().len()
            == 0)
    }

    /// The next provider query to make, or nothing when the sweep is over.
    /// The query's addresses are the current sub-batch of the misses: never
    /// more than the cap, and always part of the miss batch.
    #[verifier::loop_isolation(false)]
    pub fn next_query(&mut self) -> (r: Option<Query>)
        requires
            old(self).wf(),
            !old(self).is_awaiting(),
        ensures
            final(self).wf(),
            final(self).misses() == old(self).misses(),
            final(self).found_map() == old(self).found_map(),
            final(self).store_snapshot() == old(self).store_snapshot(),
            final(self).n_providers() == old(self).n_providers(),
            final(self).batch_cap() == old(self).batch_cap(),
            final(self).retry_limit() == old(self).retry_limit(),
            final(self).provider_index() == old(self).provider_index(),
            final(self).chunk_pos() == old(self).chunk_pos(),
            final(self).attempts() == old(self).attempts(),
            match r {
                None => {
                    &&& old(self).done()
                    &&& !final(self).is_awaiting()
                    &&& final(self).queries() == old(self).queries()
                },
                Some(q) => {
                    &&& !old(self).done()
                    &&& q.provider == old(self).provider_index()
                    &&& q.addresses@ == chunk_at(
                        old(self).misses(),
                        old(self).chunk_pos(),
                        old(self).batch_cap(),
                    )
                    &&& 1 <= q.addresses@.len() <= old(self).batch_cap()
                    &&& q.backoff_secs == backoff_of(old(self).attempts())
                    &&& final(self).is_awaiting()
                    &&& final(self).queries() == old(self).queries().push(
                        (old(self).provider_index(), q.addresses@),
                    )
                },
            },
    {
        if self.provider_idx >= self.n_providers || self.misses.len() == 0 {
            return None;
        }
        let end = if self.misses.len() - self.chunk_start <= self.batch_cap {
            self.misses.len()
        } else {
            self.chunk_start + self.batch_cap
        };
        let mut addresses: Vec<Address> = Vec::new();
        let mut i: usize = self.chunk_start;
        while i < end
            invariant
                self.chunk_start <= i <= end <= self.misses@.len(),
                addresses@ =~= self.misses@.subrange(self.chunk_start as int, i as int),
            decreases end - i,
        {
            addresses.push(self.misses[i]);
            proof {
                assert(addresses@ =~= self.misses@.subrange(self.chunk_start as int, i + 1));
            }
            i += 1;
        }
        proof {
            assert(addresses@ =~= chunk_at(
                self.misses@,
                self.chunk_start as int,
                self.batch_cap as int,
            ));
        }
        let backoff_secs = if self.attempts == 0 {
            0
        } else {
            1u64 << self.attempts
        };
        let provider = self.provider_idx;
        self.awaiting = true;
        proof {
            self.queries@ = self.queries@.push((provider as int, addresses@));
        }
        Some(Query { provider, addresses, backoff_secs })
    }

    /// Whether the current sub-batch holds `a`.
    #[verifier::loop_isolation(false)]
    fn chunk_contains(&self, a: &Address) -> (r: bool)
        requires
            self.wf(),
            self.is_awaiting(),
        ensures
            r == chunk_at(self.misses(), self.chunk_pos(), self.batch_cap()).contains(*a),
    {
        let end = if self.misses.len() - self.chunk_start <= self.batch_cap {
            self.misses.len()
        } else {
            self.chunk_start + self.batch_cap
        };
        let ghost chunk = chunk_at(self.misses(), self.chunk_pos(), self.batch_cap());
        let mut i: usize = self.chunk_start;
        while i < end
            invariant
                self.chunk_start <= i <= end <= self.misses@.len(),
                end as int == self.chunk_pos() + chunk.len(),
                forall|k: int| 0 <= k < chunk.len() ==> chunk[k] == self.misses@[self.chunk_pos() + k],
                forall|k: int| self.chunk_start <= k < i ==> self.misses@[k] != *a,
            decreases end - i,
        {
            if self.misses[i] == *a {
                proof {
                    assert(chunk[i - self.chunk_pos()] == *a);
                }
                return true;
            }
            i += 1;
        }
        proof {
            if chunk.contains(*a) {
                let k = choose|k: int| 0 <= k < chunk.len() && chunk[k] == *a;
                assert(self.misses@[self.chunk_pos() + k] == *a);
            }
        }
        false
    }

    /// Takes the outcome of the outstanding query. Labels merge first-wins,
    /// restricted to the queried sub-batch, and the sweep advances; a
    /// rate-limit signal holds the sweep at the same sub-batch until the
    /// retries are spent; any other failure means this provider found
    /// nothing for this sub-batch, and the sweep moves on.
    #[verifier::loop_isolation(false)]
    pub fn on_response(&mut self, outcome: ProviderOutcome)
        requires
            old(self).wf(),
            old(self).is_awaiting(),
        ensures
            final(self).wf(),
            !final(self).is_awaiting(),
            final(self).misses() == old(self).misses(),
            final(self).store_snapshot() == old(self).store_snapshot(),
            final(self).n_providers() == old(self).n_providers(),
            final(self).batch_cap() == old(self).batch_cap(),
            final(self).retry_limit() == old(self).retry_limit(),
            final(self).queries() == old(self).queries(),
            ({
                let advanced_provider = old(self).chunk_pos() + old(self).batch_cap() >= old(self).misses().len();
                let held = outcome matches ProviderOutcome::RateLimited && old(self).attempts()
                    < old(self).retry_limit();
                &&& (match outcome {
                    ProviderOutcome::Labels(pairs) => final(self).found_map() == merge_pairs(
                        old(self).found_map(),
                        pairs@,
                        chunk_at(old(self).misses(), old(self).chunk_pos(), old(self).batch_cap()),
                    ),
                    _ => final(self).found_map() == old(self).found_map(),
                })
                &&& (if held {
                    &&& final(self).provider_index() == old(self).provider_index()
                    &&& final(self).chunk_pos() == old(self).chunk_pos()
                    &&& final(self).attempts() == old(self).attempts() + 1
                } else {
                    &&& final(self).attempts() == 0
                    &&& (if advanced_provider {
                        final(self).provider_index() == old(self).provider_index() + 1
                            && final(self).chunk_pos() == 0
                    } else {
                        final(self).provider_index() == old(self).provider_index()
                            && final(self).chunk_pos() == old(self).chunk_pos() + old(self).batch_cap()
                    })
                })
            }),
    {
        let held = match &outcome {
            ProviderOutcome::RateLimited => self.attempts < self.retry_limit,
            _ => false,
        };
        match outcome {
            ProviderOutcome::Labels(pairs) => {
                let ghost found0 = self.found@;
                let ghost chunk = chunk_at(self.misses@, self.chunk_pos(), self.batch_cap());
                let mut i: usize = 0;
                while i < pairs.len()
                    invariant
                        i <= pairs@.len(),
                        self.wf(),
                        self.is_awaiting(),
                        self.misses@ == old(self).misses@,
                        self.provider_idx == old(self).provider_idx,
                        self.chunk_start == old(self).chunk_start,
                        self.attempts == old(self).attempts,
                        self.batch_cap == old(self).batch_cap,
                        self.n_providers == old(self).n_providers,
                        self.retry_limit == old(self).retry_limit,
                        self.store0@ == old(self).store0@,
                        self.queries@ == old(self).queries@,
                        self.found@ == merge_pairs(found0, pairs@.take(i as int), chunk),
                    decreases pairs@.len() - i,
                {
                    let a = pairs[i].0;
                    proof {
                        assert(pairs@.take(i + 1).drop_last() =~= pairs@.take(i as int));
                        assert(pairs@.take(i + 1).last() == pairs@[i as int]);
                    }
                    if self.chunk_contains(&a) {
                        let l = pairs[i].1.clone();
                        self.found.insert_if_absent(a, l);
                    }
                    i += 1;
                }
                proof {
                    assert(pairs@.take(pairs@.len() as int) =~= pairs@);
                }
            },
            _ => {},
        }
        if held {
            self.attempts = self.attempts + 1;
        } else {
            self.attempts = 0;
            if self.misses.len() - self.chunk_start <= self.batch_cap {
                self.provider_idx = self.provider_idx + 1;
                self.chunk_start = 0;
            } else {
                self.chunk_start = self.chunk_start + self.batch_cap;
            }
        }
        self.awaiting = false;
    }

    /// Writes every resolution gathered for a miss back into the cache's
    /// store, and hands out the full result — the hits and the merged
    /// provider results — together with the newly stored pairs, for the
    /// caller to persist.
    #[verifier::loop_isolation(false)]
    pub fn finish(self, cache: &mut LabelCache) -> (r: (AddrMap, Vec<(Address, String)>))
        requires
            self.wf(),
            self.done(),
            old(cache).wf(),
            self.store_snapshot() == old(cache).store(),
        ensures
            final(cache).wf(),
            final(cache).n_providers() == old(cache).n_providers(),
            final(cache).batch_cap() == old(cache).batch_cap(),
            final(cache).retry_limit() == old(cache).retry_limit(),
            r.0.wf(),
            r.0@ == self.found_map(),
            forall|a: Address| #[trigger]
                final(cache).store().contains_key(a) <==> old(cache).store().contains_key(a) || (
                self.found_map().contains_key(a) && self.misses().contains(a)),
            forall|a: Address| #[trigger]
                old(cache).store().contains_key(a) ==> final(cache).store()[a] == old(cache).store()[a],
            forall|a: Address|
                !old(cache).store().contains_key(a) && #[trigger] final(cache).store().contains_key(a) ==> final(cache).store()[a] == self.found_map()[a],
            forall|i: int|
                0 <= i < r.1@.len() ==> self.misses().contains((#[trigger] r.1@[i]).0)
                    && self.found_map().contains_key(r.1@[i].0) && r.1@[i].1@
                    == self.found_map()[r.1@[i].0],
            forall|a: Address|
                self.misses().contains(a) && #[trigger] self.found_map().contains_key(a)
                    ==> crate::labelmap::keys_of_pairs(r.1@).contains(a),
    {
        let ghost store0 = cache.store@;
        let ghost ms = self.misses@;
        let mut fresh_pairs: Vec<(Address, String)> = Vec::new();
        let mut i: usize = 0;
        while i < self.misses.len()
            invariant
                i <= ms.len(),
                cache.wf(),
                cache.n_providers == old(cache).n_providers,
                cache.batch_cap == old(cache).batch_cap,
                cache.retry_limit == old(cache).retry_limit,
                forall|a: Address| #[trigger]
                    cache.store@.contains_key(a) <==> store0.contains_key(a) || (
                    self.found@.contains_key(a) && ms.take(i as int).contains(a)),
                forall|a: Address| #[trigger]
                    store0.contains_key(a) ==> cache.store@.contains_key(a) && cache.store@[a]
                        == store0[a],
                forall|a: Address|
                    !store0.contains_key(a) && #[trigger] cache.store@.contains_key(a)
                        ==> cache.store@[a] == self.found@[a],
                forall|j: int|
                    0 <= j < fresh_pairs@.len() ==> ms.take(i as int).contains(
                        (#[trigger] fresh_pairs@[j]).0,
                    ) && self.found@.contains_key(fresh_pairs@[j].0) && fresh_pairs@[j].1@
                        == self.found@[fresh_pairs@[j].0],
                forall|a: Address|
                    ms.take(i as int).contains(a) && #[trigger] self.found@.contains_key(a)
                        ==> exists|j: int|
                        0 <= j < fresh_pairs@.len() && (#[trigger] fresh_pairs@[j]).0 == a,
            decreases ms.len() - i,
        {
            let a = self.misses[i];
            proof {
                assert(ms.take(i + 1).drop_last() =~= ms.take(i as int));
                assert(ms.take(i + 1).last() == a);
                broadcast use vstd::seq_lib::group_seq_properties;

            }
            match self.found.get(&a) {
                Some(l) => {
                    let lab = l.clone();
                    let lab2 = l.clone();
                    let ghost fp0 = fresh_pairs@;
                    cache.store.insert_if_absent(a, lab);
                    fresh_pairs.push((a, lab2));
                    proof {
                        assert(!ms.take(i as int).contains(a));
                        assert(!store0.contains_key(a));
                        assert forall|x: Address| #[trigger]
                            cache.store@.contains_key(x) <==> store0.contains_key(x) || (
                            self.found@.contains_key(x) && ms.take(i + 1).contains(x)) by {
                            if x != a {
                                assert(ms.take(i + 1).contains(x) == ms.take(i as int).contains(
                                    x,
                                ));
                            }
                        }
                        assert forall|x: Address|
                            ms.take(i + 1).contains(x) && #[trigger] self.found@.contains_key(x)
                                implies exists|j: int|
                            0 <= j < fresh_pairs@.len() && (#[trigger] fresh_pairs@[j]).0
                                == x by {
                            if x == a {
                                assert(fresh_pairs@[fresh_pairs@.len() - 1].0 == x);
                            } else {
                                assert(ms.take(i as int).contains(x));
                                let j = choose|j: int| 0 <= j < fp0.len() && fp0[j].0 == x;
                                assert(fresh_pairs@[j] == fp0[j]);
                                assert(fresh_pairs@[j].0 == x);
                            }
                        }
                    }
                },
                None => {
                    proof {
                        assert forall|x: Address| #[trigger]
                            cache.store@.contains_key(x) <==> store0.contains_key(x) || (
                            self.found@.contains_key(x) && ms.take(i + 1).contains(x)) by {
                            if x != a {
                                assert(ms.take(i + 1).contains(x) == ms.take(i as int).contains(
                                    x,
                                ));
                            } else {
                                assert(!self.found@.contains_key(x));
                            }
                        }
                        assert forall|x: Address|
                            ms.take(i + 1).contains(x) && #[trigger] self.found@.contains_key(x)
                                implies exists|j: int|
                            0 <= j < fresh_pairs@.len() && (#[trigger] fresh_pairs@[j]).0
                                == x by {
                            if x == a {
                                assert(!self.found@.contains_key(x));
                            } else {
                                assert(ms.take(i as int).contains(x));
                            }
                        }
                    }
                },
            }
            i += 1;
        }
        proof {
            assert(ms.take(ms.len() as int) =~= ms);
            assert forall|a: Address|
                self.misses().contains(a) && #[trigger] self.found_map().contains_key(
                    a,
                ) implies crate::labelmap::keys_of_pairs(fresh_pairs@).contains(a) by {
                assert(ms.take(ms.len() as int).contains(a));
                assert(self.found@.contains_key(a));
                let j = choose|j: int|
                    0 <= j < fresh_pairs@.len() && (#[trigger] fresh_pairs@[j]).0 == a;
                assert(crate::labelmap::keys_of_pairs(fresh_pairs@)[j] == a);
            }
        }
        let ResolveSession { found, .. } = self;
        (found, fresh_pairs)
    }
}

/// The label cache: the persistent store's in-memory mirror and the
/// provider sweep's configuration. The mirror starts empty; the surrounding
/// program seeds it from the persistent store and persists what a
/// resolution writes back, so a store failure degrades to cache misses and
/// never stops a crawl.
pub struct LabelCache {
    store: AddrMap,
    n_providers: usize,
    batch_cap: usize,
    retry_limit: u64,
}

/// How many label providers the default configuration sweeps.
pub const DEFAULT_PROVIDERS: usize = 2;

/// The default provider cap: the largest sub-batch one provider call may
/// carry.
pub const DEFAULT_BATCH_CAP: usize = 20;

/// The default number of retries granted after a rate-limit signal.
pub const DEFAULT_RETRY_LIMIT: u64 = 3;

impl LabelCache {
    /// The store mirror's contents.
    pub closed spec fn store(&self) -> Map<Address, Seq<char>> {
        self.store@
    }

    /// How many providers a resolution sweeps, in priority order.
    pub closed spec fn n_providers(&self) -> int {
        self.n_providers as int
    }

    /// The provider cap.
    pub closed spec fn batch_cap(&self) -> int {
        self.batch_cap as int
    }

    /// How many retries a rate-limited sub-batch is granted.
    pub closed spec fn retry_limit(&self) -> u64 {
        self.retry_limit
    }

    /// The cache's invariant.
    pub closed spec fn wf(&self) -> bool {
        self.store.wf() && self.batch_cap >= 1 && self.retry_limit <= 16
    }

    /// A cache with the default configuration and an empty store mirror.
    pub fn new() -> (r: LabelCache)
        ensures
            r.wf(),
            r.store() == Map::<Address, Seq<char>>::empty(),
            r.n_providers() == DEFAULT_PROVIDERS as int,
            r.batch_cap() == DEFAULT_BATCH_CAP as int,
            r.retry_limit() == DEFAULT_RETRY_LIMIT,
    {
        LabelCache {
            store: AddrMap::new(),
            n_providers: DEFAULT_PROVIDERS,
            batch_cap: DEFAULT_BATCH_CAP,
            retry_limit: DEFAULT_RETRY_LIMIT,
        }
    }

    /// A cache with the given configuration and an empty store mirror.
    pub fn with_config(n_providers: usize, batch_cap: usize, retry_limit: u64) -> (r: LabelCache)
        requires
            batch_cap >= 1,
            retry_limit <= 16,
        ensures
            r.wf(),
            r.store() == Map::<Address, Seq<char>>::empty(),
            r.n_providers() == n_providers as int,
            r.batch_cap() == batch_cap as int,
            r.retry_limit() == retry_limit,
    {
        LabelCache { store: AddrMap::new(), n_providers, batch_cap, retry_limit }
    }

    /// The label the store mirror holds for `address`, if any.
    pub fn get(&self, address: &Address) -> (r: Option<&String>)
        requires
            self.wf(),
        ensures
            match r {
                Some(l) => self.store().contains_key(*address) && l@ == self.store()[*address],
                None => !self.store().contains_key(*address),
            },
    {
        self.store.get(address)
    }

    /// Puts one label into the store mirror; a binding already present
    /// stays, the first resolution of an address wins. The surrounding
    /// program uses this to seed the mirror from the persistent store.
    pub fn set(&mut self, address: Address, label: String) -> (fresh: bool)
        requires
            old(self).wf(),
        ensures
            final(self).wf(),
            final(self).n_providers() == old(self).n_providers(),
            final(self).batch_cap() == old(self).batch_cap(),
            final(self).retry_limit() == old(self).retry_limit(),
            fresh == !old(self).store().contains_key(address),
            final(self).store() == if old(self).store().contains_key(address) {
                old(self).store()
            } else {
                old(self).store().insert(address, label@)
            },
    {
        self.store.insert_if_absent(address, label)
    }

    /// Opens one batched resolution: partitions the input, duplicates
    /// dropped, into hits against the store mirror and misses, which the
    /// session will sweep the providers for.
    #[verifier::loop_isolation(false)]
    pub fn start_resolve(&self, addresses: &Vec<Address>) -> (s: ResolveSession)
        requires
            self.wf(),
        ensures
            s.wf(),
            s.store_snapshot() == self.store(),
            s.n_providers() == self.n_providers(),
            s.batch_cap() == self.batch_cap(),
            s.retry_limit() == self.retry_limit(),
            s.queries() == Seq::<(int, Seq<Address>)>::empty(),
            !s.is_awaiting(),
            s.provider_index() == 0,
            s.chunk_pos() == 0,
            s.attempts() == 0,
            s.misses() == distinct_of(addresses@).filter(
                |a: Address| !self.store().contains_key(a),
            ),
            forall|a: Address| #[trigger]
                s.found_map().contains_key(a) <==> addresses@.contains(a)
                    && self.store().contains_key(a),
            forall|a: Address| #[trigger]
                s.found_map().contains_key(a) ==> s.found_map()[a] == self.store()[a],
    {
        let ghost input = addresses@;
        let ghost pred = |a: Address| !self.store@.contains_key(a);
        let mut found = AddrMap::new();
        let mut misses: Vec<Address> = Vec::new();
        let mut i: usize = 0;
        while i < addresses.len()
            invariant
                i <= input.len(),
                found.wf(),
                misses@ == distinct_of(input.take(i as int)).filter(pred),
                forall|k: int| 0 <= k < misses@.len() ==> !self.store@.contains_key(
                    #[trigger] misses@[k],
                ),
                misses@.no_duplicates(),
                forall|a: Address| #[trigger]
                    found@.contains_key(a) <==> input.take(i as int).contains(a)
                        && self.store@.contains_key(a),
                forall|a: Address| #[trigger]
                    found@.contains_key(a) ==> found@[a] == self.store@[a],
            decreases input.len() - i,
        {
            let a = addresses[i];
            let ghost di = distinct_of(input.take(i as int));
            proof {
                broadcast use vstd::seq_lib::group_seq_properties;

                reveal(Seq::filter);
                assert(input.take(i + 1).drop_last() =~= input.take(i as int));
                assert(input.take(i + 1).last() == a);
                lemma_distinct_of(input.take(i as int));
                lemma_filter_contains_iff(di, pred);
                lemma_distinct_of(di);
            }
            match self.store.get(&a) {
                Some(l) => {
                    found.insert_if_absent(a, l.clone());
                    proof {
                        assert(distinct_of(input.take(i + 1)).filter(pred) =~= misses@) by {
                            if !di.contains(a) {
                                assert(di.push(a).drop_last() =~= di);
                            }
                        }
                    }
                },
                None => {
                    let mut seen = false;
                    let mut j: usize = 0;
                    while j < misses.len()
                        invariant
                            j <= misses@.len(),
                            seen == exists|k: int| 0 <= k < j && misses@[k] == a,
                        decreases misses@.len() - j,
                    {
                        if misses[j] == a {
                            seen = true;
                        }
                        j += 1;
                    }
                    proof {
                        assert(seen == misses@.contains(a));
                    }
                    if !seen {
                        proof {
                            assert(!di.contains(a)) by {
                                if di.contains(a) {
                                    assert(di.filter(pred).contains(a));
                                }
                            }
                            assert(di.push(a).drop_last() =~= di);
                        }
                        misses.push(a);
                        proof {
                            assert(misses@ == distinct_of(input.take(i + 1)).filter(pred));
                            assert(misses@.drop_last() =~= di.filter(pred));
                            assert(misses@.no_duplicates()) by {
                                assert forall|p: int, q: int|
                                    0 <= p < q < misses@.len() implies misses@[p] != misses@[q] by {
                                    if q < misses@.len() - 1 {
                                        assert(misses@.drop_last()[p] == misses@[p]);
                                        assert(misses@.drop_last()[q] == misses@[q]);
                                    } else {
                                        assert(misses@[q] == a);
                                        assert(misses@.drop_last()[p] == misses@[p]);
                                        assert(di.filter(pred).contains(misses@[p]));
                                    }
                                }
                            }
                        }
                    } else {
                        proof {
                            assert(di.contains(a));
                            assert(distinct_of(input.take(i + 1)) == di);
                        }
                    }
                },
            }
            proof {
                assert forall|x: Address| #[trigger]
                    found@.contains_key(x) <==> input.take(i + 1).contains(x)
                        && self.store@.contains_key(x) by {
                    if x != a {
                        assert(input.take(i + 1).contains(x) == input.take(i as int).contains(x));
                    } else {
                        assert(input.take(i + 1).contains(a)) by {
                            assert(input.take(i + 1).last() == a);
                        }
                    }
                }
            }
            i += 1;
        }
        proof {
            assert(input.take(input.len() as int) =~= input);
        }
        ResolveSession {
            misses,
            found,
            provider_idx: 0,
            chunk_start: 0,
            attempts: 0,
            awaiting: false,
            n_providers: self.n_providers,
            batch_cap: self.batch_cap,
            retry_limit: self.retry_limit,
            store0: Ghost(self.store@),
            queries: Ghost(Seq::empty()),
        }
    }

    /// Resolves labels for a batch of addresses: hits come from the store
    /// mirror; the misses are swept across the providers in priority order,
    /// chopped to the provider cap, merged first-wins, and written back to
    /// the store before being returned. The providers stand in as plain
    /// mappings, as a sequential run observes them; an address no provider
    /// knows is absent from the result and will be asked again another
    /// time.
    #[verifier::loop_isolation(false)]
    pub fn get_labels(&mut self, addresses: &Vec<Address>, providers: &Vec<AddrMap>) -> (r:
        AddrMap)
        requires
            old(self).wf(),
            providers@.len() == old(self).n_providers(),
            forall|p: int| 0 <= p < providers@.len() ==> (#[trigger] providers@[p]).wf(),
        ensures
            final(self).wf(),
            final(self).n_providers() == old(self).n_providers(),
            final(self).batch_cap() == old(self).batch_cap(),
            final(self).retry_limit() == old(self).retry_limit(),
            r.wf(),
            forall|a: Address| #[trigger]
                r@.contains_key(a) <==> addresses@.contains(a) && (old(self).store().contains_key(a) || resolved_label(provider_maps(providers@), a)
                    is Some),
            forall|a: Address|
                #[trigger] r@.contains_key(a) && old(self).store().contains_key(a) ==> r@[a]
                    == old(self).store()[a],
            forall|a: Address|
                #[trigger] r@.contains_key(a) && !old(self).store().contains_key(a)
                    ==> resolved_label(provider_maps(providers@), a) == Some(r@[a]),
            forall|a: Address| #[trigger]
                final(self).store().contains_key(a) <==> old(self).store().contains_key(a)
                    || r@.contains_key(a),
            forall|a: Address| #[trigger]
                old(self).store().contains_key(a) ==> final(self).store()[a] == old(self).store()[a],
            forall|a: Address|
                !old(self).store().contains_key(a) && #[trigger] final(self).store().contains_key(a) ==> final(self).store()[a] == r@[a],
    {
        let ghost pm = provider_maps(providers@);
        let ghost store0 = self.store@;
        let ghost input = addresses@;
        let ghost miss_pred = |a: Address| !store0.contains_key(a);
        let mut session = self.start_resolve(addresses);
        let ghost ms = session.misses();
        proof {
            lemma_distinct_of(input);
            lemma_filter_contains_iff(distinct_of(input), miss_pred);
            assert(forall|a: Address| #[trigger]
                ms.contains(a) <==> input.contains(a) && !store0.contains_key(a));
            assert(forall|p: int|
                0 <= p < providers@.len() ==> #[trigger] pm[p] == providers@[p]@);
        }
        while session.provider_idx < session.n_providers && session.misses.len() > 0
            invariant
                session.wf(),
                !session.is_awaiting(),
                session.attempts() == 0,
                session.misses() == ms,
                session.store_snapshot() == store0,
                session.n_providers() == providers@.len(),
                session.batch_cap() == old(self).batch_cap(),
                session.retry_limit() == old(self).retry_limit(),
                0 <= session.provider_index() <= providers@.len(),
                0 <= session.chunk_pos(),
                forall|a: Address| #[trigger]
                    session.found_map().contains_key(a) <==> ((input.contains(a)
                        && store0.contains_key(a)) || (ms.contains(a) && exists|p: int|
                        0 <= p < pm.len() && #[trigger] pm[p].contains_key(a) && swept(
                            ms,
                            session.provider_index(),
                            session.chunk_pos(),
                            p,
                            a,
                        ))),
                forall|a: Address|
                    #[trigger] session.found_map().contains_key(a) && store0.contains_key(a)
                        ==> session.found_map()[a] == store0[a],
                forall|a: Address|
                    #[trigger] session.found_map().contains_key(a) && !store0.contains_key(a)
                        ==> resolved_label(pm, a) == Some(session.found_map()[a]),
            decreases
                    providers@.len() - session.provider_index(),
                    ms.len() - session.chunk_pos(),
        {
            let ghost found0 = session.found_map();
            let ghost p_now = session.provider_index();
            let ghost cs = session.chunk_pos();
            let ghost cap = session.batch_cap();
            let q = session.next_query();
            let query = match q {
                Some(query) => query,
                None => {
                    proof {
                        assert(false);
                    }
                    Query { provider: 0, addresses: Vec::new(), backoff_secs: 0 }
                },
            };
            let ghost chunk = chunk_at(ms, cs, cap);
            let ghost end = cs + chunk.len();
            proof {
                assert(chunk.no_duplicates()) by {
                    assert(forall|k: int| 0 <= k < chunk.len() ==> chunk[k] == ms[cs + k]);
                }
                assert(forall|x: Address| #[trigger] chunk.contains(x) ==> ms.contains(x)) by {
                    assert forall|x: Address| #[trigger] chunk.contains(x) implies ms.contains(
                        x,
                    ) by {
                        let k = choose|k: int| 0 <= k < chunk.len() && chunk[k] == x;
                        assert(ms[cs + k] == x);
                    }
                }
            }
            let p = query.provider;
            let mut pairs: Vec<(Address, String)> = Vec::new();
            let mut k: usize = 0;
            while k < query.addresses.len()
                invariant
                    k <= query.addresses@.len(),
                    crate::labelmap::keys_of_pairs(pairs@).no_duplicates(),
                    forall|j: int|
                        0 <= j < pairs@.len() ==> chunk.take(k as int).contains(
                            (#[trigger] pairs@[j]).0,
                        ) && pm[p as int].contains_key(pairs@[j].0) && pairs@[j].1@ == pm[
                            p as int
                        ][pairs@[j].0],
                    forall|x: Address|
                        chunk.take(k as int).contains(x) && #[trigger] pm[
                            p as int
                        ].contains_key(x) ==> crate::labelmap::keys_of_pairs(
                            pairs@,
                        ).contains(x),
                decreases query.addresses@.len() - k,
            {
                let a = query.addresses[k];
                let ghost kp0 = crate::labelmap::keys_of_pairs(pairs@);
                proof {
                    assert(chunk.take(k + 1).drop_last() =~= chunk.take(k as int));
                    assert(chunk.take(k + 1).last() == a);
                    broadcast use vstd::seq_lib::group_seq_properties;

                }
                match providers[p].get(&a) {
                    Some(l) => {
                        pairs.push((a, l.clone()));
                        proof {
                            let kp = crate::labelmap::keys_of_pairs(pairs@);
                            assert(kp.drop_last() =~= kp0);
                            assert(kp[kp.len() - 1] == a);
                            assert(!kp0.contains(a)) by {
                                if kp0.contains(a) {
                                    let j = choose|j: int| 0 <= j < kp0.len() && kp0[j] == a;
                                    assert(pairs@.drop_last()[j].0 == a);
                                    assert(chunk.take(k as int).contains(a));
                                    let t = choose|t: int|
                                        0 <= t < k && chunk.take(k as int)[t] == a;
                                    assert(chunk[t] == a);
                                    assert(chunk[k as int] == a);
                                }
                            }
                            assert(kp.no_duplicates()) by {
                                assert forall|i: int, j: int|
                                    0 <= i < j < kp.len() implies kp[i] != kp[j] by {
                                    if j < kp.len() - 1 {
                                        assert(kp0[i] == kp[i]);
                                        assert(kp0[j] == kp[j]);
                                    } else {
                                        assert(kp0[i] == kp[i]);
                                        assert(kp0.contains(kp0[i]));
                                    }
                                }
                            }
                            assert forall|x: Address|
                                chunk.take(k + 1).contains(x) && #[trigger] pm[
                                    p as int
                                ].contains_key(x) implies kp.contains(x) by {
                                if x == a {
                                    assert(kp[kp.len() - 1] == x);
                                } else {
                                    assert(chunk.take(k as int).contains(x));
                                    assert(kp0.contains(x));
                                    let j = choose|j: int| 0 <= j < kp0.len() && kp0[j] == x;
                                    assert(kp[j] == x);
                                }
                            }
                        }
                    },
                    None => {
                        proof {
                            assert forall|x: Address|
                                chunk.take(k + 1).contains(x) && #[trigger] pm[
                                    p as int
                                ].contains_key(x) implies crate::labelmap::keys_of_pairs(
                                pairs@,
                            ).contains(x) by {
                                if x == a {
                                    assert(!pm[p as int].contains_key(a));
                                } else {
                                    assert(chunk.take(k as int).contains(x));
                                }
                            }
                        }
                    },
                }
                k += 1;
            }
            proof {
                assert(chunk.take(chunk.len() as int) =~= chunk);
            }
            let ghost pairs_snap = pairs@;
            session.on_response(ProviderOutcome::Labels(pairs));
            proof {
                lemma_merge_pairs(found0, pairs_snap, chunk);
                let kp = crate::labelmap::keys_of_pairs(pairs_snap);
                let p_new = session.provider_index();
                let pos_new = session.chunk_pos();
                assert(session.found_map() == merge_pairs(found0, pairs_snap, chunk));
                // where the sweep now stands: the old region plus this chunk
                assert forall|a: Address| #[trigger]
                    session.found_map().contains_key(a) <==> ((input.contains(a)
                        && store0.contains_key(a)) || (ms.contains(a) && exists|p2: int|
                        0 <= p2 < pm.len() && #[trigger] pm[p2].contains_key(a) && swept(
                            ms,
                            p_new,
                            pos_new,
                            p2,
                            a,
                        ))) by {
                    let in_chunk = chunk.contains(a);
                    assert(in_chunk ==> ms.contains(a));
                    assert(session.found_map().contains_key(a) <==> found0.contains_key(a) || (
                    in_chunk && kp.contains(a)));
                    assert(in_chunk && kp.contains(a) ==> pm[p as int].contains_key(a));
                    assert(in_chunk && pm[p as int].contains_key(a) ==> kp.contains(a));
                    // the new region is the old one plus the chunk at provider p
                    assert forall|p2: int, x: Address|
                        0 <= p2 < pm.len() && ms.contains(x) implies (#[trigger] swept(
                        ms,
                        p_new,
                        pos_new,
                        p2,
                        x,
                    ) <==> swept(ms, p_now, cs, p2, x) || (p2 == p_now && chunk.contains(
                        x,
                    ))) by {
                        if cs + cap >= ms.len() {
                            assert(p_new == p_now + 1 && pos_new == 0);
                            if p2 == p_now {
                                assert(swept(ms, p_new, pos_new, p2, x));
                                if !swept(ms, p_now, cs, p2, x) {
                                    if ms.contains(x) {
                                        let t = choose|t: int|
                                            0 <= t < ms.len() && ms[t] == x;
                                        if t < cs {
                                            assert(swept(ms, p_now, cs, p2, x));
                                        } else {
                                            assert(t < end);
                                            assert(chunk[t - cs] == x);
                                            assert(chunk.contains(x));
                                        }
                                    }
                                }
                                if swept(ms, p_now, cs, p2, x) || chunk.contains(x) {
                                }
                            }
                        } else {
                            assert(p_new == p_now && pos_new == cs + cap);
                            assert(end == cs + cap);
                            if p2 == p_now {
                                if swept(ms, p_new, pos_new, p2, x) && !swept(
                                    ms,
                                    p_now,
                                    cs,
                                    p2,
                                    x,
                                ) {
                                    let t = choose|t: int| 0 <= t < pos_new && ms[t] == x;
                                    assert(cs <= t < end);
                                    assert(chunk[t - cs] == x);
                                    assert(chunk.contains(x));
                                }
                                if chunk.contains(x) {
                                    let t = choose|t: int|
                                        0 <= t < chunk.len() && chunk[t] == x;
                                    assert(ms[cs + t] == x);
                                    assert(swept(ms, p_new, pos_new, p2, x));
                                }
                                if swept(ms, p_now, cs, p2, x) {
                                    assert(swept(ms, p_new, pos_new, p2, x));
                                }
                            }
                        }
                    }
                    if session.found_map().contains_key(a) {
                        if found0.contains_key(a) {
                            if !(input.contains(a) && store0.contains_key(a)) {
                                let p2 = choose|p2: int|
                                    0 <= p2 < pm.len() && #[trigger] pm[p2].contains_key(a)
                                        && swept(ms, p_now, cs, p2, a);
                                assert(swept(ms, p_new, pos_new, p2, a));
                            }
                        } else {
                            assert(in_chunk && kp.contains(a));
                            assert(pm[p as int].contains_key(a));
                            assert(swept(ms, p_new, pos_new, p as int, a));
                        }
                    } else {
                        if ms.contains(a) {
                            if exists|p2: int|
                                0 <= p2 < pm.len() && #[trigger] pm[p2].contains_key(a)
                                    && swept(ms, p_new, pos_new, p2, a) {
                                let p2 = choose|p2: int|
                                    0 <= p2 < pm.len() && #[trigger] pm[p2].contains_key(a)
                                        && swept(ms, p_new, pos_new, p2, a);
                                if swept(ms, p_now, cs, p2, a) {
                                    assert(found0.contains_key(a));
                                } else {
                                    assert(p2 == p_now && chunk.contains(a));
                                    assert(kp.contains(a));
                                    assert(session.found_map().contains_key(a));
                                }
                            }
                        }
                    }
                }
                // the values: an old binding stays, a new one is the first
                // provider's label
                assert forall|a: Address|
                    #[trigger] session.found_map().contains_key(a) && !store0.contains_key(
                        a,
                    ) implies resolved_label(pm, a) == Some(session.found_map()[a]) by {
                    if found0.contains_key(a) {
                        assert(session.found_map()[a] == found0[a]);
                    } else {
                        assert(chunk.contains(a) && kp.contains(a));
                        let j = choose|j: int| 0 <= j < kp.len() && kp[j] == a;
                        assert(pairs_snap[j].0 == a);
                        assert(session.found_map()[a] == pairs_snap[j].1@);
                        assert(pairs_snap[j].1@ == pm[p as int][a]);
                        assert forall|qq: int| 0 <= qq < p as int implies !(#[trigger] pm[
                            qq
                        ]).contains_key(a) by {
                            if pm[qq].contains_key(a) {
                                assert(swept(ms, p_now, cs, qq, a));
                                assert(ms.contains(a));
                                assert(found0.contains_key(a));
                            }
                        }
                        lemma_resolved_label(pm, a);
                    }
                }
                assert forall|a: Address|
                    #[trigger] session.found_map().contains_key(a) && store0.contains_key(
                        a,
                    ) implies session.found_map()[a] == store0[a] by {
                    if !found0.contains_key(a) {
                        assert(chunk.contains(a));
                        assert(ms.contains(a));
                        assert(!store0.contains_key(a));
                    }
                }
            }
        }
        let ghost found_final = session.found_map();
        proof {
            assert(session.done());
            assert forall|a: Address| #[trigger]
                found_final.contains_key(a) <==> ((input.contains(a) && store0.contains_key(a))
                    || (ms.contains(a) && resolved_label(pm, a) is Some)) by {
                lemma_resolved_label(pm, a);
                if session.misses@.len() == 0 {
                    assert(!ms.contains(a));
                } else {
                    assert(session.provider_index() >= pm.len());
                    assert forall|p2: int|
                        0 <= p2 < pm.len() implies #[trigger] swept(
                        ms,
                        session.provider_index(),
                        session.chunk_pos(),
                        p2,
                        a,
                    ) by {}
                }
            }
        }
        let rr = session.finish(self);
        let result = rr.0;
        proof {
            assert(result@ == found_final);
            assert forall|a: Address| #[trigger]
                result@.contains_key(a) <==> input.contains(a) && (store0.contains_key(a)
                    || resolved_label(pm, a) is Some) by {
                assert(result@.contains_key(a) == found_final.contains_key(a));
                if input.contains(a) && !store0.contains_key(a) {
                    assert(ms.contains(a));
                }
                if found_final.contains_key(a) && ms.contains(a) {
                    assert(input.contains(a) && !store0.contains_key(a));
                }
            }
            assert forall|a: Address|
                #[trigger] result@.contains_key(a) && !store0.contains_key(a)
                    implies resolved_label(pm, a) == Some(result@[a]) by {
                assert(found_final.contains_key(a));
            }
            assert forall|a: Address|
                #[trigger] result@.contains_key(a) && store0.contains_key(a) implies result@[a]
                    == store0[a] by {
                assert(found_final.contains_key(a));
            }
            assert forall|a: Address| #[trigger]
                self.store().contains_key(a) <==> store0.contains_key(a) || result@.contains_key(
                    a,
                ) by {
                assert(result@.contains_key(a) == found_final.contains_key(a));
                if result@.contains_key(a) && !store0.contains_key(a) {
                    assert(ms.contains(a));
                }
                if self.store().contains_key(a) && !store0.contains_key(a) {
                    assert(found_final.contains_key(a));
                }
            }
            assert forall|a: Address|
                !store0.contains_key(a) && #[trigger] self.store().contains_key(a)
                    implies self.store()[a] == result@[a] by {
                assert(found_final.contains_key(a));
                assert(result@[a] == found_final[a]);
            }
        }
        result
    }

    /// Resolves one address: a batched resolution of a batch of one.
    pub fn get_label(&mut self, address: Address, providers: &Vec<AddrMap>) -> (r: Option<
        String,
    >)
        requires
            old(self).wf(),
            providers@.len() == old(self).n_providers(),
            forall|p: int| 0 <= p < providers@.len() ==> (#[trigger] providers@[p]).wf(),
        ensures
            final(self).wf(),
            final(self).n_providers() == old(self).n_providers(),
            final(self).batch_cap() == old(self).batch_cap(),
            final(self).retry_limit() == old(self).retry_limit(),
            (r is Some) <==> old(self).store().contains_key(address) || resolved_label(
                provider_maps(providers@),
                address,
            ) is Some,
            match r {
                Some(l) => (if old(self).store().contains_key(address) {
                    l@ == old(self).store()[address]
                } else {
                    resolved_label(provider_maps(providers@), address) == Some(l@)
                }),
                None => true,
            },
    {
        let mut batch: Vec<Address> = Vec::new();
        batch.push(address);
        let result = self.get_labels(&batch, providers);
        proof {
            assert(batch@[0] == address);
            assert(batch@.contains(address));
        }
        match result.get(&address) {
            Some(l) => Some(l.clone()),
            None => {
                proof {
                    if batch@.contains(address) {
                    }
                }
                None
            },
        }
    }
}


/// Cache idempotence: an address the store already held when a session was
/// opened is a hit, never a miss, and every provider query a session sends
/// carries misses only — so no query of the session names it. Since every
/// resolution is written back to the store before it is returned, a second
/// resolution of the same address within one run issues no provider call
/// for it.
pub proof fn lemma_cache_idempotence(s: &ResolveSession, a: Address)
    requires
        s.wf(),
        s.store_snapshot().contains_key(a),
    ensures
        forall|i: int| 0 <= i < s.queries().len() ==> !(#[trigger] s.queries()[i]).1.contains(a),
{
    assert forall|i: int|
        0 <= i < s.queries().len() implies !(#[trigger] s.queries()[i]).1.contains(a) by {
        if s.queries()[i].1.contains(a) {
            let j = choose|j: int|
                0 <= j < s.queries()[i].1.len() && s.queries()[i].1[j] == a;
            assert(s.misses().contains(a));
            let k = choose|k: int| 0 <= k < s.misses().len() && s.misses()[k] == a;
            assert(!s.store_snapshot().contains_key(s.misses()[k]));
        }
    }
}

/// Batch chopping: the sub-batches partition the miss batch — each one
/// holds at most the cap, and a miss batch of exactly twice the cap is
/// covered by exactly two sub-batches of exactly the cap, back to back,
/// together holding the batch once over.
pub proof fn lemma_batch_chopping(misses: Seq<Address>, cap: int)
    requires
        cap >= 1,
        misses.len() == 2 * cap,
    ensures
        chunk_at(misses, 0, cap).len() == cap,
        chunk_at(misses, cap, cap).len() == cap,
        chunk_at(misses, 0, cap) + chunk_at(misses, cap, cap) == misses,
        forall|start: int|
            0 <= start <= misses.len() ==> #[trigger] chunk_at(misses, start, cap).len() <= cap,
{
    assert(chunk_at(misses, 0, cap) + chunk_at(misses, cap, cap) =~= misses);
}

} // verus!
