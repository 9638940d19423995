use vstd::prelude::*;

use crate::addr::Address;
use crate::edges::DirectedEdges;
use crate::edges::SimpleEdges;
use crate::edges::tx_refs_of;
use crate::events::Event;
use crate::events::label_view;
use crate::labelmap::AddrMap;
use crate::settings::SearchMode;
use crate::settings::SearchSettings;
use crate::visited::VisitedSet;

verus! {

// The crawl engine. It holds the traversal state — the frontier of nodes
// still to expand, the visited set, and the settings — and decides; the
// outside work (fetching a node's edges, resolving a batch of labels) is
// done by the caller, which feeds the results back in. One expansion step
// runs `next_action` (pick a node), `on_edges` (classify, emit edge events,
// discover fresh counterparties), and `on_labels` (emit node events, queue
// the unlabelled discoveries for expansion).

/// What the engine asks its caller to do next.
#[derive(PartialEq, Eq, Structural, Clone, Copy, Debug)]
pub enum Action {
    /// Fetch the transfer edges touching `address` and hand them to
    /// `on_edges`; a failed fetch degrades to no edges.
    FetchEdges { address: Address },
    /// The frontier is exhausted: the crawl is complete.
    Done,
}

/// Where the engine stands inside one expansion step.
#[derive(PartialEq, Eq, Structural, Clone, Copy, Debug)]
pub enum Phase {
    /// Between expansion steps.
    Idle,
    /// A fetch for `address` is outstanding; its discoveries will sit at
    /// `depth`.
    AwaitingEdges { address: Address, depth: usize },
    /// A label resolution for the pending batch is outstanding; the batch
    /// was discovered at `depth`.
    AwaitingLabels { depth: usize },
}

/// Whether an edge's direction is followed under the settings.
pub open spec fn edge_kept(e: DirectedEdges, s: SearchSettings) -> bool {
    match e {
        DirectedEdges::Forward(_) => s.forward,
        DirectedEdges::Backward(_) => s.backward,
    }
}

/// The edges whose direction is followed, in provider order.
pub open spec fn retained(edges: Seq<DirectedEdges>, s: SearchSettings) -> Seq<DirectedEdges> {
    edges.filter(|e: DirectedEdges| edge_kept(e, s))
}

/// The retained edges one expansion processes: the fan-out limit drops the
/// tail of the list, deterministically.
pub open spec fn kept_of(edges: Seq<DirectedEdges>, s: SearchSettings) -> Seq<DirectedEdges> {
    let r = retained(edges, s);
    if r.len() <= s.fan_out_limit {
        r
    } else {
        r.take(s.fan_out_limit as int)
    }
}

/// The counterparty an edge leads to, relative to the node being expanded:
/// the receiver of a forward edge, the sender of a backward one.
pub open spec fn counterparty(e: DirectedEdges) -> Address {
    match e {
        DirectedEdges::Forward(ed) => ed.to,
        DirectedEdges::Backward(ed) => ed.from,
    }
}

/// The counterparties of the kept edges, in order.
pub open spec fn candidates(kept: Seq<DirectedEdges>) -> Seq<Address> {
    kept.map_values(|e: DirectedEdges| counterparty(e))
}

/// The fresh addresses among `cands`, in stable order of discovery: an
/// address already visited, or already picked from an earlier candidate, is
/// dropped.
pub open spec fn discover(cands: Seq<Address>, vis: Set<Address>) -> Seq<Address>
    decreases cands.len(),
{
    if cands.len() == 0 {
        Seq::empty()
    } else {
        let p = discover(cands.drop_last(), vis);
        if vis.contains(cands.last()) || p.contains(cands.last()) {
            p
        } else {
            p.push(cands.last())
        }
    }
}

/// The frontier after discarding over-depth tasks from the front up to and
/// including the first expandable one, and that task: a task at the depth
/// bound is dropped, since its children would lie beyond it.
pub open spec fn pop_viable(frontier: Seq<(Address, usize)>, max_depth: usize) -> (
    Seq<(Address, usize)>,
    Option<(Address, usize)>,
)
    decreases frontier.len(),
{
    if frontier.len() == 0 {
        (frontier, None::<(Address, usize)>)
    } else if frontier[0].1 >= max_depth {
        pop_viable(frontier.drop_first(), max_depth)
    } else {
        (frontier.drop_first(), Some(frontier[0]))
    }
}

/// The addresses of a task list.
pub open spec fn frontier_addrs(f: Seq<(Address, usize)>) -> Seq<Address> {
    f.map_values(|t: (Address, usize)| t.0)
}

/// Whether `ev` is the edge event for the classified edge `de`.
pub open spec fn edge_event_of(ev: Event, de: DirectedEdges) -> bool {
    match ev {
        Event::Edge { edge } => match de {
            DirectedEdges::Forward(e) => edge.from == e.from && edge.to == e.to && edge.txs@
                == tx_refs_of(e.txs@),
            DirectedEdges::Backward(e) => edge.from == e.from && edge.to == e.to && edge.txs@
                == tx_refs_of(e.txs@),
        },
        Event::Node { .. } => false,
    }
}

/// The label a resolution result gives an address, if any.
pub open spec fn label_of(m: Map<Address, Seq<char>>, a: Address) -> Option<Seq<char>> {
    if m.contains_key(a) {
        Some(m[a])
    } else {
        None
    }
}

/// Whether `ev` is the node event for address `a` at `depth` under the
/// resolution result `m`.
pub open spec fn node_event_of(ev: Event, a: Address, m: Map<Address, Seq<char>>, d: usize) -> bool {
    match ev {
        Event::Node { address, label, depth } => address == a && depth == d && label_view(label)
            == label_of(m, a),
        Event::Edge { .. } => false,
    }
}

/// The batch members the resolution left unlabelled, in order.
pub open spec fn unlabelled(batch: Seq<Address>, m: Map<Address, Seq<char>>) -> Seq<Address> {
    batch.filter(|a: Address| !m.contains_key(a))
}

/// Frontier tasks for a list of addresses, all at one depth.
pub open spec fn tasks_of(s: Seq<Address>, d: usize) -> Seq<(Address, usize)> {
    s.map_values(|a: Address| (a, d))
}

/// The depth a phase carries: where the current expansion's discoveries
/// sit.
pub open spec fn phase_depth(p: Phase) -> usize {
    match p {
        Phase::AwaitingEdges { depth, .. } => depth,
        Phase::AwaitingLabels { depth } => depth,
        Phase::Idle => 0,
    }
}

/// Filtering keeps a duplicate-free sequence duplicate-free, and picks only
/// from its elements.
proof fn lemma_filter_no_duplicates<A>(s: Seq<A>, pred: spec_fn(A) -> bool)
    requires
        s.no_duplicates(),
    ensures
        s.filter(pred).no_duplicates(),
        forall|x: A| #[trigger] s.filter(pred).contains(x) ==> s.contains(x),
    decreases s.len(),
{
    reveal(Seq::filter);
    if s.len() > 0 {
        let dl = s.drop_last();
        assert(dl.no_duplicates());
        lemma_filter_no_duplicates(dl, pred);
        assert forall|x: A| #[trigger] s.filter(pred).contains(x) implies s.contains(x) by {
            if dl.filter(pred).contains(x) {
                let k = choose|k: int| 0 <= k < dl.len() && dl[k] == x;
                assert(s[k] == x);
            } else {
                assert(x == s.last());
                assert(s[s.len() - 1] == x);
            }
        }
        if pred(s.last()) {
            let p = dl.filter(pred);
            assert(!dl.contains(s.last())) by {
                if dl.contains(s.last()) {
                    let k = choose|k: int| 0 <= k < dl.len() && dl[k] == s.last();
                    assert(s[k] == s[s.len() - 1]);
                }
            }
            assert(!p.contains(s.last()));
            assert forall|i: int, j: int|
                0 <= i < j < p.push(s.last()).len() implies p.push(s.last())[i] != p.push(
                s.last(),
            )[j] by {
                if j < p.len() {
                } else {
                    assert(p.push(s.last())[j] == s.last());
                    assert(p.push(s.last())[i] == p[i]);
                    assert(p.contains(p[i]));
                }
            }
        }
    }
}

/// The crawl engine's state for one run.
pub struct Engine {
    settings: SearchSettings,
    visited: VisitedSet,
    frontier: Vec<(Address, usize)>,
    batch: Vec<Address>,
    phase: Phase,
    expanded: Ghost<Seq<Address>>,
}

impl Engine {
    /// The run's settings, fixed at creation.
    pub closed spec fn settings(&self) -> SearchSettings {
        self.settings
    }

    /// The addresses discovered so far.
    pub closed spec fn visited(&self) -> Set<Address> {
        self.visited@
    }

    /// How many addresses were discovered so far.
    pub closed spec fn visited_count(&self) -> nat {
        self.visited.count()
    }

    /// The tasks still to expand, front first.
    pub closed spec fn frontier(&self) -> Seq<(Address, usize)> {
        self.frontier@
    }

    /// The discoveries of the current expansion step, awaiting labels.
    pub closed spec fn batch(&self) -> Seq<Address> {
        self.batch@
    }

    /// Where the engine stands inside the current expansion step.
    pub closed spec fn phase(&self) -> Phase {
        self.phase
    }

    /// The addresses handed out for expansion so far, in order.
    pub closed spec fn expanded(&self) -> Seq<Address> {
        self.expanded@
    }

    /// The engine's invariant. Every address that was expanded, queued or
    /// discovered is in the visited set; no address sits in two of the
    /// expanded list, the frontier and the pending batch, nor twice in any
    /// one of them. This is what makes expansion unrepeatable.
    pub closed spec fn wf(&self) -> bool {
        &&& self.visited.wf()
        &&& self.expanded@.no_duplicates()
        &&& (forall|i: int|
            0 <= i < self.expanded@.len() ==> self.visited@.contains(#[trigger] self.expanded@[i]))
        &&& frontier_addrs(self.frontier@).no_duplicates()
        &&& (forall|i: int|
            0 <= i < self.frontier@.len() ==> self.visited@.contains(
                #[trigger] self.frontier@[i].0,
            ))
        &&& (forall|i: int|
            0 <= i < self.frontier@.len() ==> !self.expanded@.contains(
                #[trigger] self.frontier@[i].0,
            ))
        &&& self.batch@.no_duplicates()
        &&& (forall|i: int|
            0 <= i < self.batch@.len() ==> self.visited@.contains(#[trigger] self.batch@[i]))
        &&& (forall|i: int|
            0 <= i < self.batch@.len() ==> !self.expanded@.contains(#[trigger] self.batch@[i]))
        &&& (forall|i: int|
            0 <= i < self.batch@.len() ==> !frontier_addrs(self.frontier@).contains(
                #[trigger] self.batch@[i],
            ))
        &&& (!(self.phase is AwaitingLabels) ==> self.batch@.len() == 0)
        &&& (match self.phase {
            Phase::AwaitingEdges { depth, .. } => 1 <= depth <= self.settings.recursive_depth,
            Phase::AwaitingLabels { depth } => 1 <= depth <= self.settings.recursive_depth,
            Phase::Idle => true,
        })
    }

    /// The visited count is the cardinality of the visited set, which is
    /// finite.
    pub proof fn lemma_visited_count(&self)
        requires
            self.wf(),
        ensures
            self.visited().finite(),
            self.visited().len() == self.visited_count(),
    {
        self.visited.lemma_count_is_cardinality();
    }

    /// A fresh engine: the root is the only visited address and the only
    /// task, at depth zero.
    pub fn new(root: Address, settings: &SearchSettings) -> (r: Engine)
        ensures
            r.wf(),
            r.settings() == *settings,
            r.visited() == Set::<Address>::empty().insert(root),
            r.visited_count() == 1,
            r.frontier() == seq![(root, 0usize)],
            r.batch() == Seq::<Address>::empty(),
            r.phase() == Phase::Idle,
            r.expanded() == Seq::<Address>::empty(),
    {
        let mut visited = VisitedSet::new();
        visited.check_and_insert(root);
        let mut frontier: Vec<(Address, usize)> = Vec::new();
        frontier.push((root, 0));
        let r = Engine {
            settings: *settings,
            visited,
            frontier,
            batch: Vec::new(),
            phase: Phase::Idle,
            expanded: Ghost(Seq::empty()),
        };
        proof {
            assert(r.frontier@ =~= seq![(root, 0usize)]);
            assert(frontier_addrs(r.frontier@).no_duplicates());
        }
        r
    }

    /// The pending discoveries whose labels the caller must resolve next.
    pub fn pending_batch(&self) -> (r: &Vec<Address>)
        ensures
            r@ == self.batch(),
    {
        &self.batch
    }

    /// Whether the engine waits for a label resolution.
    pub fn awaiting_labels(&self) -> (r: bool)
        ensures
            r == (self.phase() is AwaitingLabels),
    {
        match self.phase {
            Phase::AwaitingLabels { .. } => true,
            _ => false,
        }
    }

    /// Picks the next node to expand. Over-depth tasks are discarded from
    /// the front of the frontier; the first task below the depth bound is
    /// handed out, and is recorded as expanded — an address is handed out
    /// at most once per run. With no task left the crawl is done.
    #[verifier::loop_isolation(false)]
    pub fn next_action(&mut self) -> (r: Action)
        requires
            old(self).wf(),
            old(self).phase() == Phase::Idle,
        ensures
            final(self).wf(),
            final(self).settings() == old(self).settings(),
            final(self).visited() == old(self).visited(),
            final(self).visited_count() == old(self).visited_count(),
            final(self).batch() == old(self).batch(),
            ({
                let (rest, picked) = pop_viable(
                    old(self).frontier(),
                    old(self).settings().recursive_depth,
                );
                match picked {
                    Some(t) => {
                        &&& r == (Action::FetchEdges { address: t.0 })
                        &&& final(self).frontier() == rest
                        &&& final(self).phase() == (Phase::AwaitingEdges {
                            address: t.0,
                            depth: (t.1 + 1) as usize,
                        })
                        &&& final(self).expanded() == old(self).expanded().push(t.0)
                        &&& !old(self).expanded().contains(t.0)
                        &&& t.1 + 1 <= old(self).settings().recursive_depth
                    },
                    None => {
                        &&& r == Action::Done
                        &&& final(self).frontier().len() == 0
                        &&& final(self).phase() == Phase::Idle
                        &&& final(self).expanded() == old(self).expanded()
                    },
                }
            }),
    {
        let ghost f0 = self.frontier@;
        let ghost x0 = self.expanded@;
        let ghost v0 = self.visited@;
        let ghost c0 = self.visited.count();
        let ghost s0 = self.settings;
        while self.frontier.len() > 0
            invariant
                self.wf(),
                self.phase == Phase::Idle,
                self.settings == s0,
                self.visited@ == v0,
                self.visited.count() == c0,
                self.batch@.len() == 0,
                self.expanded@ == x0,
                pop_viable(self.frontier@, s0.recursive_depth) == pop_viable(
                    f0,
                    s0.recursive_depth,
                ),
            decreases self.frontier@.len(),
        {
            let ghost prev = self.frontier@;
            let t = self.frontier.remove(0);
            proof {
                assert(prev.drop_first() =~= self.frontier@);
                assert(t == prev[0]);
                assert(frontier_addrs(prev)[0] == t.0);
                assert forall|i: int|
                    0 <= i < self.frontier@.len() implies frontier_addrs(prev)[i + 1]
                    == #[trigger] self.frontier@[i].0 by {
                    assert(prev[i + 1] == self.frontier@[i]);
                }
                assert forall|i: int, j: int|
                    0 <= i < j < self.frontier@.len() implies #[trigger] self.frontier@[i].0
                    != #[trigger] self.frontier@[j].0 by {
                    assert(frontier_addrs(prev)[i + 1] != frontier_addrs(prev)[j + 1]);
                }
                assert(frontier_addrs(self.frontier@).no_duplicates());
                assert forall|i: int|
                    0 <= i < self.frontier@.len() implies self.visited@.contains(
                    #[trigger] self.frontier@[i].0,
                ) && !self.expanded@.contains(self.frontier@[i].0) by {
                    assert(self.frontier@[i] == prev[i + 1]);
                }
            }
            if t.1 < self.settings.recursive_depth {
                proof {
                    assert(self.visited@.contains(t.0));
                    assert(!self.expanded@.contains(t.0));
                    assert forall|i: int|
                        0 <= i < self.frontier@.len() implies !self.expanded@.push(t.0).contains(
                        #[trigger] self.frontier@[i].0,
                    ) by {
                        assert(self.frontier@[i].0 == frontier_addrs(prev)[i + 1]);
                        assert(self.frontier@[i].0 != t.0);
                        assert(!self.expanded@.contains(self.frontier@[i].0));
                        if self.expanded@.push(t.0).contains(self.frontier@[i].0) {
                            let k = choose|k: int|
                                0 <= k < self.expanded@.push(t.0).len() && self.expanded@.push(
                                    t.0,
                                )[k] == self.frontier@[i].0;
                            if k < self.expanded@.len() {
                                assert(self.expanded@.contains(self.frontier@[i].0));
                            }
                        }
                    }
                }
                self.phase = Phase::AwaitingEdges { address: t.0, depth: t.1 + 1 };
                proof {
                    self.expanded@ = self.expanded@.push(t.0);
                    assert(self.expanded@.no_duplicates());
                    assert(forall|i: int|
                        0 <= i < self.expanded@.len() ==> self.visited@.contains(
                            #[trigger] self.expanded@[i],
                        ));
                    assert(pop_viable(prev, s0.recursive_depth) == (
                        self.frontier@,
                        Some(t),
                    ));
                }
                return Action::FetchEdges { address: t.0 };
            }
            proof {
                assert(pop_viable(prev, s0.recursive_depth) == pop_viable(
                    self.frontier@,
                    s0.recursive_depth,
                ));
            }
        }
        proof {
            assert(pop_viable(self.frontier@, s0.recursive_depth) == (
                self.frontier@,
                None::<(Address, usize)>,
            ));
        }
        Action::Done
    }

    /// Takes the fetched edges of the node being expanded: keeps the edges
    /// whose direction the settings follow, cuts the list at the fan-out
    /// limit, emits one edge event per kept edge, and discovers the kept
    /// counterparties not seen before. Each discovery enters the visited
    /// set at this very moment, before any expansion: the check and the
    /// insertion are one step, so no address can be discovered twice.
    #[verifier::loop_isolation(false)]
    pub fn on_edges(&mut self, edges: &Vec<DirectedEdges>) -> (events: Vec<Event>)
        requires
            old(self).wf(),
            old(self).phase() is AwaitingEdges,
        ensures
            final(self).wf(),
            final(self).settings() == old(self).settings(),
            final(self).frontier() == old(self).frontier(),
            final(self).expanded() == old(self).expanded(),
            phase_depth(old(self).phase()) <= old(self).settings().recursive_depth,
            ({
                let kept = kept_of(edges@, old(self).settings());
                &&& events@.len() == kept.len()
                &&& (forall|i: int|
                    0 <= i < kept.len() ==> edge_event_of(#[trigger] events@[i], kept[i]))
                &&& final(self).batch() == discover(candidates(kept), old(self).visited())
                &&& final(self).visited() == old(self).visited().union(
                    final(self).batch().to_set(),
                )
                &&& final(self).visited_count() == old(self).visited_count() + final(self).batch().len()
                &&& (forall|i: int|
                    0 <= i < final(self).batch().len() ==> !old(self).visited().contains(
                        #[trigger] final(self).batch()[i],
                    ))
                &&& final(self).phase() == (if final(self).batch().len() == 0 {
                    Phase::Idle
                } else {
                    Phase::AwaitingLabels { depth: phase_depth(old(self).phase()) }
                })
            }),
    {
        let ghost s0 = self.settings;
        let ghost v0 = self.visited@;
        let ghost c0 = self.visited.count();
        let depth = match self.phase {
            Phase::AwaitingEdges { depth, .. } => depth,
            _ => {
                proof {
                    assert(false);
                }
                0
            },
        };

        let mut idxs: Vec<usize> = Vec::new();
        let mut i: usize = 0;
        while i < edges.len()
            invariant
                i <= edges@.len(),
                idxs@.len() == retained(edges@.take(i as int), s0).len(),
                forall|m: int|
                    0 <= m < idxs@.len() ==> #[trigger] idxs@[m] < i && edges@[idxs@[m] as int]
                        == retained(edges@.take(i as int), s0)[m],
            decreases edges@.len() - i,
        {
            let keep = match &edges[i] {
                DirectedEdges::Forward(_) => self.settings.forward,
                DirectedEdges::Backward(_) => self.settings.backward,
            };
            proof {
                assert(edges@.take(i + 1).drop_last() =~= edges@.take(i as int));
                assert(edges@.take(i + 1).last() == edges@[i as int]);
                reveal(Seq::filter);
            }
            if keep {
                idxs.push(i);
            }
            i += 1;
        }
        proof {
            assert(edges@.take(edges@.len() as int) =~= edges@);
        }

        let keep_n = if idxs.len() <= self.settings.fan_out_limit {
            idxs.len()
        } else {
            self.settings.fan_out_limit
        };
        let ghost kept = kept_of(edges@, s0);
        proof {
            assert(kept =~= retained(edges@, s0).take(keep_n as int));
        }

        let mut events: Vec<Event> = Vec::new();
        let mut batch: Vec<Address> = Vec::new();
        let mut j: usize = 0;
        while j < keep_n
            invariant
                j <= keep_n,
                events@.len() == j,
                forall|m: int| 0 <= m < j ==> edge_event_of(#[trigger] events@[m], kept[m]),
                batch@ == discover(candidates(kept.take(j as int)), v0),
                batch@.no_duplicates(),
                forall|m: int| 0 <= m < batch@.len() ==> !v0.contains(#[trigger] batch@[m]),
                self.visited.wf(),
                self.visited@ == v0.union(batch@.to_set()),
                self.visited.count() == c0 + batch@.len(),
                self.settings == s0,
                self.frontier@ == old(self).frontier(),
                self.expanded@ == old(self).expanded(),
                self.batch@ == old(self).batch(),
                self.phase == old(self).phase(),
            decreases keep_n - j,
        {
            let idx = idxs[j];
            proof {
                assert(edges@[idx as int] == retained(edges@, s0)[j as int]);
                assert(kept[j as int] == retained(edges@, s0)[j as int]);
            }
            let e = &edges[idx];
            let se = match e {
                DirectedEdges::Forward(ed) => SimpleEdges::from_edges(ed),
                DirectedEdges::Backward(ed) => SimpleEdges::from_edges(ed),
            };
            let cp = match e {
                DirectedEdges::Forward(ed) => ed.to,
                DirectedEdges::Backward(ed) => ed.from,
            };
            events.push(Event::Edge { edge: se });
            proof {
                assert(cp == counterparty(kept[j as int]));
                assert(edge_event_of(events@[j as int], kept[j as int]));
            }
            let ghost batch_before = batch@;
            let fresh = self.visited.check_and_insert(cp);
            if fresh {
                batch.push(cp);
            }
            proof {
                broadcast use vstd::seq_lib::group_seq_properties;

                assert(batch_before.to_set().contains(cp) == batch_before.contains(cp));
                assert(fresh == !(v0.contains(cp) || batch_before.contains(cp)));
                let cs = candidates(kept.take(j + 1));
                assert(cs.drop_last() =~= candidates(kept.take(j as int)));
                assert(cs.last() == counterparty(kept[j as int]));
                assert(batch@ == discover(cs, v0));
                assert(self.visited@ =~= v0.union(batch@.to_set()));
            }
            j += 1;
        }
        proof {
            assert(kept.take(keep_n as int) =~= kept);
        }

        self.batch = batch;
        if self.batch.len() == 0 {
            self.phase = Phase::Idle;
        } else {
            self.phase = Phase::AwaitingLabels { depth };
        }
        proof {
            assert forall|m: int|
                0 <= m < self.batch@.len() implies self.visited@.contains(
                #[trigger] self.batch@[m],
            ) by {
                assert(self.batch@.to_set().contains(self.batch@[m]));
            }
            assert forall|m: int|
                0 <= m < self.batch@.len() implies !self.expanded@.contains(
                #[trigger] self.batch@[m],
            ) by {
                if self.expanded@.contains(self.batch@[m]) {
                    let k = choose|k: int|
                        0 <= k < self.expanded@.len() && self.expanded@[k] == self.batch@[m];
                    assert(v0.contains(self.expanded@[k]));
                }
            }
            assert forall|m: int|
                0 <= m < self.batch@.len() implies !frontier_addrs(self.frontier@).contains(
                #[trigger] self.batch@[m],
            ) by {
                if frontier_addrs(self.frontier@).contains(self.batch@[m]) {
                    let k = choose|k: int|
                        0 <= k < self.frontier@.len() && frontier_addrs(self.frontier@)[k]
                            == self.batch@[m];
                    assert(v0.contains(self.frontier@[k].0));
                }
            }
            assert forall|i: int|
                0 <= i < self.frontier@.len() implies self.visited@.contains(
                #[trigger] self.frontier@[i].0,
            ) by {
                assert(v0.contains(self.frontier@[i].0));
            }
            assert forall|i: int|
                0 <= i < self.expanded@.len() implies self.visited@.contains(
                #[trigger] self.expanded@[i],
            ) by {
                assert(v0.contains(self.expanded@[i]));
            }
        }
        events
    }

    /// Takes the label resolution for the pending batch: emits one node
    /// event per discovery, in discovery order, each carrying the resolved
    /// label or none, and queues exactly the unlabelled discoveries for
    /// expansion — a labelled address is a terminal leaf and is never
    /// expanded. Depth-first order puts the new tasks in front of the
    /// frontier, breadth-first behind it.
    #[verifier::loop_isolation(false)]
    pub fn on_labels(&mut self, labels: &AddrMap) -> (events: Vec<Event>)
        requires
            old(self).wf(),
            labels.wf(),
            old(self).phase() is AwaitingLabels,
        ensures
            final(self).wf(),
            final(self).settings() == old(self).settings(),
            final(self).visited() == old(self).visited(),
            final(self).visited_count() == old(self).visited_count(),
            final(self).expanded() == old(self).expanded(),
            final(self).batch().len() == 0,
            final(self).phase() == Phase::Idle,
            1 <= phase_depth(old(self).phase()) <= old(self).settings().recursive_depth,
            ({
                let b = old(self).batch();
                let d = phase_depth(old(self).phase());
                &&& events@.len() == b.len()
                &&& (forall|i: int|
                    0 <= i < b.len() ==> node_event_of(#[trigger] events@[i], b[i], labels@, d))
                &&& final(self).frontier() == (if old(self).settings().mode
                    == SearchMode::DepthFirst {
                    tasks_of(unlabelled(b, labels@), d) + old(self).frontier()
                } else {
                    old(self).frontier() + tasks_of(unlabelled(b, labels@), d)
                })
            }),
    {
        let ghost b = self.batch@;
        let ghost f0 = self.frontier@;
        let depth = match self.phase {
            Phase::AwaitingLabels { depth } => depth,
            _ => {
                proof {
                    assert(false);
                }
                0
            },
        };
        let mut events: Vec<Event> = Vec::new();
        let mut fresh_tasks: Vec<(Address, usize)> = Vec::new();
        let mut i: usize = 0;
        while i < self.batch.len()
            invariant
                i <= b.len(),
                *self == *old(self),
                events@.len() == i,
                forall|m: int|
                    0 <= m < i ==> node_event_of(#[trigger] events@[m], b[m], labels@, depth),
                fresh_tasks@ == tasks_of(unlabelled(b.take(i as int), labels@), depth),
            decreases b.len() - i,
        {
            let a = self.batch[i];
            match labels.get(&a) {
                Some(l) => {
                    events.push(Event::Node { address: a, label: Some(l.clone()), depth });
                },
                None => {
                    events.push(Event::Node { address: a, label: None, depth });
                    fresh_tasks.push((a, depth));
                },
            }
            proof {
                reveal(Seq::filter);
                assert(b.take(i + 1).drop_last() =~= b.take(i as int));
                assert(b.take(i + 1).last() == b[i as int]);
                assert(node_event_of(events@[i as int], b[i as int], labels@, depth));
                assert(fresh_tasks@ =~= tasks_of(unlabelled(b.take(i + 1), labels@), depth));
            }
            i += 1;
        }
        proof {
            assert(b.take(b.len() as int) =~= b);
            lemma_filter_no_duplicates(b, |a: Address| !labels@.contains_key(a));
        }

        let ghost ub = unlabelled(b, labels@);
        if matches!(self.settings.mode, SearchMode::DepthFirst) {
            let mut nf = fresh_tasks;
            nf.append(&mut self.frontier);
            self.frontier = nf;
            proof {
                assert(self.frontier@ == tasks_of(ub, depth) + f0);
            }
        } else {
            self.frontier.append(&mut fresh_tasks);
            proof {
                assert(self.frontier@ == f0 + tasks_of(ub, depth));
            }
        }
        self.batch = Vec::new();
        self.phase = Phase::Idle;
        proof {
            let nf = self.frontier@;
            let ts = tasks_of(ub, depth);
            assert(frontier_addrs(ts) =~= ub);
            assert forall|i: int, j: int|
                0 <= i < j < nf.len() implies #[trigger] nf[i].0 != #[trigger] nf[j].0 by {
                let fa0 = frontier_addrs(f0);
                if self.settings.mode == SearchMode::DepthFirst {
                    if j < ts.len() {
                        assert(ub[i] != ub[j]);
                    } else if i >= ts.len() {
                        assert(fa0[i - ts.len()] == nf[i].0);
                        assert(fa0[j - ts.len()] == nf[j].0);
                    } else {
                        assert(nf[i].0 == ub[i]);
                        assert(ub.contains(ub[i]));
                        assert(b.contains(ub[i]));
                        let k = choose|k: int| 0 <= k < b.len() && b[k] == ub[i];
                        assert(!frontier_addrs(f0).contains(b[k]));
                        assert(fa0[j - ts.len()] == nf[j].0);
                        assert(frontier_addrs(f0).contains(nf[j].0));
                    }
                } else {
                    if j < f0.len() {
                        assert(fa0[i] == nf[i].0);
                        assert(fa0[j] == nf[j].0);
                    } else if i >= f0.len() {
                        assert(nf[i].0 == ub[i - f0.len()]);
                        assert(nf[j].0 == ub[j - f0.len()]);
                    } else {
                        assert(nf[j].0 == ub[j - f0.len()]);
                        assert(ub.contains(ub[j - f0.len()]));
                        assert(b.contains(ub[j - f0.len()]));
                        let k = choose|k: int| 0 <= k < b.len() && b[k] == ub[j - f0.len()];
                        assert(!frontier_addrs(f0).contains(b[k]));
                        assert(fa0[i] == nf[i].0);
                        assert(frontier_addrs(f0).contains(nf[i].0));
                    }
                }
            }
            assert(frontier_addrs(nf).no_duplicates());
            assert forall|i: int|
                0 <= i < nf.len() implies self.visited@.contains(#[trigger] nf[i].0)
                && !self.expanded@.contains(nf[i].0) by {
                if self.settings.mode == SearchMode::DepthFirst {
                    if i < ts.len() {
                        assert(nf[i].0 == ub[i]);
                        assert(ub.contains(ub[i]));
                        assert(b.contains(ub[i]));
                        let k = choose|k: int| 0 <= k < b.len() && b[k] == ub[i];
                        assert(self.visited@.contains(b[k]));
                        assert(!self.expanded@.contains(b[k]));
                    } else {
                        assert(nf[i] == f0[i - ts.len()]);
                    }
                } else {
                    if i < f0.len() {
                        assert(nf[i] == f0[i]);
                    } else {
                        assert(nf[i].0 == ub[i - f0.len()]);
                        assert(ub.contains(ub[i - f0.len()]));
                        assert(b.contains(ub[i - f0.len()]));
                        let k = choose|k: int| 0 <= k < b.len() && b[k] == ub[i - f0.len()];
                        assert(self.visited@.contains(b[k]));
                        assert(!self.expanded@.contains(b[k]));
                    }
                }
            }
        }
        events
    }
}


/// What the discovery step picks: fresh candidates, each at most once.
pub proof fn lemma_discover_subset(cands: Seq<Address>, vis: Set<Address>)
    ensures
        discover(cands, vis).no_duplicates(),
        forall|x: Address| #[trigger]
            discover(cands, vis).contains(x) ==> cands.contains(x) && !vis.contains(x),
    decreases cands.len(),
{
    if cands.len() > 0 {
        let dl = cands.drop_last();
        lemma_discover_subset(dl, vis);
        let p = discover(dl, vis);
        assert forall|x: Address| #[trigger]
            discover(cands, vis).contains(x) implies cands.contains(x) && !vis.contains(x) by {
            if p.contains(x) {
                assert(dl.contains(x));
                let k = choose|k: int| 0 <= k < dl.len() && dl[k] == x;
                assert(cands[k] == x);
            } else {
                assert(x == cands.last());
                assert(cands[cands.len() - 1] == x);
            }
        }
        if !vis.contains(cands.last()) && !p.contains(cands.last()) {
            assert forall|i: int, j: int|
                0 <= i < j < discover(cands, vis).len() implies discover(cands, vis)[i]
                != discover(cands, vis)[j] by {
                if j < p.len() {
                } else {
                    assert(discover(cands, vis)[j] == cands.last());
                    assert(discover(cands, vis)[i] == p[i]);
                    assert(p.contains(p[i]));
                }
            }
        }
    }
}

/// A filtered sequence picks from the original.
pub proof fn lemma_filter_sub<A>(s: Seq<A>, pred: spec_fn(A) -> bool)
    ensures
        forall|x: A| #[trigger] s.filter(pred).contains(x) ==> s.contains(x),
    decreases s.len(),
{
    reveal(Seq::filter);
    if s.len() > 0 {
        let dl = s.drop_last();
        lemma_filter_sub(dl, pred);
        assert forall|x: A| #[trigger] s.filter(pred).contains(x) implies s.contains(x) by {
            if dl.filter(pred).contains(x) {
                let k = choose|k: int| 0 <= k < dl.len() && dl[k] == x;
                assert(s[k] == x);
            } else {
                assert(x == s.last());
                assert(s[s.len() - 1] == x);
            }
        }
    }
}

/// No duplicate expansion: however a crawl interleaves its steps, a
/// well-formed engine's expansion record names each address at most once;
/// `next_action` only ever hands out an address it has never expanded, and
/// every method keeps the engine well-formed.
pub proof fn lemma_no_duplicate_expansion(e: &Engine)
    requires
        e.wf(),
    ensures
        e.expanded().no_duplicates(),
{
}

/// Direction filtering: with forward edges disabled, every edge an
/// expansion keeps is backward, and every address it can discover — the
/// only addresses recursion ever reaches — is the sender of some backward
/// edge; no forward edge is followed into an expansion.
pub proof fn lemma_direction_filtering(
    edges: Seq<DirectedEdges>,
    s: SearchSettings,
    vis: Set<Address>,
)
    requires
        !s.forward,
    ensures
        forall|i: int|
            0 <= i < kept_of(edges, s).len() ==> (#[trigger] kept_of(edges, s)[i])
                matches DirectedEdges::Backward(_),
        forall|x: Address| #[trigger]
            discover(candidates(kept_of(edges, s)), vis).contains(x) ==> exists|i: int|
                0 <= i < edges.len() && (match #[trigger] edges[i] {
                    DirectedEdges::Backward(ed) => ed.from == x,
                    DirectedEdges::Forward(_) => false,
                }),
{
    broadcast use vstd::seq_lib::group_filter_ensures;

    let pred = |e: DirectedEdges| edge_kept(e, s);
    let kept = kept_of(edges, s);
    assert forall|i: int|
        0 <= i < kept.len() implies (#[trigger] kept[i]) matches DirectedEdges::Backward(
        _,
    ) by {
        assert(kept[i] == retained(edges, s)[i]);
        assert(pred(retained(edges, s)[i]));
    }
    lemma_filter_sub(edges, pred);
    lemma_discover_subset(candidates(kept), vis);
    assert forall|x: Address| #[trigger]
        discover(candidates(kept), vis).contains(x) implies exists|i: int|
        0 <= i < edges.len() && (match #[trigger] edges[i] {
            DirectedEdges::Backward(ed) => ed.from == x,
            DirectedEdges::Forward(_) => false,
        }) by {
        assert(candidates(kept).contains(x));
        let ei = choose|ei: int| 0 <= ei < candidates(kept).len() && candidates(kept)[ei] == x;
        assert(counterparty(kept[ei]) == x);
        assert(retained(edges, s).contains(kept[ei])) by {
            assert(kept[ei] == retained(edges, s)[ei]);
        }
        assert(edges.contains(kept[ei]));
        let i = choose|i: int| 0 <= i < edges.len() && edges[i] == kept[ei];
        match edges[i] {
            DirectedEdges::Backward(ed) => {
                assert(ed.from == x);
            },
            DirectedEdges::Forward(_) => {
                assert(kept[ei] matches DirectedEdges::Backward(_));
                assert(false);
            },
        }
    }
}

/// Label terminality: of one expansion's discoveries, exactly the
/// unlabelled ones are queued for expansion. An address the resolution
/// labelled enters the frontier in neither traversal order, so — since
/// expansion only ever pops the frontier — it is never expanded.
pub proof fn lemma_label_terminality(
    b: Seq<Address>,
    m: Map<Address, Seq<char>>,
    d: usize,
    f0: Seq<(Address, usize)>,
)
    ensures
        forall|a: Address|
            #[trigger] m.contains_key(a) && !frontier_addrs(f0).contains(a) ==> !frontier_addrs(
                tasks_of(unlabelled(b, m), d) + f0,
            ).contains(a) && !frontier_addrs(f0 + tasks_of(unlabelled(b, m), d)).contains(a),
{
    broadcast use vstd::seq_lib::group_filter_ensures;

    let ts = tasks_of(unlabelled(b, m), d);
    assert forall|a: Address|
        #[trigger] m.contains_key(a) && !frontier_addrs(f0).contains(a) implies !frontier_addrs(
        ts + f0,
    ).contains(a) && !frontier_addrs(f0 + ts).contains(a) by {
        assert(forall|k: int| 0 <= k < ts.len() ==> (#[trigger] ts[k]).0 == unlabelled(b, m)[k]);
        assert(forall|k: int|
            0 <= k < unlabelled(b, m).len() ==> !m.contains_key(#[trigger] unlabelled(b, m)[k]));
        if frontier_addrs(ts + f0).contains(a) {
            let k = choose|k: int|
                0 <= k < (ts + f0).len() && frontier_addrs(ts + f0)[k] == a;
            if k < ts.len() {
                assert((ts + f0)[k] == ts[k]);
                assert(!m.contains_key(a));
            } else {
                assert((ts + f0)[k] == f0[k - ts.len()]);
                assert(frontier_addrs(f0)[k - ts.len()] == a);
            }
        }
        if frontier_addrs(f0 + ts).contains(a) {
            let k = choose|k: int|
                0 <= k < (f0 + ts).len() && frontier_addrs(f0 + ts)[k] == a;
            if k < f0.len() {
                assert((f0 + ts)[k] == f0[k]);
                assert(frontier_addrs(f0)[k] == a);
            } else {
                assert((f0 + ts)[k] == ts[k - f0.len()]);
                assert(!m.contains_key(a));
            }
        }
    }
}

} // verus!
