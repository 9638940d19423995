use vstd::prelude::*;

use crate::addr::Address;
use crate::cache::LabelCache;
use crate::edges::DirectedEdges;
use crate::edges::Tx;
use crate::edges::get_counter_parties;
use crate::edges::keys_of;
use crate::edges::tx_from;
use crate::edges::tx_key;
use crate::edges::tx_to;
use crate::engine::Action;
use crate::engine::Engine;
use crate::engine::Phase;
use crate::engine::candidates;
use crate::engine::counterparty;
use crate::engine::discover;
use crate::engine::kept_of;
use crate::engine::pop_viable;
use crate::engine::lemma_discover_subset;
use crate::engine::lemma_filter_sub;
use crate::engine::retained;
use crate::events::Event;
use crate::labelmap::AddrMap;
use crate::settings::SearchSettings;

verus! {

// The crawl, run to completion over a transaction graph held as data. The
// engine decides every step; this driver looks each expanded node's raw
// records up, aggregates them into classified edges, resolves the
// discovered batch through the label cache, and collects the emitted
// events. An address absent from the graph yields no edges, exactly as a
// failed provider fetch would.

/// The raw transaction records of `a` in the graph: those of the first
/// entry carrying `a`, nothing when no entry does.
pub open spec fn graph_txs(g: Seq<(Address, Vec<Tx>)>, a: Address) -> Seq<Tx>
    decreases g.len(),
{
    if g.len() == 0 {
        Seq::empty()
    } else if g[0].0 == a {
        g[0].1@
    } else {
        graph_txs(g.drop_first(), a)
    }
}

/// Every effective endpoint of a record list, in order.
pub open spec fn tx_endpoints(txs: Seq<Tx>) -> Seq<Address>
    decreases txs.len(),
{
    if txs.len() == 0 {
        Seq::empty()
    } else {
        seq![tx_from(txs[0]), tx_to(txs[0])] + tx_endpoints(txs.drop_first())
    }
}

/// Every effective endpoint appearing anywhere in the graph.
pub open spec fn graph_endpoints(g: Seq<(Address, Vec<Tx>)>) -> Seq<Address>
    decreases g.len(),
{
    if g.len() == 0 {
        Seq::empty()
    } else {
        tx_endpoints(g[0].1@) + graph_endpoints(g.drop_first())
    }
}

/// The endpoint pairs whose direction the settings follow, relative to the
/// expanded node: exactly the pairs whose aggregated edges one expansion
/// retains.
pub open spec fn kept_keys(
    keys: Seq<(Address, Address)>,
    cur: Address,
    s: SearchSettings,
) -> Seq<(Address, Address)> {
    keys.filter(
        |k: (Address, Address)|
            if k.0 == cur {
                s.forward
            } else {
                s.backward
            },
    )
}

/// The number of edges an expansion retains is the number of followed
/// endpoint pairs: aggregation and direction filtering commute.
proof fn lemma_retained_matches_keys(
    edges: Seq<DirectedEdges>,
    keys: Seq<(Address, Address)>,
    txs: Seq<Tx>,
    cur: Address,
    s: SearchSettings,
)
    requires
        edges.len() == keys.len(),
        forall|j: int|
            0 <= j < edges.len() ==> crate::edges::edge_matches(
                #[trigger] edges[j],
                keys[j],
                txs,
                cur,
            ),
    ensures
        retained(edges, s).len() == kept_keys(keys, cur, s).len(),
    decreases edges.len(),
{
    reveal(Seq::filter);
    if edges.len() > 0 {
        assert(forall|j: int| 0 <= j < edges.len() - 1 ==> #[trigger] edges.drop_last()[j]
            == edges[j] && keys.drop_last()[j] == keys[j]);
        lemma_retained_matches_keys(edges.drop_last(), keys.drop_last(), txs, cur, s);
        assert(crate::edges::edge_matches(edges[edges.len() - 1], keys[keys.len() - 1], txs, cur));
    }
}

/// The addresses of the node events in a stream, in order.
pub open spec fn node_addresses(evs: Seq<Event>) -> Seq<Address>
    decreases evs.len(),
{
    if evs.len() == 0 {
        Seq::empty()
    } else {
        let p = node_addresses(evs.drop_last());
        match evs.last() {
            Event::Node { address, .. } => p.push(address),
            Event::Edge { .. } => p,
        }
    }
}

/// Node-event addresses of a concatenation are the concatenation of the
/// node-event addresses.
proof fn lemma_node_addresses_concat(s1: Seq<Event>, s2: Seq<Event>)
    ensures
        node_addresses(s1 + s2) == node_addresses(s1) + node_addresses(s2),
    decreases s2.len(),
{
    if s2.len() == 0 {
        assert(s1 + s2 =~= s1);
        assert(node_addresses(s1) + node_addresses(s2) =~= node_addresses(s1));
    } else {
        lemma_node_addresses_concat(s1, s2.drop_last());
        assert((s1 + s2).drop_last() =~= s1 + s2.drop_last());
        assert((s1 + s2).last() == s2.last());
        match s2.last() {
            Event::Node { address, .. } => {
                assert(node_addresses(s1) + node_addresses(s2) =~= (node_addresses(s1)
                    + node_addresses(s2.drop_last())).push(address));
            },
            Event::Edge { .. } => {},
        }
    }
}

/// A stream of edge events names no node.
proof fn lemma_node_addresses_edges(evs: Seq<Event>)
    requires
        forall|i: int|
            0 <= i < evs.len() ==> (#[trigger] evs[i]) matches Event::Edge { .. },
    ensures
        node_addresses(evs) == Seq::<Address>::empty(),
    decreases evs.len(),
{
    if evs.len() > 0 {
        lemma_node_addresses_edges(evs.drop_last());
        assert(evs[evs.len() - 1] matches Event::Edge { .. });
    }
}

/// A stream of node events for a batch names exactly the batch.
proof fn lemma_node_addresses_nodes(
    evs: Seq<Event>,
    b: Seq<Address>,
    m: Map<Address, Seq<char>>,
    d: usize,
)
    requires
        evs.len() == b.len(),
        forall|i: int|
            0 <= i < b.len() ==> crate::engine::node_event_of(#[trigger] evs[i], b[i], m, d),
    ensures
        node_addresses(evs) == b,
    decreases evs.len(),
{
    if evs.len() > 0 {
        lemma_node_addresses_nodes(evs.drop_last(), b.drop_last(), m, d);
        assert(crate::engine::node_event_of(evs[evs.len() - 1], b[b.len() - 1], m, d));
        match evs.last() {
            Event::Node { address, .. } => {
                assert(node_addresses(evs) =~= b);
            },
            Event::Edge { .. } => {},
        }
    }
}

/// Picking a task shortens the frontier.
proof fn lemma_pop_viable_len(f: Seq<(Address, usize)>, max_depth: usize)
    ensures
        match crate::engine::pop_viable(f, max_depth).1 {
            Some(_) => crate::engine::pop_viable(f, max_depth).0.len() < f.len(),
            None => crate::engine::pop_viable(f, max_depth).0.len() == 0,
        },
    decreases f.len(),
{
    if f.len() > 0 {
        lemma_pop_viable_len(f.drop_first(), max_depth);
    }
}

/// Every endpoint pair the aggregation keys on comes from some record.
proof fn lemma_keys_of_members(txs: Seq<Tx>)
    ensures
        forall|j: int|
            0 <= j < keys_of(txs).len() ==> exists|i: int|
                0 <= i < txs.len() && #[trigger] keys_of(txs)[j] == tx_key(txs[i]),
    decreases txs.len(),
{
    if txs.len() > 0 {
        let dl = txs.drop_last();
        lemma_keys_of_members(dl);
        assert forall|j: int|
            0 <= j < keys_of(txs).len() implies exists|i: int|
            0 <= i < txs.len() && #[trigger] keys_of(txs)[j] == tx_key(txs[i]) by {
            if j < keys_of(dl).len() {
                assert(keys_of(txs)[j] == keys_of(dl)[j]);
                let i = choose|i: int| 0 <= i < dl.len() && keys_of(dl)[j] == tx_key(dl[i]);
                assert(txs[i] == dl[i]);
                assert(keys_of(txs)[j] == tx_key(txs[i]));
            } else {
                assert(keys_of(txs)[j] == tx_key(txs.last()));
                assert(keys_of(txs)[j] == tx_key(txs[txs.len() - 1]));
            }
        }
    }
}

/// A record's endpoints are among a record list's endpoints.
proof fn lemma_tx_endpoints_members(txs: Seq<Tx>)
    ensures
        forall|i: int|
            0 <= i < txs.len() ==> tx_endpoints(txs).contains(tx_from(#[trigger] txs[i]))
                && tx_endpoints(txs).contains(tx_to(txs[i])),
    decreases txs.len(),
{
    broadcast use vstd::seq_lib::group_seq_properties;

    if txs.len() > 0 {
        let df = txs.drop_first();
        lemma_tx_endpoints_members(df);
        assert forall|i: int|
            0 <= i < txs.len() implies tx_endpoints(txs).contains(tx_from(#[trigger] txs[i]))
            && tx_endpoints(txs).contains(tx_to(txs[i])) by {
            if i == 0 {
                assert(tx_endpoints(txs)[0] == tx_from(txs[0]));
                assert(tx_endpoints(txs)[1] == tx_to(txs[0]));
            } else {
                assert(df[i - 1] == txs[i]);
                assert(tx_endpoints(df).contains(tx_from(txs[i])));
                assert(tx_endpoints(df).contains(tx_to(txs[i])));
            }
        }
    }
}

/// The looked-up records' endpoints appear among the whole graph's.
proof fn lemma_graph_txs_endpoints(g: Seq<(Address, Vec<Tx>)>, a: Address)
    ensures
        forall|x: Address| #[trigger]
            tx_endpoints(graph_txs(g, a)).contains(x) ==> graph_endpoints(g).contains(x),
    decreases g.len(),
{
    broadcast use vstd::seq_lib::group_seq_properties;

    if g.len() > 0 {
        lemma_graph_txs_endpoints(g.drop_first(), a);
        assert forall|x: Address| #[trigger]
            tx_endpoints(graph_txs(g, a)).contains(x) implies graph_endpoints(g).contains(
            x,
        ) by {
            let head = tx_endpoints(g[0].1@);
            if g[0].0 == a {
                let k = choose|k: int| 0 <= k < head.len() && head[k] == x;
                assert(graph_endpoints(g)[k] == x);
            } else {
                assert(tx_endpoints(graph_txs(g.drop_first(), a)).contains(x));
                assert(graph_endpoints(g.drop_first()).contains(x));
                let k = choose|k: int|
                    0 <= k < graph_endpoints(g.drop_first()).len() && graph_endpoints(
                        g.drop_first(),
                    )[k] == x;
                assert(graph_endpoints(g)[head.len() + k] == x);
            }
        }
    }
}

/// Looks the address up in the graph: the first entry carrying it.
#[verifier::loop_isolation(false)]
fn find_entry(graph: &Vec<(Address, Vec<Tx>)>, a: &Address) -> (r: Option<usize>)
    ensures
        match r {
            Some(i) => i < graph@.len() && graph@[i as int].0 == *a && graph_txs(graph@, *a)
                == graph@[i as int].1@,
            None => graph_txs(graph@, *a) == Seq::<Tx>::empty(),
        },
{
    let mut i: usize = 0;
    proof {
        assert(graph@.skip(0) =~= graph@);
    }
    while i < graph.len()
        invariant
            i <= graph@.len(),
            forall|j: int| 0 <= j < i ==> (#[trigger] graph@[j]).0 != *a,
            graph_txs(graph@, *a) == graph_txs(graph@.skip(i as int), *a),
        decreases graph@.len() - i,
    {
        if graph[i].0 == *a {
            proof {
                assert(graph@.skip(i as int)[0] == graph@[i as int]);
            }
            return Some(i);
        }
        proof {
            assert(graph@.skip(i as int)[0] == graph@[i as int]);
            assert(graph@.skip(i as int).drop_first() =~= graph@.skip(i + 1));
        }
        i += 1;
    }
    proof {
        assert(graph@.skip(graph@.len() as int) =~= Seq::<(Address, Vec<Tx>)>::empty());
    }
    None
}

/// Explores the transfer graph rooted at `root`, run to completion: every
/// expansion fetches the node's records from the graph data, emits the kept
/// edges, resolves the freshly discovered counterparties through the label
/// cache, emits one node event each, and queues the unlabelled ones, up to
/// the depth and fan-out bounds. No node event repeats an address, none
/// names the root, and none lies beyond the depth bound.
#[verifier::loop_isolation(false)]
pub fn crawl(
    root: Address,
    settings: &SearchSettings,
    graph: &Vec<(Address, Vec<Tx>)>,
    providers: &Vec<AddrMap>,
    cache: &mut LabelCache,
) -> (events: Vec<Event>)
    requires
        old(cache).wf(),
        providers@.len() == old(cache).n_providers(),
        forall|p: int| 0 <= p < providers@.len() ==> (#[trigger] providers@[p]).wf(),
    ensures
        final(cache).wf(),
        final(cache).n_providers() == old(cache).n_providers(),
        final(cache).batch_cap() == old(cache).batch_cap(),
        final(cache).retry_limit() == old(cache).retry_limit(),
        forall|i: int|
            0 <= i < events@.len() ==> (match #[trigger] events@[i] {
                Event::Node { depth, .. } => 1 <= depth <= settings.recursive_depth,
                Event::Edge { .. } => true,
            }),
        node_addresses(events@).no_duplicates(),
        !node_addresses(events@).contains(root),
        settings.recursive_depth >= 1 ==> events@.len() >= vstd::math::min(
            kept_keys(keys_of(graph_txs(graph@, root)), root, *settings).len() as int,
            settings.fan_out_limit as int,
        ),
{
    let ghost univ = graph_endpoints(graph@).to_set().insert(root);
    let mut engine = Engine::new(root, settings);
    let mut out: Vec<Event> = Vec::new();
    let mut done = false;
    proof {
        broadcast use vstd::seq_lib::seq_to_set_is_finite;

        graph_endpoints(graph@).lemma_cardinality_of_set();
        assert(univ.finite());
        assert(univ.contains(root));
        engine.lemma_visited_count();
        vstd::set_lib::lemma_len_subset(engine.visited(), univ);
    }
    while !done
        invariant
            engine.wf(),
            engine.phase() == Phase::Idle,
            engine.settings() == *settings,
            cache.wf(),
            cache.n_providers() == old(cache).n_providers(),
            cache.batch_cap() == old(cache).batch_cap(),
            cache.retry_limit() == old(cache).retry_limit(),
            providers@.len() == cache.n_providers(),
            univ.finite(),
            engine.visited().contains(root),
            forall|a: Address| #[trigger] engine.visited().contains(a) ==> univ.contains(a),
            engine.visited_count() <= univ.len(),
            forall|i: int|
                0 <= i < out@.len() ==> (match #[trigger] out@[i] {
                    Event::Node { depth, .. } => 1 <= depth <= settings.recursive_depth,
                    Event::Edge { .. } => true,
                }),
            node_addresses(out@).no_duplicates(),
            forall|x: Address| #[trigger]
                node_addresses(out@).contains(x) ==> engine.visited().contains(x) && x != root,
            !done && engine.expanded().len() == 0 ==> engine.frontier() == seq![(root, 0usize)]
                && out@.len() == 0,
            settings.recursive_depth >= 1 && (done || engine.expanded().len() >= 1) ==> out@.len()
                >= vstd::math::min(
                kept_keys(keys_of(graph_txs(graph@, root)), root, *settings).len() as int,
                settings.fan_out_limit as int,
            ),
        decreases
                univ.len() - engine.visited_count(),
                engine.frontier().len(),
                (if done {
                    0int
                } else {
                    1int
                }),
    {
        let ghost frontier0 = engine.frontier();
        let ghost expanded0 = engine.expanded();
        let action = engine.next_action();
        match action {
            Action::Done => {
                proof {
                    if settings.recursive_depth >= 1 && expanded0.len() == 0 {
                        assert(frontier0[0] == (root, 0usize));
                        assert(pop_viable(frontier0, settings.recursive_depth) == (
                            frontier0.drop_first(),
                            Some((root, 0usize)),
                        ));
                        assert(false);
                    }
                }
                done = true;
            },
            Action::FetchEdges { address } => {
                let ghost v_before = engine.visited();
                let edges: Vec<DirectedEdges> = match find_entry(graph, &address) {
                    Some(i) => get_counter_parties(&address, &graph[i].1),
                    None => Vec::new(),
                };
                let ghost txs = graph_txs(graph@, address);
                proof {
                    if edges@.len() > 0 {
                        assert(edges@.len() == keys_of(txs).len());
                    }
                }
                let mut evs = engine.on_edges(&edges);
                let ghost evs_snap = evs@;
                let ghost kept = kept_of(edges@, *settings);
                proof {
                    // the new discoveries come from the graph's endpoints
                    lemma_discover_subset(candidates(kept), v_before);
                    lemma_filter_sub(
                        edges@,
                        |e: DirectedEdges| crate::engine::edge_kept(e, *settings),
                    );
                    lemma_keys_of_members(txs);
                    lemma_tx_endpoints_members(txs);
                    lemma_graph_txs_endpoints(graph@, address);
                    assert forall|m: int|
                        0 <= m < engine.batch().len() implies univ.contains(
                        #[trigger] engine.batch()[m],
                    ) by {
                        let x = engine.batch()[m];
                        assert(discover(candidates(kept), v_before).contains(x));
                        assert(candidates(kept).contains(x));
                        let ei = choose|ei: int|
                            0 <= ei < candidates(kept).len() && candidates(kept)[ei] == x;
                        assert(counterparty(kept[ei]) == x);
                        assert(retained(edges@, *settings).contains(kept[ei])) by {
                            assert(kept[ei] == retained(edges@, *settings)[ei]);
                        }
                        assert(edges@.contains(kept[ei]));
                        let j = choose|j: int| 0 <= j < edges@.len() && edges@[j] == kept[ei];
                        assert(crate::edges::edge_matches(
                            edges@[j],
                            keys_of(txs)[j],
                            txs,
                            address,
                        ));
                        let k = keys_of(txs)[j];
                        let i0 = choose|i0: int|
                            0 <= i0 < txs.len() && #[trigger] keys_of(txs)[j] == tx_key(txs[i0]);
                        assert(k.0 == tx_from(txs[i0]) && k.1 == tx_to(txs[i0]));
                        assert(tx_endpoints(txs).contains(k.0));
                        assert(tx_endpoints(txs).contains(k.1));
                        assert(x == k.0 || x == k.1);
                        assert(graph_endpoints(graph@).contains(x));
                        assert(graph_endpoints(graph@).to_set().contains(x));
                    }
                    // the edge events name no node
                    assert forall|i: int|
                        0 <= i < evs@.len() implies (#[trigger] evs@[i]) matches Event::Edge {
                        ..
                    } by {
                        assert(crate::engine::edge_event_of(evs@[i], kept[i]));
                    }
                    lemma_node_addresses_edges(evs@);
                    lemma_node_addresses_concat(out@, evs@);
                }
                let ghost out_before = out@;
                out.append(&mut evs);
                proof {
                    assert(out@ == out_before + evs_snap);
                    assert(node_addresses(out@) =~= node_addresses(out_before));
                    lemma_pop_viable_len(frontier0, settings.recursive_depth);
                }
                if engine.awaiting_labels() {
                    let ghost batch = engine.batch();
                    let ghost d = crate::engine::phase_depth(engine.phase());
                    let labels = cache.get_labels(engine.pending_batch(), providers);
                    let ghost out_mid = out@;
                    let mut evs2 = engine.on_labels(&labels);
                    let ghost evs2_snap = evs2@;
                    proof {
                        lemma_node_addresses_nodes(evs2_snap, batch, labels@, d);
                        lemma_node_addresses_concat(out_mid, evs2_snap);
                        lemma_discover_subset(candidates(kept), v_before);
                    }
                    out.append(&mut evs2);
                    proof {
                        assert(out@ == out_mid + evs2_snap);
                        assert(node_addresses(out@) == node_addresses(out_mid) + batch);
                        let na = node_addresses(out@);
                        let na0 = node_addresses(out_mid);
                        assert forall|i: int, j: int|
                            0 <= i < j < na.len() implies na[i] != na[j] by {
                            if j < na0.len() {
                                assert(na[i] == na0[i]);
                                assert(na[j] == na0[j]);
                            } else if i >= na0.len() {
                                assert(na[i] == batch[i - na0.len()]);
                                assert(na[j] == batch[j - na0.len()]);
                            } else {
                                assert(na[i] == na0[i]);
                                assert(na[j] == batch[j - na0.len()]);
                                assert(na0.contains(na0[i]));
                                assert(v_before.contains(na0[i]));
                                assert(batch.contains(batch[j - na0.len()]));
                                assert(!v_before.contains(batch[j - na0.len()]));
                            }
                        }
                        assert(na.no_duplicates());
                        assert forall|x: Address| #[trigger]
                            na.contains(x) implies engine.visited().contains(x) && x
                            != root by {
                            let k = choose|k: int| 0 <= k < na.len() && na[k] == x;
                            if k < na0.len() {
                                assert(na0[k] == x);
                                assert(na0.contains(x));
                            } else {
                                assert(batch[k - na0.len()] == x);
                                assert(batch.contains(x));
                                assert(!v_before.contains(x));
                                assert(v_before.contains(root));
                                assert(engine.visited().contains(x)) by {
                                    assert(batch.to_set().contains(x));
                                }
                            }
                        }
                    }
                }
                proof {
                    engine.lemma_visited_count();
                    vstd::set_lib::lemma_len_subset(engine.visited(), univ);
                    if settings.recursive_depth >= 1 && expanded0.len() == 0 {
                        assert(frontier0[0] == (root, 0usize));
                        assert(pop_viable(frontier0, settings.recursive_depth) == (
                            frontier0.drop_first(),
                            Some((root, 0usize)),
                        ));
                        assert(address == root);
                        assert(edges@.len() == keys_of(txs).len()) by {
                            if edges@.len() == 0 {
                                assert(keys_of(txs).len() == 0);
                            }
                        }
                        lemma_retained_matches_keys(edges@, keys_of(txs), txs, root, *settings);
                        assert(kept.len() == vstd::math::min(
                            kept_keys(keys_of(txs), root, *settings).len() as int,
                            settings.fan_out_limit as int,
                        ));
                        assert(out@.len() >= kept.len());
                    }
                }
            },
        }
    }
    out
}

} // verus!
