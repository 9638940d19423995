use chaincrawl::addr::Address;
use chaincrawl::addr::TxRef;
use chaincrawl::cache::LabelCache;
use chaincrawl::crawler::crawl;
use chaincrawl::edges::DirectedEdges;
use chaincrawl::edges::Tx;
use chaincrawl::edges::get_counter_parties;
use chaincrawl::events::Event;
use chaincrawl::labelmap::AddrMap;
use chaincrawl::settings::SearchMode;
use chaincrawl::settings::SearchSettings;
use chaincrawl::visited::VisitedSet;

fn addr(n: u128) -> Address {
    Address { hi: 0, lo: n }
}

fn txref(n: u128) -> TxRef {
    TxRef { hi: 0, lo: n }
}

fn tx(from: Address, to: Address, h: u128) -> Tx {
    Tx { hash: Some(txref(h)), from: Some(from), to: Some(to), contract_address: None }
}

fn settings(depth: usize, fan_out: usize, forward: bool, backward: bool, mode: SearchMode) -> SearchSettings {
    SearchSettings {
        fan_out_limit: fan_out,
        recursive_depth: depth,
        forward,
        backward,
        mode,
    }
}

fn one_provider(pairs: &[(Address, &str)]) -> Vec<AddrMap> {
    let mut m = AddrMap::new();
    for (a, l) in pairs {
        m.insert_if_absent(*a, l.to_string());
    }
    vec![m]
}

fn is_edge(ev: &Event, from: Address, to: Address) -> bool {
    match ev {
        Event::Edge { edge } => edge.from == from && edge.to == to,
        _ => false,
    }
}

fn is_node(ev: &Event, a: Address, label: Option<&str>, depth: usize) -> bool {
    match ev {
        Event::Node { address, label: l, depth: d } => {
            *address == a && *d == depth
                && match (l, label) {
                    (Some(x), Some(y)) => x == y,
                    (None, None) => true,
                    _ => false,
                }
        }
        _ => false,
    }
}

fn names_address(ev: &Event, a: Address) -> bool {
    match ev {
        Event::Node { address, .. } => *address == a,
        Event::Edge { edge } => edge.from == a || edge.to == a,
    }
}

#[test]
fn scenario_root_with_labelled_and_unlabelled_counterparty() {
    let r = addr(1);
    let a = addr(2);
    let b = addr(3);
    let c = addr(4);
    let graph = vec![
        (r, vec![tx(r, a, 10), tx(b, r, 11)]),
        (a, vec![tx(a, c, 12)]),
        (b, vec![tx(b, addr(9), 13)]),
    ];
    let providers = one_provider(&[(b, "exchange")]);
    let mut cache = LabelCache::with_config(1, 20, 3);
    let events = crawl(r, &settings(2, 50, true, true, SearchMode::DepthFirst), &graph, &providers, &mut cache);
    assert_eq!(events.len(), 6);
    assert!(is_edge(&events[0], r, a));
    assert!(is_edge(&events[1], b, r));
    assert!(is_node(&events[2], a, None, 1));
    assert!(is_node(&events[3], b, Some("exchange"), 1));
    // only A is expanded further: B is labelled, a terminal leaf
    assert!(is_edge(&events[4], a, c));
    assert!(is_node(&events[5], c, None, 2));
    // nothing was emitted for B's own edges
    assert!(!events.iter().any(|e| names_address(e, addr(9))));
}

#[test]
fn scenario_zero_depth_emits_nothing() {
    let r = addr(1);
    let a = addr(2);
    let graph = vec![(r, vec![tx(r, a, 10)])];
    let providers = one_provider(&[]);
    let mut cache = LabelCache::with_config(1, 20, 3);
    let events = crawl(r, &settings(0, 50, true, true, SearchMode::DepthFirst), &graph, &providers, &mut cache);
    assert!(events.is_empty());
}

#[test]
fn backward_only_never_follows_forward_edges() {
    let r = addr(1);
    let a = addr(2);
    let b = addr(3);
    let graph = vec![(r, vec![tx(r, a, 10), tx(b, r, 11)])];
    let providers = one_provider(&[]);
    let mut cache = LabelCache::with_config(1, 20, 3);
    let events = crawl(r, &settings(2, 50, false, true, SearchMode::DepthFirst), &graph, &providers, &mut cache);
    // the forward edge is discarded whole; only the backward edge and its
    // counterparty appear
    assert_eq!(events.len(), 2);
    assert!(is_edge(&events[0], b, r));
    assert!(is_node(&events[1], b, None, 1));
    assert!(!events.iter().any(|e| names_address(e, a)));
}

#[test]
fn fan_out_truncates_the_tail_of_an_expansion() {
    let r = addr(1);
    let graph = vec![(r, vec![tx(r, addr(2), 10), tx(r, addr(3), 11), tx(r, addr(4), 12)])];
    let providers = one_provider(&[]);
    let mut cache = LabelCache::with_config(1, 20, 3);
    let events = crawl(r, &settings(1, 2, true, true, SearchMode::DepthFirst), &graph, &providers, &mut cache);
    // two edges, two nodes: the third sibling is dropped deterministically
    assert_eq!(events.len(), 4);
    assert!(is_edge(&events[0], r, addr(2)));
    assert!(is_edge(&events[1], r, addr(3)));
    assert!(is_node(&events[2], addr(2), None, 1));
    assert!(is_node(&events[3], addr(3), None, 1));
    assert!(!events.iter().any(|e| names_address(e, addr(4))));
}

#[test]
fn depth_first_expands_a_subtree_before_the_next_sibling() {
    let r = addr(1);
    let a = addr(2);
    let b = addr(3);
    let c = addr(4);
    let d = addr(5);
    let graph = vec![
        (r, vec![tx(r, a, 10), tx(r, b, 11)]),
        (a, vec![tx(a, c, 12)]),
        (b, vec![tx(b, d, 13)]),
    ];
    let providers = one_provider(&[]);
    let mut cache = LabelCache::with_config(1, 20, 3);
    let events = crawl(r, &settings(2, 50, true, true, SearchMode::DepthFirst), &graph, &providers, &mut cache);
    assert_eq!(events.len(), 8);
    assert!(is_edge(&events[0], r, a));
    assert!(is_edge(&events[1], r, b));
    assert!(is_node(&events[2], a, None, 1));
    assert!(is_node(&events[3], b, None, 1));
    // depth-first: A's subtree comes before B's expansion
    assert!(is_edge(&events[4], a, c));
    assert!(is_node(&events[5], c, None, 2));
    assert!(is_edge(&events[6], b, d));
    assert!(is_node(&events[7], d, None, 2));
}

#[test]
fn breadth_first_expands_each_depth_before_the_next() {
    let r = addr(1);
    let a = addr(2);
    let b = addr(3);
    let c = addr(4);
    let d = addr(5);
    let e = addr(6);
    let graph = vec![
        (r, vec![tx(r, a, 10), tx(r, b, 11)]),
        (a, vec![tx(a, c, 12)]),
        (c, vec![tx(c, e, 14)]),
        (b, vec![tx(b, d, 13)]),
    ];
    let providers = one_provider(&[]);
    let mut cache = LabelCache::with_config(1, 20, 3);
    let events = crawl(r, &settings(3, 50, true, true, SearchMode::BreadthFirst), &graph, &providers, &mut cache);
    // breadth-first: both depth-1 nodes are expanded before any depth-2 node
    assert!(is_edge(&events[4], a, c));
    assert!(is_node(&events[5], c, None, 2));
    assert!(is_edge(&events[6], b, d));
    assert!(is_node(&events[7], d, None, 2));
    assert!(is_edge(&events[8], c, e));
    assert!(is_node(&events[9], e, None, 3));

    // depth-first on the same graph reaches C's subtree before B
    let mut cache2 = LabelCache::with_config(1, 20, 3);
    let events2 = crawl(r, &settings(3, 50, true, true, SearchMode::DepthFirst), &graph, &providers, &mut cache2);
    assert!(is_edge(&events2[4], a, c));
    assert!(is_node(&events2[5], c, None, 2));
    assert!(is_edge(&events2[6], c, e));
    assert!(is_node(&events2[7], e, None, 3));
    assert!(is_edge(&events2[8], b, d));
    assert!(is_node(&events2[9], d, None, 2));
}

#[test]
fn converging_paths_expand_an_address_once_but_emit_every_edge() {
    let r = addr(1);
    let a = addr(2);
    let b = addr(3);
    let x = addr(4);
    let y = addr(5);
    let graph = vec![
        (r, vec![tx(r, a, 10), tx(r, b, 11)]),
        (a, vec![tx(a, x, 12)]),
        (b, vec![tx(b, x, 13)]),
        (x, vec![tx(x, y, 14)]),
    ];
    let providers = one_provider(&[]);
    let mut cache = LabelCache::with_config(1, 20, 3);
    let events = crawl(r, &settings(5, 50, true, true, SearchMode::DepthFirst), &graph, &providers, &mut cache);
    // both edges into X are observed
    let edges_into_x = events.iter().filter(|e| is_edge(e, a, x) || is_edge(e, b, x)).count();
    assert_eq!(edges_into_x, 2);
    // X is discovered once and expanded once
    let node_events_for_x = events
        .iter()
        .filter(|e| matches!(e, Event::Node { address, .. } if *address == x))
        .count();
    assert_eq!(node_events_for_x, 1);
    let edges_out_of_x = events.iter().filter(|e| is_edge(e, x, y)).count();
    assert_eq!(edges_out_of_x, 1);
}

#[test]
fn failed_edge_fetch_degrades_to_no_edges() {
    let r = addr(1);
    let a = addr(2);
    // A has no graph entry: its fetch yields nothing, the crawl goes on
    let graph = vec![(r, vec![tx(r, a, 10)])];
    let providers = one_provider(&[]);
    let mut cache = LabelCache::with_config(1, 20, 3);
    let events = crawl(r, &settings(3, 50, true, true, SearchMode::DepthFirst), &graph, &providers, &mut cache);
    assert_eq!(events.len(), 2);
    assert!(is_edge(&events[0], r, a));
    assert!(is_node(&events[1], a, None, 1));
}

#[test]
fn counter_parties_aggregates_records_by_endpoint_pair() {
    let r = addr(1);
    let a = addr(2);
    let b = addr(3);
    let txs = vec![tx(r, a, 10), tx(b, r, 11), tx(r, a, 12)];
    let edges = get_counter_parties(&r, &txs);
    assert_eq!(edges.len(), 2);
    match &edges[0] {
        DirectedEdges::Forward(e) => {
            assert_eq!(e.from, r);
            assert_eq!(e.to, a);
            assert_eq!(e.txs.len(), 2);
            assert_eq!(e.txs[0].hash, Some(txref(10)));
            assert_eq!(e.txs[1].hash, Some(txref(12)));
        }
        DirectedEdges::Backward(_) => panic!("first edge must be forward"),
    }
    match &edges[1] {
        DirectedEdges::Backward(e) => {
            assert_eq!(e.from, b);
            assert_eq!(e.to, r);
            assert_eq!(e.txs.len(), 1);
        }
        DirectedEdges::Forward(_) => panic!("second edge must be backward"),
    }
}

#[test]
fn counter_parties_falls_back_to_contract_address_and_zero() {
    let r = addr(1);
    let c = addr(7);
    let creation = Tx { hash: Some(txref(20)), from: Some(r), to: None, contract_address: Some(c) };
    let bare = Tx { hash: None, from: None, to: None, contract_address: None };
    let edges = get_counter_parties(&r, &vec![creation, bare]);
    assert_eq!(edges.len(), 2);
    match &edges[0] {
        DirectedEdges::Forward(e) => {
            assert_eq!(e.to, c);
        }
        _ => panic!("creation must be a forward edge"),
    }
    match &edges[1] {
        DirectedEdges::Backward(e) => {
            assert_eq!(e.from, Address { hi: 0, lo: 0 });
            assert_eq!(e.to, Address { hi: 0, lo: 0 });
        }
        _ => panic!("bare record must be a backward edge of zero addresses"),
    }
}

#[test]
fn visited_set_check_and_insert_is_once_only() {
    let mut v = VisitedSet::new();
    let a = addr(1);
    assert!(!v.contains(&a));
    assert!(v.check_and_insert(a));
    assert!(v.contains(&a));
    assert!(!v.check_and_insert(a));
    assert!(v.check_and_insert(addr(2)));
}

#[test]
fn search_mode_names_parse_with_a_depth_first_fallback() {
    assert_eq!(SearchMode::from("breadth-first".to_string()), SearchMode::BreadthFirst);
    assert_eq!(SearchMode::from("bfs".to_string()), SearchMode::BreadthFirst);
    assert_eq!(SearchMode::from("depth-first".to_string()), SearchMode::DepthFirst);
    assert_eq!(SearchMode::from("dfs".to_string()), SearchMode::DepthFirst);
    assert_eq!(SearchMode::from("anything-else".to_string()), SearchMode::DepthFirst);
}
