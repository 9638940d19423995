use chaincrawl::addr::Address;
use chaincrawl::cache::LabelCache;
use chaincrawl::cache::ProviderOutcome;
use chaincrawl::labelmap::AddrMap;
use chaincrawl::metadock::MetadockError;
use chaincrawl::metadock::MetadockResponseError;
use chaincrawl::metadock::RATE_LIMIT_CODE;

fn addr(n: u128) -> Address {
    Address { hi: 0, lo: n }
}

fn provider(pairs: &[(Address, &str)]) -> AddrMap {
    let mut m = AddrMap::new();
    for (a, l) in pairs {
        m.insert_if_absent(*a, l.to_string());
    }
    m
}

fn label_of(m: &AddrMap, a: &Address) -> Option<String> {
    m.get(a).cloned()
}

#[test]
fn miss_batch_of_twice_the_cap_is_chopped_into_two_full_calls() {
    let cap = 3;
    let cache = LabelCache::with_config(1, cap, 3);
    let batch: Vec<Address> = (1..=6).map(addr).collect();
    let mut session = cache.start_resolve(&batch);
    let mut calls: Vec<Vec<Address>> = Vec::new();
    while let Some(q) = session.next_query() {
        calls.push(q.addresses.clone());
        session.on_response(ProviderOutcome::Labels(Vec::new()));
    }
    // exactly two provider calls, each at the cap, covering the batch once
    assert_eq!(calls.len(), 2);
    assert_eq!(calls[0], (1..=3).map(addr).collect::<Vec<_>>());
    assert_eq!(calls[1], (4..=6).map(addr).collect::<Vec<_>>());
}

#[test]
fn resolving_twice_issues_no_second_provider_call() {
    let a = addr(1);
    let providers = vec![provider(&[(a, "exchange hot wallet")])];
    let mut cache = LabelCache::with_config(1, 20, 3);
    let first = cache.get_labels(&vec![a], &providers);
    assert_eq!(label_of(&first, &a).as_deref(), Some("exchange hot wallet"));
    // the resolution was written back before being returned
    assert_eq!(cache.get(&a).map(|l| l.as_str()), Some("exchange hot wallet"));
    // a second resolution is all hits: the session asks nothing
    let mut session = cache.start_resolve(&vec![a]);
    assert!(session.next_query().is_none());
}

#[test]
fn rate_limited_sub_batch_is_retried_with_growing_backoff() {
    let a = addr(1);
    let cache = LabelCache::with_config(1, 20, 3);
    let mut session = cache.start_resolve(&vec![a]);

    let q1 = session.next_query().unwrap();
    assert_eq!(q1.backoff_secs, 0);
    session.on_response(ProviderOutcome::RateLimited);

    let q2 = session.next_query().unwrap();
    assert_eq!(q2.addresses, q1.addresses);
    assert_eq!(q2.backoff_secs, 2);
    session.on_response(ProviderOutcome::RateLimited);

    let q3 = session.next_query().unwrap();
    assert_eq!(q3.addresses, q1.addresses);
    assert_eq!(q3.backoff_secs, 4);
    session.on_response(ProviderOutcome::Labels(vec![(a, "found late".to_string())]));

    assert!(session.next_query().is_none());
    let mut cache = cache;
    let (result, fresh) = session.finish(&mut cache);
    assert_eq!(label_of(&result, &a).as_deref(), Some("found late"));
    assert_eq!(fresh.len(), 1);
    assert_eq!(fresh[0].0, a);
}

#[test]
fn exhausting_retries_degrades_to_nothing_found() {
    let a = addr(1);
    let cache = LabelCache::with_config(1, 20, 2);
    let mut session = cache.start_resolve(&vec![a]);
    let mut queries = 0;
    while let Some(_q) = session.next_query() {
        queries += 1;
        session.on_response(ProviderOutcome::RateLimited);
    }
    // first try plus two retries, then the sweep gives the sub-batch up
    assert_eq!(queries, 3);
    let mut cache = cache;
    let (result, fresh) = session.finish(&mut cache);
    assert!(label_of(&result, &a).is_none());
    assert!(fresh.is_empty());
}

#[test]
fn first_provider_resolution_wins() {
    let a = addr(1);
    let b = addr(2);
    let providers = vec![
        provider(&[(a, "first")]),
        provider(&[(a, "second"), (b, "only the second knows")]),
    ];
    let mut cache = LabelCache::with_config(2, 20, 3);
    let result = cache.get_labels(&vec![a, b], &providers);
    assert_eq!(label_of(&result, &a).as_deref(), Some("first"));
    assert_eq!(label_of(&result, &b).as_deref(), Some("only the second knows"));
}

#[test]
fn a_failing_provider_does_not_block_the_next() {
    let a = addr(1);
    let cache = LabelCache::with_config(2, 20, 3);
    let second = provider(&[(a, "from the second")]);
    let mut session = cache.start_resolve(&vec![a]);

    let q1 = session.next_query().unwrap();
    assert_eq!(q1.provider, 0);
    session.on_response(ProviderOutcome::Transient);

    let q2 = session.next_query().unwrap();
    assert_eq!(q2.provider, 1);
    let mut pairs = Vec::new();
    for x in &q2.addresses {
        if let Some(l) = second.get(x) {
            pairs.push((*x, l.clone()));
        }
    }
    session.on_response(ProviderOutcome::Labels(pairs));
    assert!(session.next_query().is_none());

    let mut cache = cache;
    let (result, _fresh) = session.finish(&mut cache);
    assert_eq!(label_of(&result, &a).as_deref(), Some("from the second"));
}

#[test]
fn unresolvable_addresses_are_absent_and_asked_again() {
    let a = addr(1);
    let providers = vec![provider(&[])];
    let mut cache = LabelCache::with_config(1, 20, 3);
    let result = cache.get_labels(&vec![a], &providers);
    assert!(label_of(&result, &a).is_none());
    // no negative caching: a later resolution asks the provider again
    let mut session = cache.start_resolve(&vec![a]);
    assert!(session.next_query().is_some());
}

#[test]
fn cache_hits_keep_their_stored_label() {
    let a = addr(1);
    let mut cache = LabelCache::with_config(1, 20, 3);
    assert!(cache.set(a, "seeded".to_string()));
    // a later write never overwrites the first resolution
    assert!(!cache.set(a, "other".to_string()));
    let providers = vec![provider(&[(a, "from the network")])];
    let result = cache.get_labels(&vec![a], &providers);
    assert_eq!(label_of(&result, &a).as_deref(), Some("seeded"));
}

#[test]
fn get_label_resolves_a_single_address() {
    let a = addr(1);
    let providers = vec![provider(&[(a, "contract name")])];
    let mut cache = LabelCache::with_config(1, 20, 3);
    assert_eq!(cache.get_label(a, &providers).as_deref(), Some("contract name"));
    assert_eq!(cache.get_label(addr(2), &providers), None);
}

#[test]
fn duplicate_input_addresses_are_resolved_once() {
    let a = addr(1);
    let cap = 20;
    let cache = LabelCache::with_config(1, cap, 3);
    let mut session = cache.start_resolve(&vec![a, a, a]);
    let q = session.next_query().unwrap();
    assert_eq!(q.addresses, vec![a]);
    session.on_response(ProviderOutcome::Labels(Vec::new()));
    assert!(session.next_query().is_none());
}

#[test]
fn rate_limit_code_classifies_distinctly_from_other_failures() {
    let rate_limited = MetadockError::ResponseError(MetadockResponseError {
        code: RATE_LIMIT_CODE,
        message: "slow down".to_string(),
    });
    assert!(matches!(rate_limited.classify(), ProviderOutcome::RateLimited));

    let refused = MetadockError::ResponseError(MetadockResponseError {
        code: 40310000,
        message: "bad request".to_string(),
    });
    assert!(matches!(refused.classify(), ProviderOutcome::Fatal));

    let network = MetadockError::Unknown("connection reset".to_string());
    assert!(matches!(network.classify(), ProviderOutcome::Transient));
}
