use chaincrawl::addr::Address;
use chaincrawl::addr::TxRef;
use chaincrawl::edges::SimpleEdges;
use chaincrawl::events::Event;
use chaincrawl::events::render_address;
use chaincrawl::events::render_event;
use chaincrawl::parse::parse_address;
use chaincrawl::parse::parse_edge_line;
use chaincrawl::parse::parse_node_line;
use chaincrawl::parse::process_edge_file;
use chaincrawl::parse::process_node_file;
use chaincrawl::etherscan::metadata_to_label;

fn addr(n: u128) -> Address {
    Address { hi: 0, lo: n }
}

#[test]
fn addresses_render_as_forty_lowercase_hex_digits() {
    assert_eq!(
        render_address(&Address { hi: 0, lo: 0 }),
        "0x0000000000000000000000000000000000000000"
    );
    assert_eq!(
        render_address(&Address { hi: 0xdeadbeef, lo: 0x0123456789abcdef0123456789abcdef }),
        "0xdeadbeef0123456789abcdef0123456789abcdef"
    );
}

#[test]
fn node_lines_render_exactly() {
    let unlabelled = Event::Node { address: addr(1), label: None, depth: 1 };
    assert_eq!(
        render_event(&unlabelled),
        "Node: id=[0x0000000000000000000000000000000000000001] label=[UNLABELLED] depth=[1]"
    );
    let labelled = Event::Node { address: addr(255), label: Some("exchange".to_string()), depth: 12 };
    assert_eq!(
        render_event(&labelled),
        "Node: id=[0x00000000000000000000000000000000000000ff] label=[exchange] depth=[12]"
    );
}

#[test]
fn edge_lines_render_exactly() {
    let e = Event::Edge {
        edge: SimpleEdges {
            from: addr(1),
            to: addr(2),
            txs: vec![TxRef { hi: 0, lo: 16 }, TxRef { hi: 0, lo: 17 }],
        },
    };
    let expected = "Edge:{\"from\":\"0x0000000000000000000000000000000000000001\",\"to\":\"0x0000000000000000000000000000000000000002\",\"txs\":[\"0x0000000000000000000000000000000000000000000000000000000000000010\",\"0x0000000000000000000000000000000000000000000000000000000000000011\"]}";
    assert_eq!(render_event(&e), expected);
    let empty = Event::Edge { edge: SimpleEdges { from: addr(1), to: addr(2), txs: Vec::new() } };
    let expected_empty = "Edge:{\"from\":\"0x0000000000000000000000000000000000000001\",\"to\":\"0x0000000000000000000000000000000000000002\",\"txs\":[]}";
    assert_eq!(render_event(&empty), expected_empty);
}

#[test]
fn node_lines_parse_back() {
    let original = Event::Node { address: addr(7), label: Some("hot wallet".to_string()), depth: 3 };
    let line = render_event(&original);
    match parse_node_line(&line) {
        Some(Event::Node { address, label, depth }) => {
            assert_eq!(address, addr(7));
            assert_eq!(label.as_deref(), Some("hot wallet"));
            assert_eq!(depth, 3);
        }
        _ => panic!("a rendered node line must parse back"),
    }
    let unlabelled = Event::Node { address: addr(8), label: None, depth: 1 };
    match parse_node_line(&render_event(&unlabelled)) {
        Some(Event::Node { address, label, depth }) => {
            assert_eq!(address, addr(8));
            assert_eq!(label, None);
            assert_eq!(depth, 1);
        }
        _ => panic!("a rendered unlabelled node line must parse back"),
    }
}

#[test]
fn malformed_node_lines_are_rejected() {
    assert!(parse_node_line("").is_none());
    assert!(parse_node_line("Node: id=[zzz] label=[x] depth=[1]").is_none());
    assert!(parse_node_line("Node: id=[0x0000000000000000000000000000000000000001] label=[x] depth=[]").is_none());
    assert!(parse_node_line("Node: id=[0x0000000000000000000000000000000000000001] label=[x] depth=[01]").is_none());
    assert!(parse_node_line("Node: id=[0x0000000000000000000000000000000000000001] label=[x] depth=[1] trailing").is_none());
    assert!(parse_node_line("Edge:{\"from\":\"0x00\"}").is_none());
}

#[test]
fn edge_lines_parse_back() {
    let original = Event::Edge {
        edge: SimpleEdges {
            from: addr(10),
            to: addr(20),
            txs: vec![TxRef { hi: 1, lo: 2 }],
        },
    };
    let line = render_event(&original);
    match parse_edge_line(&line) {
        Some(Event::Edge { edge }) => {
            assert_eq!(edge.from, addr(10));
            assert_eq!(edge.to, addr(20));
            assert_eq!(edge.txs, vec![TxRef { hi: 1, lo: 2 }]);
        }
        _ => panic!("a rendered edge line must parse back"),
    }
    let empty = Event::Edge { edge: SimpleEdges { from: addr(1), to: addr(2), txs: Vec::new() } };
    match parse_edge_line(&render_event(&empty)) {
        Some(Event::Edge { edge }) => assert!(edge.txs.is_empty()),
        _ => panic!("an empty reference array must parse back"),
    }
}

#[test]
fn malformed_edge_lines_are_rejected() {
    assert!(parse_edge_line("").is_none());
    assert!(parse_edge_line("Edge:{\"from\":\"0x1\",\"to\":\"0x2\",\"txs\":[]}").is_none());
    // a dangling separator is refused
    let dangling = "Edge:{\"from\":\"0x0000000000000000000000000000000000000001\",\"to\":\"0x0000000000000000000000000000000000000002\",\"txs\":[\"0x0000000000000000000000000000000000000000000000000000000000000010\",]}";
    assert!(parse_edge_line(dangling).is_none());
}

#[test]
fn root_addresses_parse_strictly() {
    let a = parse_address("0xdeadbeef0123456789abcdef0123456789abcdef");
    assert_eq!(a, Some(Address { hi: 0xdeadbeef, lo: 0x0123456789abcdef0123456789abcdef }));
    // uppercase digits are accepted
    let b = parse_address("0xDEADBEEF0123456789ABCDEF0123456789ABCDEF");
    assert_eq!(b, Some(Address { hi: 0xdeadbeef, lo: 0x0123456789abcdef0123456789abcdef }));
    assert_eq!(parse_address("0xdeadbeef"), None);
    assert_eq!(parse_address("deadbeef0123456789abcdef0123456789abcdef00"), None);
    assert_eq!(parse_address("0xzzadbeef0123456789abcdef0123456789abcdef"), None);
}

#[test]
fn node_files_keep_readable_lines_in_order() {
    let n1 = render_event(&Event::Node { address: addr(1), label: None, depth: 1 });
    let n2 = render_event(&Event::Node { address: addr(2), label: Some("exchange".to_string()), depth: 2 });
    let file = format!("{}\nnot a node line\n{}\n", n1, n2);
    let events = process_node_file(&file);
    assert_eq!(events.len(), 2);
    match &events[0] {
        Event::Node { address, .. } => assert_eq!(*address, addr(1)),
        _ => panic!("node file must yield node events"),
    }
    match &events[1] {
        Event::Node { address, label, depth } => {
            assert_eq!(*address, addr(2));
            assert_eq!(label.as_deref(), Some("exchange"));
            assert_eq!(*depth, 2);
        }
        _ => panic!("node file must yield node events"),
    }
}

#[test]
fn edge_files_keep_readable_lines_in_order() {
    let e1 = render_event(&Event::Edge {
        edge: SimpleEdges { from: addr(1), to: addr(2), txs: vec![TxRef { hi: 0, lo: 3 }] },
    });
    let e2 = render_event(&Event::Edge {
        edge: SimpleEdges { from: addr(2), to: addr(4), txs: Vec::new() },
    });
    let file = format!("{}\n\n{}", e1, e2);
    let events = process_edge_file(&file);
    assert_eq!(events.len(), 2);
    match &events[0] {
        Event::Edge { edge } => {
            assert_eq!(edge.from, addr(1));
            assert_eq!(edge.to, addr(2));
            assert_eq!(edge.txs.len(), 1);
        }
        _ => panic!("edge file must yield edge events"),
    }
    match &events[1] {
        Event::Edge { edge } => {
            assert_eq!(edge.from, addr(2));
            assert_eq!(edge.to, addr(4));
            assert!(edge.txs.is_empty());
        }
        _ => panic!("edge file must yield edge events"),
    }
}

#[test]
fn contract_metadata_names_concatenate_into_one_label() {
    assert_eq!(metadata_to_label(&vec!["Uni".to_string(), "swap".to_string()]), "Uniswap");
    assert_eq!(metadata_to_label(&Vec::new()), "");
}
