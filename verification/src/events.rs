use vstd::prelude::*;

use crate::addr::Address;
use crate::addr::TxRef;
use crate::edges::SimpleEdges;
use crate::hex::dec_render_usize;
use crate::hex::dec_seq;
use crate::hex::hex_render_u128;
use crate::hex::hex_seq;
use crate::hex::lemma_pow16_values;
use crate::hex::pow16;

verus! {

// The event stream. The crawl emits one record per line: a node record
// carries an address, its label or the marker for "no label", and the depth
// at which it was discovered; an edge record carries an endpoint pair and
// the underlying transaction references. The exact text of both lines is
// part of the crawler's contract: the downstream visualization step parses
// this stream, so the renderer is pinned to a spec-level line and the parser
// in `lines` reads the same text back.

/// One observation the crawl emits.
#[derive(Clone, Debug)]
pub enum Event {
    /// A newly discovered node: its address, its label if the cache
    /// resolved one, and its depth below the root.
    Node { address: Address, label: Option<String>, depth: usize },
    /// An observed transfer relationship.
    Edge { edge: SimpleEdges },
}

/// An address as 40 lowercase hexadecimal digits.
pub open spec fn addr_digits(a: Address) -> Seq<char> {
    hex_seq(a.hi as int, 8) + hex_seq(a.lo as int, 32)
}

/// An address as written in the stream.
pub open spec fn address_text(a: Address) -> Seq<char> {
    "0x"@ + addr_digits(a)
}

/// A transaction reference as 64 lowercase hexadecimal digits.
pub open spec fn txref_digits(t: TxRef) -> Seq<char> {
    hex_seq(t.hi as int, 32) + hex_seq(t.lo as int, 32)
}

/// A transaction reference as one quoted item of the edge record's array.
pub open spec fn txref_item(t: TxRef) -> Seq<char> {
    "\"0x"@ + txref_digits(t) + "\""@
}

/// The comma-separated items of the edge record's reference array.
pub open spec fn txs_array_text(ts: Seq<TxRef>) -> Seq<char>
    decreases ts.len(),
{
    if ts.len() == 0 {
        Seq::empty()
    } else if ts.len() == 1 {
        txref_item(ts[0])
    } else {
        txs_array_text(ts.drop_last()) + ","@ + txref_item(ts.last())
    }
}

/// The label part of a node record: the label itself, or the stable marker
/// for an unlabelled node.
pub open spec fn label_text(label: Option<Seq<char>>) -> Seq<char> {
    match label {
        Some(l) => l,
        None => "UNLABELLED"@,
    }
}

/// A node record's line.
pub open spec fn node_line(a: Address, label: Option<Seq<char>>, depth: int) -> Seq<char> {
    "Node: id=["@ + address_text(a) + "] label=["@ + label_text(label) + "] depth=["@ + dec_seq(
        depth,
    ) + "]"@
}

/// An edge record's line.
pub open spec fn edge_line(from: Address, to: Address, ts: Seq<TxRef>) -> Seq<char> {
    "Edge:{\"from\":\""@ + address_text(from) + "\",\"to\":\""@ + address_text(to)
        + "\",\"txs\":["@ + txs_array_text(ts) + "]}"@
}

/// The view of an event's optional label.
pub open spec fn label_view(label: Option<String>) -> Option<Seq<char>> {
    match label {
        Some(l) => Some(l@),
        None => None,
    }
}

/// The line an event is written as.
pub open spec fn event_line(e: Event) -> Seq<char> {
    match e {
        Event::Node { address, label, depth } => node_line(address, label_view(label), depth as int),
        Event::Edge { edge } => edge_line(edge.from, edge.to, edge.txs@),
    }
}

/// An address rendered for the stream.
pub fn render_address(a: &Address) -> (r: String)
    ensures
        r@ == address_text(*a),
{
    proof {
        lemma_pow16_values();
    }
    let hi = hex_render_u128(a.hi as u128, 8);
    let lo = hex_render_u128(a.lo, 32);
    let r = String::from_str("0x").concat(hi.as_str()).concat(lo.as_str());
    proof {
        assert(a.hi as u128 as int == a.hi as int);
        assert(r@ =~= address_text(*a));
    }
    r
}

/// A transaction reference rendered as one array item.
fn render_txref_item(t: &TxRef) -> (r: String)
    ensures
        r@ == txref_item(*t),
{
    proof {
        lemma_pow16_values();
    }
    let hi = hex_render_u128(t.hi, 32);
    let lo = hex_render_u128(t.lo, 32);
    let r = String::from_str("\"0x").concat(hi.as_str()).concat(lo.as_str()).concat("\"");
    proof {
        assert(r@ =~= txref_item(*t));
    }
    r
}

/// The reference array's items, comma separated.
fn render_txs_array(ts: &Vec<TxRef>) -> (r: String)
    ensures
        r@ == txs_array_text(ts@),
{
    let mut r = String::new();
    let mut i: usize = 0;
    while i < ts.len()
        invariant
            i <= ts@.len(),
            r@ == txs_array_text(ts@.take(i as int)),
        decreases ts@.len() - i,
    {
        let item = render_txref_item(&ts[i]);
        if i == 0 {
            r = r.concat(item.as_str());
        } else {
            r = r.concat(",").concat(item.as_str());
        }
        proof {
            assert(ts@.take(i + 1).drop_last() =~= ts@.take(i as int));
            assert(ts@.take(i + 1).last() == ts@[i as int]);
            if i == 0 {
                assert(ts@.take(1)[0] == ts@[0]);
                assert(r@ =~= txs_array_text(ts@.take(1)));
            } else {
                assert(r@ =~= txs_array_text(ts@.take(i + 1)));
            }
        }
        i += 1;
    }
    proof {
        assert(ts@.take(ts@.len() as int) =~= ts@);
    }
    r
}

/// The exact line an event is written to the stream as, newline excluded.
pub fn render_event(e: &Event) -> (r: String)
    ensures
        r@ == event_line(*e),
{
    match e {
        Event::Node { address, label, depth } => {
            let addr = render_address(address);
            let mut r = String::from_str("Node: id=[").concat(addr.as_str()).concat("] label=[");
            match label {
                Some(l) => {
                    r = r.concat(l.as_str());
                },
                None => {
                    r = r.concat("UNLABELLED");
                },
            }
            let d = dec_render_usize(*depth);
            let r = r.concat("] depth=[").concat(d.as_str()).concat("]");
            proof {
                assert(r@ =~= event_line(*e));
            }
            r
        },
        Event::Edge { edge } => {
            let from = render_address(&edge.from);
            let to = render_address(&edge.to);
            let txs = render_txs_array(&edge.txs);
            let r = String::from_str("Edge:{\"from\":\"").concat(from.as_str()).concat(
                "\",\"to\":\"",
            ).concat(to.as_str()).concat("\",\"txs\":[").concat(txs.as_str()).concat("]}");
            proof {
                assert(r@ =~= event_line(*e));
            }
            r
        },
    }
}

} // verus!
