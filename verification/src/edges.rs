use vstd::prelude::*;

use crate::addr::Address;
use crate::addr::TxRef;

verus! {

// Transfer relationships between addresses. A raw transaction record names
// its endpoints only optionally; the crawler reads effective endpoints out
// of it, aggregates the records that share an endpoint pair into one edge,
// and classifies each edge relative to the node being expanded.

/// One raw transaction record, as handed over by the transaction-graph
/// provider: the reference and the endpoints, each of which the provider may
/// leave unset.
#[derive(Clone, Copy, Debug)]
pub struct Tx {
    /// The transaction reference, unset for genesis records.
    pub hash: Option<TxRef>,
    /// The sending address.
    pub from: Option<Address>,
    /// The receiving address.
    pub to: Option<Address>,
    /// The created contract's address, a fallback receiver for contract
    /// creations.
    pub contract_address: Option<Address>,
}

/// An aggregated transfer relationship: an ordered endpoint pair and every
/// transaction record that produced it.
#[derive(Clone, Debug)]
pub struct Edges {
    pub from: Address,
    pub to: Address,
    pub txs: Vec<Tx>,
}

/// An edge classified relative to the node being expanded: forward when that
/// node sent value outward, backward when it received.
#[derive(Clone, Debug)]
pub enum DirectedEdges {
    Forward(Edges),
    Backward(Edges),
}

/// An edge reduced to what the event stream carries: the endpoint pair and
/// the transaction references.
#[derive(Clone, Debug)]
pub struct SimpleEdges {
    pub from: Address,
    pub to: Address,
    pub txs: Vec<TxRef>,
}

/// The effective sender of a record: the zero address where unset.
pub open spec fn tx_from(t: Tx) -> Address {
    match t.from {
        Some(a) => a,
        None => Address::zero_spec(),
    }
}

/// The effective receiver of a record: the receiver, else the created
/// contract, else the zero address.
pub open spec fn tx_to(t: Tx) -> Address {
    match t.to {
        Some(a) => a,
        None => match t.contract_address {
            Some(a) => a,
            None => Address::zero_spec(),
        },
    }
}

/// The endpoint pair a record is aggregated under.
pub open spec fn tx_key(t: Tx) -> (Address, Address) {
    (tx_from(t), tx_to(t))
}

/// The reference carried into the event stream for a record: the zero
/// reference where unset.
pub open spec fn tx_ref_of(t: Tx) -> TxRef {
    match t.hash {
        Some(r) => r,
        None => TxRef::zero_spec(),
    }
}

/// The distinct endpoint pairs of `txs`, in order of first occurrence.
pub open spec fn keys_of(txs: Seq<Tx>) -> Seq<(Address, Address)>
    decreases txs.len(),
{
    if txs.len() == 0 {
        Seq::empty()
    } else {
        let prev = keys_of(txs.drop_last());
        if prev.contains(tx_key(txs.last())) {
            prev
        } else {
            prev.push(tx_key(txs.last()))
        }
    }
}

/// The records of `txs` whose endpoint pair is `k`, in order.
pub open spec fn txs_with_key(txs: Seq<Tx>, k: (Address, Address)) -> Seq<Tx>
    decreases txs.len(),
{
    if txs.len() == 0 {
        Seq::empty()
    } else {
        let prev = txs_with_key(txs.drop_last(), k);
        if tx_key(txs.last()) == k {
            prev.push(txs.last())
        } else {
            prev
        }
    }
}

/// What one classified edge must hold for the endpoint pair `k` of the
/// records `txs`, expanded from `cur`: the direction matches whether `cur`
/// is the sender, and the edge aggregates exactly the records with that
/// pair.
pub open spec fn edge_matches(de: DirectedEdges, k: (Address, Address), txs: Seq<Tx>, cur: Address) -> bool {
    match de {
        DirectedEdges::Forward(e) => k.0 == cur && e.from == k.0 && e.to == k.1 && e.txs@
            == txs_with_key(txs, k),
        DirectedEdges::Backward(e) => k.0 != cur && e.from == k.0 && e.to == k.1 && e.txs@
            == txs_with_key(txs, k),
    }
}

/// The effective sender, as executable code.
fn tx_from_exec(t: &Tx) -> (r: Address)
    ensures
        r == tx_from(*t),
{
    match t.from {
        Some(a) => a,
        None => Address::zero(),
    }
}

/// The effective receiver, as executable code.
fn tx_to_exec(t: &Tx) -> (r: Address)
    ensures
        r == tx_to(*t),
{
    match t.to {
        Some(a) => a,
        None => match t.contract_address {
            Some(a) => a,
            None => Address::zero(),
        },
    }
}

/// Whether `keys` already holds the pair `(kf, kt)`.
fn keys_contain(keys: &Vec<(Address, Address)>, kf: Address, kt: Address) -> (r: bool)
    ensures
        r == keys@.contains((kf, kt)),
{
    let mut j: usize = 0;
    while j < keys.len()
        invariant
            j <= keys@.len(),
            forall|i: int| 0 <= i < j ==> keys@[i] != (kf, kt),
        decreases keys@.len() - j,
    {
        if keys[j].0 == kf && keys[j].1 == kt {
            assert(keys@[j as int] == (kf, kt));
            return true;
        }
        j += 1;
    }
    false
}

/// The transfer edges touching `address`, aggregated from its raw
/// transaction records: one edge per distinct effective endpoint pair, in
/// order of first occurrence, each aggregating exactly the records with that
/// pair, classified forward when `address` is the sender and backward
/// otherwise.
pub fn get_counter_parties(address: &Address, transactions: &Vec<Tx>) -> (r: Vec<DirectedEdges>)
    ensures
        r@.len() == keys_of(transactions@).len(),
        forall|j: int|
            0 <= j < r@.len() ==> edge_matches(
                r@[j],
                keys_of(transactions@)[j],
                transactions@,
                *address,
            ),
{
    let ghost all = transactions@;
    let mut keys: Vec<(Address, Address)> = Vec::new();
    let mut i: usize = 0;
    while i < transactions.len()
        invariant
            i <= all.len(),
            all == transactions@,
            keys@ == keys_of(all.take(i as int)),
        decreases all.len() - i,
    {
        let kf = tx_from_exec(&transactions[i]);
        let kt = tx_to_exec(&transactions[i]);
        proof {
            assert(all.take(i + 1).drop_last() =~= all.take(i as int));
            assert(all.take(i + 1).last() == all[i as int]);
        }
        if !keys_contain(&keys, kf, kt) {
            keys.push((kf, kt));
        }
        i += 1;
    }
    proof {
        assert(all.take(all.len() as int) =~= all);
    }

    let mut r: Vec<DirectedEdges> = Vec::new();
    let mut j: usize = 0;
    while j < keys.len()
        invariant
            j <= keys@.len(),
            all == transactions@,
            keys@ == keys_of(all),
            r@.len() == j,
            forall|m: int| 0 <= m < j ==> edge_matches(r@[m], keys_of(all)[m], all, *address),
        decreases keys@.len() - j,
    {
        let kf = keys[j].0;
        let kt = keys[j].1;
        let mut group: Vec<Tx> = Vec::new();
        let mut i: usize = 0;
        while i < transactions.len()
            invariant
                i <= all.len(),
                all == transactions@,
                group@ == txs_with_key(all.take(i as int), (kf, kt)),
            decreases all.len() - i,
        {
            let tf = tx_from_exec(&transactions[i]);
            let tt = tx_to_exec(&transactions[i]);
            proof {
                assert(all.take(i + 1).drop_last() =~= all.take(i as int));
                assert(all.take(i + 1).last() == all[i as int]);
            }
            if tf == kf && tt == kt {
                group.push(transactions[i]);
            }
            i += 1;
        }
        proof {
            assert(all.take(all.len() as int) =~= all);
        }
        let edge = Edges { from: kf, to: kt, txs: group };
        if kf == *address {
            r.push(DirectedEdges::Forward(edge));
        } else {
            r.push(DirectedEdges::Backward(edge));
        }
        j += 1;
    }
    r
}

/// The references of a record sequence, one per record and in order.
pub open spec fn tx_refs_of(txs: Seq<Tx>) -> Seq<TxRef> {
    txs.map_values(|t: Tx| tx_ref_of(t))
}

impl SimpleEdges {
    /// The edge reduced to its endpoint pair and transaction references.
    pub fn from_edges(e: &Edges) -> (r: SimpleEdges)
        ensures
            r.from == e.from,
            r.to == e.to,
            r.txs@ == tx_refs_of(e.txs@),
    {
        let mut txs: Vec<TxRef> = Vec::new();
        let mut i: usize = 0;
        while i < e.txs.len()
            invariant
                i <= e.txs@.len(),
                txs@ == tx_refs_of(e.txs@.take(i as int)),
            decreases e.txs@.len() - i,
        {
            let tr = match e.txs[i].hash {
                Some(h) => h,
                None => TxRef::zero(),
            };
            txs.push(tr);
            proof {
                assert(txs@ =~= tx_refs_of(e.txs@.take(i + 1)));
            }
            i += 1;
        }
        proof {
            assert(e.txs@.take(e.txs@.len() as int) =~= e.txs@);
        }
        SimpleEdges { from: e.from, to: e.to, txs }
    }
}

} // verus!
