use vstd::prelude::*;

use crate::addr::Address;
use crate::addr::TxRef;
use crate::edges::SimpleEdges;
use crate::events::Event;
use crate::events::addr_digits;
use crate::events::address_text;
use crate::events::edge_line;
use crate::events::txref_digits;
use crate::events::txref_item;
use crate::events::txs_array_text;
use crate::events::label_text;
use crate::events::label_view;
use crate::events::node_line;
use crate::hex::dec_seq_val;
use crate::hex::hex_char_value;
use crate::hex::hex_seq;
use crate::hex::hex_seq_val;
use crate::hex::dec_seq;
use crate::hex::lemma_dec_seq_val_bounds;
use crate::hex::lemma_dec_seq_val_none;
use crate::hex::lemma_hex_seq_val_bound;
use crate::hex::lemma_hex_seq_val_none;
use crate::hex::lemma_pow10_mono;
use crate::hex::lemma_pow10_values;
use crate::hex::lemma_pow16_mono;
use crate::hex::lemma_dec_round_trip;
use crate::hex::lemma_dec_seq_canonical;
use crate::hex::lemma_hex_round_trip;
use crate::hex::lemma_hex_seq_len;
use crate::hex::lemma_pow16_values;
use crate::hex::pow10;
use crate::hex::pow16;

verus! {

// Reading the event stream back. The visualization step reconstructs a
// graph from the emitted lines; this is its verified reader: one parser per
// record kind, each pinned to a spec-level parse of the same line grammar
// the renderer in `events` writes.

/// The first position at or after `from` holding `c`.
pub open spec fn find_char(s: Seq<char>, from: int, c: char) -> Option<int>
    decreases s.len() - from,
{
    if from < 0 || from >= s.len() {
        None
    } else if s[from] == c {
        Some(from)
    } else {
        find_char(s, from + 1, c)
    }
}

/// Whether `p` stands at position `at` of `s`.
pub open spec fn starts_with_at(s: Seq<char>, at: int, p: Seq<char>) -> bool {
    0 <= at && at + p.len() <= s.len() && s.subrange(at, at + p.len()) == p
}

/// An address written at position `at`: `0x` and 40 hexadecimal digits.
pub open spec fn parse_addr_at(s: Seq<char>, at: int) -> Option<Address> {
    if 0 <= at && at + 42 <= s.len() && s[at] == '0' && s[at + 1] == 'x' {
        match (hex_seq_val(s.subrange(at + 2, at + 10)), hex_seq_val(
            s.subrange(at + 10, at + 42),
        )) {
            (Some(hi), Some(lo)) => Some(Address { hi: hi as u32, lo: lo as u128 }),
            _ => None,
        }
    } else {
        None
    }
}

/// A whole string as an address: `0x`, 40 digits, nothing else.
pub open spec fn spec_parse_address(s: Seq<char>) -> Option<Address> {
    if s.len() == 42 {
        parse_addr_at(s, 0)
    } else {
        None
    }
}

/// A depth written as decimal digits: at least one, no leading zero, and a
/// value the machine's word can hold.
pub open spec fn spec_parse_depth(digits: Seq<char>) -> Option<usize> {
    if digits.len() == 0 {
        None
    } else if digits.len() > 1 && digits[0] == '0' {
        None
    } else {
        match dec_seq_val(digits) {
            Some(d) => if d <= usize::MAX {
                Some(d as usize)
            } else {
                None
            },
            None => None,
        }
    }
}

/// A node record's line, read back: the address, the label — the stable
/// marker reads back as no label — and the depth.
pub open spec fn spec_parse_node_line(s: Seq<char>) -> Option<(Address, Option<Seq<char>>, usize)> {
    let p1 = "Node: id=["@;
    let p2 = "] label=["@;
    let p3 = "] depth=["@;
    if !starts_with_at(s, 0, p1) {
        None
    } else {
        match parse_addr_at(s, p1.len() as int) {
            None => None,
            Some(addr) => {
                let l0 = p1.len() + 42;
                if !starts_with_at(s, l0 as int, p2) {
                    None
                } else {
                    let ls = l0 + p2.len();
                    match find_char(s, ls as int, ']') {
                        None => None,
                        Some(le) => {
                            if !starts_with_at(s, le, p3) {
                                None
                            } else {
                                let ds = le + p3.len();
                                if s.len() < ds + 2 || s[s.len() - 1] != ']' {
                                    None
                                } else {
                                    match spec_parse_depth(s.subrange(ds, s.len() - 1)) {
                                        None => None,
                                        Some(d) => {
                                            let label = s.subrange(ls as int, le);
                                            Some(
                                                (
                                                    addr,
                                                    if label == "UNLABELLED"@ {
                                                        None
                                                    } else {
                                                        Some(label)
                                                    },
                                                    d,
                                                ),
                                            )
                                        },
                                    }
                                }
                            }
                        },
                    }
                }
            },
        }
    }
}

/// Whether `p` stands at position `at` of `s`, as executable code.
#[verifier::loop_isolation(false)]
fn lit_at(s: &str, at: usize, lit: &str) -> (r: bool)
    ensures
        r == starts_with_at(s@, at as int, lit@),
{
    let n = lit.unicode_len();
    let sl = s.unicode_len();
    if at > sl || n > sl - at {
        return false;
    }
    let mut j: usize = 0;
    while j < n
        invariant
            j <= n,
            at + n <= s@.len(),
            n == lit@.len(),
            forall|k: int| 0 <= k < j ==> s@[at + k] == lit@[k],
        decreases n - j,
    {
        if s.get_char(at + j) != lit.get_char(j) {
            proof {
                assert(s@.subrange(at as int, at + n)[j as int] != lit@[j as int]);
            }
            return false;
        }
        j += 1;
    }
    proof {
        assert(s@.subrange(at as int, at + n) =~= lit@);
    }
    true
}

/// The first position at or after `from` holding `c`, as executable code.
#[verifier::loop_isolation(false)]
fn find_from(s: &str, from: usize, c: char) -> (r: Option<usize>)
    ensures
        match (r, find_char(s@, from as int, c)) {
            (Some(i), Some(j)) => i == j && from <= i < s@.len() && s@[i as int] == c,
            (None, None) => true,
            _ => false,
        },
{
    let n = s.unicode_len();
    if from >= n {
        return None;
    }
    let mut i: usize = from;
    while i < n
        invariant
            from <= i <= n,
            n == s@.len(),
            find_char(s@, from as int, c) == find_char(s@, i as int, c),
        decreases n - i,
    {
        if s.get_char(i) == c {
            return Some(i);
        }
        i += 1;
    }
    None
}

/// A fixed-width span of hexadecimal digits, read into a value.
#[verifier::loop_isolation(false)]
fn parse_hex_span(s: &str, at: usize, width: usize) -> (r: Option<u128>)
    requires
        at + width <= s@.len(),
        s@.len() <= usize::MAX,
        width <= 32,
    ensures
        match hex_seq_val(s@.subrange(at as int, at + width)) {
            Some(v) => r == Some(v as u128),
            None => r is None,
        },
{
    let ghost sub = s@.subrange(at as int, at + width);
    let mut v: u128 = 0;
    let mut i: usize = 0;
    while i < width
        invariant
            i <= width,
            hex_seq_val(s@.subrange(at as int, at + i)) == Some(v as int),
            v < pow16(i as nat),
        decreases width - i,
    {
        let c = s.get_char(at + i);
        match hex_char_value(c) {
            Some(d) => {
                proof {
                    lemma_pow16_mono((i + 1) as nat, 32);
                    lemma_pow16_values();
                    assert(pow16((i + 1) as nat) == 16 * pow16(i as nat));
                }
                v = v * 16 + (d as u128);
                proof {
                    assert(s@.subrange(at as int, at + i + 1).drop_last() =~= s@.subrange(
                        at as int,
                        at + i,
                    ));
                    assert(s@.subrange(at as int, at + i + 1).last() == s@[at + i]);
                }
            },
            None => {
                proof {
                    assert(sub[i as int] == s@[at + i]);
                    lemma_hex_seq_val_none(sub, i as int);
                }
                return None;
            },
        }
        i += 1;
    }
    proof {
        assert(s@.subrange(at as int, at + width) =~= sub);
    }
    Some(v)
}

/// An address at position `at`, as executable code.
fn parse_addr_span(s: &str, at: usize) -> (r: Option<Address>)
    ensures
        r == parse_addr_at(s@, at as int),
{
    let n = s.unicode_len();
    if at > n || n - at < 42 {
        return None;
    }
    if s.get_char(at) != '0' || s.get_char(at + 1) != 'x' {
        return None;
    }
    let hi = match parse_hex_span(s, at + 2, 8) {
        Some(v) => v,
        None => {
            return None;
        },
    };
    let lo = match parse_hex_span(s, at + 10, 32) {
        Some(v) => v,
        None => {
            return None;
        },
    };
    proof {
        lemma_hex_seq_val_bound(s@.subrange(at + 2, at + 10));
        lemma_hex_seq_val_bound(s@.subrange(at + 10, at + 42));
        lemma_pow16_values();
    }
    Some(Address { hi: hi as u32, lo })
}

/// A depth span, as executable code.
#[verifier::loop_isolation(false)]
fn parse_dec_span(s: &str, from: usize, to: usize) -> (r: Option<usize>)
    requires
        from <= to <= s@.len(),
        s@.len() <= usize::MAX,
    ensures
        r == spec_parse_depth(s@.subrange(from as int, to as int)),
{
    let ghost digits = s@.subrange(from as int, to as int);
    let n = to - from;
    if n == 0 {
        return None;
    }
    if n > 1 && s.get_char(from) == '0' {
        return None;
    }
    if n > 20 {
        proof {
            lemma_dec_seq_val_bounds(digits);
            lemma_pow10_values();
            match dec_seq_val(digits) {
                Some(d) => {
                    lemma_pow10_mono(20, (n - 1) as nat);
                    assert(d >= pow10((n - 1) as nat));
                    assert(d > usize::MAX);
                },
                None => {},
            }
        }
        return None;
    }
    let mut v: u128 = 0;
    let mut i: usize = 0;
    while i < n
        invariant
            i <= n,
            n <= 20,
            dec_seq_val(s@.subrange(from as int, from + i)) == Some(v as int),
            v < pow10(i as nat),
        decreases n - i,
    {
        let c = s.get_char(from + i);
        let d = match crate::hex::dec_char_value(c) {
            Some(d) => d,
            None => {
                proof {
                    assert(digits[i as int] == s@[from + i]);
                    lemma_dec_seq_val_none(digits, i as int);
                }
                return None;
            },
        };
        proof {
            lemma_pow10_mono((i + 1) as nat, 20);
            lemma_pow10_values();
            assert(pow10((i + 1) as nat) == 10 * pow10(i as nat));
        }
        v = v * 10 + (d as u128);
        proof {
            assert(s@.subrange(from as int, from + i + 1).drop_last() =~= s@.subrange(
                from as int,
                from + i,
            ));
            assert(s@.subrange(from as int, from + i + 1).last() == s@[from + i]);
        }
        i += 1;
    }
    proof {
        assert(s@.subrange(from as int, from + n) =~= digits);
    }
    if v > usize::MAX as u128 {
        None
    } else {
        Some(v as usize)
    }
}

/// A whole string as an address, as executable code: how the root address
/// handed to a crawl is read, rejecting anything malformed.
pub fn parse_address(s: &str) -> (r: Option<Address>)
    ensures
        r == spec_parse_address(s@),
{
    if s.unicode_len() != 42 {
        return None;
    }
    parse_addr_span(s, 0)
}

/// Reads one node record's line back: the address, the label or none, and
/// the depth — exactly the lines the renderer writes are accepted.
pub fn parse_node_line(line: &str) -> (r: Option<Event>)
    ensures
        match (r, spec_parse_node_line(line@)) {
            (Some(ev), Some(t)) => (match ev {
                Event::Node { address, label, depth } => address == t.0 && label_view(label) == t.1
                    && depth == t.2,
                Event::Edge { .. } => false,
            }),
            (None, None) => true,
            _ => false,
        },
{
    let p1: &str = "Node: id=[";
    let p2: &str = "] label=[";
    let p3: &str = "] depth=[";
    proof {
        reveal_strlit("Node: id=[");
        reveal_strlit("] label=[");
        reveal_strlit("] depth=[");
        reveal_strlit("]");
        reveal_strlit("UNLABELLED");
    }
    if !lit_at(line, 0, p1) {
        return None;
    }
    let addr = match parse_addr_span(line, 10) {
        Some(a) => a,
        None => {
            return None;
        },
    };
    let l0: usize = 52;
    if !lit_at(line, l0, p2) {
        return None;
    }
    let ls: usize = 61;
    let le = match find_from(line, ls, ']') {
        Some(e) => e,
        None => {
            return None;
        },
    };
    if !lit_at(line, le, p3) {
        return None;
    }
    let n = line.unicode_len();
    let ds = le + 9;
    if n - ds < 2 || s_last_is_bracket(line) == false {
        return None;
    }
    let depth = match parse_dec_span(line, ds, n - 1) {
        Some(d) => d,
        None => {
            return None;
        },
    };
    let label_str = line.substring_char(ls, le);
    let label_string = String::from_str(label_str);
    let unl = String::from_str("UNLABELLED");
    let label: Option<String> = if label_string == unl {
        None
    } else {
        Some(label_string)
    };
    Some(Event::Node { address: addr, label, depth })
}

/// Whether the string's last character is the closing bracket.
fn s_last_is_bracket(s: &str) -> (r: bool)
    ensures
        r == (s@.len() > 0 && s@[s@.len() - 1] == ']'),
{
    let n = s.unicode_len();
    if n == 0 {
        false
    } else {
        s.get_char(n - 1) == ']'
    }
}


/// Where `find_char` finds `c`: at the first holder of `c` at or after
/// `from`, nowhere when none holds it.
pub proof fn lemma_find_char_bounds(s: Seq<char>, from: int, c: char)
    ensures
        match find_char(s, from, c) {
            Some(i) => from <= i < s.len() && s[i] == c && (forall|k: int|
                from <= k < i ==> s[k] != c),
            None => from >= 0 ==> (forall|k: int| from <= k < s.len() ==> s[k] != c),
        },
    decreases s.len() - from,
{
    if 0 <= from < s.len() && s[from] != c {
        lemma_find_char_bounds(s, from + 1, c);
    }
}

/// A transaction reference written at position `at`, the record's end in
/// sight: a quoted `0x` and 64 hexadecimal digits.
pub open spec fn parse_txref_bounded(s: Seq<char>, at: int, end: int) -> Option<TxRef> {
    if 0 <= at && at + 68 <= end && end <= s.len() && s[at] == '"' && s[at + 1] == '0' && s[at
        + 2] == 'x' && s[at + 67] == '"' {
        match (hex_seq_val(s.subrange(at + 3, at + 35)), hex_seq_val(
            s.subrange(at + 35, at + 67),
        )) {
            (Some(hi), Some(lo)) => Some(TxRef { hi: hi as u128, lo: lo as u128 }),
            _ => None,
        }
    } else {
        None
    }
}

/// The comma-separated reference items between `at` and `end`: possibly
/// none, never a dangling separator.
pub open spec fn parse_tx_items_at(s: Seq<char>, at: int, end: int) -> Option<Seq<TxRef>>
    decreases end - at,
{
    if at >= end {
        if at == end {
            Some(Seq::empty())
        } else {
            None
        }
    } else {
        match parse_txref_bounded(s, at, end) {
            None => None,
            Some(t) => if at + 68 == end {
                Some(seq![t])
            } else if at + 68 < end && s[at + 68] == ',' && at + 69 < end {
                match parse_tx_items_at(s, at + 69, end) {
                    None => None,
                    Some(r) => Some(seq![t] + r),
                }
            } else {
                None
            },
        }
    }
}

/// An edge record's line, read back: the endpoint pair and the references.
pub open spec fn spec_parse_edge_line(s: Seq<char>) -> Option<(Address, Address, Seq<TxRef>)> {
    let p1 = "Edge:{\"from\":\""@;
    let p2 = "\",\"to\":\""@;
    let p3 = "\",\"txs\":["@;
    let p4 = "]}"@;
    if !starts_with_at(s, 0, p1) {
        None
    } else {
        match parse_addr_at(s, p1.len() as int) {
            None => None,
            Some(from) => {
                let t0 = p1.len() + 42;
                if !starts_with_at(s, t0 as int, p2) {
                    None
                } else {
                    match parse_addr_at(s, (t0 + p2.len()) as int) {
                        None => None,
                        Some(to) => {
                            let x0 = t0 + p2.len() + 42;
                            if !starts_with_at(s, x0 as int, p3) {
                                None
                            } else {
                                let is_ = x0 + p3.len();
                                if s.len() < is_ + p4.len() {
                                    None
                                } else if s.subrange(s.len() - 2, s.len() as int) != p4 {
                                    None
                                } else {
                                    match parse_tx_items_at(s, is_ as int, s.len() - 2) {
                                        None => None,
                                        Some(txs) => Some((from, to, txs)),
                                    }
                                }
                            }
                        },
                    }
                }
            },
        }
    }
}

/// A reference item at position `at`, as executable code.
fn parse_txref_span(s: &str, at: usize, end: usize) -> (r: Option<TxRef>)
    requires
        end <= s@.len(),
        s@.len() <= usize::MAX,
    ensures
        r == parse_txref_bounded(s@, at as int, end as int),
{
    if at >= end || end - at < 68 {
        return None;
    }
    if s.get_char(at) != '"' || s.get_char(at + 1) != '0' || s.get_char(at + 2) != 'x'
        || s.get_char(at + 67) != '"' {
        return None;
    }
    let hi = match parse_hex_span(s, at + 3, 32) {
        Some(v) => v,
        None => {
            return None;
        },
    };
    let lo = match parse_hex_span(s, at + 35, 32) {
        Some(v) => v,
        None => {
            return None;
        },
    };
    proof {
        lemma_hex_seq_val_bound(s@.subrange(at + 3, at + 35));
        lemma_hex_seq_val_bound(s@.subrange(at + 35, at + 67));
        lemma_pow16_values();
    }
    Some(TxRef { hi, lo })
}

/// Reads one edge record's line back: the endpoint pair and the underlying
/// transaction references — exactly the lines the renderer writes are
/// accepted.
#[verifier::loop_isolation(false)]
pub fn parse_edge_line(line: &str) -> (r: Option<Event>)
    ensures
        match (r, spec_parse_edge_line(line@)) {
            (Some(ev), Some(t)) => (match ev {
                Event::Edge { edge } => edge.from == t.0 && edge.to == t.1 && edge.txs@ == t.2,
                Event::Node { .. } => false,
            }),
            (None, None) => true,
            _ => false,
        },
{
    let p1: &str = "Edge:{\"from\":\"";
    let p2: &str = "\",\"to\":\"";
    let p3: &str = "\",\"txs\":[";
    let p4: &str = "]}";
    proof {
        reveal_strlit("Edge:{\"from\":\"");
        reveal_strlit("\",\"to\":\"");
        reveal_strlit("\",\"txs\":[");
        reveal_strlit("]}");
    }
    if !lit_at(line, 0, p1) {
        return None;
    }
    let from = match parse_addr_span(line, 14) {
        Some(a) => a,
        None => {
            return None;
        },
    };
    let t0: usize = 56;
    if !lit_at(line, t0, p2) {
        return None;
    }
    let to = match parse_addr_span(line, 64) {
        Some(a) => a,
        None => {
            return None;
        },
    };
    let x0: usize = 106;
    if !lit_at(line, x0, p3) {
        return None;
    }
    let is0: usize = 115;
    let n = line.unicode_len();
    if n < is0 + 2 {
        return None;
    }
    if !lit_at(line, n - 2, p4) {
        return None;
    }
    proof {
        assert(line@.subrange(n - 2, n as int) == "]}"@);
    }
    let ie = n - 2;
    let mut txs: Vec<TxRef> = Vec::new();
    let mut pos: usize = is0;
    while pos < ie
        invariant
            is0 <= pos <= ie,
            match parse_tx_items_at(line@, is0 as int, ie as int) {
                Some(all) => (match parse_tx_items_at(line@, pos as int, ie as int) {
                    Some(rest) => all == txs@ + rest,
                    None => false,
                }),
                None => parse_tx_items_at(line@, pos as int, ie as int) is None,
            },
        decreases ie - pos,
    {
        let t = match parse_txref_span(line, pos, ie) {
            Some(t) => t,
            None => {
                return None;
            },
        };
        if pos + 68 == ie {
            txs.push(t);
            proof {
                assert(parse_tx_items_at(line@, pos as int, ie as int) == Some(seq![t]));
                assert(txs@ =~= txs@.drop_last() + seq![t]);
                match parse_tx_items_at(line@, is0 as int, ie as int) {
                    Some(all) => {
                        assert(all =~= txs@);
                    },
                    None => {},
                }
            }
            pos = ie;
        } else if pos + 68 < ie && line.get_char(pos + 68) == ',' && pos + 69 < ie {
            txs.push(t);
            proof {
                let ghost old_txs = txs@.drop_last();
                match parse_tx_items_at(line@, is0 as int, ie as int) {
                    Some(all) => {
                        match parse_tx_items_at(line@, pos + 69, ie as int) {
                            Some(r2) => {
                                assert(all =~= txs@ + r2) by {
                                    assert(all == old_txs + (seq![t] + r2));
                                }
                            },
                            None => {},
                        }
                    },
                    None => {},
                }
            }
            pos = pos + 69;
        } else {
            proof {
                assert(parse_tx_items_at(line@, pos as int, ie as int) is None);
            }
            return None;
        }
    }
    proof {
        assert(parse_tx_items_at(line@, pos as int, ie as int) == Some(Seq::<TxRef>::empty()));
        match parse_tx_items_at(line@, is0 as int, ie as int) {
            Some(all) => {
                assert(all =~= txs@);
            },
            None => {},
        }
    }
    Some(Event::Edge { edge: SimpleEdges { from, to, txs } })
}

/// The lines of the stream text from position `pos` on: newline separated,
/// a trailing newline closing the last line.
pub open spec fn lines_from(s: Seq<char>, pos: int) -> Seq<Seq<char>>
    decreases s.len() - pos,
{
    if pos < 0 || pos >= s.len() {
        Seq::empty()
    } else {
        match find_char(s, pos, '\n') {
            None => seq![s.subrange(pos, s.len() as int)],
            Some(i) => {
                proof {
                    lemma_find_char_bounds(s, pos, '\n');
                }
                seq![s.subrange(pos, i)] + lines_from(s, i + 1)
            },
        }
    }
}

/// The lines of the stream text.
pub open spec fn lines_of(s: Seq<char>) -> Seq<Seq<char>> {
    lines_from(s, 0)
}

/// The node records the readable lines hold, in order; an unreadable line
/// is passed over.
pub open spec fn parsed_node_records(ls: Seq<Seq<char>>) -> Seq<
    (Address, Option<Seq<char>>, usize),
>
    decreases ls.len(),
{
    if ls.len() == 0 {
        Seq::empty()
    } else {
        let p = parsed_node_records(ls.drop_last());
        match spec_parse_node_line(ls.last()) {
            Some(t) => p.push(t),
            None => p,
        }
    }
}

/// The edge records the readable lines hold, in order; an unreadable line
/// is passed over.
pub open spec fn parsed_edge_records(ls: Seq<Seq<char>>) -> Seq<(Address, Address, Seq<TxRef>)>
    decreases ls.len(),
{
    if ls.len() == 0 {
        Seq::empty()
    } else {
        let p = parsed_edge_records(ls.drop_last());
        match spec_parse_edge_line(ls.last()) {
            Some(t) => p.push(t),
            None => p,
        }
    }
}


/// Reads a whole node stream back: one node event per readable line, in
/// order; an unreadable line is passed over.
#[verifier::loop_isolation(false)]
pub fn process_node_file(nodes_file: &str) -> (r: Vec<Event>)
    ensures
        ({
            let recs = parsed_node_records(lines_of(nodes_file@));
            &&& r@.len() == recs.len()
            &&& forall|i: int|
                0 <= i < recs.len() ==> (match #[trigger] r@[i] {
                    Event::Node { address, label, depth } => address == recs[i].0 && label_view(
                        label,
                    ) == recs[i].1 && depth == recs[i].2,
                    Event::Edge { .. } => false,
                })
        }),
{
    let n = nodes_file.unicode_len();
    let mut out: Vec<Event> = Vec::new();
    let mut pos: usize = 0;
    let ghost mut done: Seq<Seq<char>> = Seq::empty();
    proof {
        assert(lines_of(nodes_file@) =~= done + lines_from(nodes_file@, 0));
    }
    while pos < n
        invariant
            pos <= n,
            lines_of(nodes_file@) == done + lines_from(nodes_file@, pos as int),
            out@.len() == parsed_node_records(done).len(),
            forall|i: int|
                0 <= i < out@.len() ==> (match #[trigger] out@[i] {
                    Event::Node { address, label, depth } => address == parsed_node_records(
                        done,
                    )[i].0 && label_view(label) == parsed_node_records(done)[i].1 && depth
                        == parsed_node_records(done)[i].2,
                    Event::Edge { .. } => false,
                }),
        decreases n - pos,
    {
        let found = find_from(nodes_file, pos, '\n');
        let le = match found {
            Some(e) => e,
            None => n,
        };
        let line_str = nodes_file.substring_char(pos, le);
        let ghost line = nodes_file@.subrange(pos as int, le as int);
        let next_pos = if le < n {
            le + 1
        } else {
            n
        };
        proof {
            match found {
                Some(e) => {
                    assert(lines_from(nodes_file@, pos as int) == seq![line] + lines_from(
                        nodes_file@,
                        le + 1,
                    ));
                },
                None => {
                    assert(lines_from(nodes_file@, pos as int) == seq![line]);
                    assert(lines_from(nodes_file@, n as int) =~= Seq::<Seq<char>>::empty());
                },
            }
        }
        let parsed = parse_node_line(line_str);
        let ghost old_done = done;
        let ghost old_out = out@;
        match parsed {
            Some(ev) => {
                out.push(ev);
            },
            None => {},
        }
        proof {
            done = done.push(line);
            assert(done.drop_last() =~= old_done);
            assert(lines_of(nodes_file@) =~= done + lines_from(nodes_file@, next_pos as int));
        }
        pos = next_pos;
    }
    proof {
        assert(lines_from(nodes_file@, pos as int) =~= Seq::<Seq<char>>::empty());
        assert(lines_of(nodes_file@) =~= done);
    }
    out
}

/// Reads a whole edge stream back: one edge event per readable line, in
/// order; an unreadable line is passed over.
#[verifier::loop_isolation(false)]
pub fn process_edge_file(edge_file: &str) -> (r: Vec<Event>)
    ensures
        ({
            let recs = parsed_edge_records(lines_of(edge_file@));
            &&& r@.len() == recs.len()
            &&& forall|i: int|
                0 <= i < recs.len() ==> (match #[trigger] r@[i] {
                    Event::Edge { edge } => edge.from == recs[i].0 && edge.to == recs[i].1
                        && edge.txs@ == recs[i].2,
                    Event::Node { .. } => false,
                })
        }),
{
    let n = edge_file.unicode_len();
    let mut out: Vec<Event> = Vec::new();
    let mut pos: usize = 0;
    let ghost mut done: Seq<Seq<char>> = Seq::empty();
    proof {
        assert(lines_of(edge_file@) =~= done + lines_from(edge_file@, 0));
    }
    while pos < n
        invariant
            pos <= n,
            lines_of(edge_file@) == done + lines_from(edge_file@, pos as int),
            out@.len() == parsed_edge_records(done).len(),
            forall|i: int|
                0 <= i < out@.len() ==> (match #[trigger] out@[i] {
                    Event::Edge { edge } => edge.from == parsed_edge_records(done)[i].0 && edge.to
                        == parsed_edge_records(done)[i].1 && edge.txs@ == parsed_edge_records(
                        done,
                    )[i].2,
                    Event::Node { .. } => false,
                }),
        decreases n - pos,
    {
        let found = find_from(edge_file, pos, '\n');
        let le = match found {
            Some(e) => e,
            None => n,
        };
        let line_str = edge_file.substring_char(pos, le);
        let ghost line = edge_file@.subrange(pos as int, le as int);
        let next_pos = if le < n {
            le + 1
        } else {
            n
        };
        proof {
            match found {
                Some(e) => {
                    assert(lines_from(edge_file@, pos as int) == seq![line] + lines_from(
                        edge_file@,
                        le + 1,
                    ));
                },
                None => {
                    assert(lines_from(edge_file@, pos as int) == seq![line]);
                    assert(lines_from(edge_file@, n as int) =~= Seq::<Seq<char>>::empty());
                },
            }
        }
        let parsed = parse_edge_line(line_str);
        let ghost old_done = done;
        match parsed {
            Some(ev) => {
                out.push(ev);
            },
            None => {},
        }
        proof {
            done = done.push(line);
            assert(done.drop_last() =~= old_done);
            assert(lines_of(edge_file@) =~= done + lines_from(edge_file@, next_pos as int));
        }
        pos = next_pos;
    }
    proof {
        assert(lines_from(edge_file@, pos as int) =~= Seq::<Seq<char>>::empty());
        assert(lines_of(edge_file@) =~= done);
    }
    out
}


/// Where the renderer put the first closing bracket, the reader finds it.
proof fn lemma_find_char_lands(s: Seq<char>, from: int, k: int, c: char)
    requires
        0 <= from <= k < s.len(),
        s[k] == c,
        forall|j: int| from <= j < k ==> s[j] != c,
    ensures
        find_char(s, from, c) == Some(k),
    decreases k - from,
{
    if from < k {
        lemma_find_char_lands(s, from + 1, k, c);
    }
}

/// The stream is coherent: a node line the renderer writes, the reader
/// reads back to exactly the parts it was written from — for any label
/// that holds no closing bracket and is not the unlabelled marker itself,
/// since the line format cannot tell those apart from their encodings.
pub proof fn lemma_node_line_round_trip(a: Address, label: Option<Seq<char>>, depth: usize)
    requires
        match label {
            Some(l) => !l.contains(']') && l != "UNLABELLED"@,
            None => true,
        },
    ensures
        spec_parse_node_line(node_line(a, label, depth as int)) == Some((a, label, depth)),
{
    reveal_strlit("Node: id=[");
    reveal_strlit("] label=[");
    reveal_strlit("] depth=[");
    reveal_strlit("UNLABELLED");
    reveal_strlit("0x");
    reveal_strlit("]");
    let p1 = "Node: id=["@;
    let p2 = "] label=["@;
    let p3 = "] depth=["@;
    let at = address_text(a);
    let lt = label_text(label);
    let dd = dec_seq(depth as int);
    let s = node_line(a, label, depth as int);
    lemma_pow16_values();
    lemma_hex_round_trip(a.hi as int, 8);
    lemma_hex_round_trip(a.lo as int, 32);
    lemma_dec_round_trip(depth as int);
    lemma_dec_seq_canonical(depth as int);
    let ll = lt.len() as int;
    let dl = dd.len() as int;
    assert(at.len() == 42);
    assert(s.len() == 71 + ll + dl);
    assert(s.subrange(0, 10) =~= p1);
    assert(starts_with_at(s, 0, p1));
    assert(s[10] == '0' && s[11] == 'x') by {
        assert(s[10] == at[0]);
        assert(s[11] == at[1]);
        assert(at[0] == "0x"@[0]);
        assert(at[1] == "0x"@[1]);
    }
    assert(s.subrange(12, 20) =~= hex_seq(a.hi as int, 8));
    assert(s.subrange(20, 52) =~= hex_seq(a.lo as int, 32));
    assert(parse_addr_at(s, 10) == Some(a)) by {
        assert(hex_seq_val(s.subrange(12, 20)) == Some(a.hi as int));
        assert(hex_seq_val(s.subrange(20, 52)) == Some(a.lo as int));
    }
    assert(s.subrange(52, 61) =~= p2);
    assert(starts_with_at(s, 52, p2));
    assert forall|j: int| 61 <= j < 61 + ll implies s[j] != ']' by {
        assert(s[j] == lt[j - 61]);
        match label {
            Some(l) => {
                if l[j - 61] == ']' {
                    assert(l.contains(']'));
                }
            },
            None => {
                assert(lt == "UNLABELLED"@);
            },
        }
    }
    assert(s[61 + ll] == ']') by {
        assert(s[61 + ll] == p3[0]);
    }
    lemma_find_char_lands(s, 61, 61 + ll, ']');
    assert(s.subrange(61 + ll, 70 + ll) =~= p3);
    assert(starts_with_at(s, 61 + ll, p3));
    assert(s.subrange(70 + ll, 70 + ll + dl) =~= dd);
    assert(s[s.len() - 1] == ']') by {
        assert(s[s.len() - 1] == "]"@[0]);
    }
    assert(spec_parse_depth(s.subrange(70 + ll, s.len() - 1)) == Some(depth)) by {
        assert(s.subrange(70 + ll, s.len() - 1) =~= dd);
    }
    assert(s.subrange(61, 61 + ll) =~= lt);
    match label {
        Some(l) => {
            assert(lt == l);
        },
        None => {
            assert(lt == "UNLABELLED"@);
        },
    }
}


/// An address the renderer wrote at a position reads back as itself.
proof fn lemma_addr_at_round_trip(s: Seq<char>, at: int, a: Address)
    requires
        0 <= at,
        at + 42 <= s.len(),
        s.subrange(at, at + 42) == address_text(a),
    ensures
        parse_addr_at(s, at) == Some(a),
{
    reveal_strlit("0x");
    lemma_pow16_values();
    lemma_hex_round_trip(a.hi as int, 8);
    lemma_hex_round_trip(a.lo as int, 32);
    let at_text = address_text(a);
    assert(s[at] == '0' && s[at + 1] == 'x') by {
        assert(s[at] == at_text[0]);
        assert(s[at + 1] == at_text[1]);
        assert(at_text[0] == "0x"@[0]);
        assert(at_text[1] == "0x"@[1]);
    }
    assert forall|k: int|
        0 <= k < 8 implies s.subrange(at + 2, at + 10)[k] == hex_seq(a.hi as int, 8)[k] by {
        assert(s.subrange(at, at + 42)[2 + k] == at_text[2 + k]);
        assert(s.subrange(at, at + 42)[2 + k] == s[at + 2 + k]);
        assert(at_text[2 + k] == addr_digits(a)[k]);
    }
    assert(s.subrange(at + 2, at + 10) =~= hex_seq(a.hi as int, 8));
    assert forall|k: int|
        0 <= k < 32 implies s.subrange(at + 10, at + 42)[k] == hex_seq(a.lo as int, 32)[k] by {
        assert(s.subrange(at, at + 42)[10 + k] == at_text[10 + k]);
        assert(s.subrange(at, at + 42)[10 + k] == s[at + 10 + k]);
        assert(at_text[10 + k] == addr_digits(a)[8 + k]);
    }
    assert(s.subrange(at + 10, at + 42) =~= hex_seq(a.lo as int, 32));
    assert(hex_seq_val(s.subrange(at + 2, at + 10)) == Some(a.hi as int));
    assert(hex_seq_val(s.subrange(at + 10, at + 42)) == Some(a.lo as int));
}

/// A reference item the renderer wrote at a position reads back as itself.
proof fn lemma_txref_at_round_trip(s: Seq<char>, at: int, end: int, t: TxRef)
    requires
        0 <= at,
        at + 68 <= end <= s.len(),
        s.subrange(at, at + 68) == txref_item(t),
    ensures
        parse_txref_bounded(s, at, end) == Some(t),
{
    reveal_strlit("\"0x");
    reveal_strlit("\"");
    lemma_pow16_values();
    lemma_hex_round_trip(t.hi as int, 32);
    lemma_hex_round_trip(t.lo as int, 32);
    let item = txref_item(t);
    let digits = txref_digits(t);
    assert(digits.len() == 64);
    assert(item.len() == 68);
    assert(forall|k: int| 0 <= k < 68 ==> s[at + k] == item[k]);
    assert(item[0] == '\"' && item[1] == '0' && item[2] == 'x' && item[67] == '\"') by {
        assert(item[0] == "\"0x"@[0]);
        assert(item[1] == "\"0x"@[1]);
        assert(item[2] == "\"0x"@[2]);
        assert(item[67] == "\""@[0]);
    }
    assert forall|k: int|
        0 <= k < 32 implies s.subrange(at + 3, at + 35)[k] == hex_seq(t.hi as int, 32)[k] by {
        assert(s.subrange(at, at + 68)[3 + k] == item[3 + k]);
        assert(s.subrange(at, at + 68)[3 + k] == s[at + 3 + k]);
        assert(item[3 + k] == digits[k]);
    }
    assert(s.subrange(at + 3, at + 35) =~= hex_seq(t.hi as int, 32));
    assert forall|k: int|
        0 <= k < 32 implies s.subrange(at + 35, at + 67)[k] == hex_seq(t.lo as int, 32)[k] by {
        assert(s.subrange(at, at + 68)[35 + k] == item[35 + k]);
        assert(s.subrange(at, at + 68)[35 + k] == s[at + 35 + k]);
        assert(item[35 + k] == digits[32 + k]);
    }
    assert(s.subrange(at + 35, at + 67) =~= hex_seq(t.lo as int, 32));
    assert(hex_seq_val(s.subrange(at + 3, at + 35)) == Some(t.hi as int));
    assert(hex_seq_val(s.subrange(at + 35, at + 67)) == Some(t.lo as int));
}

/// How long a rendered reference array is.
proof fn lemma_txs_array_len(ts: Seq<TxRef>)
    ensures
        ts.len() == 0 ==> txs_array_text(ts).len() == 0,
        ts.len() >= 1 ==> txs_array_text(ts).len() == 69 * ts.len() - 1,
    decreases ts.len(),
{
    reveal_strlit("\"0x");
    reveal_strlit("\"");
    reveal_strlit(",");
    if ts.len() >= 1 {
        lemma_hex_seq_len(ts.last().hi as int, 32);
        lemma_hex_seq_len(ts.last().lo as int, 32);
    }
    if ts.len() > 1 {
        lemma_txs_array_len(ts.drop_last());
    }
}

/// The reference array also decomposes from the front.
proof fn lemma_txs_array_front(ts: Seq<TxRef>)
    requires
        ts.len() >= 2,
    ensures
        txs_array_text(ts) == txref_item(ts[0]) + ","@ + txs_array_text(ts.drop_first()),
    decreases ts.len(),
{
    if ts.len() == 2 {
        assert(ts.drop_last() =~= seq![ts[0]]);
        assert(ts.drop_first() =~= seq![ts[1]]);
        assert(txs_array_text(seq![ts[0]]) == txref_item(ts[0]));
        assert(txs_array_text(seq![ts[1]]) == txref_item(ts[1]));
        assert(txs_array_text(ts) =~= txref_item(ts[0]) + ","@ + txs_array_text(
            ts.drop_first(),
        ));
    } else {
        lemma_txs_array_front(ts.drop_last());
        let df = ts.drop_first();
        assert(ts.drop_last().drop_first() =~= df.drop_last());
        assert(ts.drop_last()[0] == ts[0]);
        assert(df.last() == ts.last());
        assert(df.len() >= 2);
        assert(txs_array_text(ts) =~= txref_item(ts[0]) + ","@ + txs_array_text(df));
    }
}

/// A rendered reference array reads back as the references it was written
/// from.
proof fn lemma_tx_items_round_trip(s: Seq<char>, at: int, end: int, ts: Seq<TxRef>)
    requires
        0 <= at <= end <= s.len(),
        s.subrange(at, end) == txs_array_text(ts),
        end - at == txs_array_text(ts).len(),
    ensures
        parse_tx_items_at(s, at, end) == Some(ts),
    decreases ts.len(),
{
    reveal_strlit(",");
    lemma_txs_array_len(ts);
    if ts.len() == 0 {
        assert(ts =~= Seq::<TxRef>::empty());
    } else if ts.len() == 1 {
        assert(txs_array_text(ts) == txref_item(ts[0]));
        assert(s.subrange(at, at + 68) =~= txref_item(ts[0]));
        lemma_txref_at_round_trip(s, at, end, ts[0]);
        assert(ts =~= seq![ts[0]]);
    } else {
        lemma_txs_array_front(ts);
        let text = txs_array_text(ts);
        let df = ts.drop_first();
        lemma_txs_array_len(df);
        assert(forall|k: int| 0 <= k < end - at ==> s[at + k] == text[k]);
        assert(s.subrange(at, at + 68) =~= txref_item(ts[0]));
        lemma_txref_at_round_trip(s, at, end, ts[0]);
        assert(s[at + 68] == ',') by {
            assert(text[68] == (txref_item(ts[0]) + ","@ + txs_array_text(df))[68]);
            assert(txref_item(ts[0]).len() == 68) by {
                lemma_txs_array_len(seq![ts[0]]);
                assert(txs_array_text(seq![ts[0]]) == txref_item(ts[0]));
            }
        }
        assert(txref_item(ts[0]).len() == 68) by {
            lemma_txs_array_len(seq![ts[0]]);
            assert(txs_array_text(seq![ts[0]]) == txref_item(ts[0]));
        }
        assert forall|k: int|
            0 <= k < txs_array_text(df).len() implies s.subrange(at + 69, end)[k]
            == txs_array_text(df)[k] by {
            assert(s.subrange(at, end)[69 + k] == text[69 + k]);
            assert(s.subrange(at, end)[69 + k] == s[at + 69 + k]);
            assert(text[69 + k] == txs_array_text(df)[k]);
        }
        assert(s.subrange(at + 69, end) =~= txs_array_text(df));
        lemma_tx_items_round_trip(s, at + 69, end, df);
        assert(ts =~= seq![ts[0]] + df);
    }
}

/// The stream is coherent for edge records too: an edge line the renderer
/// writes, the reader reads back to exactly the endpoint pair and the
/// references it was written from.
pub proof fn lemma_edge_line_round_trip(from: Address, to: Address, ts: Seq<TxRef>)
    ensures
        spec_parse_edge_line(edge_line(from, to, ts)) == Some((from, to, ts)),
{
    reveal_strlit("Edge:{\"from\":\"");
    reveal_strlit("\",\"to\":\"");
    reveal_strlit("\",\"txs\":[");
    reveal_strlit("]}");
    reveal_strlit("0x");
    let p1 = "Edge:{\"from\":\""@;
    let p2 = "\",\"to\":\""@;
    let p3 = "\",\"txs\":["@;
    let p4 = "]}"@;
    let ft = address_text(from);
    let tt = address_text(to);
    let xt = txs_array_text(ts);
    let s = edge_line(from, to, ts);
    lemma_pow16_values();
    lemma_hex_round_trip(from.hi as int, 8);
    lemma_hex_round_trip(from.lo as int, 32);
    lemma_hex_round_trip(to.hi as int, 8);
    lemma_hex_round_trip(to.lo as int, 32);
    lemma_txs_array_len(ts);
    let il = xt.len() as int;
    assert(ft.len() == 42 && tt.len() == 42);
    assert(s.len() == 117 + il);
    assert(s.subrange(0, 14) =~= p1);
    assert(starts_with_at(s, 0, p1));
    assert(s.subrange(14, 56) =~= ft);
    lemma_addr_at_round_trip(s, 14, from);
    assert(s.subrange(56, 64) =~= p2);
    assert(starts_with_at(s, 56, p2));
    assert(s.subrange(64, 106) =~= tt);
    lemma_addr_at_round_trip(s, 64, to);
    assert(s.subrange(106, 115) =~= p3);
    assert(starts_with_at(s, 106, p3));
    assert(s.subrange(s.len() - 2, s.len() as int) =~= p4);
    assert(s.subrange(115, 115 + il) =~= xt);
    lemma_tx_items_round_trip(s, 115, 115 + il, ts);
}

} // verus!
