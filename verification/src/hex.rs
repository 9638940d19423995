use vstd::prelude::*;

verus! {

// Lowercase hexadecimal and decimal text, used by the event stream: the
// sink's line format renders addresses and transaction references as fixed
// width hex and depths as decimal, and the stream's consumer parses the same
// text back.

/// The hexadecimal digit character for a value below 16.
pub open spec fn hex_digit_char(d: int) -> char {
    if d == 0 {
        '0'
    } else if d == 1 {
        '1'
    } else if d == 2 {
        '2'
    } else if d == 3 {
        '3'
    } else if d == 4 {
        '4'
    } else if d == 5 {
        '5'
    } else if d == 6 {
        '6'
    } else if d == 7 {
        '7'
    } else if d == 8 {
        '8'
    } else if d == 9 {
        '9'
    } else if d == 10 {
        'a'
    } else if d == 11 {
        'b'
    } else if d == 12 {
        'c'
    } else if d == 13 {
        'd'
    } else if d == 14 {
        'e'
    } else {
        'f'
    }
}

/// The value of a hexadecimal digit character, lowercase or uppercase.
pub open spec fn hex_char_val(c: char) -> Option<u8> {
    match c {
        '0' => Some(0u8),
        '1' => Some(1u8),
        '2' => Some(2u8),
        '3' => Some(3u8),
        '4' => Some(4u8),
        '5' => Some(5u8),
        '6' => Some(6u8),
        '7' => Some(7u8),
        '8' => Some(8u8),
        '9' => Some(9u8),
        'a' => Some(10u8),
        'b' => Some(11u8),
        'c' => Some(12u8),
        'd' => Some(13u8),
        'e' => Some(14u8),
        'f' => Some(15u8),
        'A' => Some(10u8),
        'B' => Some(11u8),
        'C' => Some(12u8),
        'D' => Some(13u8),
        'E' => Some(14u8),
        'F' => Some(15u8),
        _ => None,
    }
}

/// The value of a decimal digit character.
pub open spec fn dec_char_val(c: char) -> Option<u8> {
    match c {
        '0' => Some(0u8),
        '1' => Some(1u8),
        '2' => Some(2u8),
        '3' => Some(3u8),
        '4' => Some(4u8),
        '5' => Some(5u8),
        '6' => Some(6u8),
        '7' => Some(7u8),
        '8' => Some(8u8),
        '9' => Some(9u8),
        _ => None,
    }
}

/// `v` written as exactly `width` lowercase hexadecimal digits, most
/// significant first; digits beyond the width are cut off.
pub open spec fn hex_seq(v: int, width: nat) -> Seq<char>
    decreases width,
{
    if width == 0 {
        Seq::empty()
    } else {
        hex_seq(v / 16, (width - 1) as nat).push(hex_digit_char(v % 16))
    }
}

/// `v` written in decimal, without leading zeros (a single `'0'` for zero).
pub open spec fn dec_seq(v: int) -> Seq<char>
    decreases v,
{
    if v < 10 {
        seq![hex_digit_char(v)]
    } else {
        dec_seq(v / 10).push(hex_digit_char(v % 10))
    }
}

/// 16 raised to `width`, the number of values `width` hexadecimal digits
/// can hold.
pub open spec fn pow16(width: nat) -> nat
    decreases width,
{
    if width == 0 {
        1
    } else {
        16 * pow16((width - 1) as nat)
    }
}

/// The widths the stream uses: 8 digits hold a 32-bit value, 32 digits a
/// 128-bit value.
pub proof fn lemma_pow16_values()
    ensures
        pow16(8) == 0x1_0000_0000,
        pow16(32) == 0x1_0000_0000_0000_0000_0000_0000_0000_0000,
{
    reveal_with_fuel(pow16, 33);
}

/// The value of a sequence of hexadecimal digit characters, most significant
/// first; `None` as soon as one character is no such digit.
pub open spec fn hex_seq_val(s: Seq<char>) -> Option<int>
    decreases s.len(),
{
    if s.len() == 0 {
        Some(0int)
    } else {
        match hex_seq_val(s.drop_last()) {
            Some(prefix) => match hex_char_val(s.last()) {
                Some(d) => Some(16 * prefix + d),
                None => None,
            },
            None => None,
        }
    }
}

/// The value of a sequence of decimal digit characters, most significant
/// first; `None` as soon as one character is no such digit.
pub open spec fn dec_seq_val(s: Seq<char>) -> Option<int>
    decreases s.len(),
{
    if s.len() == 0 {
        Some(0int)
    } else {
        match dec_seq_val(s.drop_last()) {
            Some(prefix) => match dec_char_val(s.last()) {
                Some(d) => Some(10 * prefix + d),
                None => None,
            },
            None => None,
        }
    }
}

/// Fixed-width hexadecimal text reads back as the value it was written
/// from: rendering is the inverse of reading, for values that fit the width.
pub proof fn lemma_hex_round_trip(v: int, width: nat)
    requires
        0 <= v < pow16(width),
    ensures
        hex_seq(v, width).len() == width,
        hex_seq_val(hex_seq(v, width)) == Some(v),
    decreases width,
{
    if width == 0 {
        assert(hex_seq(v, width) =~= Seq::<char>::empty());
    } else {
        lemma_hex_round_trip(v / 16, (width - 1) as nat);
        let s = hex_seq(v, width);
        assert(s.drop_last() =~= hex_seq(v / 16, (width - 1) as nat));
        assert(hex_char_val(hex_digit_char(v % 16)) == Some((v % 16) as u8));
        assert(16 * (v / 16) + (v % 16) as u8 == v) by (nonlinear_arith);
    }
}

/// Decimal text reads back as the value it was written from.
pub proof fn lemma_dec_round_trip(v: int)
    requires
        0 <= v,
    ensures
        dec_seq(v).len() >= 1,
        dec_seq_val(dec_seq(v)) == Some(v),
    decreases v,
{
    if v < 10 {
        let s = dec_seq(v);
        assert(s =~= seq![hex_digit_char(v)]);
        assert(s.drop_last() =~= Seq::<char>::empty());
        assert(dec_seq_val(s.drop_last()) == Some(0int));
        assert(s.last() == hex_digit_char(v));
        assert(dec_char_val(hex_digit_char(v)) == Some(v as u8));
        assert(dec_seq_val(s) == Some(10 * 0 + (v as u8) as int));
    } else {
        lemma_dec_round_trip(v / 10);
        let s = dec_seq(v);
        assert(s.drop_last() =~= dec_seq(v / 10));
        vstd::arithmetic::div_mod::lemma_mod_division_less_than_divisor(v, 10);
        assert(dec_char_val(hex_digit_char(v % 10)) == Some((v % 10) as u8));
        vstd::arithmetic::div_mod::lemma_fundamental_div_mod(v, 10);
    }
}

/// One hexadecimal digit as text.
fn hex_digit_str(d: u8) -> (r: &'static str)
    requires
        d < 16,
    ensures
        r@ =~= seq![hex_digit_char(d as int)],
{
    proof {
        reveal_strlit("0");
        reveal_strlit("1");
        reveal_strlit("2");
        reveal_strlit("3");
        reveal_strlit("4");
        reveal_strlit("5");
        reveal_strlit("6");
        reveal_strlit("7");
        reveal_strlit("8");
        reveal_strlit("9");
        reveal_strlit("a");
        reveal_strlit("b");
        reveal_strlit("c");
        reveal_strlit("d");
        reveal_strlit("e");
        reveal_strlit("f");
    }
    match d {
        0 => "0",
        1 => "1",
        2 => "2",
        3 => "3",
        4 => "4",
        5 => "5",
        6 => "6",
        7 => "7",
        8 => "8",
        9 => "9",
        10 => "a",
        11 => "b",
        12 => "c",
        13 => "d",
        14 => "e",
        _ => "f",
    }
}

/// `v` as exactly `width` lowercase hexadecimal digits, most significant
/// first.
pub fn hex_render_u128(v: u128, width: usize) -> (r: String)
    requires
        v < pow16(width as nat),
    ensures
        r@ == hex_seq(v as int, width as nat),
    decreases width,
{
    if width == 0 {
        String::new()
    } else {
        let prefix = hex_render_u128(v / 16, width - 1);
        let digit = hex_digit_str((v % 16) as u8);
        let r = prefix.concat(digit);
        proof {
            assert(v as int / 16 == (v / 16) as int);
            assert(hex_seq(v as int, width as nat) =~= hex_seq(v as int / 16, (width - 1) as nat)
                + seq![hex_digit_char(v as int % 16)]);
        }
        r
    }
}

/// `v` in decimal, without leading zeros.
pub fn dec_render_usize(v: usize) -> (r: String)
    ensures
        r@ == dec_seq(v as int),
    decreases v,
{
    if v < 10 {
        let r = String::new().concat(hex_digit_str(v as u8));
        proof {
            assert(r@ =~= seq![hex_digit_char(v as int)]);
        }
        r
    } else {
        let prefix = dec_render_usize(v / 10);
        let r = prefix.concat(hex_digit_str((v % 10) as u8));
        proof {
            assert(dec_seq(v as int) =~= dec_seq(v as int / 10) + seq![
                hex_digit_char(v as int % 10),
            ]);
        }
        r
    }
}

/// The value of one hexadecimal digit character, executable.
pub fn hex_char_value(c: char) -> (r: Option<u8>)
    ensures
        r == hex_char_val(c),
{
    match c {
        '0' => Some(0),
        '1' => Some(1),
        '2' => Some(2),
        '3' => Some(3),
        '4' => Some(4),
        '5' => Some(5),
        '6' => Some(6),
        '7' => Some(7),
        '8' => Some(8),
        '9' => Some(9),
        'a' => Some(10),
        'b' => Some(11),
        'c' => Some(12),
        'd' => Some(13),
        'e' => Some(14),
        'f' => Some(15),
        'A' => Some(10),
        'B' => Some(11),
        'C' => Some(12),
        'D' => Some(13),
        'E' => Some(14),
        'F' => Some(15),
        _ => None,
    }
}

/// The value of one decimal digit character, executable.
pub fn dec_char_value(c: char) -> (r: Option<u8>)
    ensures
        r == dec_char_val(c),
{
    match c {
        '0' => Some(0),
        '1' => Some(1),
        '2' => Some(2),
        '3' => Some(3),
        '4' => Some(4),
        '5' => Some(5),
        '6' => Some(6),
        '7' => Some(7),
        '8' => Some(8),
        '9' => Some(9),
        _ => None,
    }
}


/// More digits hold no smaller a range.
pub proof fn lemma_pow16_mono(i: nat, j: nat)
    requires
        i <= j,
    ensures
        pow16(i) <= pow16(j),
    decreases j,
{
    if i < j {
        lemma_pow16_mono(i, (j - 1) as nat);
    }
}

/// A digit sequence's value fits its width.
pub proof fn lemma_hex_seq_val_bound(s: Seq<char>)
    ensures
        match hex_seq_val(s) {
            Some(v) => 0 <= v < pow16(s.len()),
            None => true,
        },
    decreases s.len(),
{
    if s.len() > 0 {
        lemma_hex_seq_val_bound(s.drop_last());
    }
}

/// A sequence with one character that is no hexadecimal digit has no value.
pub proof fn lemma_hex_seq_val_none(s: Seq<char>, i: int)
    requires
        0 <= i < s.len(),
        hex_char_val(s[i]) is None,
    ensures
        hex_seq_val(s) is None,
    decreases s.len(),
{
    if i < s.len() - 1 {
        lemma_hex_seq_val_none(s.drop_last(), i);
    }
}

/// 10 raised to `width`: the number of values `width` decimal digits can
/// hold.
pub open spec fn pow10(width: nat) -> nat
    decreases width,
{
    if width == 0 {
        1
    } else {
        10 * pow10((width - 1) as nat)
    }
}

/// Twenty digits already exceed the machine's word.
pub proof fn lemma_pow10_values()
    ensures
        pow10(20) == 100_000_000_000_000_000_000,
{
    reveal_with_fuel(pow10, 21);
}

/// More digits hold no smaller a range.
pub proof fn lemma_pow10_mono(i: nat, j: nat)
    requires
        i <= j,
    ensures
        pow10(i) <= pow10(j),
    decreases j,
{
    if i < j {
        lemma_pow10_mono(i, (j - 1) as nat);
    }
}

/// A decimal digit sequence's value fits its width, and a sequence that
/// starts with a nonzero digit reaches its width's lower bound.
pub proof fn lemma_dec_seq_val_bounds(s: Seq<char>)
    ensures
        match dec_seq_val(s) {
            Some(v) => 0 <= v < pow10(s.len()) && (s.len() >= 1 && s[0] != '0' ==> v >= pow10(
                (s.len() - 1) as nat,
            )),
            None => true,
        },
    decreases s.len(),
{
    if s.len() > 0 {
        lemma_dec_seq_val_bounds(s.drop_last());
        if s.len() > 1 {
            assert(s.drop_last()[0] == s[0]);
        }
        match dec_seq_val(s) {
            Some(v) => {
                if s.len() == 1 {
                    assert(s.drop_last() =~= Seq::<char>::empty());
                    if s[0] != '0' {
                        assert(dec_char_val(s.last()) matches Some(d) && d >= 1);
                    }
                }
            },
            None => {},
        }
    }
}

/// A sequence with one character that is no decimal digit has no value.
pub proof fn lemma_dec_seq_val_none(s: Seq<char>, i: int)
    requires
        0 <= i < s.len(),
        dec_char_val(s[i]) is None,
    ensures
        dec_seq_val(s) is None,
    decreases s.len(),
{
    if i < s.len() - 1 {
        lemma_dec_seq_val_none(s.drop_last(), i);
    }
}


/// Rendered decimal text never starts with a spare zero.
pub proof fn lemma_dec_seq_canonical(v: int)
    requires
        0 <= v,
    ensures
        dec_seq(v).len() > 1 ==> dec_seq(v)[0] != '0',
    decreases v,
{
    if v >= 10 {
        lemma_dec_seq_canonical(v / 10);
        assert(v / 10 >= 1) by (nonlinear_arith)
            requires
                v >= 10,
        ;
        lemma_dec_round_trip(v / 10);
        assert(dec_seq(v)[0] == dec_seq(v / 10)[0]);
        if v / 10 < 10 {
            assert(dec_seq(v / 10) =~= seq![hex_digit_char(v / 10)]);
            assert(hex_digit_char(v / 10) != '0');
        } else {
            lemma_dec_round_trip(v / 10 / 10);
            assert(dec_seq(v / 10).len() == dec_seq(v / 10 / 10).len() + 1);
            assert(dec_seq(v / 10).len() > 1);
        }
    }
}


/// Rendered hexadecimal text is as wide as asked.
pub proof fn lemma_hex_seq_len(v: int, width: nat)
    ensures
        hex_seq(v, width).len() == width,
    decreases width,
{
    if width > 0 {
        lemma_hex_seq_len(v / 16, (width - 1) as nat);
    }
}

} // verus!
