//! Numerals and lists as text.

use vstd::prelude::*;
use vstd::string::*;

verus! {

/// The character of a digit in base sixteen.
pub open spec fn digit_char(d: int) -> char {
    if d == 0 {
        '0'
    } else if d == 1 {
        '1'
    } else if d == 2 {
        '2'
    } else if d == 3 {
        '3'
    } else if d == 4 {
        '4'
    } else if d == 5 {
        '5'
    } else if d == 6 {
        '6'
    } else if d == 7 {
        '7'
    } else if d == 8 {
        '8'
    } else if d == 9 {
        '9'
    } else if d == 10 {
        'a'
    } else if d == 11 {
        'b'
    } else if d == 12 {
        'c'
    } else if d == 13 {
        'd'
    } else if d == 14 {
        'e'
    } else {
        'f'
    }
}

/// The numeral of a number in base ten, most significant digit first.
pub open spec fn decimal(n: nat) -> Seq<char>
    decreases n,
{
    if n < 10 {
        seq![digit_char(n as int)]
    } else {
        decimal(n / 10).push(digit_char((n % 10) as int))
    }
}

/// A byte as two digits in base sixteen behind a prefix.
pub open spec fn hex_byte(b: u8) -> Seq<char> {
    "0x"@.push(digit_char((b / 16) as int)).push(digit_char((b % 16) as int))
}

/// A Boolean as the word for it.
pub open spec fn bool_text(b: bool) -> Seq<char> {
    if b {
        "true"@
    } else {
        "false"@
    }
}

/// Texts in order, with a separator between neighbours.
pub open spec fn joined(parts: Seq<Seq<char>>, separator: Seq<char>) -> Seq<char>
    decreases parts.len(),
{
    if parts.len() == 0 {
        Seq::empty()
    } else if parts.len() == 1 {
        parts[0]
    } else {
        joined(parts.drop_last(), separator) + separator + parts.last()
    }
}

/// The numerals of a list of numbers, separated by commas.
pub open spec fn usize_list(values: Seq<usize>) -> Seq<char> {
    joined(values.map_values(|v: usize| decimal(v as nat)), ", "@)
}

/// Bytes in base ten, separated by commas and in brackets.
pub open spec fn byte_array(bytes: Seq<u8>) -> Seq<char> {
    "["@ + joined(bytes.map_values(|b: u8| decimal(b as nat)), ", "@) + "]"@
}

/// Bytes in base sixteen, separated by commas and in brackets.
pub open spec fn hex_array(bytes: Seq<u8>) -> Seq<char> {
    "["@ + joined(bytes.map_values(|b: u8| hex_byte(b)), ", "@) + "]"@
}

/// The value of a digit.
pub open spec fn digit_value(c: char) -> int {
    if c == '1' {
        1
    } else if c == '2' {
        2
    } else if c == '3' {
        3
    } else if c == '4' {
        4
    } else if c == '5' {
        5
    } else if c == '6' {
        6
    } else if c == '7' {
        7
    } else if c == '8' {
        8
    } else if c == '9' {
        9
    } else {
        0
    }
}

/// The number that a numeral in base ten stands for.
pub open spec fn decimal_value(s: Seq<char>) -> int
    decreases s.len(),
{
    if s.len() == 0 {
        0
    } else {
        10 * decimal_value(s.drop_last()) + digit_value(s.last())
    }
}

/// A numeral stands for the number that it was written for.
pub proof fn law_decimal_reads_back(n: nat)
    ensures
        decimal_value(decimal(n)) == n,
    decreases n,
{
    if n < 10 {
        let s = seq![digit_char(n as int)];
        assert(s.drop_last() =~= Seq::<char>::empty());
        assert(decimal_value(s.drop_last()) == 0);
    } else {
        law_decimal_reads_back(n / 10);
        let s = decimal(n);
        assert(s.drop_last() =~= decimal(n / 10));
    }
}

/// Distinct numbers have distinct numerals.
pub proof fn law_decimal_is_injective(a: nat, b: nat)
    requires
        decimal(a) == decimal(b),
    ensures
        a == b,
{
    law_decimal_reads_back(a);
    law_decimal_reads_back(b);
}

/// Appends a digit.
fn push_digit(out: &mut String, d: u8)
    requires
        d < 16,
    ensures
        final(out)@ == old(out)@.push(digit_char(d as int)),
{
    let ghost before = out@;
    proof {
        reveal_strlit("0");
        reveal_strlit("1");
        reveal_strlit("2");
        reveal_strlit("3");
        reveal_strlit("4");
        reveal_strlit("5");
        reveal_strlit("6");
        reveal_strlit("7");
        reveal_strlit("8");
        reveal_strlit("9");
        reveal_strlit("a");
        reveal_strlit("b");
        reveal_strlit("c");
        reveal_strlit("d");
        reveal_strlit("e");
        reveal_strlit("f");
    }
    let digit: &str = match d {
        0 => "0",
        1 => "1",
        2 => "2",
        3 => "3",
        4 => "4",
        5 => "5",
        6 => "6",
        7 => "7",
        8 => "8",
        9 => "9",
        10 => "a",
        11 => "b",
        12 => "c",
        13 => "d",
        14 => "e",
        _ => "f",
    };
    out.append(digit);
    proof {
        assert(digit@ =~= seq![digit_char(d as int)]);
        assert(out@ =~= before.push(digit_char(d as int)));
    }
}

/// Appends a numeral in base ten.
pub fn push_decimal(out: &mut String, n: u128)
    ensures
        final(out)@ == old(out)@ + decimal(n as nat),
    decreases n,
{
    let ghost before = out@;
    if n >= 10 {
        push_decimal(out, n / 10);
        push_digit(out, (n % 10) as u8);
    } else {
        push_digit(out, n as u8);
    }
    proof {
        assert(out@ =~= before + decimal(n as nat));
    }
}

/// Appends an owned text.
pub fn push_text(out: &mut String, part: String)
    ensures
        final(out)@ == old(out)@ + part@,
{
    out.append(part.as_str());
}

/// The word for a Boolean.
pub fn bool_word(b: bool) -> (r: &'static str)
    ensures
        r@ == bool_text(b),
{
    if b {
        "true"
    } else {
        "false"
    }
}

/// Appends a byte in base sixteen.
fn push_hex_byte(out: &mut String, b: u8)
    ensures
        final(out)@ == old(out)@ + hex_byte(b),
{
    let ghost before = out@;
    out.append("0x");
    push_digit(out, b / 16);
    push_digit(out, b % 16);
    proof {
        assert(out@ =~= before + hex_byte(b));
    }
}

/// One more part at the end of a list.
proof fn lemma_joined_push(parts: Seq<Seq<char>>, separator: Seq<char>, part: Seq<char>)
    ensures
        parts.len() == 0 ==> joined(parts.push(part), separator) == part,
        parts.len() > 0 ==> joined(parts.push(part), separator) == joined(parts, separator)
            + separator + part,
{
    assert(parts.push(part).drop_last() =~= parts);
}

/// The numerals of a list of numbers, separated by commas.
pub fn format_dimensions(values: &Vec<usize>) -> (r: String)
    ensures
        r@ == usize_list(values@),
{
    let mut out = String::new();
    let ghost parts = values@.map_values(|v: usize| decimal(v as nat));
    let mut k: usize = 0;
    while k < values.len()
        invariant
            k <= values@.len(),
            parts == values@.map_values(|v: usize| decimal(v as nat)),
            out@ == joined(parts.take(k as int), ", "@),
        decreases values@.len() - k,
    {
        if k > 0 {
            out.append(", ");
        }
        push_decimal(&mut out, values[k] as u128);
        proof {
            lemma_joined_push(parts.take(k as int), ", "@, parts[k as int]);
            assert(parts.take(k + 1) =~= parts.take(k as int).push(parts[k as int]));
            if k == 0 {
                assert(out@ =~= parts[0]);
            }
        }
        k += 1;
    }
    proof {
        assert(parts.take(k as int) =~= parts);
    }
    out
}

/// Bytes in base ten, separated by commas and in brackets.
pub fn decimal_bytes(bytes: &Vec<u8>) -> (r: String)
    ensures
        r@ == byte_array(bytes@),
{
    let mut out = String::from_str("[");
    let ghost parts = bytes@.map_values(|b: u8| decimal(b as nat));
    let mut k: usize = 0;
    while k < bytes.len()
        invariant
            k <= bytes@.len(),
            parts == bytes@.map_values(|b: u8| decimal(b as nat)),
            out@ == "["@ + joined(parts.take(k as int), ", "@),
        decreases bytes@.len() - k,
    {
        if k > 0 {
            out.append(", ");
        }
        push_decimal(&mut out, bytes[k] as u128);
        proof {
            lemma_joined_push(parts.take(k as int), ", "@, parts[k as int]);
            assert(parts.take(k + 1) =~= parts.take(k as int).push(parts[k as int]));
            assert(out@ =~= "["@ + joined(parts.take(k + 1), ", "@));
        }
        k += 1;
    }
    proof {
        assert(parts.take(k as int) =~= parts);
    }
    out.append("]");
    out
}

/// Bytes in base sixteen, separated by commas and in brackets.
pub fn format_bytes(bytes: &Vec<u8>) -> (r: String)
    ensures
        r@ == hex_array(bytes@),
{
    let mut out = String::from_str("[");
    let ghost parts = bytes@.map_values(|b: u8| hex_byte(b));
    let mut k: usize = 0;
    while k < bytes.len()
        invariant
            k <= bytes@.len(),
            parts == bytes@.map_values(|b: u8| hex_byte(b)),
            out@ == "["@ + joined(parts.take(k as int), ", "@),
        decreases bytes@.len() - k,
    {
        if k > 0 {
            out.append(", ");
        }
        push_hex_byte(&mut out, bytes[k]);
        proof {
            lemma_joined_push(parts.take(k as int), ", "@, parts[k as int]);
            assert(parts.take(k + 1) =~= parts.take(k as int).push(parts[k as int]));
            assert(out@ =~= "["@ + joined(parts.take(k + 1), ", "@));
        }
        k += 1;
    }
    proof {
        assert(parts.take(k as int) =~= parts);
    }
    out.append("]");
    out
}

} // verus!
