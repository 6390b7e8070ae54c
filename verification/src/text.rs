//! Numbers as text, in the notations that the editor shows them in.

use vstd::prelude::*;
use vstd::string::*;

verus! {

/// The character for a digit below sixteen, in lower case.
pub open spec fn digit_char(d: int) -> char {
    if d == 0 {
        '0'
    } else if d == 1 {
        '1'
    } else if d == 2 {
        '2'
    } else if d == 3 {
        '3'
    } else if d == 4 {
        '4'
    } else if d == 5 {
        '5'
    } else if d == 6 {
        '6'
    } else if d == 7 {
        '7'
    } else if d == 8 {
        '8'
    } else if d == 9 {
        '9'
    } else if d == 10 {
        'a'
    } else if d == 11 {
        'b'
    } else if d == 12 {
        'c'
    } else if d == 13 {
        'd'
    } else if d == 14 {
        'e'
    } else {
        'f'
    }
}

/// The digits of `n` in the notation with the base `base`, the most
/// significant first, without leading zeros.
pub open spec fn digits(n: int, base: int) -> Seq<char>
    decreases n,
{
    if n < base || base < 2 {
        seq![digit_char(n)]
    } else {
        proof {
            lemma_quotient_smaller(n, base);
        }
        digits(n / base, base).push(digit_char(n % base))
    }
}

/// Dividing by a base of at least two gives less.
pub proof fn lemma_quotient_smaller(n: int, base: int)
    requires
        n >= base,
        base >= 2,
    ensures
        0 <= n / base < n,
        0 <= n % base < base,
{
    assert(0 <= n / base < n && 0 <= n % base < base) by (nonlinear_arith)
        requires
            n >= base,
            base >= 2,
    ;
}

/// A digit below sixteen as text.
fn digit_str(d: usize) -> (r: &'static str)
    requires
        d < 16,
    ensures
        r@ == seq![digit_char(d as int)],
{
    proof {
        reveal_strlit("0");
        reveal_strlit("1");
        reveal_strlit("2");
        reveal_strlit("3");
        reveal_strlit("4");
        reveal_strlit("5");
        reveal_strlit("6");
        reveal_strlit("7");
        reveal_strlit("8");
        reveal_strlit("9");
        reveal_strlit("a");
        reveal_strlit("b");
        reveal_strlit("c");
        reveal_strlit("d");
        reveal_strlit("e");
        reveal_strlit("f");
    }
    let r = if d == 0 {
        "0"
    } else if d == 1 {
        "1"
    } else if d == 2 {
        "2"
    } else if d == 3 {
        "3"
    } else if d == 4 {
        "4"
    } else if d == 5 {
        "5"
    } else if d == 6 {
        "6"
    } else if d == 7 {
        "7"
    } else if d == 8 {
        "8"
    } else if d == 9 {
        "9"
    } else if d == 10 {
        "a"
    } else if d == 11 {
        "b"
    } else if d == 12 {
        "c"
    } else if d == 13 {
        "d"
    } else if d == 14 {
        "e"
    } else {
        "f"
    };
    assert(r@ =~= seq![digit_char(d as int)]);
    r
}

/// A digit below sixteen as text.
pub fn digit_str_of(d: usize) -> (r: &'static str)
    requires
        d < 16,
    ensures
        r@ == seq![digit_char(d as int)],
{
    digit_str(d)
}

/// The text of `n` in the notation with the base `base`.
pub fn number_text(n: usize, base: usize) -> (r: String)
    requires
        2 <= base <= 16,
    ensures
        r@ == digits(n as int, base as int),
    decreases n,
{
    if n < base {
        String::from_str(digit_str(n))
    } else {
        proof {
            lemma_quotient_smaller(n as int, base as int);
        }
        let mut text = number_text(n / base, base);
        text.append(digit_str(n % base));
        assert(text@ =~= digits(n as int, base as int));
        text
    }
}

/// The text of `n` in decimal.
pub fn decimal(n: usize) -> (r: String)
    ensures
        r@ == digits(n as int, 10),
{
    number_text(n, 10)
}

/// The text of `n` in hexadecimal, in lower case.
pub fn hexadecimal(n: usize) -> (r: String)
    ensures
        r@ == digits(n as int, 16),
{
    number_text(n, 16)
}

/// The two hexadecimal digits of a byte.
pub open spec fn hex_pair(byte: u8) -> Seq<char> {
    seq![digit_char(byte as int / 16), digit_char(byte as int % 16)]
}

/// The two hexadecimal digits of a byte, as text.
pub fn hex_byte(byte: u8) -> (r: String)
    ensures
        r@ == hex_pair(byte),
{
    let value = byte as usize;
    let mut text = String::from_str(digit_str(value / 16));
    text.append(digit_str(value % 16));
    assert(text@ =~= hex_pair(byte));
    text
}


/// The value of a hexadecimal digit, in either case; none for any other
/// character.
pub open spec fn hex_value(ch: char) -> Option<u8> {
    let code = ch as u32;
    if 48 <= code <= 57 {
        Some((code - 48) as u8)
    } else if 65 <= code <= 70 {
        Some((code - 55) as u8)
    } else if 97 <= code <= 102 {
        Some((code - 87) as u8)
    } else {
        None
    }
}

/// The value of a hexadecimal digit.
pub fn hex_digit(ch: char) -> (r: Option<u8>)
    ensures
        r == hex_value(ch),
        r matches Some(d) ==> d < 16,
{
    let code: u32 = ch as u32;
    if 48 <= code && code <= 57 {
        Some((code - 48) as u8)
    } else if 65 <= code && code <= 70 {
        Some((code - 55) as u8)
    } else if 97 <= code && code <= 102 {
        Some((code - 87) as u8)
    } else {
        None
    }
}

/// The lowest eight bits of the code of a character.
pub open spec fn low_byte_of(ch: char) -> u8 {
    ((ch as u32) % 256) as u8
}

pub fn low_byte(ch: char) -> (r: u8)
    ensures
        r == low_byte_of(ch),
{
    let code: u32 = ch as u32;
    (code % 256) as u8
}

/// `char::encode_utf8`: the bytes of a character in UTF-8.
#[verifier::external_body]
pub(crate) fn utf8_bytes(ch: char) -> (r: Vec<u8>)
    ensures
        r@ == vstd::utf8::encode_utf8(seq![ch]),
{
    let mut buffer = [0u8; 4];
    ch.encode_utf8(&mut buffer).as_bytes().to_vec()
}

/// `char::from_u32`: the character with the code `code`, if there is one:
/// the codes up to `0x10FFFF` but for `0xD800` to `0xDFFF` are characters.
#[verifier::external_body]
pub(crate) fn char_of(code: u32) -> (r: Option<char>)
    ensures
        r is Some == (code <= 0x10FFFF && !(0xD800 <= code <= 0xDFFF)),
        r is Some ==> r.unwrap() as u32 == code,
{
    char::from_u32(code)
}

/// `String::from_iter`, on characters: the string of these characters.
#[verifier::external_body]
pub(crate) fn string_of(chars: &Vec<char>) -> (r: String)
    ensures
        r@ == chars@,
{
    chars.iter().collect()
}

} // verus!
