//! The byte under the main caret, shown in several notations.

use crate::text::{decimal, digit_char, digits, hex_byte, hex_pair, number_text};
use vstd::prelude::*;
use vstd::string::*;

verus! {

/// Shows the first of the bytes it holds, or a zero byte if it holds none.
#[derive(Debug, PartialEq, Eq, Clone, Copy)]
pub struct BytePropertiesFormatter<'a> {
    data: &'a [u8],
}

/// The eight binary digits of a byte, the highest first.
pub open spec fn bits(byte: u8) -> Seq<char> {
    seq![
        digit_char(byte as int / 128 % 2),
        digit_char(byte as int / 64 % 2),
        digit_char(byte as int / 32 % 2),
        digit_char(byte as int / 16 % 2),
        digit_char(byte as int / 8 % 2),
        digit_char(byte as int / 4 % 2),
        digit_char(byte as int / 2 % 2),
        digit_char(byte as int % 2),
    ]
}

/// The eight binary digits of a byte, as text.
pub fn bits_text(byte: u8) -> (r: String)
    ensures
        r@ == bits(byte),
{
    let value = byte as usize;
    let mut text = String::new();
    assert(text@ =~= Seq::<char>::empty());
    text.append(crate::text::digit_str_of(value / 128 % 2));
    text.append(crate::text::digit_str_of(value / 64 % 2));
    text.append(crate::text::digit_str_of(value / 32 % 2));
    text.append(crate::text::digit_str_of(value / 16 % 2));
    text.append(crate::text::digit_str_of(value / 8 % 2));
    text.append(crate::text::digit_str_of(value / 4 % 2));
    text.append(crate::text::digit_str_of(value / 2 % 2));
    text.append(crate::text::digit_str_of(value % 2));
    assert(text@ =~= bits(byte));
    text
}

impl<'a> BytePropertiesFormatter<'a> {
    pub fn new(data: &'a [u8]) -> (r: Self)
        ensures
            r.shown() == if data@.len() > 0 {
                data@[0]
            } else {
                0u8
            },
    {
        Self { data }
    }

    /// The byte that is shown.
    pub closed spec fn shown(&self) -> u8 {
        if self.data@.len() > 0 {
            self.data@[0]
        } else {
            0u8
        }
    }

    /// The lines: the byte in hexadecimal, binary, decimal and octal.
    pub open spec fn lines(byte: u8) -> Seq<Seq<char>> {
        seq![
            "hex: "@ + hex_pair(byte),
            "bin: "@ + bits(byte),
            "dec: "@ + digits(byte as int, 10),
            "oct: "@ + digits(byte as int, 8),
        ]
    }

    /// The lines to show.
    pub fn iter(&self) -> (r: Vec<String>)
        ensures
            r@.len() == 4,
            forall|i: int| 0 <= i < 4 ==> (#[trigger] r@[i])@ == Self::lines(self.shown())[i],
    {
        let f_byte: u8 = if self.data.len() > 0 {
            self.data[0]
        } else {
            0
        };
        let mut hex = String::from_str("hex: ");
        let hex_digits = hex_byte(f_byte);
        hex.append(hex_digits.as_str());
        let mut bin = String::from_str("bin: ");
        let bin_digits = bits_text(f_byte);
        bin.append(bin_digits.as_str());
        let mut dec = String::from_str("dec: ");
        let dec_digits = decimal(f_byte as usize);
        dec.append(dec_digits.as_str());
        let mut oct = String::from_str("oct: ");
        let oct_digits = number_text(f_byte as usize, 8);
        oct.append(oct_digits.as_str());
        let mut data: Vec<String> = Vec::new();
        data.push(hex);
        data.push(bin);
        data.push(dec);
        data.push(oct);
        data
    }

    /// The number of lines.
    pub fn height() -> (r: u16)
        ensures
            r == 4,
    {
        4
    }
}

} // verus!
