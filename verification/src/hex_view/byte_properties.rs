//! The bytes under the main caret, shown as numbers and as characters, line
//! by line.

use crate::byte_properties::bits;
use crate::hex_view::{make_padding, padding, OutputColorizer};
use crate::text::{char_of, decimal, digits, hex_byte, hex_pair};
use vstd::prelude::*;
use vstd::string::*;

verus! {

/// The character that stands for bytes that are no character.
pub const REPLACEMENT: char = '\u{FFFD}';

/// How a piece of a line is shown.
#[derive(Debug, PartialEq, Eq, Clone, Copy, Structural)]
pub enum CellStyle {
    /// A label.
    Label,
    /// A value.
    Value,
    /// A byte in hexadecimal, in the colour of its kind.
    Byte(u8),
    /// A binary digit 0.
    BinZero,
    /// A binary digit 1.
    BinOne,
    /// What stands for bytes that are no character.
    Invalid,
}

/// A piece of a line with the way to show it.
pub struct Cell {
    pub text: String,
    pub style: CellStyle,
}

/// What a cell holds.
pub struct CellView {
    pub text: Seq<char>,
    pub style: CellStyle,
}

impl View for Cell {
    type V = CellView;

    open spec fn view(&self) -> CellView {
        CellView { text: self.text@, style: self.style }
    }
}

/// The text that `{:x?}` gives for a character.
pub uninterp spec fn debug_text(c: char) -> Seq<char>;

/// `format!` with `{:x?}`, on a character: the character as the debugging
/// output of the standard library shows it.
#[verifier::external_body]
fn char_debug(c: char) -> (r: String)
    ensures
        r@ == debug_text(c),
{
    format!("{:x?}", c)
}

/// `String::from_utf8`: the string of the bytes, if they are UTF-8.
#[verifier::external_body]
fn string_from_utf8(bytes: Vec<u8>) -> (r: Option<String>)
    ensures
        r is Some == vstd::utf8::valid_utf8(bytes@),
        r is Some ==> r.unwrap()@ == vstd::utf8::decode_utf8(bytes@),
{
    String::from_utf8(bytes).ok()
}

/// A character that has a glyph in ascii: from `!` to `~`.
pub open spec fn ascii_graphic(c: char) -> bool {
    33 <= c as u32 <= 126
}

/// The text that shows a character: itself, if it has a glyph in ascii, and
/// its debugging output otherwise.
pub open spec fn char_text(c: char) -> Seq<char> {
    if ascii_graphic(c) {
        seq![c]
    } else {
        debug_text(c)
    }
}

/// The cells of the binary digits of a byte.
pub fn format_binary_byte(byte: u8) -> (r: Vec<Cell>)
    ensures
        r@.len() == 8,
        forall|i: int|
            0 <= i < 8 ==> (#[trigger] r@[i])@ == (CellView {
                text: seq![bits(byte)[i]],
                style: if bits(byte)[i] == '0' {
                    CellStyle::BinZero
                } else {
                    CellStyle::BinOne
                },
            }),
{
    let value = byte as usize;
    let mut cells: Vec<Cell> = Vec::new();
    let mut divisor: usize = 128;
    let mut i: usize = 0;
    while i < 8
        invariant
            i <= 8,
            value == byte,
            cells@.len() == i,
            divisor == if i == 0 {
                128usize
            } else if i == 1 {
                64usize
            } else if i == 2 {
                32usize
            } else if i == 3 {
                16usize
            } else if i == 4 {
                8usize
            } else if i == 5 {
                4usize
            } else if i == 6 {
                2usize
            } else {
                1usize
            },
            forall|k: int|
                0 <= k < i ==> (#[trigger] cells@[k])@ == (CellView {
                    text: seq![bits(byte)[k]],
                    style: if bits(byte)[k] == '0' {
                        CellStyle::BinZero
                    } else {
                        CellStyle::BinOne
                    },
                }),
        decreases 8 - i,
    {
        let bit = value / divisor % 2;
        let cell = if bit == 0 {
            Cell { text: String::from_str(crate::text::digit_str_of(0)), style: CellStyle::BinZero }
        } else {
            Cell { text: String::from_str(crate::text::digit_str_of(1)), style: CellStyle::BinOne }
        };
        cells.push(cell);
        if divisor > 1 {
            divisor = divisor / 2;
        }
        i += 1;
    }
    cells
}

/// The text that shows a character.
pub fn format_char(c: char) -> (r: String)
    ensures
        r@ == char_text(c),
{
    let code: u32 = c as u32;
    if 33 <= code && code <= 126 {
        let mut one: Vec<char> = Vec::new();
        one.push(c);
        assert(one@ =~= seq![c]);
        crate::text::string_of(&one)
    } else {
        char_debug(c)
    }
}

/// The first character that a prefix of at most `n` of the bytes encodes
/// in UTF-8 on its own, the shortest such prefix deciding.
pub open spec fn utf8_prefix_char(data: Seq<u8>, n: int) -> Option<char>
    decreases n,
{
    if n <= 0 {
        None
    } else {
        match utf8_prefix_char(data, n - 1) {
            Some(c) => Some(c),
            None => if vstd::utf8::valid_utf8(data.subrange(0, n)) && vstd::utf8::decode_utf8(
                data.subrange(0, n),
            ).len() > 0 {
                Some(vstd::utf8::decode_utf8(data.subrange(0, n))[0])
            } else {
                None
            },
        }
    }
}

/// The character at the start of the bytes, read as UTF-8; the
/// replacement character, as an error, where there is none.
pub fn utf8_into_char(data: &[u8]) -> (r: Result<char, char>)
    ensures
        r == utf8_read(data@),
{
    let max_char_len: usize = if data.len() < 4 {
        data.len()
    } else {
        4
    };
    let mut i: usize = 1;
    while i <= max_char_len
        invariant
            1 <= i <= max_char_len + 1,
            max_char_len <= data@.len(),
            max_char_len == if data@.len() < 4 {
                data@.len() as int
            } else {
                4
            },
            utf8_prefix_char(data@, i - 1) is None,
        decreases max_char_len + 1 - i,
    {
        let prefix = vstd::slice::slice_to_vec(vstd::slice::slice_subrange(data, 0, i));
        match string_from_utf8(prefix) {
            Some(s) => {
                if s.as_str().unicode_len() > 0 {
                    let c = s.as_str().get_char(0);
                    proof {
                        assert(prefix@ == data@.subrange(0, i as int));
                        assert(utf8_prefix_char(data@, i as int) == Some(c));
                        lemma_utf8_prefix_char(data@, i as int, max_char_len as int);
                    }
                    return Ok(c);
                }
            },
            None => {},
        }
        i += 1;
    }
    Err(REPLACEMENT)
}

/// Once a prefix gives a character, longer prefixes are not asked.
pub proof fn lemma_utf8_prefix_char(data: Seq<u8>, k: int, n: int)
    requires
        0 <= k <= n,
        utf8_prefix_char(data, k) is Some,
    ensures
        utf8_prefix_char(data, n) == utf8_prefix_char(data, k),
    decreases n - k,
{
    if k < n {
        lemma_utf8_prefix_char(data, k, n - 1);
    }
}

/// Four bytes: the first four of `data`, or `data` behind as many zero
/// bytes as it lacks.
pub open spec fn four_bytes(data: Seq<u8>) -> Seq<u8> {
    if data.len() >= 4 {
        data.subrange(0, 4)
    } else {
        Seq::new((4 - data.len()) as nat, |i: int| 0u8) + data
    }
}

pub fn bytes_to_4_byte_vec(data: &[u8]) -> (r: Vec<u8>)
    ensures
        r@ == four_bytes(data@),
{
    if data.len() >= 4 {
        vstd::slice::slice_to_vec(vstd::slice::slice_subrange(data, 0, 4))
    } else {
        let mut res: Vec<u8> = Vec::new();
        let missing = 4 - data.len();
        let mut i: usize = 0;
        while i < missing
            invariant
                i <= missing,
                res@ == Seq::new(i as nat, |k: int| 0u8),
            decreases missing - i,
        {
            res.push(0);
            assert(res@ =~= Seq::new((i + 1) as nat, |k: int| 0u8));
            i += 1;
        }
        let ghost zeros = res@;
        res.extend_from_slice(data);
        assert(res@ =~= zeros + data@);
        res
    }
}

/// The 16-bit unit that two bytes hold, the high byte first.
pub open spec fn unit(high: u8, low: u8) -> int {
    high as int * 256 + low as int
}

/// The character at the start of the bytes, read as UTF-16 with the high
/// byte first: the character of the first unit, if that is one on its own,
/// or of the first two units, if they are a surrogate pair.
pub open spec fn utf16_char(data: Seq<u8>) -> Option<int> {
    if data.len() >= 2 && !(0xD800 <= unit(data[0], data[1]) <= 0xDFFF) {
        Some(unit(data[0], data[1]))
    } else if data.len() >= 4 && 0xD800 <= unit(data[0], data[1]) <= 0xDBFF && 0xDC00 <= unit(
        data[2],
        data[3],
    ) <= 0xDFFF {
        Some(
            0x10000 + (unit(data[0], data[1]) - 0xD800) * 0x400 + (unit(data[2], data[3])
                - 0xDC00),
        )
    } else {
        None
    }
}

/// The character at the start of the bytes, read as UTF-16 with the high
/// byte first; the replacement character, as an error, where there is
/// none.
pub fn utf16_into_char(data: &[u8]) -> (r: Result<char, char>)
    ensures
        match utf16_char(data@) {
            Some(code) => r is Ok && r.unwrap() as u32 == code,
            None => r == Err::<char, char>(REPLACEMENT),
        },
        r == utf16_read(data@),
{
    if data.len() >= 2 {
        let first: u32 = (data[0] as u32) * 256 + (data[1] as u32);
        if !(0xD800 <= first && first <= 0xDFFF) {
            match char_of(first) {
                Some(c) => {
                    proof {
                        vstd::utf8::char_u32_cast(c, first);
                    }
                    return Ok(c);
                },
                None => {},
            }
        } else if data.len() >= 4 && first <= 0xDBFF {
            let second: u32 = (data[2] as u32) * 256 + (data[3] as u32);
            if 0xDC00 <= second && second <= 0xDFFF {
                let code: u32 = 0x10000 + (first - 0xD800) * 0x400 + (second - 0xDC00);
                match char_of(code) {
                    Some(c) => {
                        proof {
                            vstd::utf8::char_u32_cast(c, code);
                        }
                        return Ok(c);
                    },
                    None => {},
                }
            }
        }
    }
    Err(REPLACEMENT)
}

/// A number below `2^bits` read as a signed number of that many bits.
pub open spec fn signed(value: int, half: int) -> int {
    if value >= half {
        value - 2 * half
    } else {
        value
    }
}

/// The decimal text of a number with its sign.
pub open spec fn signed_digits(value: int) -> Seq<char> {
    if value < 0 {
        "-"@ + digits(-value, 10)
    } else {
        digits(value, 10)
    }
}

/// The decimal text of `value`, or of `value - 2 * half` if `value` is
/// `half` or more.
fn signed_text(value: usize, half: usize) -> (r: String)
    requires
        value < 2 * half,
        half <= 0x8000_0000,
    ensures
        r@ == signed_digits(signed(value as int, half as int)),
{
    if value >= half {
        let mut text = String::from_str("-");
        let number = decimal(half - (value - half));
        text.append(number.as_str());
        text
    } else {
        decimal(value)
    }
}

/// What the cells hold.
pub open spec fn cell_views(cells: Seq<Cell>) -> Seq<CellView> {
    Seq::new(cells.len(), |i: int| cells[i]@)
}

/// A label.
pub open spec fn label_cell(text: Seq<char>) -> CellView {
    CellView { text, style: CellStyle::Label }
}

/// A value.
pub open spec fn value_cell(text: Seq<char>) -> CellView {
    CellView { text, style: CellStyle::Value }
}

/// A byte in hexadecimal and a blank behind it.
pub open spec fn hex_cell_of(byte: u8) -> CellView {
    CellView { text: hex_pair(byte) + " "@, style: CellStyle::Byte(byte) }
}

/// The first `n` bytes in hexadecimal.
pub open spec fn hex_cells(data: Seq<u8>, n: int) -> Seq<CellView> {
    Seq::new(n as nat, |i: int| hex_cell_of(data[i]))
}

/// The eight binary digits of a byte, a cell each.
pub open spec fn bin_cells(byte: u8) -> Seq<CellView> {
    Seq::new(
        8,
        |i: int|
            CellView {
                text: seq![bits(byte)[i]],
                style: if bits(byte)[i] == '0' {
                    CellStyle::BinZero
                } else {
                    CellStyle::BinOne
                },
            },
    )
}

/// The first `n` bytes in binary, a blank behind each.
pub open spec fn bin_run(data: Seq<u8>, n: int) -> Seq<CellView>
    decreases n,
{
    if n <= 0 {
        Seq::empty()
    } else {
        bin_run(data, n - 1) + bin_cells(data[n - 1]) + seq![label_cell(" "@)]
    }
}

/// The blanks that fill a column of twelve characters behind a text.
pub open spec fn filler(text: Seq<char>) -> CellView {
    label_cell(
        padding(
            if text.len() <= 12 {
                12 - text.len()
            } else {
                0
            },
        ),
    )
}

/// The first byte, or zero where there is none.
pub open spec fn first_of(data: Seq<u8>) -> u8 {
    if data.len() > 0 {
        data[0]
    } else {
        0
    }
}

/// The number that four bytes hold, the high byte first.
pub open spec fn word(four: Seq<u8>) -> int {
    ((four[0] as int * 256 + four[1] as int) * 256 + four[2] as int) * 256 + four[3] as int
}

/// The cell of a character that was read, or of what stands for none.
pub open spec fn char_cell_of(read: Result<char, char>) -> CellView {
    match read {
        Ok(c) => value_cell(char_text(c)),
        Err(c) => CellView { text: seq![c], style: CellStyle::Invalid },
    }
}

/// The bytes read as UTF-8.
pub open spec fn utf8_read(data: Seq<u8>) -> Result<char, char> {
    match utf8_prefix_char(
        data,
        if data.len() < 4 {
            data.len() as int
        } else {
            4
        },
    ) {
        Some(c) => Ok(c),
        None => Err(REPLACEMENT),
    }
}

/// The bytes read as UTF-16.
pub open spec fn utf16_read(data: Seq<u8>) -> Result<char, char> {
    match utf16_char(data) {
        Some(code) => Ok(code as u32 as char),
        None => Err(REPLACEMENT),
    }
}

/// The cells of a line: the first byte and all bytes in hexadecimal; in
/// binary; as numbers without sign; as numbers with sign; as characters
/// in UTF-8 and UTF-16. Behind these five lines nothing is left.
pub open spec fn line_cells(data: Seq<u8>, line: int) -> Seq<CellView> {
    if line == 0 {
        seq![
            label_cell("hex u8: "@),
            hex_cell_of(first_of(data)),
            label_cell("          hex u32: "@),
        ] + hex_cells(data, data.len() as int)
    } else if line == 1 {
        seq![label_cell("bin u8: "@)] + bin_cells(first_of(data)) + seq![
            label_cell("     bin u32: "@),
        ] + bin_run(data, data.len() as int)
    } else if line == 2 {
        seq![
            label_cell("dec u8: "@),
            value_cell(digits(first_of(data) as int, 10)),
            filler(digits(first_of(data) as int, 10)),
            label_cell(" dec u32: "@),
            value_cell(digits(word(four_bytes(data)), 10)),
        ]
    } else if line == 3 {
        seq![
            label_cell("dec i8: "@),
            value_cell(signed_digits(signed(first_of(data) as int, 128))),
            filler(signed_digits(signed(first_of(data) as int, 128))),
            label_cell(" dec i32: "@),
            value_cell(signed_digits(signed(word(four_bytes(data)), 0x8000_0000))),
        ]
    } else if line == 4 {
        seq![
            label_cell(" utf-8: "@),
            char_cell_of(utf8_read(data)),
            filler(char_cell_of(utf8_read(data)).text),
            label_cell("  utf-16: "@),
            char_cell_of(utf16_read(data)),
        ]
    } else {
        Seq::empty()
    }
}

/// The cell of a character that was read, or of what stands for none.
fn char_cell(read: Result<char, char>) -> (r: Cell)
    ensures
        r@ == char_cell_of(read),
{
    match read {
        Ok(c) => Cell { text: format_char(c), style: CellStyle::Value },
        Err(c) => {
            let mut one: Vec<char> = Vec::new();
            one.push(c);
            assert(one@ =~= seq![c]);
            Cell { text: crate::text::string_of(&one), style: CellStyle::Invalid }
        },
    }
}

/// Shows up to four bytes, one line at a time.
pub struct BytePropertiesFormatter<'a> {
    data: &'a [u8],
    line: usize,
}

/// The cell of a label.
fn label(text: &str) -> (r: Cell)
    ensures
        r@ == (CellView { text: text@, style: CellStyle::Label }),
{
    Cell { text: String::from_str(text), style: CellStyle::Label }
}

/// The cell of a byte in hexadecimal behind which a blank follows.
fn hex_cell(byte: u8) -> (r: Cell)
    ensures
        r@ == (CellView { text: hex_pair(byte) + " "@, style: CellStyle::Byte(byte) }),
{
    let mut text = hex_byte(byte);
    text.append(" ");
    Cell { text, style: CellStyle::Byte(byte) }
}

impl<'a> BytePropertiesFormatter<'a> {
    pub fn new(data: &'a [u8]) -> (r: Self)
        requires
            data@.len() <= 4,
        ensures
            r.data() == data@,
            r.line() == 0,
    {
        Self { data, line: 0 }
    }

    /// The bytes that are shown.
    pub closed spec fn data(&self) -> Seq<u8> {
        self.data@
    }

    /// The number of the next line.
    pub closed spec fn line(&self) -> int {
        self.line as int
    }

    /// Whether every line was handed out.
    pub fn are_all_printed(&self) -> (r: bool)
        ensures
            r == (self.line() > 4),
    {
        self.line > (BytePropertiesFormatter::height() - 1)
    }

    /// The next line, as cells, and on to the line behind it. The lines
    /// show the first byte and all bytes in hexadecimal and in binary, as
    /// numbers without and with sign, and as characters in UTF-8 and
    /// UTF-16; behind the last line nothing is left.
    pub fn draw_line(&mut self, colorizer: &OutputColorizer) -> (r: Vec<Cell>)
        requires
            old(self).data().len() <= 4,
            old(self).line() < usize::MAX,
        ensures
            final(self).data() == old(self).data(),
            final(self).line() == old(self).line() + 1,
            cell_views(r@) == line_cells(old(self).data(), old(self).line()),
    {
        let first_byte: u8 = if self.data.len() > 0 {
            self.data[0]
        } else {
            0
        };
        let ghost data = self.data@;
        let mut cells: Vec<Cell> = Vec::new();
        if self.line == 0 {
            cells.push(label("hex u8: "));
            cells.push(hex_cell(first_byte));
            cells.push(label("          hex u32: "));
            let ghost head = cell_views(cells@);
            let mut i: usize = 0;
            while i < self.data.len()
                invariant
                    i <= self.data.len(),
                    self.data@ == data,
                    cell_views(cells@) == head + hex_cells(data, i as int),
                decreases self.data.len() - i,
            {
                let ghost before = cells@;
                cells.push(hex_cell(self.data[i]));
                assert(cell_views(cells@) =~= cell_views(before).push(hex_cell_of(data[i as int])));
                assert(hex_cells(data, i + 1) =~= hex_cells(data, i as int).push(
                    hex_cell_of(data[i as int]),
                ));
                assert(cell_views(cells@) =~= head + hex_cells(data, i + 1));
                i += 1;
            }
            assert(cell_views(cells@) =~= line_cells(data, 0));
        } else if self.line == 1 {
            cells.push(label("bin u8: "));
            let mut first = format_binary_byte(first_byte);
            assert(cell_views(first@) =~= bin_cells(first_byte));
            cells.append(&mut first);
            cells.push(label("     bin u32: "));
            let ghost head = cell_views(cells@);
            assert(head =~= seq![label_cell("bin u8: "@)] + bin_cells(first_byte) + seq![
                label_cell("     bin u32: "@),
            ]);
            let mut i: usize = 0;
            while i < self.data.len()
                invariant
                    i <= self.data.len(),
                    self.data@ == data,
                    cell_views(cells@) == head + bin_run(data, i as int),
                decreases self.data.len() - i,
            {
                let ghost before = cells@;
                let mut digits = format_binary_byte(self.data[i]);
                assert(cell_views(digits@) =~= bin_cells(data[i as int]));
                cells.append(&mut digits);
                cells.push(label(" "));
                assert(cell_views(cells@) =~= cell_views(before) + bin_cells(data[i as int])
                    + seq![label_cell(" "@)]);
                assert(bin_run(data, i + 1) == bin_run(data, i as int) + bin_cells(data[i as int])
                    + seq![label_cell(" "@)]);
                assert(cell_views(cells@) =~= head + bin_run(data, i + 1));
                i += 1;
            }
        } else if self.line == 2 {
            let byte_literal = decimal(first_byte as usize);
            let len = byte_literal.as_str().unicode_len();
            cells.push(label("dec u8: "));
            cells.push(Cell { text: byte_literal, style: CellStyle::Value });
            cells.push(label(make_padding(if len <= 12 { 12 - len } else { 0 })));
            cells.push(label(" dec u32: "));
            let four = bytes_to_4_byte_vec(self.data);
            let value: usize = (((four[0] as usize) * 256 + (four[1] as usize)) * 256 + (
            four[2] as usize)) * 256 + (four[3] as usize);
            cells.push(Cell { text: decimal(value), style: CellStyle::Value });
            assert(cell_views(cells@) =~= line_cells(data, 2));
        } else if self.line == 3 {
            let byte_literal = signed_text(first_byte as usize, 128);
            let len = byte_literal.as_str().unicode_len();
            cells.push(label("dec i8: "));
            cells.push(Cell { text: byte_literal, style: CellStyle::Value });
            cells.push(label(make_padding(if len <= 12 { 12 - len } else { 0 })));
            cells.push(label(" dec i32: "));
            let four = bytes_to_4_byte_vec(self.data);
            let value: usize = (((four[0] as usize) * 256 + (four[1] as usize)) * 256 + (
            four[2] as usize)) * 256 + (four[3] as usize);
            cells.push(Cell { text: signed_text(value, 0x8000_0000), style: CellStyle::Value });
            assert(cell_views(cells@) =~= line_cells(data, 3));
        } else if self.line == 4 {
            cells.push(label(" utf-8: "));
            let as_utf8 = utf8_into_char(self.data);
            let first = char_cell(as_utf8);
            let len = first.text.as_str().unicode_len();
            cells.push(first);
            cells.push(label(make_padding(if len <= 12 { 12 - len } else { 0 })));
            cells.push(label("  utf-16: "));
            let as_utf16 = utf16_into_char(self.data);
            cells.push(char_cell(as_utf16));
            assert(cell_views(cells@) =~= line_cells(data, 4));
        } else {
            assert(cell_views(cells@) =~= line_cells(data, self.line as int));
        }
        self.line += 1;
        cells
    }

    /// The number of lines.
    pub fn height() -> (r: usize)
        ensures
            r == 5,
    {
        5
    }
}

} // verus!
