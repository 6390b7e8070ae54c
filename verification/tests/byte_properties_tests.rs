use teehee::byte_properties::BytePropertiesFormatter as FirstByte;
use teehee::hex_view::byte_properties::{
    bytes_to_4_byte_vec, format_char, utf16_into_char, utf8_into_char, BytePropertiesFormatter,
    CellStyle,
};
use teehee::hex_view::{make_padding, OutputColorizer};

#[test]
fn test_utf16_into_char() {
    let data = &[0xd8, 0x01, 0xdc, 0x37];
    assert_eq!(utf16_into_char(data), Ok('\u{10437}'));
}

#[test]
fn utf16_of_one_unit() {
    assert_eq!(utf16_into_char(&[0x00, 0x41]), Ok('A'));
    assert_eq!(utf16_into_char(&[0x20, 0xac, 0xff, 0xff]), Ok('\u{20ac}'));
}

#[test]
fn utf16_without_a_character() {
    assert_eq!(utf16_into_char(&[0x41]), Err('\u{fffd}'));
    assert_eq!(utf16_into_char(&[0xd8, 0x01]), Err('\u{fffd}'));
    assert_eq!(utf16_into_char(&[0xdc, 0x37, 0xd8, 0x01]), Err('\u{fffd}'));
    assert_eq!(utf16_into_char(&[0xd8, 0x01, 0x00, 0x41]), Err('\u{fffd}'));
}

#[test]
fn utf8_takes_the_shortest_prefix() {
    assert_eq!(utf8_into_char(&[0x41, 0x42]), Ok('A'));
    assert_eq!(utf8_into_char(&[0xe2, 0x82, 0xac, 0x41]), Ok('\u{20ac}'));
    assert_eq!(utf8_into_char(&[0xff, 0x41]), Err('\u{fffd}'));
    assert_eq!(utf8_into_char(&[]), Err('\u{fffd}'));
}

#[test]
fn four_bytes_are_padded_in_front() {
    assert_eq!(bytes_to_4_byte_vec(&[1, 2]), vec![0, 0, 1, 2]);
    assert_eq!(bytes_to_4_byte_vec(&[1, 2, 3, 4, 5]), vec![1, 2, 3, 4]);
    assert_eq!(bytes_to_4_byte_vec(&[]), vec![0, 0, 0, 0]);
}

#[test]
fn characters_with_a_glyph_show_as_themselves() {
    assert_eq!(format_char('A'), "A");
    assert_eq!(format_char('~'), "~");
    assert_eq!(format_char('\n'), format!("{:x?}", '\n'));
}

#[test]
fn padding_is_blank() {
    assert_eq!(make_padding(0), "");
    assert_eq!(make_padding(3), "   ");
    assert_eq!(make_padding(64).len(), 64);
}

#[test]
fn first_byte_in_four_notations() {
    let lines = FirstByte::new(&[0x4a, 0xff]).iter();
    assert_eq!(lines, vec!["hex: 4a", "bin: 01001010", "dec: 74", "oct: 112"]);
    let none = FirstByte::new(&[]).iter();
    assert_eq!(none, vec!["hex: 00", "bin: 00000000", "dec: 0", "oct: 0"]);
    assert_eq!(FirstByte::height(), 4);
}

#[test]
fn lines_of_the_byte_properties() {
    let data = [0xff, 0x00, 0x01, 0x02];
    let colorizer = OutputColorizer::new();
    let mut formatter = BytePropertiesFormatter::new(&data);
    assert_eq!(BytePropertiesFormatter::height(), 5);

    let hex = formatter.draw_line(&colorizer);
    let texts: Vec<&str> = hex.iter().map(|c| c.text.as_str()).collect();
    assert_eq!(texts, vec!["hex u8: ", "ff ", "          hex u32: ", "ff ", "00 ", "01 ", "02 "]);
    assert_eq!(hex[1].style, CellStyle::Byte(0xff));

    let bin = formatter.draw_line(&colorizer);
    assert_eq!(bin[0].text, "bin u8: ");
    assert_eq!(bin[1].style, CellStyle::BinOne);
    let zero_digits = bin.iter().filter(|c| c.style == CellStyle::BinZero).count();
    assert_eq!(zero_digits, 8 + 7 + 7);

    let dec = formatter.draw_line(&colorizer);
    let texts: Vec<&str> = dec.iter().map(|c| c.text.as_str()).collect();
    assert_eq!(texts, vec!["dec u8: ", "255", "         ", " dec u32: ", "4278190338"]);

    let signed = formatter.draw_line(&colorizer);
    let texts: Vec<&str> = signed.iter().map(|c| c.text.as_str()).collect();
    assert_eq!(texts, vec!["dec i8: ", "-1", "          ", " dec i32: ", "-16776958"]);

    assert!(!formatter.are_all_printed());
    let chars = formatter.draw_line(&colorizer);
    assert_eq!(chars[0].text, " utf-8: ");
    assert_eq!(chars[1].style, CellStyle::Invalid);
    assert!(formatter.are_all_printed());
    assert!(formatter.draw_line(&colorizer).is_empty());
}
