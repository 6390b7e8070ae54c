use teehee::buffer::{Buffer, Buffers, ByteInterval};
use teehee::hex_view::{ascii_repr, byte_kind, ByteKind, HexView, Scroll};
use teehee::keymap::{Event, KeyCode, KeyEvent, KeyModifiers};
use teehee::modes::search::PatternPiece::{Literal, Wildcard};
use teehee::view::style::{Paint, StylingCommand};

fn screen(bytes: &[u8], size: (u16, u16)) -> HexView {
    let buffers = Buffers::with_buffer(Buffer::from_data_and_path(bytes.to_vec(), None));
    HexView::with_buffers(buffers, size)
}

fn type_keys(view: &mut HexView, keys: &str) {
    for ch in keys.chars() {
        let modifiers = KeyModifiers { shift: ch.is_ascii_uppercase(), control: false, alt: false };
        view.handle_event(&Event::Key(KeyEvent { code: KeyCode::Char(ch), modifiers }));
    }
}

fn paints(command: &StylingCommand) -> (Option<Paint>, Option<Paint>, Option<Paint>) {
    (command.start_style(), command.mid_style(), command.end_style())
}

#[test]
fn kinds_of_bytes() {
    assert_eq!(byte_kind(0x00), ByteKind::Null);
    assert_eq!(byte_kind(b'a'), ByteKind::AsciiPrintable);
    assert_eq!(byte_kind(b'~'), ByteKind::AsciiPrintable);
    assert_eq!(byte_kind(b' '), ByteKind::AsciiWhitespace);
    assert_eq!(byte_kind(b'\n'), ByteKind::AsciiWhitespace);
    assert_eq!(byte_kind(0x0b), ByteKind::AsciiOther);
    assert_eq!(byte_kind(0x7f), ByteKind::AsciiOther);
    assert_eq!(byte_kind(0x80), ByteKind::NonAscii);
    assert_eq!(byte_kind(0xff), ByteKind::NonAscii);
}

#[test]
fn kinds_of_bytes_agree_with_the_ascii_classes() {
    for byte in 0..=255u8 {
        let expected = if byte == 0 {
            ByteKind::Null
        } else if byte.is_ascii_graphic() {
            ByteKind::AsciiPrintable
        } else if byte.is_ascii_whitespace() {
            ByteKind::AsciiWhitespace
        } else if byte.is_ascii() {
            ByteKind::AsciiOther
        } else {
            ByteKind::NonAscii
        };
        assert_eq!(byte_kind(byte), expected);
    }
}

#[test]
fn bytes_in_the_ascii_column() {
    assert_eq!(ascii_repr(b'a'), 'a');
    assert_eq!(ascii_repr(b' '), ' ');
    assert_eq!(ascii_repr(b'~'), '~');
    assert_eq!(ascii_repr(b'\n'), '.');
    assert_eq!(ascii_repr(0x00), '.');
    assert_eq!(ascii_repr(0x7f), '.');
    assert_eq!(ascii_repr(0xff), '.');
}

#[test]
fn a_caret_on_one_byte_is_painted_as_a_caret() {
    let v = screen(&[1, 2, 3, 4], (80, 24));
    let commands = v.mark_commands(0, 4);
    assert_eq!(commands.len(), 4);
    assert_eq!(paints(&commands[0]), (Some(Paint::ActiveCaret), None, Some(Paint::Default)));
    assert_eq!(paints(&commands[1]), (None, None, None));
    assert_eq!(paints(&commands[2]), (None, None, None));
    assert_eq!(paints(&commands[3]), (None, None, None));
}

#[test]
fn a_region_is_painted_from_its_first_to_its_last_byte() {
    let mut v = screen(&[0; 40], (80, 24));
    type_keys(&mut v, "lLL");
    let commands = v.mark_commands(0, 40);
    assert_eq!(paints(&commands[0]), (Some(Paint::Default), None, None));
    assert_eq!(paints(&commands[1]), (Some(Paint::ActiveSelection), None, None));
    assert_eq!(paints(&commands[2]), (None, None, None));
    assert_eq!(paints(&commands[3]), (Some(Paint::ActiveCaret), None, Some(Paint::Default)));
    assert_eq!(paints(&commands[4]), (None, None, None));
    assert_eq!(paints(&commands[15]), (None, None, Some(Paint::Default)));
    assert_eq!(paints(&commands[16]), (Some(Paint::Default), None, None));
}

#[test]
fn a_region_that_began_before_the_window_is_painted_again_at_a_line_start() {
    let mut v = screen(&[0; 64], (80, 24));
    type_keys(&mut v, "8l");
    type_keys(&mut v, "20L");
    let commands = v.mark_commands(16, 32);
    assert_eq!(commands.len(), 16);
    assert_eq!(paints(&commands[0]), (Some(Paint::ActiveSelection), None, None));
    assert_eq!(paints(&commands[11]), (None, None, None));
    assert_eq!(paints(&commands[12]), (Some(Paint::ActiveCaret), None, Some(Paint::Default)));
    assert_eq!(paints(&commands[13]), (None, None, None));
    assert_eq!(paints(&commands[15]), (None, None, Some(Paint::Default)));
}

#[test]
fn a_half_typed_byte_has_its_caret_from_the_middle_on() {
    let mut v = screen(&[0xff], (80, 24));
    type_keys(&mut v, "I7");
    assert!(v.mode().has_half_cursor());
    let main = v.buffers().current().selection().main();
    assert_eq!((main.caret, main.tail), (0, 1));
    let commands = v.mark_commands(0, 2);
    assert_eq!(
        paints(&commands[0]),
        (Some(Paint::ActiveSelection), Some(Paint::ActiveCaret), Some(Paint::ActiveSelection))
    );
    assert_eq!(paints(&commands[1]), (None, None, Some(Paint::Default)));
}

#[test]
fn the_slot_past_the_last_byte() {
    let v = screen(&[], (80, 24));
    let command = v.overflow_cursor_style().unwrap();
    assert_eq!(paints(&command), (Some(Paint::EmptyCaret), None, Some(Paint::Default)));

    let v = screen(&[1, 2, 3], (80, 24));
    assert!(v.overflow_cursor_style().is_none());

    let mut v = screen(&[1, 2, 3], (80, 24));
    type_keys(&mut v, "9l");
    let command = v.overflow_cursor_style().unwrap();
    assert_eq!(paints(&command), (Some(Paint::EmptyCaret), None, Some(Paint::Default)));

    type_keys(&mut v, "H");
    let command = v.overflow_cursor_style().unwrap();
    assert_eq!(paints(&command), (None, None, Some(Paint::Default)));
}

#[test]
fn the_view_follows_the_main_caret_line_by_line() {
    let mut v = screen(&[0; 1000], (80, 5));
    assert_eq!(v.maybe_update_offset(), None);
    type_keys(&mut v, "100g");
    assert_eq!(v.maybe_update_offset(), Some(Scroll::Down(3)));
    assert_eq!(v.options().start_offset, 48);
    assert_eq!(v.maybe_update_offset(), None);
    type_keys(&mut v, "111g");
    assert_eq!(v.maybe_update_offset(), None);
    type_keys(&mut v, "112g");
    assert_eq!(v.maybe_update_offset(), Some(Scroll::Down(1)));
    assert_eq!(v.options().start_offset, 64);
    type_keys(&mut v, "47g");
    assert_eq!(v.maybe_update_offset(), Some(Scroll::Up(2)));
    assert_eq!(v.options().start_offset, 32);
    type_keys(&mut v, "1g");
    assert_eq!(v.maybe_update_offset(), Some(Scroll::Up(2)));
    assert_eq!(v.options().start_offset, 0);
}

#[test]
fn the_view_of_an_empty_document_starts_at_its_start() {
    let mut v = screen(&[], (80, 5));
    v.set_view_start(32);
    assert_eq!(v.maybe_update_offset(), None);
    assert_eq!(v.options().start_offset, 0);
}

#[test]
fn a_fresh_drawing_puts_the_line_of_the_caret_last() {
    let mut v = screen(&[0; 1000], (80, 5));
    type_keys(&mut v, "100g");
    v.update_offset_for_redraw();
    assert_eq!(v.options().start_offset, 48);
    type_keys(&mut v, "20g");
    v.update_offset_for_redraw();
    assert_eq!(v.options().start_offset, 16);
    type_keys(&mut v, "30g");
    v.update_offset_for_redraw();
    assert_eq!(v.options().start_offset, 16);
}

#[test]
fn the_rows_of_an_interval() {
    let mut v = screen(&[0; 1000], (80, 5));
    assert_eq!(v.rows_of(&ByteInterval { start: 17, end: 40 }), Some((1, 2)));
    assert_eq!(v.rows_of(&ByteInterval { start: 0, end: 1 }), Some((0, 0)));
    assert_eq!(v.rows_of(&ByteInterval { start: 60, end: 200 }), Some((3, 3)));
    assert_eq!(v.rows_of(&ByteInterval { start: 64, end: 200 }), None);
    assert_eq!(v.rows_of(&ByteInterval { start: 5, end: 5 }), None);
    v.set_view_start(32);
    assert_eq!(v.rows_of(&ByteInterval { start: 0, end: 40 }), Some((0, 0)));
    assert_eq!(v.rows_of(&ByteInterval { start: 0, end: 32 }), None);
}

#[test]
fn commands_of_paints() {
    let v = screen(&[1], (80, 24));
    let caret = v.mark_commands(0, 1)[0];
    assert_eq!(paints(&caret.with_mid_to_end()), (Some(Paint::ActiveCaret), None, None));
    assert_eq!(paints(&caret.take_end_only()), (None, None, Some(Paint::Default)));
    assert_eq!(paints(&StylingCommand::default()), (None, None, None));
}

fn line(text: &str, cursor: usize) -> teehee::modes::command::Command {
    teehee::modes::command::Command { command: text.chars().collect(), cursor }
}

fn pattern_prompt(
    pieces: Vec<teehee::modes::search::PatternPiece>,
    cursor: usize,
    hex: bool,
) -> teehee::modes::search::Search {
    let mut prompt = teehee::modes::search::Search::new(
        teehee::modes::search::SearchAcceptor::Collapse(teehee::modes::collapse::Collapse()),
        hex,
    );
    prompt.pattern.pieces = pieces;
    prompt.cursor = cursor;
    prompt
}

fn bounds(window: teehee::view::prompt::Window) -> (usize, usize) {
    (window.start, window.end)
}

#[test]
fn a_line_that_fits_is_shown_whole() {
    assert_eq!(bounds(line("write foo.bin", 13).window(80, 0)), (0, 13));
    assert_eq!(bounds(line("", 0).window(80, 0)), (0, 0));
    assert_eq!(bounds(line("", 0).window(80, 5)), (0, 0));
}

#[test]
fn a_long_line_is_shown_around_its_cursor() {
    assert_eq!(bounds(line("write foo.bin", 13).window(8, 0)), (7, 13));
    assert_eq!(bounds(line("write foo.bin", 2).window(8, 7)), (2, 9));
    assert_eq!(bounds(line("write foo.bin", 9).window(8, 7)), (7, 13));
    assert_eq!(bounds(line("write foo.bin", 5).window(0, 0)), (5, 5));
    assert_eq!(bounds(line("write", 2).window(80, 9)), (2, 5));
}

#[test]
fn a_pattern_in_hex_takes_three_columns_a_piece() {
    let pieces: Vec<_> = (0..10u8).map(Literal).collect();
    assert_eq!(bounds(pattern_prompt(pieces.clone(), 10, true).window(16, 0)), (8, 10));
    assert_eq!(bounds(pattern_prompt(pieces.clone(), 4, true).window(16, 0)), (2, 5));
    assert_eq!(bounds(pattern_prompt(pieces.clone(), 1, true).window(16, 0)), (0, 3));
    assert_eq!(bounds(pattern_prompt(pieces.clone(), 1, true).window(16, 6)), (1, 4));
    assert_eq!(bounds(pattern_prompt(pieces.clone(), 10, true).window(80, 0)), (0, 10));
    assert_eq!(bounds(pattern_prompt(pieces, 6, true).window(7, 0)), (6, 6));
}

#[test]
fn a_pattern_as_text_takes_one_or_four_columns_a_piece() {
    let pieces = vec![Literal(b'a'), Literal(0x00), Literal(b'b'), Wildcard, Literal(0xff)];
    assert_eq!(bounds(pattern_prompt(pieces.clone(), 5, false).window(15, 0)), (2, 5));
    assert_eq!(bounds(pattern_prompt(pieces.clone(), 0, false).window(12, 0)), (0, 2));
    assert_eq!(bounds(pattern_prompt(pieces.clone(), 5, false).window(80, 0)), (0, 5));
    assert_eq!(bounds(pattern_prompt(pieces.clone(), 2, false).window(11, 0)), (1, 2));
    assert_eq!(bounds(pattern_prompt(pieces, 3, false).window(80, 4)), (3, 5));
}

#[test]
fn texts_of_the_status_line() {
    let mut v = screen(&[0; 300], (80, 24));
    let texts = v.status_texts();
    assert_eq!(texts.buffer, " *scratch* ");
    assert_eq!(texts.mode, " NORMAL ");
    assert_eq!(texts.selections, " 1 sels (1) ");
    assert_eq!(texts.position, " 0/12b ");

    type_keys(&mut v, "255g");
    type_keys(&mut v, "12");
    let texts = v.status_texts();
    assert_eq!(texts.mode, " NORMAL (12) ");
    assert_eq!(texts.position, " ff/12b ");

    let v = screen(&[], (80, 24));
    assert_eq!(v.status_texts().position, " empty ");

    let buffers = Buffers::with_buffer(Buffer::from_data_and_path(vec![1, 2], Some("a.bin".to_string())));
    let mut v = HexView::with_buffers(buffers, (80, 24));
    assert_eq!(v.status_texts().buffer, " a.bin ");
    type_keys(&mut v, "d");
    assert_eq!(v.status_texts().buffer, " a.bin[+] ");
    assert_eq!(v.status_texts().position, " 0/0 ");
}
