use teehee::buffer::{Buffer, Buffers};
use teehee::cmd_count::{State, Transition};
use teehee::hex_view::{HexView, Outcome};
use teehee::keymap::{Event, KeyCode, KeyEvent, KeyMap, KeyModifiers};
use teehee::modes::command::Request;
use teehee::modes::mode::Mode;
use teehee::modes::search::{Pattern, PatternPiece};

const NONE: KeyModifiers = KeyModifiers { shift: false, control: false, alt: false };
const ALT: KeyModifiers = KeyModifiers { shift: false, control: false, alt: true };
const CTRL: KeyModifiers = KeyModifiers { shift: false, control: true, alt: false };
const SHIFT: KeyModifiers = KeyModifiers { shift: true, control: false, alt: false };

fn view(bytes: &[u8]) -> HexView {
    let buffers = Buffers::with_buffer(Buffer::from_data_and_path(bytes.to_vec(), None));
    HexView::with_buffers(buffers, (80, 24))
}

fn key(code: KeyCode, modifiers: KeyModifiers) -> Event {
    Event::Key(KeyEvent { code, modifiers })
}

fn press(view: &mut HexView, keys: &str) {
    for ch in keys.chars() {
        let modifiers = if ch.is_ascii_uppercase() { SHIFT } else { NONE };
        view.handle_event(&key(KeyCode::Char(ch), modifiers));
    }
}

fn esc(view: &mut HexView) {
    view.handle_event(&key(KeyCode::Esc, NONE));
}

fn enter(view: &mut HexView) -> Outcome {
    view.handle_event(&key(KeyCode::Enter, NONE))
}

fn data(view: &HexView) -> Vec<u8> {
    view.buffers().current().data().to_vec()
}

fn spans(view: &HexView) -> Vec<(usize, usize)> {
    view.buffers().current().selection().iter().iter().map(|r| (r.caret, r.tail)).collect()
}

fn mode_name(view: &HexView) -> String {
    view.mode().name()
}

#[test]
fn move_and_replace() {
    let mut v = view(&[0x41, 0x42, 0x43, 0x44]);
    press(&mut v, "llrZ");
    esc(&mut v);
    assert_eq!(data(&v), vec![0x41, 0x42, 0x5a, 0x44]);
    assert_eq!(spans(&v), vec![(2, 2)]);
    assert_eq!(v.buffers().current().selection().main().len(), 1);
    assert_eq!(mode_name(&v), "NORMAL");
}

#[test]
fn insert_and_undo() {
    let mut v = view(&[]);
    press(&mut v, "iabc");
    assert_eq!(mode_name(&v), "INSERT (ascii)");
    esc(&mut v);
    assert_eq!(data(&v), vec![0x61, 0x62, 0x63]);
    assert_eq!(spans(&v), vec![(3, 3)]);
    press(&mut v, "u");
    assert_eq!(data(&v), Vec::<u8>::new());
    assert_eq!(spans(&v), vec![(0, 0)]);
}

#[test]
fn multi_selection_split_and_change() {
    let mut v = view(&[0xaa, 0xbb, 0xcc, 0xdd, 0xee, 0xff]);
    press(&mut v, "%");
    v.handle_event(&key(KeyCode::Char('s'), ALT));
    assert_eq!(mode_name(&v), "SPLIT");
    press(&mut v, "b");
    assert_eq!(spans(&v), vec![(0, 0), (1, 1), (2, 2), (3, 3), (4, 4), (5, 5)]);
    press(&mut v, "cX");
    esc(&mut v);
    assert_eq!(data(&v), vec![0x58; 6]);
    assert_eq!(v.buffers().current().selection().len(), 6);
}

#[test]
fn null_split() {
    let mut v = view(&[0x01, 0x00, 0x00, 0x02, 0x00, 0x03]);
    press(&mut v, "%");
    v.handle_event(&key(KeyCode::Char('s'), ALT));
    press(&mut v, "n");
    assert_eq!(spans(&v), vec![(0, 0), (3, 3), (5, 5)]);
    assert_eq!(mode_name(&v), "NORMAL");
}

#[test]
fn hex_insert_with_half_byte() {
    let mut v = view(&[0xff]);
    press(&mut v, "I7");
    assert_eq!(mode_name(&v), "INSERT (hex)");
    assert!(v.mode().has_half_cursor());
    assert!(matches!(v.mode(), Mode::Insert(insert) if insert.hex_half == Some(0x70)));
    esc(&mut v);
    assert_eq!(data(&v), vec![0x70, 0xff]);
    assert_eq!(v.buffers().current().selection().main_cursor_offset(), 0);
}

#[test]
fn hex_insert_of_whole_bytes() {
    let mut v = view(&[0xff]);
    press(&mut v, "I7f0A");
    esc(&mut v);
    assert_eq!(data(&v), vec![0x7f, 0x0a, 0xff]);
    assert_eq!(v.buffers().current().selection().main_cursor_offset(), 2);
}

#[test]
fn undo_chain_across_a_partial_run() {
    let mut v = view(&[0x00, 0x01, 0x02]);
    press(&mut v, "iABC");
    esc(&mut v);
    assert_eq!(data(&v), vec![0x41, 0x42, 0x43, 0x00, 0x01, 0x02]);
    press(&mut v, "u");
    assert_eq!(data(&v), vec![0x00, 0x01, 0x02]);
    press(&mut v, "u");
    assert_eq!(v.options().info, Some("nothing left to undo".to_string()));
    press(&mut v, "U");
    assert_eq!(data(&v), vec![0x41, 0x42, 0x43, 0x00, 0x01, 0x02]);
    press(&mut v, "U");
    assert_eq!(v.options().info, Some("nothing left to redo".to_string()));
}

#[test]
fn count_in_front_of_a_direction() {
    let mut v = view(&[0; 100]);
    press(&mut v, "1");
    assert_eq!(mode_name(&v), "NORMAL (1)");
    press(&mut v, "2l");
    assert_eq!(spans(&v), vec![(12, 12)]);
    assert_eq!(mode_name(&v), "NORMAL");
    press(&mut v, "3j");
    assert_eq!(spans(&v), vec![(60, 60)]);
    press(&mut v, "2H");
    assert_eq!(spans(&v), vec![(58, 60)]);
    press(&mut v, "k");
    assert_eq!(spans(&v), vec![(42, 42)]);
}

#[test]
fn hex_count_in_front_of_a_jump() {
    let mut v = view(&[0; 100]);
    press(&mut v, "x");
    assert_eq!(mode_name(&v), "NORMAL (0x)");
    press(&mut v, "1f");
    assert_eq!(mode_name(&v), "NORMAL (0x1f)");
    press(&mut v, "g");
    assert_eq!(spans(&v), vec![(0x1f, 0x1f)]);
    press(&mut v, "5x");
    assert_eq!(mode_name(&v), "NORMAL (0x5)");
    press(&mut v, "G");
    assert_eq!(spans(&v), vec![(5, 0x1f)]);
    press(&mut v, "999g");
    assert_eq!(spans(&v), vec![(100, 100)]);
}

#[test]
fn zero_does_not_start_a_count() {
    let mut v = view(&[0; 100]);
    let outcome = v.handle_event(&key(KeyCode::Char('0'), NONE));
    assert!(matches!(outcome, Outcome::NotHandled));
    assert_eq!(mode_name(&v), "NORMAL");
    press(&mut v, "10");
    assert_eq!(mode_name(&v), "NORMAL (10)");
    assert_eq!(State::NoCount.transition(&key(KeyCode::Char('0'), NONE)), Transition::NotHandled);
    assert_eq!(State::NoCount.to_count(), 1);
    assert_eq!(State::Typed { hex: false, count: 7 }.to_count(), 7);
}

#[test]
fn count_can_be_taken_back() {
    let mut v = view(&[0; 100]);
    press(&mut v, "12");
    v.handle_event(&key(KeyCode::Backspace, NONE));
    assert_eq!(mode_name(&v), "NORMAL (1)");
    v.handle_event(&key(KeyCode::Backspace, NONE));
    assert_eq!(mode_name(&v), "NORMAL");
    press(&mut v, "4");
    esc(&mut v);
    assert_eq!(mode_name(&v), "NORMAL");
    assert_eq!(
        State::Typed { hex: true, count: 0x1f }.to_string(),
        " (0x1f)"
    );
    assert_eq!(State::Typed { hex: false, count: 123 }.to_string(), " (123)");
    assert_eq!(
        State::Typed { hex: false, count: usize::MAX }.transition(&key(KeyCode::Char('9'), NONE)),
        Transition::NotHandled
    );
}

#[test]
fn jump_mode_takes_one_direction() {
    let mut v = view(&[0; 100]);
    press(&mut v, "20lg");
    assert_eq!(mode_name(&v), "JUMP");
    press(&mut v, "l");
    assert_eq!(spans(&v), vec![(31, 31)]);
    assert_eq!(mode_name(&v), "NORMAL");
    press(&mut v, "Gj");
    assert_eq!(spans(&v), vec![(99, 31)]);
    press(&mut v, "gq");
    assert_eq!(mode_name(&v), "NORMAL");
    assert_eq!(spans(&v), vec![(99, 31)]);
}

#[test]
fn delete_yank_and_paste() {
    let mut v = view(&[1, 2, 3, 4, 5]);
    press(&mut v, "lLd");
    assert_eq!(data(&v), vec![1, 4, 5]);
    assert_eq!(spans(&v), vec![(1, 1)]);
    press(&mut v, "p");
    assert_eq!(data(&v), vec![1, 4, 2, 3, 5]);
    press(&mut v, "2P");
    assert_eq!(data(&v).len(), 9);
    press(&mut v, "u");
    assert_eq!(data(&v), vec![1, 4, 2, 3, 5]);
    press(&mut v, "y");
    assert_eq!(v.buffers().current().register('"').map(|r| r.len()), Some(1));
}

#[test]
fn selections_are_swapped_collapsed_and_chosen() {
    let mut v = view(&[0; 20]);
    press(&mut v, "%");
    v.handle_event(&key(KeyCode::Char('s'), ALT));
    press(&mut v, "2d");
    assert_eq!(spans(&v), vec![(7, 0), (15, 8), (19, 16)]);
    v.handle_event(&key(KeyCode::Char(';'), ALT));
    assert_eq!(spans(&v), vec![(0, 7), (8, 15), (16, 19)]);
    press(&mut v, ";");
    assert_eq!(spans(&v), vec![(0, 0), (8, 8), (16, 16)]);
    assert_eq!(v.buffers().current().selection().main_index(), 2);
    press(&mut v, ")");
    assert_eq!(v.buffers().current().selection().main_index(), 0);
    press(&mut v, "2(");
    assert_eq!(v.buffers().current().selection().main_index(), 1);
    press(&mut v, "M");
    assert_eq!(v.options().info, Some("1 = 0x1 bytes".to_string()));
    v.handle_event(&key(KeyCode::Char(' '), ALT));
    assert_eq!(spans(&v), vec![(0, 0), (16, 16)]);
    press(&mut v, "1 ");
    assert_eq!(spans(&v), vec![(0, 0)]);
}

#[test]
fn collapse_onto_a_pattern() {
    let mut v = view(&[1, 2, 9, 1, 2, 1, 2, 2]);
    press(&mut v, "%S");
    assert_eq!(mode_name(&v), "COLLAPSE");
    press(&mut v, "0102");
    enter(&mut v);
    assert_eq!(mode_name(&v), "NORMAL");
    assert_eq!(spans(&v), vec![(1, 0), (4, 3), (6, 5)]);
}

#[test]
fn collapse_onto_a_pattern_with_a_wildcard() {
    let mut v = view(&[1, 2, 9, 1, 7, 1, 10, 2]);
    press(&mut v, "%S01");
    v.handle_event(&key(KeyCode::Char('w'), CTRL));
    enter(&mut v);
    assert_eq!(spans(&v), vec![(1, 0), (4, 3)]);
}

#[test]
fn split_at_a_pattern_typed_in_ascii() {
    let mut v = view(b"one, two, three");
    press(&mut v, "%");
    v.handle_event(&key(KeyCode::Char('s'), ALT));
    press(&mut v, "/, ");
    enter(&mut v);
    assert_eq!(spans(&v), vec![(2, 0), (7, 5), (14, 10)]);
}

#[test]
fn search_prompt_is_edited() {
    let mut v = view(&[0; 4]);
    press(&mut v, "sab");
    v.handle_event(&key(KeyCode::Left, NONE));
    v.handle_event(&key(KeyCode::Char('n'), CTRL));
    v.handle_event(&key(KeyCode::Delete, NONE));
    v.handle_event(&key(KeyCode::Char('o'), CTRL));
    press(&mut v, "4");
    match v.mode() {
        Mode::Search(search) => {
            assert_eq!(
                search.pattern.pieces,
                vec![PatternPiece::Literal(b'a'), PatternPiece::Literal(0), PatternPiece::Literal(0x40)]
            );
            assert_eq!(search.cursor, 2);
            assert_eq!(search.hex_half, Some(0x40));
            assert!(search.hex);
        }
        _ => panic!("the prompt is gone"),
    }
    press(&mut v, "1");
    v.handle_event(&key(KeyCode::Backspace, NONE));
    match v.mode() {
        Mode::Search(search) => {
            assert_eq!(
                search.pattern.pieces,
                vec![PatternPiece::Literal(b'a'), PatternPiece::Literal(0)]
            );
            assert_eq!(search.cursor, 2);
        }
        _ => panic!("the prompt is gone"),
    }
    esc(&mut v);
    assert_eq!(mode_name(&v), "NORMAL");
}

#[test]
fn pattern_matches_in_the_selection() {
    let buffer = Buffer::from_data_and_path(vec![5, 5, 5, 0, 5, 5], None);
    let mut buffers = Buffers::with_buffer(buffer);
    buffers.current_mut().select_all();
    let pattern = Pattern { pieces: vec![PatternPiece::Literal(5), PatternPiece::Literal(5)] };
    let found = pattern.map_selections_to_matches(buffers.current());
    let ranges: Vec<Vec<(usize, usize)>> =
        found.iter().map(|m| m.iter().map(|i| (i.start, i.end)).collect()).collect();
    assert_eq!(ranges, vec![vec![(0, 2), (4, 6)]]);
    assert_eq!(pattern.as_basic_slice(), Some(vec![5, 5]));
    let wild = Pattern { pieces: vec![PatternPiece::Wildcard, PatternPiece::Literal(0)] };
    assert_eq!(wild.as_basic_slice(), None);
    assert_eq!(wild.to_expression(), ".\\x00");
    let found = wild.map_selections_to_matches(buffers.current());
    assert_eq!(found[0].len(), 1);
    assert_eq!((found[0][0].start, found[0][0].end), (2, 4));
}

#[test]
fn insert_mode_keys() {
    let mut v = view(&[1, 2, 3]);
    press(&mut v, "la");
    assert_eq!(mode_name(&v), "APPEND (ascii)");
    assert_eq!(spans(&v), vec![(2, 1)]);
    press(&mut v, "x");
    assert_eq!(data(&v), vec![1, 2, 0x78, 3]);
    v.handle_event(&key(KeyCode::Char('n'), CTRL));
    assert_eq!(data(&v), vec![1, 2, 0x78, 0, 3]);
    v.handle_event(&key(KeyCode::Backspace, NONE));
    assert_eq!(data(&v), vec![1, 2, 0x78, 3]);
    v.handle_event(&key(KeyCode::Delete, NONE));
    assert_eq!(data(&v), vec![1, 2, 0x78]);
    v.handle_event(&key(KeyCode::Char('o'), CTRL));
    assert_eq!(mode_name(&v), "APPEND (hex)");
    v.handle_event(&key(KeyCode::Left, NONE));
    press(&mut v, "4");
    v.handle_event(&key(KeyCode::Right, NONE));
    assert_eq!(data(&v), vec![1, 2, 0x40, 0x78]);
    assert!(!v.mode().has_half_cursor());
    let outcome = v.handle_event(&key(KeyCode::Char('z'), NONE));
    assert!(matches!(outcome, Outcome::NotHandled));
    esc(&mut v);
    press(&mut v, "u");
    assert_eq!(data(&v), vec![1, 2, 3]);
}

#[test]
fn typed_characters_go_in_as_utf8() {
    let mut v = view(&[1]);
    press(&mut v, "i");
    v.handle_event(&key(KeyCode::Char('\u{e9}'), NONE));
    v.handle_event(&key(KeyCode::Char('\u{20ac}'), NONE));
    esc(&mut v);
    assert_eq!(data(&v), vec![0xc3, 0xa9, 0xe2, 0x82, 0xac, 1]);
    assert_eq!(spans(&v), vec![(5, 5)]);
}

#[test]
fn overwriting_moves_on_byte_by_byte() {
    let mut v = view(&[1, 2, 3, 4]);
    press(&mut v, "lcab");
    assert_eq!(mode_name(&v), "OVERWRITE (ascii)");
    assert_eq!(data(&v), vec![1, 0x61, 0x62, 4]);
    assert_eq!(spans(&v), vec![(3, 3)]);
    v.handle_event(&key(KeyCode::Char('o'), CTRL));
    press(&mut v, "f");
    assert_eq!(data(&v), vec![1, 0x61, 0x62, 0xf0]);
    assert_eq!(spans(&v), vec![(3, 3)]);
    press(&mut v, "e1");
    assert_eq!(data(&v), vec![1, 0x61, 0x62, 0xfe, 0x10]);
    assert_eq!(spans(&v), vec![(4, 4)]);
    esc(&mut v);
    press(&mut v, "u");
    assert_eq!(data(&v), vec![1, 2, 3, 4]);
    assert_eq!(spans(&v), vec![(1, 1)]);
    assert_eq!(v.buffers().current().register('"'), Some(&vec![vec![2]]));
}

#[test]
fn replace_in_hex() {
    let mut v = view(&[1, 2, 3, 4]);
    press(&mut v, "lLR");
    assert_eq!(mode_name(&v), "REPLACE (hex)");
    press(&mut v, "a");
    assert_eq!(mode_name(&v), "REPLACE (hex: a...)");
    assert!(v.mode().has_half_cursor());
    press(&mut v, "5");
    assert_eq!(data(&v), vec![1, 0xa5, 0xa5, 4]);
    assert_eq!(spans(&v), vec![(2, 1)]);
    v.handle_event(&key(KeyCode::Char('n'), CTRL));
    assert_eq!(data(&v), vec![1, 0, 0, 4]);
    assert_eq!(mode_name(&v), "NORMAL");
    press(&mut v, "u");
    assert_eq!(data(&v), vec![1, 0xa5, 0xa5, 4]);
}

#[test]
fn commands() {
    let mut v = view(&[1, 2, 3]);
    press(&mut v, ":");
    assert_eq!(mode_name(&v), "COMMAND");
    press(&mut v, "nope arg");
    assert!(matches!(enter(&mut v), Outcome::Handled));
    assert_eq!(v.options().info, Some("Unknown command nope".to_string()));
    assert_eq!(mode_name(&v), "NORMAL");

    press(&mut v, ":w");
    assert!(matches!(enter(&mut v), Outcome::Handled));
    assert_eq!(v.options().info, Some("buffer has no path".to_string()));

    press(&mut v, ":write out.bin");
    match enter(&mut v) {
        Outcome::Perform(Request::Write { path }) => assert_eq!(path, "out.bin"),
        _ => panic!("nothing asked"),
    }
    press(&mut v, "d");
    assert!(v.buffers().current().is_dirty());
    v.write_finished("out.bin".to_string());
    assert!(!v.buffers().current().is_dirty());
    assert_eq!(v.buffers().current().name(), "out.bin");

    press(&mut v, "d:q");
    assert!(matches!(enter(&mut v), Outcome::Handled));
    assert_eq!(v.options().info, Some("unsaved changes! Run :wq or :q! instead.".to_string()));
    assert!(v.mode().takes_input());
    press(&mut v, ":db");
    enter(&mut v);
    assert_eq!(v.options().info, Some("buffer is dirty, use :db! if you're sure".to_string()));
    press(&mut v, ":wq");
    assert!(matches!(enter(&mut v), Outcome::Perform(Request::WriteAll { quit: true })));
    press(&mut v, ":wa");
    assert!(matches!(enter(&mut v), Outcome::Perform(Request::WriteAll { quit: false })));
    press(&mut v, ":e  some file");
    match enter(&mut v) {
        Outcome::Perform(Request::Edit { path }) => assert_eq!(path, " some file"),
        _ => panic!("nothing asked"),
    }
    press(&mut v, ":db!");
    enter(&mut v);
    assert_eq!(v.buffers().current().name(), "*scratch*");
    press(&mut v, ":qx");
    v.handle_event(&key(KeyCode::Backspace, NONE));
    enter(&mut v);
    assert_eq!(mode_name(&v), "QUITTING");
    assert!(!v.mode().takes_input());
}

#[test]
fn events_that_are_no_keys() {
    let mut v = view(&[1, 2, 3]);
    assert!(matches!(v.handle_event(&Event::Resize(10, 20)), Outcome::NotHandled));
    assert!(v.handle_event_default(&Event::Resize(10, 20)));
    assert_eq!(v.options().size, (10, 20));
    assert!(!v.handle_event_default(&Event::Mouse));
    v.set_bytes_per_line(8);
    assert_eq!(v.options().bytes_per_line, 8);
    let visible = v.visible_bytes();
    assert_eq!((visible.start, visible.end), (0, 4));
    assert_eq!(v.offset_to_row(17), Some(2));
    press(&mut v, "l");
    assert!(v.take_dirty().is_some());
    assert!(v.take_dirty().is_none());
    v.quit();
    assert_eq!(mode_name(&v), "QUITTING");
}

#[test]
fn key_map_takes_the_last_binding() {
    let mut map: KeyMap<u8> = KeyMap::new();
    map.plain('a', 1);
    map.ctrl('a', 2);
    map.alt('a', 3);
    map.key(KeyCode::Enter, 4);
    map.plain('a', 5);
    assert_eq!(map.event_to_action(&key(KeyCode::Char('a'), NONE)), Some(5));
    assert_eq!(map.event_to_action(&key(KeyCode::Char('a'), SHIFT)), Some(5));
    assert_eq!(map.event_to_action(&key(KeyCode::Char('a'), CTRL)), Some(2));
    assert_eq!(map.event_to_action(&key(KeyCode::Char('a'), ALT)), Some(3));
    assert_eq!(map.event_to_action(&key(KeyCode::Enter, NONE)), Some(4));
    assert_eq!(map.event_to_action(&key(KeyCode::Char('b'), NONE)), None);
    assert_eq!(map.event_to_action(&Event::Mouse), None);
}
