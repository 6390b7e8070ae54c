use teehee::buffer::{coalesce, Buffer, Buffers, ByteInterval, DirtyBytes, OverflowSelectionStyle};
use teehee::operations::{deletion, insert};
use teehee::selection::SelRegion;

fn buffer(bytes: &[u8]) -> Buffer {
    Buffer::from_data_and_path(bytes.to_vec(), None)
}

fn spans(buffer: &Buffer) -> Vec<(usize, usize)> {
    buffer.selection().iter().iter().map(|r| (r.caret, r.tail)).collect()
}

fn iv(start: usize, end: usize) -> ByteInterval {
    ByteInterval::new(start, end)
}

#[test]
fn fresh_buffer() {
    let buf = buffer(&[1, 2, 3]);
    assert_eq!(buf.data().to_vec(), vec![1, 2, 3]);
    assert_eq!(spans(&buf), vec![(0, 0)]);
    assert!(!buf.is_dirty());
    assert_eq!(buf.name(), "*scratch*");
    assert!(buf.register('"').is_none());
    let named = Buffer::from_data_and_path(vec![], Some("a/b.bin".to_string()));
    assert_eq!(named.name(), "a/b.bin");
    assert_eq!(Buffer::default().data().len(), 0);
}

#[test]
fn coalesce_joins_what_overlaps() {
    let joined = coalesce(&vec![iv(5, 8), iv(0, 2), iv(7, 10), iv(2, 3), iv(20, 21), iv(6, 7)]);
    assert_eq!(joined, vec![iv(0, 2), iv(2, 3), iv(5, 10), iv(20, 21)]);
    assert_eq!(coalesce(&vec![]), vec![]);
}

#[test]
fn map_selections_says_what_to_draw_again() {
    let mut buf = buffer(&[0; 10]);
    let dirty = buf.map_selections(vec![vec![SelRegion::new(5, 3), SelRegion::new(8, 8)]]);
    assert_eq!(dirty, DirtyBytes::ChangeInPlace(vec![iv(0, 1), iv(3, 6), iv(8, 9)]));
    assert_eq!(spans(&buf), vec![(5, 3), (8, 8)]);
    assert!(buf.try_map_selections(vec![vec![SelRegion::new(11, 11)], vec![]]).is_none());
    assert_eq!(spans(&buf), vec![(5, 3), (8, 8)]);
}

#[test]
fn apply_delta_edits_and_moves_the_selection() {
    let mut buf = buffer(&[0, 1, 2, 3, 4]);
    buf.map_selections(vec![vec![SelRegion::new(2, 1), SelRegion::new(5, 5)]]);
    let delta = deletion(buf.data(), buf.selection());
    assert_eq!(buf.apply_delta(delta), DirtyBytes::ChangeLength);
    assert_eq!(buf.data().to_vec(), vec![0, 3, 4]);
    assert_eq!(spans(&buf), vec![(1, 1), (3, 3)]);
    assert!(buf.is_dirty());
    buf.mark_clean();
    assert!(!buf.is_dirty());
}

#[test]
fn caret_past_the_end_stays_past_the_end() {
    let mut buf = buffer(&[0, 1]);
    buf.map_selections(vec![vec![SelRegion::new(2, 2)]]);
    let delta = insert(buf.data(), buf.selection(), vec![7, 8, 9]).unwrap();
    buf.apply_delta(delta);
    assert_eq!(buf.data().to_vec(), vec![0, 1, 7, 8, 9]);
    assert_eq!(spans(&buf), vec![(5, 5)]);
    assert_eq!(buf.overflow_sel_style(), Some(OverflowSelectionStyle::CursorTail));

    let delta = insert(buf.data(), buf.selection(), vec![1]).unwrap();
    buf.apply_delta_offset_carets(delta, -1, 0);
    assert_eq!(spans(&buf), vec![(5, 6)]);
    assert_eq!(buf.overflow_sel_style(), Some(OverflowSelectionStyle::Tail));
    buf.map_selections(vec![vec![SelRegion::new(6, 2)]]);
    assert_eq!(buf.overflow_sel_style(), Some(OverflowSelectionStyle::Cursor));
    buf.map_selections(vec![vec![SelRegion::new(3, 2)]]);
    assert_eq!(buf.overflow_sel_style(), None);
}

#[test]
fn undo_redo_undo_leads_back() {
    let mut buf = buffer(&[0, 1, 2, 3, 4]);
    buf.map_selections(vec![vec![SelRegion::new(2, 1)]]);
    assert!(buf.perform_undo().is_none());
    let delta = deletion(buf.data(), buf.selection());
    buf.apply_delta(delta);
    assert_eq!(buf.data().to_vec(), vec![0, 3, 4]);

    assert_eq!(buf.perform_undo(), Some(DirtyBytes::ChangeLength));
    assert_eq!(buf.data().to_vec(), vec![0, 1, 2, 3, 4]);
    assert_eq!(spans(&buf), vec![(2, 1)]);
    assert_eq!(buf.perform_redo(), Some(DirtyBytes::ChangeLength));
    assert_eq!(buf.data().to_vec(), vec![0, 3, 4]);
    assert_eq!(spans(&buf), vec![(1, 1)]);
    assert!(buf.perform_redo().is_none());
    assert_eq!(buf.perform_undo(), Some(DirtyBytes::ChangeLength));
    assert_eq!(buf.data().to_vec(), vec![0, 1, 2, 3, 4]);
    assert_eq!(spans(&buf), vec![(2, 1)]);
}

#[test]
fn incomplete_edits_become_one_step() {
    let mut buf = buffer(&[9, 9]);
    let start = spans(&buf);
    for byte in [1u8, 2, 3] {
        let delta = insert(buf.data(), buf.selection(), vec![byte]).unwrap();
        buf.apply_incomplete_delta(delta);
        assert!(buf.has_partial());
    }
    assert_eq!(buf.data().to_vec(), vec![1, 2, 3, 9, 9]);
    buf.commit_delta();
    assert!(!buf.has_partial());
    assert_eq!(buf.perform_undo(), Some(DirtyBytes::ChangeLength));
    assert_eq!(buf.data().to_vec(), vec![9, 9]);
    assert_eq!(spans(&buf), start);
    assert!(buf.perform_undo().is_none());
    buf.perform_redo();
    assert_eq!(buf.data().to_vec(), vec![1, 2, 3, 9, 9]);
}

#[test]
fn try_apply_refuses_what_does_not_fit() {
    let mut buf = buffer(&[0, 1, 2, 3, 4]);
    let other = buffer(&[0, 1, 2]);
    let delta = deletion(other.data(), other.selection());
    assert!(buf.try_apply(delta, false, 0, 0).is_none());
    assert_eq!(buf.data().to_vec(), vec![0, 1, 2, 3, 4]);
    assert!(!buf.is_dirty());
    let delta = deletion(buf.data(), buf.selection());
    assert_eq!(buf.try_apply(delta, false, 0, 0), Some(DirtyBytes::ChangeLength));
    assert_eq!(buf.data().to_vec(), vec![1, 2, 3, 4]);
}

#[test]
fn selection_commands_of_the_buffer() {
    let mut buf = buffer(&[0; 10]);
    buf.map_selections(vec![vec![SelRegion::new(1, 0), SelRegion::new(4, 4), SelRegion::new(8, 6)]]);
    assert_eq!(buf.select_next(1), DirtyBytes::ChangeInPlace(vec![iv(0, 2), iv(6, 9)]));
    assert_eq!(buf.selection().main_index(), 0);
    assert_eq!(buf.select_prev(3), DirtyBytes::ChangeInPlace(vec![iv(0, 2)]));
    assert_eq!(
        buf.remove_selection(4),
        DirtyBytes::ChangeInPlace(vec![iv(0, 2), iv(4, 5), iv(6, 9)])
    );
    assert_eq!(spans(&buf), vec![(1, 0), (8, 6)]);
    assert_eq!(buf.retain_selection(3), DirtyBytes::ChangeInPlace(vec![iv(0, 2), iv(6, 9)]));
    assert_eq!(spans(&buf), vec![(8, 6)]);
    assert_eq!(buf.select_all(), DirtyBytes::ChangeInPlace(vec![iv(0, 10)]));
    assert_eq!(spans(&buf), vec![(9, 0)]);
}

#[test]
fn yank_copies_each_region() {
    let mut buf = buffer(&[10, 11, 12, 13]);
    buf.map_selections(vec![vec![SelRegion::new(1, 0), SelRegion::new(4, 3)]]);
    buf.yank_selections('"');
    assert_eq!(buf.register('"'), Some(&vec![vec![10, 11], vec![13]]));
    assert!(buf.register('a').is_none());
    let mut empty = buffer(&[]);
    empty.yank_selections('x');
    assert_eq!(empty.register('x'), Some(&vec![vec![]]));
}

#[test]
fn path_is_taken_only_if_missing() {
    let mut buf = buffer(&[]);
    buf.update_path_if_missing("one".to_string());
    buf.update_path_if_missing("two".to_string());
    assert_eq!(buf.path(), &Some("one".to_string()));
}

#[test]
fn buffers_switch_open_and_delete() {
    let mut buffers = Buffers::new();
    assert_eq!(buffers.len(), 1);
    buffers.open(Buffer::from_data_and_path(vec![1], Some("a".to_string())));
    buffers.open(Buffer::from_data_and_path(vec![2], Some("b".to_string())));
    assert_eq!(buffers.current().name(), "b");
    let canonical = vec![None, Some("/x/a".to_string()), Some("/x/b".to_string())];
    assert!(buffers.switch_buffer(&canonical, &"/x/a".to_string()));
    assert_eq!(buffers.current().name(), "a");
    assert!(!buffers.switch_buffer(&canonical, &"/x/c".to_string()));
    assert_eq!(buffers.current().name(), "a");
    buffers.current_mut().yank_selections('r');
    assert!(buffers.current().register('r').is_some());
    buffers.delete_current();
    assert_eq!(buffers.current().name(), "*scratch*");
    assert_eq!(buffers.iter().len(), 2);
    buffers.delete_current();
    assert_eq!(buffers.current().name(), "b");
    buffers.delete_current();
    assert_eq!(buffers.len(), 1);
    assert_eq!(buffers.current().name(), "*scratch*");
    assert_eq!(Buffers::with_buffer(Buffer::default()).len(), 1);
    assert_eq!(Buffers::default().len(), 1);
    buffers.get_mut(0).update_path_if_missing("z".to_string());
    assert_eq!(buffers.current().name(), "z");
}

#[test]
fn nothing_to_undo_while_a_first_run_is_under_way() {
    let mut b = buffer(&[1, 2, 3]);
    let delta = insert(b.data(), b.selection(), vec![9]).unwrap();
    b.apply_incomplete_delta(delta);
    assert!(b.has_partial());
    assert_eq!(b.perform_undo(), None);
    assert_eq!(b.perform_redo(), None);
    assert_eq!(b.data().to_vec(), vec![9, 1, 2, 3]);
    assert!(b.has_partial());
    b.commit_delta();
    assert_eq!(b.perform_undo(), Some(DirtyBytes::ChangeLength));
    assert_eq!(b.data().to_vec(), vec![1, 2, 3]);
}

#[test]
fn dropping_the_last_buffer_leaves_a_fresh_one() {
    let mut one = buffer(&[1, 2, 3]);
    let delta = deletion(one.data(), one.selection());
    one.apply_delta(delta);
    one.yank_selections('a');
    let mut buffers = Buffers::with_buffer(one);
    buffers.delete_current();
    assert_eq!(buffers.len(), 1);
    let left = buffers.current();
    assert!(left.data().is_empty());
    assert!(!left.is_dirty());
    assert!(left.path().is_none());
    assert!(left.register('a').is_none());
    assert_eq!(spans(left), vec![(0, 0)]);
    let mut buffers = buffers;
    assert_eq!(buffers.current_mut().perform_undo(), None);
}
