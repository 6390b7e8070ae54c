use teehee::byte_rope::Rope;
use teehee::delta::RopeDelta;
use teehee::operations::{
    backspace, change, delete_cursor, deletion, insert, overwrite_half, paste, replace,
};
use teehee::selection::{SelRegion, Selection};

fn selection(len: usize, regions: Vec<(usize, usize)>) -> Selection {
    let mut sel = Selection::new();
    sel.select_all(len.max(1));
    sel.map_selections(vec![regions.iter().map(|(c, t)| SelRegion::new(*c, *t)).collect()]);
    sel
}

fn applied(base: &[u8], delta: &RopeDelta) -> Vec<u8> {
    Rope::from_bytes(base.to_vec()).apply_delta(delta).unwrap().to_vec()
}

const BASE: [u8; 8] = [0, 1, 2, 3, 4, 5, 6, 7];

#[test]
fn deletion_takes_every_region() {
    let rope = Rope::from_bytes(BASE.to_vec());
    let sel = selection(8, vec![(1, 0), (4, 4), (6, 7)]);
    assert_eq!(applied(&BASE, &deletion(&rope, &sel)), vec![2, 3, 5]);
    let past_end = selection(9, vec![(8, 6)]);
    assert_eq!(applied(&BASE, &deletion(&rope, &past_end)), vec![0, 1, 2, 3, 4, 5]);
}

#[test]
fn backspace_takes_the_byte_before_each_caret() {
    let rope = Rope::from_bytes(BASE.to_vec());
    let sel = selection(9, vec![(0, 0), (3, 2), (8, 8)]);
    assert_eq!(applied(&BASE, &backspace(&rope, &sel)), vec![0, 1, 3, 4, 5, 6]);
}

#[test]
fn delete_cursor_takes_the_byte_at_each_caret() {
    let rope = Rope::from_bytes(BASE.to_vec());
    let sel = selection(9, vec![(0, 0), (3, 2), (8, 8)]);
    assert_eq!(applied(&BASE, &delete_cursor(&rope, &sel)), vec![1, 2, 4, 5, 6, 7]);
}

#[test]
fn insert_puts_the_text_at_each_caret() {
    let rope = Rope::from_bytes(BASE.to_vec());
    let sel = selection(9, vec![(0, 0), (3, 2), (8, 8)]);
    let delta = insert(&rope, &sel, vec![0xaa, 0xbb]).unwrap();
    assert_eq!(
        applied(&BASE, &delta),
        vec![0xaa, 0xbb, 0, 1, 2, 0xaa, 0xbb, 3, 4, 5, 6, 7, 0xaa, 0xbb]
    );
    let nothing = insert(&rope, &sel, vec![]).unwrap();
    assert_eq!(applied(&BASE, &nothing), BASE.to_vec());
}

#[test]
fn change_replaces_the_byte_at_each_caret() {
    let rope = Rope::from_bytes(BASE.to_vec());
    let sel = selection(9, vec![(0, 0), (3, 2), (8, 8)]);
    let delta = change(&rope, &sel, vec![0xaa, 0xbb]).unwrap();
    assert_eq!(
        applied(&BASE, &delta),
        vec![0xaa, 0xbb, 1, 2, 0xaa, 0xbb, 4, 5, 6, 7, 0xaa, 0xbb]
    );
    let half = overwrite_half(&rope, &sel, 0x70).unwrap();
    assert_eq!(applied(&BASE, &half), vec![0x70, 1, 2, 0x70, 4, 5, 6, 7, 0x70]);
}

#[test]
fn replace_overwrites_every_selected_byte() {
    let rope = Rope::from_bytes(BASE.to_vec());
    let sel = selection(8, vec![(1, 0), (4, 4), (6, 7)]);
    let delta = replace(&rope, &sel, 0xee).unwrap();
    assert_eq!(applied(&BASE, &delta), vec![0xee, 0xee, 2, 3, 0xee, 5, 0xee, 0xee]);
}

#[test]
fn paste_fills_every_region() {
    let rope = Rope::from_bytes(BASE.to_vec());
    let sel = selection(8, vec![(1, 0), (4, 4), (6, 7)]);
    let contents = vec![vec![0xa1], vec![0xb1, 0xb2]];
    let before = paste(&rope, &sel, &contents, false, 2).unwrap();
    assert_eq!(
        applied(&BASE, &before),
        vec![0xa1, 0xa1, 0, 1, 2, 3, 0xb1, 0xb2, 0xb1, 0xb2, 4, 5, 0xb1, 0xb2, 0xb1, 0xb2, 6, 7]
    );
    let after = paste(&rope, &sel, &contents, true, 1).unwrap();
    assert_eq!(
        applied(&BASE, &after),
        vec![0, 1, 0xa1, 2, 3, 4, 0xb1, 0xb2, 5, 6, 7, 0xb1, 0xb2]
    );
    let none = paste(&rope, &sel, &contents, true, 0).unwrap();
    assert_eq!(applied(&BASE, &none), BASE.to_vec());
}
