use teehee::buffer::Buffer;
use teehee::byte_rope::Rope;
use teehee::delta::{DeltaBuilder, DeltaPiece, RopeDelta};
use teehee::history::Action;
use teehee::operations::{change, delete_cursor, deletion, insert, paste};
use teehee::selection::{SelRegion, Selection};

struct Numbers(u64);

impl Numbers {
    fn next(&mut self) -> u64 {
        self.0 = self.0.wrapping_mul(6364136223846793005).wrapping_add(1442695040888963407);
        self.0 >> 33
    }

    fn below(&mut self, n: usize) -> usize {
        (self.next() % (n as u64)) as usize
    }

    fn bytes(&mut self, n: usize) -> Vec<u8> {
        (0..n).map(|_| self.next() as u8).collect()
    }
}

/// Ordered edits of a document of `len` bytes: where each starts and ends,
/// and what it inserts.
fn edits(numbers: &mut Numbers, len: usize) -> Vec<(usize, usize, Vec<u8>)> {
    let mut out = Vec::new();
    let mut at = 0;
    while at <= len && out.len() < 6 {
        let start = at + numbers.below(len - at + 1);
        let end = start + numbers.below((len - start).min(4) + 1);
        let many = numbers.below(4);
        let text = numbers.bytes(many);
        if end > start || !text.is_empty() {
            out.push((start, end, text));
        }
        at = end + 1;
    }
    out
}

fn delta_of(len: usize, edits: &[(usize, usize, Vec<u8>)]) -> RopeDelta {
    let mut builder = DeltaBuilder::new(len);
    for (start, end, text) in edits {
        builder.replace(*start, *end, Rope::from_bytes(text.clone())).unwrap();
    }
    builder.build().unwrap()
}

fn edited(base: &[u8], edits: &[(usize, usize, Vec<u8>)]) -> Vec<u8> {
    let mut out = Vec::new();
    let mut at = 0;
    for (start, end, text) in edits {
        out.extend_from_slice(&base[at..*start]);
        out.extend_from_slice(text);
        at = *end;
    }
    out.extend_from_slice(&base[at..]);
    out
}

/// Where an offset lies after the edit, worked out from the pieces.
fn moved(delta: &RopeDelta, ix: usize, after: bool) -> usize {
    if ix == 0 && !after {
        return 0;
    }
    let mut result = 0;
    for piece in delta.elements() {
        match piece {
            DeltaPiece::Copy(beg, end) => {
                if ix <= beg {
                    return result;
                }
                if ix < end || (ix == end && !after) {
                    return result + ix - beg;
                }
                result += end - beg;
            }
            DeltaPiece::Insert(rope) => result += rope.len(),
        }
    }
    result
}

#[test]
fn a_delta_makes_what_its_edits_say() {
    let mut numbers = Numbers(1);
    for _ in 0..300 {
        let len = numbers.below(12);
        let base = numbers.bytes(len);
        let list = edits(&mut numbers, base.len());
        let delta = delta_of(base.len(), &list);
        let want = edited(&base, &list);
        assert!(delta.applies_to(base.len()));
        assert_eq!(delta.new_document_len(), want.len());
        assert_eq!(Rope::from_bytes(base.clone()).apply_delta(&delta).unwrap().to_vec(), want);
        for ix in 0..=base.len() {
            assert_eq!(delta.transform(ix, true), moved(&delta, ix, true));
            assert_eq!(delta.transform(ix, false), moved(&delta, ix, false));
        }
        assert_eq!(delta.transform(base.len(), true), want.len());
    }
}

#[test]
fn the_inverse_of_an_edit_takes_it_back() {
    let mut numbers = Numbers(2);
    for _ in 0..300 {
        let len = numbers.below(12);
        let base = numbers.bytes(len);
        let list = edits(&mut numbers, base.len());
        let delta = delta_of(base.len(), &list);
        let rope = Rope::from_bytes(base.clone());
        let after = rope.apply_delta(&delta).unwrap();
        let inverse = Action::from_delta(delta.clone()).invert(&rope);
        assert!(inverse.delta.applies_to(after.len()));
        assert_eq!(inverse.delta.new_document_len(), base.len());
        assert_eq!(after.apply_delta(&inverse.delta).unwrap().to_vec(), base);
        let again = inverse.invert(&after);
        assert_eq!(rope.apply_delta(&again.delta).unwrap().to_vec(), after.to_vec());
    }
}

#[test]
fn a_chain_of_two_edits_makes_what_they_make_in_turn() {
    let mut numbers = Numbers(3);
    for _ in 0..300 {
        let len = numbers.below(12);
        let base = numbers.bytes(len);
        let first = edits(&mut numbers, base.len());
        let mid = edited(&base, &first);
        let second = edits(&mut numbers, mid.len());
        let last = edited(&mid, &second);
        let delta1 = delta_of(base.len(), &first);
        let delta2 = delta_of(mid.len(), &second);
        let mid_rope = Rope::from_bytes(mid.clone());
        let chained = Action::from_delta(delta1).chain(&mid_rope, delta2);
        assert!(chained.delta.applies_to(base.len()));
        assert_eq!(chained.delta.new_document_len(), last.len());
        assert_eq!(
            Rope::from_bytes(base.clone()).apply_delta(&chained.delta).unwrap().to_vec(),
            last
        );
    }
}

fn regions(numbers: &mut Numbers, len: usize) -> Vec<SelRegion> {
    let mut out = Vec::new();
    let mut at = 0;
    while at <= len && out.len() < 5 {
        let a = at + numbers.below(len - at + 1);
        let b = a + numbers.below((len - a).min(3) + 1);
        out.push(if numbers.below(2) == 0 { SelRegion::new(a, b) } else { SelRegion::new(b, a) });
        at = b + 1 + numbers.below(3);
    }
    out
}

fn check_selection(sel: &Selection, len: usize) {
    let list = sel.iter();
    assert!(!list.is_empty());
    for pair in list.windows(2) {
        assert!(pair[0].max() < pair[1].min());
    }
    let flags: Vec<bool> = list.iter().map(|r| r.is_main()).collect();
    assert_eq!(flags.iter().filter(|m| **m).count(), 1);
    assert!(flags[sel.main_index()]);
    for r in list.iter() {
        assert!(r.caret <= len && r.tail <= len);
    }
}

#[test]
fn a_run_of_incomplete_edits_is_undone_in_one_step() {
    let mut numbers = Numbers(4);
    for round in 0..200 {
        let len = numbers.below(10);
        let base = numbers.bytes(len);
        let mut buf = Buffer::from_data_and_path(base.clone(), None);
        let start = regions(&mut numbers, base.len());
        if buf.try_map_selections(vec![start]).is_none() {
            continue;
        }
        let selection_before: Vec<SelRegion> = buf.selection().iter().clone();
        let steps = 1 + numbers.below(4);
        let mut done = 0;
        for _ in 0..steps {
            let delta = match numbers.below(4) {
                0 => insert(buf.data(), buf.selection(), numbers.bytes(1 + round % 2)).unwrap(),
                1 => change(buf.data(), buf.selection(), numbers.bytes(1)).unwrap(),
                2 => delete_cursor(buf.data(), buf.selection()),
                _ => deletion(buf.data(), buf.selection()),
            };
            if buf.try_apply(delta, true, 0, 0).is_some() {
                done += 1;
            }
            check_selection(buf.selection(), buf.data().len());
        }
        let last = buf.data().to_vec();
        let selection_after: Vec<SelRegion> = buf.selection().iter().clone();
        buf.commit_delta();
        if done == 0 {
            assert!(buf.perform_undo().is_none());
            continue;
        }
        assert!(buf.perform_undo().is_some());
        assert_eq!(buf.data().to_vec(), base);
        assert_eq!(buf.selection().iter(), &selection_before);
        assert!(buf.perform_undo().is_none());
        assert!(buf.perform_redo().is_some());
        assert_eq!(buf.data().to_vec(), last);
        assert_eq!(buf.selection().iter(), &selection_after);
        assert!(buf.perform_undo().is_some());
        assert_eq!(buf.data().to_vec(), base);
        assert_eq!(buf.selection().iter(), &selection_before);
    }
}

#[test]
fn selections_stay_ordered_disjoint_and_inside() {
    let mut numbers = Numbers(5);
    for _ in 0..300 {
        let len = 1 + numbers.below(20);
        let mut sel = Selection::new();
        sel.select_all(len);
        let list = regions(&mut numbers, len);
        if !sel.try_map_selections(vec![list]) {
            check_selection(&sel, len);
            continue;
        }
        check_selection(&sel, len);
        let images: Vec<Vec<SelRegion>> = sel
            .iter()
            .iter()
            .map(|r| {
                let shift = numbers.below(4);
                vec![SelRegion::new((r.caret + shift).min(len), r.tail)]
            })
            .collect();
        sel.try_map_selections(images);
        check_selection(&sel, len);
        sel.select_next(numbers.below(7));
        check_selection(&sel, len);
        sel.select_prev(numbers.below(7));
        check_selection(&sel, len);
        sel.remove(numbers.below(sel.len()));
        check_selection(&sel, len);
        sel.retain(numbers.below(sel.len()));
        check_selection(&sel, len);
    }
}

#[test]
fn paste_gives_each_region_its_entry_count_times() {
    let base: Vec<u8> = (0..10).collect();
    let rope = Rope::from_bytes(base.clone());
    let mut sel = Selection::new();
    sel.select_all(10);
    sel.map_selections(vec![vec![
        SelRegion::new(0, 0),
        SelRegion::new(3, 2),
        SelRegion::new(5, 6),
        SelRegion::new(9, 9),
    ]]);
    let contents = vec![vec![0xa0], vec![0xb0, 0xb1]];
    let delta = paste(&rope, &sel, &contents, false, 3).unwrap();
    let got = rope.apply_delta(&delta).unwrap().to_vec();
    let mut want = Vec::new();
    let starts = [0usize, 2, 5, 9];
    let mut at = 0;
    for (i, start) in starts.iter().enumerate() {
        want.extend_from_slice(&base[at..*start]);
        for _ in 0..3 {
            want.extend_from_slice(&contents[i.min(contents.len() - 1)]);
        }
        at = *start;
    }
    want.extend_from_slice(&base[at..]);
    assert_eq!(got, want);
}
