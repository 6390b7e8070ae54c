use teehee::byte_rope::Rope;
use teehee::delta::DeltaBuilder;
use teehee::history::{Action, History};
use teehee::selection::Selection;

fn rope(bytes: &[u8]) -> Rope {
    Rope::from_bytes(bytes.to_vec())
}

fn all(rope: &Rope) -> Vec<u8> {
    rope.slice_to_cow(0, rope.len())
}

#[test]
fn test_delete() {
    let base_rope = rope(&[0, 1, 2, 3]);
    let mut delta_builder = DeltaBuilder::new(base_rope.len());
    delta_builder.delete(0, 1).unwrap();
    let deletion = delta_builder.build().unwrap();
    let inversion = Action { delta: deletion.clone() }.invert(&base_rope);

    let erased_rope = base_rope.apply_delta(&deletion).unwrap();
    assert_eq!(&all(&erased_rope), &vec![1, 2, 3]);
    let unerased_rope = erased_rope.apply_delta(&inversion.delta).unwrap();
    assert_eq!(&all(&unerased_rope), &vec![0, 1, 2, 3]);
}

#[test]
fn test_middle_delete() {
    let base_rope = rope(&[0, 1, 2, 3]);
    let mut delta_builder = DeltaBuilder::new(base_rope.len());
    delta_builder.delete(1, 3).unwrap();
    let deletion = delta_builder.build().unwrap();
    let inversion = Action { delta: deletion.clone() }.invert(&base_rope);

    let erased_rope = base_rope.apply_delta(&deletion).unwrap();
    assert_eq!(&all(&erased_rope), &vec![0, 3]);
    let unerased_rope = erased_rope.apply_delta(&inversion.delta).unwrap();
    assert_eq!(&all(&unerased_rope), &vec![0, 1, 2, 3]);
}

#[test]
fn test_insert() {
    let base_rope = rope(&[0, 1, 2, 3]);
    let mut delta_builder = DeltaBuilder::new(base_rope.len());
    delta_builder.replace(1, 1, rope(&[5])).unwrap();
    let insertion = delta_builder.build().unwrap();
    let inversion = Action { delta: insertion.clone() }.invert(&base_rope);

    let inserted_rope = base_rope.apply_delta(&insertion).unwrap();
    assert_eq!(&all(&inserted_rope), &vec![0, 5, 1, 2, 3]);
    let uninserted_rope = inserted_rope.apply_delta(&inversion.delta).unwrap();
    assert_eq!(&all(&uninserted_rope), &vec![0, 1, 2, 3]);
}

#[test]
fn test_replace() {
    let base_rope = rope(&[0, 1, 2, 3]);
    let mut delta_builder = DeltaBuilder::new(base_rope.len());
    delta_builder.replace(1, 2, rope(&[5, 6])).unwrap();
    let sub = delta_builder.build().unwrap();
    let inversion = Action { delta: sub.clone() }.invert(&base_rope);

    let replaced_rope = base_rope.apply_delta(&sub).unwrap();
    assert_eq!(&all(&replaced_rope), &vec![0, 5, 6, 2, 3]);
    let unreplaced_rope = replaced_rope.apply_delta(&inversion.delta).unwrap();
    assert_eq!(&all(&unreplaced_rope), &vec![0, 1, 2, 3]);
}

#[test]
fn test_chain_delete() {
    let base_rope = rope(&[0, 1, 2, 3]);
    let mut delta_builder = DeltaBuilder::new(base_rope.len());
    delta_builder.delete(0, 1).unwrap();
    let deletion1 = delta_builder.build().unwrap();
    let mid_rope = base_rope.apply_delta(&deletion1).unwrap();

    let mut delta_builder2 = DeltaBuilder::new(mid_rope.len());
    delta_builder2.delete(0, 1).unwrap();
    let deletion2 = delta_builder2.build().unwrap();
    let final_rope = mid_rope.apply_delta(&deletion2).unwrap();

    assert_eq!(&all(&final_rope), &vec![2, 3]);
    let chained_subsets =
        Action::from_delta(deletion1.clone()).subsets_for_chain(deletion2.clone());
    assert_eq!(&chained_subsets.0.delete_from_string("0123"), "0123");
    assert_eq!(&chained_subsets.1.delete_from_string("0123"), "23");
    assert_eq!(&chained_subsets.2.delete_from_string("123"), "123");

    let chained_delta = Action::from_delta(deletion1).chain(&mid_rope, deletion2);
    let chain_final_rope = base_rope.apply_delta(&chained_delta.delta).unwrap();
    assert_eq!(&all(&chain_final_rope), &vec![2, 3]);
}

#[test]
fn test_chain_delete_insert() {
    let base_rope = rope(&[0, 1, 2, 3]);
    let mut delta_builder = DeltaBuilder::new(base_rope.len());
    delta_builder.delete(0, 1).unwrap();
    let deletion1 = delta_builder.build().unwrap();
    let mid_rope = base_rope.apply_delta(&deletion1).unwrap();

    let mut delta_builder2 = DeltaBuilder::new(mid_rope.len());
    delta_builder2.replace(1, 1, rope(&[5, 6])).unwrap();
    let insertion = delta_builder2.build().unwrap();
    let final_rope = mid_rope.apply_delta(&insertion).unwrap();

    assert_eq!(&all(&final_rope), &vec![1, 5, 6, 2, 3]);
    let chained_subsets =
        Action::from_delta(deletion1.clone()).subsets_for_chain(insertion.clone());
    assert_eq!(&chained_subsets.0.delete_from_string("015623"), "0123");
    assert_eq!(&chained_subsets.1.delete_from_string("015623"), "15623");
    assert_eq!(&chained_subsets.2.delete_from_string("15623"), "123");

    let chained_delta = Action::from_delta(deletion1).chain(&mid_rope, insertion);
    let chain_final_rope = base_rope.apply_delta(&chained_delta.delta).unwrap();
    assert_eq!(&all(&chain_final_rope), &vec![1, 5, 6, 2, 3]);
}

#[test]
fn test_chain_insert_delete() {
    let base_rope = rope(&[0, 1, 2, 3]);
    let mut delta_builder = DeltaBuilder::new(base_rope.len());
    delta_builder.replace(0, 0, rope(&[5, 6, 7])).unwrap();
    let insertion = delta_builder.build().unwrap();
    let mid_rope = base_rope.apply_delta(&insertion).unwrap();

    let mut delta_builder2 = DeltaBuilder::new(mid_rope.len());
    delta_builder2.delete(0, 1).unwrap();
    let deletion = delta_builder2.build().unwrap();
    let final_rope = mid_rope.apply_delta(&deletion).unwrap();

    assert_eq!(&all(&final_rope), &vec![6, 7, 0, 1, 2, 3]);
    let chained_subsets =
        Action::from_delta(insertion.clone()).subsets_for_chain(deletion.clone());
    assert_eq!(&chained_subsets.0.delete_from_string("5670123"), "0123");
    assert_eq!(&chained_subsets.1.delete_from_string("5670123"), "670123");
    assert_eq!(&chained_subsets.2.delete_from_string("5670123"), "0123");

    let chained_delta = Action::from_delta(insertion).chain(&mid_rope, deletion);
    let chain_final_rope = base_rope.apply_delta(&chained_delta.delta).unwrap();
    assert_eq!(&all(&chain_final_rope), &vec![6, 7, 0, 1, 2, 3]);
}

#[test]
fn test_chain_insert() {
    let base_rope = rope(&[0, 1, 2, 3]);
    let mut delta_builder = DeltaBuilder::new(base_rope.len());
    delta_builder.replace(1, 1, rope(&[5])).unwrap();
    let insertion1 = delta_builder.build().unwrap();
    let mid_rope = base_rope.apply_delta(&insertion1).unwrap();

    let mut delta_builder2 = DeltaBuilder::new(mid_rope.len());
    delta_builder2.replace(2, 2, rope(&[6])).unwrap();
    let insertion2 = delta_builder2.build().unwrap();
    let final_rope = mid_rope.apply_delta(&insertion2).unwrap();

    assert_eq!(&all(&final_rope), &vec![0, 5, 6, 1, 2, 3]);
    let chained_subsets =
        Action::from_delta(insertion1.clone()).subsets_for_chain(insertion2.clone());
    assert_eq!(&chained_subsets.0.delete_from_string("056123"), "0123");
    assert_eq!(&chained_subsets.1.delete_from_string("056123"), "056123");
    assert_eq!(&chained_subsets.2.delete_from_string("056123"), "0123");

    let chained_delta = Action::from_delta(insertion1).chain(&mid_rope, insertion2);
    let chain_final_rope = base_rope.apply_delta(&chained_delta.delta).unwrap();
    assert_eq!(&all(&chain_final_rope), &vec![0, 5, 6, 1, 2, 3]);
}

#[test]
fn invert_round_trip_on_mixed_edit() {
    let base_rope = rope(&[10, 11, 12, 13, 14, 15, 16, 17]);
    let mut builder = DeltaBuilder::new(base_rope.len());
    builder.delete(1, 3).unwrap();
    builder.replace(4, 5, rope(&[1, 2, 3])).unwrap();
    builder.replace(8, 8, rope(&[9])).unwrap();
    let edit = builder.build().unwrap();
    let edited = base_rope.apply_delta(&edit).unwrap();
    assert_eq!(all(&edited), vec![10, 13, 1, 2, 3, 15, 16, 17, 9]);
    let inverse = Action::from_delta(edit).invert(&base_rope);
    let back = edited.apply_delta(&inverse.delta).unwrap();
    assert_eq!(all(&back), vec![10, 11, 12, 13, 14, 15, 16, 17]);
}

#[test]
fn history_undo_gives_the_inverse_and_the_selection() {
    let base_rope = rope(&[0, 1, 2, 3]);
    let mut builder = DeltaBuilder::new(base_rope.len());
    builder.delete(0, 2).unwrap();
    let edit = builder.build().unwrap();
    let after = base_rope.apply_delta(&edit).unwrap();

    let mut history = History::new();
    let mut selection = Selection::new();
    selection.select_all(4);
    history.perform_final(&base_rope, edit, selection.clone());
    let (undo, restored) = history.undo(&after, Selection::new()).unwrap();
    assert_eq!(restored, selection);
    let back = after.apply_delta(&undo).unwrap();
    assert_eq!(all(&back), vec![0, 1, 2, 3]);
    assert!(history.undo(&back, Selection::new()).is_none());
    let (redo, _) = history.redo(&back, Selection::new()).unwrap();
    assert_eq!(all(&back.apply_delta(&redo).unwrap()), vec![2, 3]);
}
