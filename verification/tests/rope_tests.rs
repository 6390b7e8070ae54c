use teehee::byte_rope::{BaseMetric, Bytes, Rope, RopeInfo, MAX_LEAF, MIN_LEAF};
use teehee::delta::{DeltaBuilder, DeltaError, DeltaPiece, MAX_DOCUMENT_LEN};
use xi_rope::interval::Interval;
use xi_rope::multiset::SubsetBuilder;
use xi_rope::tree::{Leaf, Metric};

fn bytes(n: usize) -> Vec<u8> {
    (0..n).map(|i| (i % 251) as u8).collect()
}

#[test]
fn rope_holds_its_bytes() {
    let rope = Rope::from_bytes(vec![1, 2, 3]);
    assert_eq!(rope.len(), 3);
    assert!(!rope.is_empty());
    assert_eq!(rope.to_vec(), vec![1, 2, 3]);
    assert_eq!(rope.slice_to_cow(1, 3), vec![2, 3]);
    assert_eq!(rope.slice_to_cow(2, 2), Vec::<u8>::new());
    let empty = Rope::from_bytes(vec![]);
    assert!(empty.is_empty());
    assert_eq!(empty.to_vec(), Vec::<u8>::new());
    assert_eq!(Rope::default().len(), 0);
    assert_eq!(rope.clone().to_vec(), vec![1, 2, 3]);
}

#[test]
fn long_rope_is_cut_into_leaves() {
    assert_eq!((MIN_LEAF, MAX_LEAF), (511, 1024));
    let data = bytes(5000);
    let rope = Rope::from_bytes(data.clone());
    assert_eq!(rope.len(), 5000);
    assert_eq!(rope.to_vec(), data);
    assert_eq!(rope.slice_to_cow(1000, 3100), data[1000..3100].to_vec());
    let chunks = rope.iter_chunks(1000, 3100);
    assert!(chunks.len() >= 3);
    assert!(chunks.iter().all(|c| !c.is_empty() && c.len() <= MAX_LEAF));
    assert_eq!(chunks.concat(), data[1000..3100].to_vec());
}

#[test]
fn delta_of_the_builder() {
    let rope = Rope::from_bytes(vec![0, 1, 2, 3, 4, 5]);
    let mut builder = DeltaBuilder::new(6);
    builder.delete(1, 2).unwrap();
    builder.replace(3, 4, Rope::from_bytes(vec![9, 9])).unwrap();
    builder.replace(5, 5, Rope::from_bytes(vec![])).unwrap();
    let delta = builder.build().unwrap();
    let shape: Vec<(usize, usize)> = delta
        .elements()
        .iter()
        .map(|p| match p {
            DeltaPiece::Copy(a, b) => (*a, *b),
            DeltaPiece::Insert(r) => (usize::MAX, r.len()),
        })
        .collect();
    assert_eq!(shape, vec![(0, 1), (2, 3), (usize::MAX, 2), (4, 5), (5, 6)]);
    assert_eq!(delta.base_document_len(), 6);
    assert_eq!(delta.new_document_len(), 6);
    assert!(delta.applies_to(6));
    assert!(!delta.applies_to(7));
    assert_eq!(rope.apply_delta(&delta).unwrap().to_vec(), vec![0, 2, 9, 9, 4, 5]);
    assert_eq!(rope.to_vec(), vec![0, 1, 2, 3, 4, 5]);
    assert_eq!(delta.clone().elements().len(), 5);
}

#[test]
fn transform_moves_offsets_with_their_bytes() {
    let mut builder = DeltaBuilder::new(6);
    builder.delete(1, 3).unwrap();
    builder.replace(4, 4, Rope::from_bytes(vec![7, 7, 7])).unwrap();
    let delta = builder.build().unwrap();
    assert_eq!(delta.transform(0, true), 0);
    assert_eq!(delta.transform(1, true), 1);
    assert_eq!(delta.transform(2, true), 1);
    assert_eq!(delta.transform(3, true), 1);
    assert_eq!(delta.transform(4, true), 5);
    assert_eq!(delta.transform(4, false), 2);
    assert_eq!(delta.transform(5, true), 6);
    assert_eq!(delta.transform(6, true), 7);
}

#[test]
fn builder_refuses_updates_out_of_order() {
    let mut builder = DeltaBuilder::new(6);
    builder.delete(2, 4).unwrap();
    assert_eq!(builder.delete(3, 5), Err(DeltaError::BuilderMisuse));
    assert_eq!(builder.delete(5, 4), Err(DeltaError::BuilderMisuse));
    assert_eq!(builder.replace(7, 8, Rope::from_bytes(vec![1])), Err(DeltaError::BuilderMisuse));
    builder.delete(4, 5).unwrap();
    let delta = builder.build().unwrap();
    assert_eq!(Rope::from_bytes(vec![0, 1, 2, 3, 4, 5]).apply_delta(&delta).unwrap().to_vec(), vec![0, 1, 5]);
}

#[test]
fn delta_that_does_not_fit_is_refused() {
    let mut builder = DeltaBuilder::new(6);
    builder.delete(0, 1).unwrap();
    let delta = builder.build().unwrap();
    let short = Rope::from_bytes(vec![1, 2, 3]);
    assert!(matches!(short.apply_delta(&delta), Err(DeltaError::InvalidDelta)));
}

#[test]
fn document_beyond_the_limit_is_refused() {
    let builder = DeltaBuilder::new(MAX_DOCUMENT_LEN + 1);
    assert!(matches!(builder.build(), Err(DeltaError::TooLong)));
    assert_eq!(MAX_DOCUMENT_LEN, usize::MAX / 4);
}

#[test]
fn without_subset_keeps_what_is_outside() {
    let rope = Rope::from_bytes(vec![10, 11, 12, 13, 14]);
    let mut sb = SubsetBuilder::new();
    sb.add_range(1, 3, 1);
    sb.pad_to_len(5);
    let subset = sb.build();
    assert_eq!(rope.without_subset(&subset).to_vec(), vec![10, 13, 14]);
    assert_eq!(rope.without_subset(&subset.complement()).to_vec(), vec![11, 12]);
}

#[test]
fn short_last_leaf_is_merged_with_its_neighbour() {
    let data = bytes(1500);
    let rope = Rope::from_bytes(data.clone());
    assert_eq!(rope.len(), 1500);
    assert_eq!(rope.to_vec(), data);
    assert_eq!(rope.slice_to_cow(1000, 1100), data[1000..1100].to_vec());
    let mut builder = DeltaBuilder::new(1500);
    builder.delete(10, 1030).unwrap();
    builder.replace(1400, 1400, Rope::from_bytes(bytes(600))).unwrap();
    let delta = builder.build().unwrap();
    let edited = rope.apply_delta(&delta).unwrap();
    let mut expected = data[..10].to_vec();
    expected.extend_from_slice(&data[1030..1400]);
    expected.extend_from_slice(&bytes(600));
    expected.extend_from_slice(&data[1400..]);
    assert_eq!(edited.to_vec(), expected);
}

#[test]
fn a_leaf_takes_the_named_bytes_and_splits_at_its_limit() {
    let mut leaf = Bytes(vec![1, 2]);
    let other = Bytes(vec![10, 11, 12, 13]);
    assert!(leaf.push_maybe_split(&other, Interval::new(1, 3)).is_none());
    assert_eq!(leaf.0, vec![1, 2, 11, 12]);
    assert_eq!(Leaf::len(&leaf), 4);
    assert!(!leaf.is_ok_child());

    let mut big = Bytes(vec![0; 1000]);
    let more = Bytes(vec![7; 100]);
    let rest = big.push_maybe_split(&more, Interval::new(0, 100)).unwrap();
    assert_eq!(big.0, vec![0; 550]);
    assert_eq!(rest.0.len(), 550);
    assert_eq!(&rest.0[..450], &[0u8; 450][..]);
    assert_eq!(&rest.0[450..], &[7u8; 100][..]);
    assert!(big.is_ok_child() && rest.is_ok_child());

    let mut full = Bytes(vec![1; MAX_LEAF]);
    let rest = full.push_maybe_split(&Bytes(vec![2]), Interval::new(0, 1)).unwrap();
    assert_eq!((full.0.len(), rest.0.len()), (512, 513));
    assert!(full.is_ok_child() && rest.is_ok_child());
    assert!(Bytes(vec![0; MIN_LEAF]).is_ok_child());
    assert!(!Bytes(vec![0; MIN_LEAF - 1]).is_ok_child());
}

#[test]
fn every_offset_of_a_leaf_is_a_boundary() {
    let leaf = Bytes(vec![1, 2, 3]);
    assert_eq!(<BaseMetric as Metric<RopeInfo>>::measure(&RopeInfo(), 9), 9);
    assert_eq!(<BaseMetric as Metric<RopeInfo>>::to_base_units(&leaf, 2), 2);
    assert_eq!(<BaseMetric as Metric<RopeInfo>>::from_base_units(&leaf, 2), 2);
    assert!(<BaseMetric as Metric<RopeInfo>>::is_boundary(&leaf, 1));
    assert_eq!(<BaseMetric as Metric<RopeInfo>>::prev(&leaf, 0), None);
    assert_eq!(<BaseMetric as Metric<RopeInfo>>::prev(&leaf, 3), Some(2));
    assert_eq!(<BaseMetric as Metric<RopeInfo>>::next(&leaf, 2), Some(3));
    assert_eq!(<BaseMetric as Metric<RopeInfo>>::next(&leaf, 3), None);
    assert!(!<BaseMetric as Metric<RopeInfo>>::can_fragment());
}
