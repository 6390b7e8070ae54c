use teehee::selection::{Direction, SelRegion, Selection};

fn region(caret: usize, tail: usize) -> SelRegion {
    SelRegion::new(caret, tail)
}

fn spans(sel: &Selection) -> Vec<(usize, usize)> {
    sel.iter().iter().map(|r| (r.caret, r.tail)).collect()
}

fn mains(sel: &Selection) -> Vec<bool> {
    sel.iter().iter().map(|r| r.is_main()).collect()
}

#[test]
fn new_selection_is_one_cursor_at_zero() {
    let sel = Selection::new();
    assert_eq!(sel.len(), 1);
    assert_eq!(sel.main_cursor_offset(), 0);
    assert_eq!(spans(&sel), vec![(0, 0)]);
    assert_eq!(mains(&sel), vec![true]);
    assert_eq!(sel.len_bytes(), 1);
}

#[test]
fn region_ends_and_length() {
    let r = region(7, 3);
    assert_eq!((r.min(), r.max(), r.len()), (3, 7, 5));
    assert!(r.forward() && !r.backward());
    let c = region(4, 4);
    assert!(c.forward() && !c.backward());
    assert!(c.leans_backward() && !r.leans_backward());
    assert!(region(3, 7).backward() && !region(3, 7).forward());
    assert_eq!(c.len(), 1);
    assert_eq!(r.swap_caret(), region(3, 7));
    assert_eq!(r.collapse(), region(7, 7));
    assert_eq!(r.to_backward(), region(3, 7));
    assert_eq!(region(3, 7).to_forward(), region(7, 3));
    assert_eq!(r.with_direction(true), region(3, 7));
    assert_eq!(r.with_direction(false), region(7, 3));
    assert_eq!(region(1, 2).inherit_direction(&r), region(2, 1));
    assert_eq!(region(2, 1).inherit_direction(&region(3, 7)), region(1, 2));
}

#[test]
fn simple_move_is_clamped() {
    let r = region(2, 0);
    assert_eq!(r.simple_move(Direction::Right, 16, 4, 5), region(4, 4));
    assert_eq!(r.simple_move(Direction::Left, 16, 4, 5), region(0, 0));
    assert_eq!(r.simple_move(Direction::Right, 16, 100, 5), region(7, 7));
    assert_eq!(region(40, 40).simple_move(Direction::Up, 16, 100, 2), region(8, 8));
    assert_eq!(region(40, 40).simple_move(Direction::Up, 16, 100, 3), region(0, 0));
    assert_eq!(region(40, 40).simple_move(Direction::Down, 16, 100, 3), region(88, 88));
    assert_eq!(region(40, 40).simple_move(Direction::Down, 16, 100, 4), region(100, 100));
    assert_eq!(region(40, 40).simple_move(Direction::Down, usize::MAX, 100, usize::MAX), region(100, 100));
    assert_eq!(r.simple_move(Direction::Right, 16, 0, 5), r);
}

#[test]
fn simple_extend_keeps_the_tail() {
    let r = region(2, 1);
    assert_eq!(r.simple_extend(Direction::Right, 16, 10, 3), region(5, 1));
    assert_eq!(r.simple_extend(Direction::Left, 16, 10, 9), region(0, 1));
    assert_eq!(r.simple_extend(Direction::Down, 4, 10, 1), region(6, 1));
}

#[test]
fn jumps_to_boundaries() {
    let r = region(21, 3);
    assert_eq!(r.jump_to_boundary(Direction::Up, 16, 100), region(0, 0));
    assert_eq!(r.jump_to_boundary(Direction::Down, 16, 100), region(99, 99));
    assert_eq!(r.jump_to_boundary(Direction::Left, 16, 100), region(16, 16));
    assert_eq!(r.jump_to_boundary(Direction::Right, 16, 100), region(31, 31));
    assert_eq!(r.jump_to_boundary(Direction::Right, 16, 25), region(24, 24));
    assert_eq!(r.extend_to_boundary(Direction::Left, 16, 100), region(16, 3));
    assert_eq!(r.extend_to_boundary(Direction::Right, 16, 100), region(31, 3));
    assert_eq!(r.jump_to(9), region(9, 9));
    assert_eq!(r.extend_to(9), region(9, 3));
    assert_eq!(r.jump_to_boundary(Direction::Down, 16, 0), r);
}

#[test]
fn merge_takes_the_hull() {
    assert_eq!(region(5, 2).merge(&region(8, 4)), region(8, 2));
    assert_eq!(region(2, 5).merge(&region(4, 8)), region(2, 8));
    assert_eq!(region(3, 3).merge(&region(3, 3)), region(3, 3));
    assert!(region(5, 2).mergeable(&region(8, 4)));
    assert!(!region(5, 2).mergeable(&region(4, 8)));
    assert!(!region(3, 3).mergeable(&region(4, 4)));
    assert!(region(5, 2).overlaps(&region(8, 5)));
    assert!(!region(5, 2).overlaps(&region(8, 6)));
}

#[test]
fn split_at_region_cuts_out() {
    let r = region(9, 2);
    assert_eq!(r.split_at_region(4, 6), (Some(region(3, 2)), Some(region(9, 7))));
    assert_eq!(r.split_at_region(0, 6), (None, Some(region(9, 7))));
    assert_eq!(r.split_at_region(4, 20), (Some(region(3, 2)), None));
    assert_eq!(r.split_at_region(0, 20), (None, None));
    let b = region(2, 9);
    assert_eq!(b.split_at_region(4, 6), (Some(region(2, 3)), Some(region(7, 9))));
}

#[test]
fn map_selections_merges_and_keeps_order() {
    let mut sel = Selection::new();
    sel.select_all(10);
    sel.map_selections(vec![vec![region(1, 0), region(3, 0), region(9, 5)]]);
    assert_eq!(spans(&sel), vec![(3, 0), (9, 5)]);
    assert_eq!(mains(&sel), vec![false, true]);
    assert_eq!(sel.len_bytes(), 9);

    // Every region moves two to the right and the first two come to touch.
    sel.map_selections(vec![vec![region(5, 2)], vec![region(9, 5)]]);
    assert_eq!(spans(&sel), vec![(9, 2)]);
    assert_eq!(mains(&sel), vec![true]);
}

#[test]
fn a_merge_that_reaches_back_takes_the_regions_before_it_along() {
    let mut sel = Selection::new();
    sel.select_all(20);
    sel.map_selections(vec![vec![region(1, 0), region(4, 3), region(7, 6)]]);
    assert_eq!(spans(&sel), vec![(1, 0), (4, 3), (7, 6)]);
    sel.map_selections(vec![vec![region(1, 0)], vec![region(4, 3)], vec![region(9, 1)]]);
    assert_eq!(spans(&sel), vec![(9, 0)]);
    assert_eq!(mains(&sel), vec![true]);
}

#[test]
fn try_map_selections_refuses_mixed_directions() {
    let mut sel = Selection::new();
    sel.select_all(10);
    assert!(!sel.try_map_selections(vec![vec![region(5, 2), region(4, 8)]]));
    assert_eq!(spans(&sel), vec![(9, 0)]);
    assert!(!sel.try_map_selections(vec![vec![]]));
    assert!(!sel.try_map_selections(vec![]));
    assert!(sel.try_map_selections(vec![vec![region(5, 2)]]));
    assert_eq!(spans(&sel), vec![(5, 2)]);
}

#[test]
fn retain_remove_and_main_index() {
    let mut sel = Selection::new();
    sel.select_all(10);
    sel.map_selections(vec![vec![region(0, 0), region(2, 2), region(4, 4), region(6, 6)]]);
    assert_eq!(sel.main_index(), 3);
    sel.select_next(1);
    assert_eq!(sel.main_index(), 0);
    assert_eq!(mains(&sel), vec![true, false, false, false]);
    sel.select_prev(2);
    assert_eq!(sel.main_index(), 2);
    sel.select_next(6);
    assert_eq!(sel.main_index(), 0);
    sel.select_prev(usize::MAX);
    assert_eq!(sel.main_index(), (0 + 4 - usize::MAX % 4) % 4);
    sel.select_next(3);
    let main = sel.main_index();
    sel.remove(0);
    assert_eq!(spans(&sel), vec![(2, 2), (4, 4), (6, 6)]);
    assert_eq!(sel.main_index(), main.min(2));
    assert_eq!(mains(&sel).iter().filter(|m| **m).count(), 1);
    sel.retain(1);
    assert_eq!(spans(&sel), vec![(4, 4)]);
    assert_eq!(mains(&sel), vec![true]);
    sel.remove(0);
    assert_eq!(spans(&sel), vec![(4, 4)]);
    sel.clear();
    assert_eq!(spans(&sel), vec![(0, 0)]);
}

#[test]
fn select_all_of_nothing_is_a_cursor() {
    let mut sel = Selection::new();
    sel.select_all(0);
    assert_eq!(spans(&sel), vec![(0, 0)]);
    sel.select_all(6);
    assert_eq!(spans(&sel), vec![(5, 0)]);
}

#[test]
fn regions_in_range_finds_what_touches() {
    let mut sel = Selection::new();
    sel.select_all(30);
    sel.map_selections(vec![vec![region(2, 0), region(7, 5), region(12, 10), region(20, 18)]]);
    let found: Vec<(usize, usize)> =
        sel.regions_in_range(6, 11).iter().map(|r| (r.caret, r.tail)).collect();
    assert_eq!(found, vec![(7, 5), (12, 10)]);
    assert!(sel.regions_in_range(3, 4).is_empty());
    assert_eq!(sel.regions_in_range(0, 100).len(), 4);
    assert_eq!(sel.regions_in_range(21, 100).len(), 0);
    assert_eq!(sel.search(7), 1);
    assert_eq!(sel.search(8), 2);
    assert_eq!(sel.search(21), 4);
}

#[test]
fn images_out_of_order_are_put_in_order() {
    let mut sel = Selection::new();
    sel.select_all(10);
    sel.map_selections(vec![vec![region(5, 5), region(3, 3)]]);
    assert_eq!(spans(&sel), vec![(3, 3), (5, 5)]);
    assert_eq!(mains(&sel), vec![true, false]);
    assert_eq!(sel.main_index(), 0);

    // Images that share no byte stay apart, whatever their order.
    sel.map_selections(vec![vec![region(6, 5)], vec![region(2, 1)]]);
    assert_eq!(spans(&sel), vec![(2, 1), (6, 5)]);
    assert_eq!(mains(&sel), vec![false, true]);

    // Neighbours that only touch are not merged; those that share a byte are.
    sel.map_selections(vec![vec![region(4, 3), region(2, 1)], vec![region(9, 4)]]);
    assert_eq!(spans(&sel), vec![(2, 1), (9, 3)]);
    assert_eq!(mains(&sel), vec![false, true]);
}

#[test]
fn a_cursor_goes_with_regions_of_either_direction() {
    let mut sel = Selection::new();
    sel.select_all(10);
    sel.map_selections(vec![vec![region(2, 5), region(5, 5)]]);
    assert_eq!(spans(&sel), vec![(2, 5)]);
    sel.map_selections(vec![vec![region(4, 4), region(7, 4)]]);
    assert_eq!(spans(&sel), vec![(7, 4)]);
    assert!(!sel.try_map_selections(vec![vec![region(4, 1), region(4, 4), region(4, 8)]]));
    assert_eq!(spans(&sel), vec![(7, 4)]);
}

#[test]
fn the_main_region_is_the_one_that_took_the_main_image() {
    let mut sel = Selection::new();
    sel.select_all(20);
    sel.map_selections(vec![vec![region(1, 0), region(5, 4), region(9, 8)]]);
    sel.select_prev(1);
    assert_eq!(sel.main_index(), 1);
    // The image of the main region comes to lie first.
    sel.map_selections(vec![vec![region(11, 10)], vec![region(3, 2)], vec![region(17, 16)]]);
    assert_eq!(spans(&sel), vec![(3, 2), (11, 10), (17, 16)]);
    assert_eq!(mains(&sel), vec![true, false, false]);
    // No image up to the main region: the first image there is takes over.
    sel.map_selections(vec![vec![], vec![region(9, 8)], vec![region(5, 4)]]);
    assert_eq!(spans(&sel), vec![(5, 4), (9, 8)]);
    assert_eq!(mains(&sel), vec![false, true]);
    assert_eq!(sel.main_index(), 1);
}
