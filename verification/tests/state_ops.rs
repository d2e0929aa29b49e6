use tenxten::State;

#[test]
fn new_board_is_empty() {
    let s = State::new(5);
    assert_eq!(s.size(), 5);
    assert_eq!(s.filled_count(), 0);
    assert_eq!(s.position(), None);
    assert!(!s.is_complete());
    for y in 0..5 {
        for x in 0..5 {
            assert_eq!(s.cell(x, y), 0);
        }
    }
}

#[test]
fn candidates_on_fresh_board_cover_every_cell() {
    // the chosen convention: with no position yet, every cell of the board is
    // a candidate, so a fresh N x N board offers exactly N * N first moves
    let s = State::new(5);
    assert_eq!(s.possible_moves().len(), 25);
    let t = State::new(2);
    assert_eq!(t.possible_moves(), vec![(0, 0), (0, 1), (1, 0), (1, 1)]);
}

#[test]
fn candidates_after_first_move_in_generation_order() {
    let s = State::new(5).make_move((0, 0));
    assert_eq!(s.possible_moves(), vec![(3, 0), (0, 3), (2, 2)]);
}

#[test]
fn make_move_stamps_cells_in_order() {
    let s = State::new(5).make_move((0, 0)).make_move((2, 2));
    assert_eq!(s.cell(0, 0), 1);
    assert_eq!(s.cell(2, 2), 2);
    assert_eq!(s.cell(1, 1), 0);
    assert_eq!(s.filled_count(), 2);
    assert_eq!(s.position(), Some((2, 2)));
}

#[test]
fn make_move_leaves_receiver_unchanged() {
    // the pure variant never mutates the receiver
    let s = State::new(5).make_move((0, 0));
    let before: Vec<usize> = (0..5)
        .flat_map(|y| (0..5).map(move |x| (x, y)))
        .map(|(x, y)| s.cell(x, y))
        .collect();
    let child = s.make_move((3, 0));
    let after: Vec<usize> = (0..5)
        .flat_map(|y| (0..5).map(move |x| (x, y)))
        .map(|(x, y)| s.cell(x, y))
        .collect();
    assert_eq!(before, after);
    assert_eq!(s.filled_count(), 1);
    assert_eq!(s.position(), Some((0, 0)));
    assert_eq!(child.filled_count(), 2);
    assert_eq!(child.position(), Some((3, 0)));
}

#[test]
fn apply_move_matches_make_move() {
    let pure = State::new(5).make_move((0, 0)).make_move((3, 0));
    let mut in_place = State::new(5);
    in_place.apply_move((0, 0));
    in_place.apply_move((3, 0));
    for y in 0..5 {
        for x in 0..5 {
            assert_eq!(pure.cell(x, y), in_place.cell(x, y));
        }
    }
    assert_eq!(pure.position(), in_place.position());
}

#[test]
fn move_value_counts_onward_moves() {
    // after (0,0) on 5x5, placing (2,2) leaves exactly (4,4), (4,0), (0,4)
    let s = State::new(5).make_move((0, 0));
    assert_eq!(s.move_value((2, 2)), 3);
    // after placing (3,0) only (3,3) and (1,2) stay reachable
    assert_eq!(s.move_value((3, 0)), 2);
    let t = s.make_move((3, 0));
    assert_eq!(t.possible_moves(), vec![(3, 3), (1, 2)]);
}

#[test]
fn sum_moves_totals_remaining_flexibility() {
    // on 3x3 only the diagonal corner jumps stay on the board; after placing
    // (0,0) the empty cells (0,2) and (2,0) can still jump to each other and
    // nothing else can move: the global score is exactly 2
    let s = State::new(3);
    assert_eq!(s.sum_moves((0, 0)), 2);
}

#[test]
fn num_pos_finds_each_number() {
    let s = State::new(5).make_move((0, 0)).make_move((2, 2));
    assert_eq!(s.num_pos(1), Some((0, 0)));
    assert_eq!(s.num_pos(2), Some((2, 2)));
    assert_eq!(s.num_pos(0), None);
    assert_eq!(s.num_pos(3), None);
}
