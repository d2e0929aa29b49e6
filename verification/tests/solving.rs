use tenxten::Scorer;
use tenxten::State;

const OFFSETS: [(i64, i64); 8] = [
    (-3, 0),
    (3, 0),
    (0, -3),
    (0, 3),
    (-2, -2),
    (-2, 2),
    (2, -2),
    (2, 2),
];

fn assert_complete_tour(s: &State, size: usize) {
    assert_eq!(s.size(), size);
    assert!(s.is_complete());
    assert_eq!(s.filled_count(), size * size);
    // every number 1..=size*size appears exactly once and nothing is empty
    let mut seen = vec![false; size * size + 1];
    for y in 0..size {
        for x in 0..size {
            let n = s.cell(x, y);
            assert!(n >= 1 && n <= size * size);
            assert!(!seen[n], "number {} appears twice", n);
            seen[n] = true;
        }
    }
    // consecutive numbers lie one leaper offset apart
    for k in 1..size * size {
        let (ax, ay) = s.num_pos(k).unwrap();
        let (bx, by) = s.num_pos(k + 1).unwrap();
        let dx = bx as i64 - ax as i64;
        let dy = by as i64 - ay as i64;
        assert!(
            OFFSETS.iter().any(|&(ox, oy)| (dx, dy) == (ox, oy)),
            "numbers {} and {} are not one leap apart",
            k,
            k + 1
        );
    }
}

#[test]
fn size_one_board_is_trivially_solved() {
    let s = State::new(1).make_move((0, 0));
    assert!(s.is_complete());
    assert_eq!(s.filled_count(), 1);
    let solved = s.solve().expect("the complete board is its own solution");
    assert_eq!(solved.cell(0, 0), 1);
    assert_eq!(solved.filled_count(), 1);
    assert_eq!(solved.position(), Some((0, 0)));
}

#[test]
fn solve_board_5x5_from_corner() {
    let s = State::new(5).make_move((0, 0));
    let solved = s.solve().expect("a tour exists on 5x5 from (0,0)");
    assert_complete_tour(&solved, 5);
    // the solution extends the starting state
    assert_eq!(solved.cell(0, 0), 1);
}

#[test]
fn solve_board_5x5_all_starts() {
    for y in 0..5 {
        for x in 0..5 {
            let s = State::new(5).make_move((x, y));
            let solved = s.solve().unwrap();
            assert_complete_tour(&solved, 5);
            assert_eq!(solved.cell(x, y), 1);
        }
    }
}

#[test]
fn solve_board_6x6_from_corner() {
    let solved = State::new(6).make_move((0, 0)).solve().unwrap();
    assert_complete_tour(&solved, 6);
}

#[test]
fn solve_board_10x10_from_corner() {
    let solved = State::new(10).make_move((0, 0)).solve().unwrap();
    assert_complete_tour(&solved, 10);
}

#[test]
fn solve_with_global_scorer_agrees_on_solvability() {
    let s = State::new(5).make_move((0, 0));
    let solved = s.solve_with(Scorer::Global).unwrap();
    assert_complete_tour(&solved, 5);
}

#[test]
fn no_tour_on_tiny_boards() {
    assert!(State::new(2).make_move((0, 0)).solve().is_none());
    assert!(State::new(3).make_move((0, 0)).solve().is_none());
    assert!(State::new(3).make_move((1, 1)).solve().is_none());
}

#[test]
fn solve_all_finds_the_single_trivial_tour() {
    // only one tour exists on the one-cell board: the enumeration has length
    // exactly one
    let done = State::new(1).make_move((0, 0));
    let all = done.solve_all();
    assert_eq!(all.len(), 1);
    assert_eq!(all[0].cell(0, 0), 1);

    // the same from the empty one-cell board: the single tour places the
    // only cell
    let all2 = State::new(1).solve_all();
    assert_eq!(all2.len(), 1);
    assert_eq!(all2[0].filled_count(), 1);
}

#[test]
fn solve_all_is_empty_when_no_tour_exists() {
    assert_eq!(State::new(2).make_move((0, 0)).solve_all().len(), 0);
    assert_eq!(State::new(3).make_move((0, 0)).solve_all().len(), 0);
}

#[test]
fn find_solutions_streams_each_solution_once() {
    let s = State::new(1).make_move((0, 0));
    let mut search = s.find_solutions(Scorer::Global);
    let first = search.next_solution().expect("one solution");
    assert!(first.is_complete());
    assert!(search.next_solution().is_none());
    assert!(search.next_solution().is_none());

    let mut empty = State::new(3).make_move((0, 0)).find_solutions(Scorer::Local);
    assert!(empty.next_solution().is_none());
}

#[test]
fn partition_starts_splits_the_search() {
    // one branch per candidate move
    let s = State::new(5).make_move((0, 0));
    let parts = s.partition_starts();
    assert_eq!(parts.len(), 3);
    for p in &parts {
        assert_eq!(p.filled_count(), 2);
    }
    // the branches together hold exactly the solutions of the root
    let root = State::new(1);
    let parts = root.partition_starts();
    assert_eq!(parts.len(), 1);
    let from_parts: usize = parts.iter().map(|p| p.solve_all().len()).sum();
    assert_eq!(from_parts, root.solve_all().len());
    // and on a board with no solutions at all
    let root3 = State::new(3).make_move((0, 0));
    let from_parts3: usize = root3.partition_starts().iter().map(|p| p.solve_all().len()).sum();
    assert_eq!(from_parts3, root3.solve_all().len());
    assert_eq!(from_parts3, 0);
}
