use tenxten::solve;
use tenxten::State;

#[test]
fn to_grid_reflects_the_board() {
    let s = State::new(3).make_move((0, 0)).make_move((2, 2));
    let g = s.to_grid();
    assert_eq!(g.len(), 3);
    for row in &g {
        assert_eq!(row.len(), 3);
    }
    assert_eq!(g[0][0], 1);
    assert_eq!(g[2][2], 2);
    assert_eq!(g[1][1], 0);
}

#[test]
fn from_grid_round_trips() {
    let s = State::new(5).make_move((0, 0)).make_move((2, 2)).make_move((4, 0));
    let g = s.to_grid();
    let back = State::from_grid(&g).expect("a board's own grid is valid");
    assert_eq!(back.size(), 5);
    assert_eq!(back.filled_count(), 3);
    assert_eq!(back.position(), Some((4, 0)));
    for y in 0..5 {
        for x in 0..5 {
            assert_eq!(back.cell(x, y), s.cell(x, y));
        }
    }
}

#[test]
fn from_grid_rejects_invalid_grids() {
    // empty grid: no board side
    assert!(State::from_grid(&vec![]).is_none());
    // ragged rows
    assert!(State::from_grid(&vec![vec![0, 0], vec![0]]).is_none());
    // a repeated number
    assert!(State::from_grid(&vec![vec![1, 1], vec![0, 0]]).is_none());
    // a missing number: 2 never placed
    assert!(State::from_grid(&vec![vec![1, 3], vec![0, 0]]).is_none());
    // a number past the board's capacity
    assert!(State::from_grid(&vec![vec![5, 0], vec![0, 0]]).is_none());
}

#[test]
fn from_grid_accepts_the_empty_board() {
    let s = State::from_grid(&vec![vec![0, 0], vec![0, 0]]).unwrap();
    assert_eq!(s.size(), 2);
    assert_eq!(s.filled_count(), 0);
    assert_eq!(s.position(), None);
}

#[test]
fn solve_grid_solves_a_valid_position() {
    let g: Vec<Vec<usize>> = vec![vec![1]];
    assert_eq!(solve(&g), Some(vec![vec![1]]));
    let empty: Vec<Vec<usize>> = vec![vec![0]];
    assert_eq!(solve(&empty), Some(vec![vec![1]]));
}

#[test]
fn solve_grid_rejects_hopeless_or_invalid_input() {
    // no tour covers the three-by-three board
    let g: Vec<Vec<usize>> = vec![vec![1, 0, 0], vec![0, 0, 0], vec![0, 0, 0]];
    assert_eq!(solve(&g), None);
    // invalid grid
    let bad: Vec<Vec<usize>> = vec![vec![2, 2], vec![0, 0]];
    assert_eq!(solve(&bad), None);
}

#[test]
fn solve_grid_completes_a_partial_tour() {
    let start = State::new(5).make_move((0, 0));
    let g = start.to_grid();
    let solved = solve(&g).expect("5x5 from the corner has a tour");
    assert_eq!(solved.len(), 5);
    assert_eq!(solved[0][0], 1);
    let mut seen = vec![false; 26];
    for row in &solved {
        for &n in row {
            assert!(n >= 1 && n <= 25);
            assert!(!seen[n]);
            seen[n] = true;
        }
    }
}
