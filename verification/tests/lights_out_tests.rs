use lights_out::board::LightsOutPuzzle;
use lights_out::board::PuzzleError;

#[test]
fn it_works() {
    let result = 2 + 2;
    assert_eq!(result, 4);
}

#[test]
fn new_rejects_zero_dimensions() {
    assert_eq!(LightsOutPuzzle::new(0, 3), Err(PuzzleError::InvalidDimensions));
    assert_eq!(LightsOutPuzzle::new(3, 0), Err(PuzzleError::InvalidDimensions));
    assert_eq!(LightsOutPuzzle::new(0, 0), Err(PuzzleError::InvalidDimensions));
}

#[test]
fn new_starts_all_unlit() {
    let b = LightsOutPuzzle::new(2, 3).unwrap();
    let grid = b.get_board();
    assert_eq!(grid.len(), 2);
    for row in grid {
        assert_eq!(row.len(), 3);
        for cell in row {
            assert!(!*cell);
        }
    }
}

#[test]
fn from_cells_rejects_bad_grids() {
    let empty: Vec<Vec<bool>> = vec![];
    assert_eq!(LightsOutPuzzle::from_cells(empty), Err(PuzzleError::InvalidDimensions));
    let empty_row: Vec<Vec<bool>> = vec![vec![]];
    assert_eq!(LightsOutPuzzle::from_cells(empty_row), Err(PuzzleError::InvalidDimensions));
    let ragged = vec![vec![true, false], vec![true]];
    assert_eq!(LightsOutPuzzle::from_cells(ragged), Err(PuzzleError::InvalidDimensions));
}

#[test]
fn from_cells_keeps_the_grid() {
    let cells = vec![vec![true, false], vec![false, true]];
    let b = LightsOutPuzzle::from_cells(cells.clone()).unwrap();
    assert_eq!(b.get_board(), &cells);
}

#[test]
fn goal_detection_all_lit() {
    let b = LightsOutPuzzle::from_cells(vec![vec![true, true], vec![true, true]]).unwrap();
    assert!(b.solved());
}

#[test]
fn goal_detection_one_unlit() {
    let b = LightsOutPuzzle::from_cells(vec![vec![true, true], vec![true, false]]).unwrap();
    assert!(!b.solved());
}

#[test]
fn make_move_rejects_out_of_bounds() {
    let b = LightsOutPuzzle::new(2, 2).unwrap();
    assert_eq!(
        b.make_move((2, 0)),
        Err(PuzzleError::OutOfBounds { row: 2, column: 0 })
    );
    assert_eq!(
        b.make_move((0, 5)),
        Err(PuzzleError::OutOfBounds { row: 0, column: 5 })
    );
}

#[test]
fn make_move_flips_cell_and_neighbours() {
    let b = LightsOutPuzzle::new(3, 3).unwrap();
    let after = b.make_move((1, 1)).unwrap();
    let expected = vec![
        vec![false, true, false],
        vec![true, true, true],
        vec![false, true, false],
    ];
    assert_eq!(after.get_board(), &expected);
}

#[test]
fn make_move_does_not_touch_the_receiver() {
    let b = LightsOutPuzzle::new(2, 2).unwrap();
    let copy = b.copy_board();
    let _ = b.make_move((0, 0)).unwrap();
    assert_eq!(b, copy);
}

#[test]
fn toggle_is_self_inverse_on_a_pattern() {
    let b = LightsOutPuzzle::from_cells(vec![
        vec![true, false, true],
        vec![false, true, false],
    ])
    .unwrap();
    let once = b.make_move((1, 2)).unwrap();
    let twice = once.make_move((1, 2)).unwrap();
    assert_eq!(twice, b);
}

#[test]
fn toggling_the_same_cell_twice_restores_unlit_two_by_two() {
    let b = LightsOutPuzzle::new(2, 2).unwrap();
    let once = b.make_move((0, 1)).unwrap();
    assert_ne!(once, b);
    let twice = once.make_move((0, 1)).unwrap();
    assert_eq!(twice, b);
}

#[test]
fn successors_are_row_major() {
    let b = LightsOutPuzzle::new(2, 3).unwrap();
    assert_eq!(
        b.successors(),
        vec![(0, 0), (0, 1), (0, 2), (1, 0), (1, 1), (1, 2)]
    );
}

#[test]
fn render_draws_every_cell_once() {
    let b = LightsOutPuzzle::from_cells(vec![vec![true, false], vec![false, true]]).unwrap();
    let text: String = b.render().into_iter().collect();
    assert_eq!(text, "#.\n.#\n");
}

#[test]
fn solve_returns_empty_path_on_a_solved_board() {
    let lit = LightsOutPuzzle::from_cells(vec![vec![true, true, true]]).unwrap();
    assert_eq!(lit.solve(), Some(vec![]));
}

#[test]
fn one_by_two_is_solved_by_one_move() {
    let b = LightsOutPuzzle::new(1, 2).unwrap();
    let after = b.make_move((0, 0)).unwrap();
    assert_eq!(after.get_board(), &vec![vec![true, true]]);
    assert!(after.solved());
    assert_eq!(b.solve(), Some(vec![(0, 0)]));
}

#[test]
fn one_by_two_with_one_lit_cell_is_unsolvable() {
    // Every move on a 1-by-2 board toggles both cells, so the number of lit
    // cells keeps its parity: from one lit cell the all-lit board is out of
    // reach.
    let b = LightsOutPuzzle::from_cells(vec![vec![true, false]]).unwrap();
    assert_eq!(b.solve(), None);
}

fn apply_all(start: &LightsOutPuzzle, path: &[(usize, usize)]) -> LightsOutPuzzle {
    let mut b = start.copy_board();
    for mv in path {
        b = b.make_move(*mv).unwrap();
    }
    b
}

#[test]
fn solve_two_by_two_is_valid_and_minimal() {
    let b = LightsOutPuzzle::new(2, 2).unwrap();
    let path = b.solve().unwrap();
    assert!(apply_all(&b, &path).solved());
    assert_eq!(path.len(), 4);
    // Exhaustively check that no shorter sequence solves the board.
    let cells = [(0, 0), (0, 1), (1, 0), (1, 1)];
    for len in 0..4 {
        let mut counter = vec![0usize; len];
        loop {
            let seq: Vec<(usize, usize)> = counter.iter().map(|&i| cells[i]).collect();
            assert!(!apply_all(&b, &seq).solved());
            let mut pos = 0;
            loop {
                if pos == len {
                    break;
                }
                counter[pos] += 1;
                if counter[pos] < cells.len() {
                    break;
                }
                counter[pos] = 0;
                pos += 1;
            }
            if pos == len {
                break;
            }
        }
    }
}

#[test]
fn solve_three_by_three_path_is_valid() {
    let b = LightsOutPuzzle::new(3, 3).unwrap();
    let path = b.solve().unwrap();
    assert!(apply_all(&b, &path).solved());
    for (r, c) in &path {
        assert!(*r < 3 && *c < 3);
    }
}

#[test]
fn one_by_one_is_solved_by_its_only_move() {
    let b = LightsOutPuzzle::new(1, 1).unwrap();
    assert_eq!(b.successors(), vec![(0, 0)]);
    assert_eq!(b.solve(), Some(vec![(0, 0)]));
    let lit = b.make_move((0, 0)).unwrap();
    assert!(lit.solved());
    assert_eq!(lit.render(), vec!['#', '\n']);
}
