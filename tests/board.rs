use libsudoku::constraints::Verifier;
use libsudoku::loc::Loc;
use libsudoku::{Board, Conflict};

fn board(json: &str) -> Board {
    Board::from_json(json).unwrap()
}

fn all_cells(top: u8, value: Option<u8>) -> Vec<(Loc, Option<u8>)> {
    Board::gen_all_locs(top).into_iter().map(|l| (l, value)).collect()
}

fn cells(size: u8, rows: &[[u8; 4]; 4]) -> Vec<(Loc, Option<u8>)> {
    let mut out = Vec::new();
    for r in 0..(size * size) as usize {
        for c in 0..(size * size) as usize {
            out.push((Loc::new(r as u8 + 1, c as u8 + 1), Some(rows[r][c])));
        }
    }
    out
}

const EASY: &str = "[[null,null,null,2,6,null,7,null,1], [6,8,null,null,7,null,null,9,null], [1,9,null,null,null,4,5,null,null], [8,2,null,1,null,null,null,4,null], [null,null,4,6,null,2,9,null,null], [null,5,null,null,null,3,null,2,8], [null,null,9,3,null,null,null,7,4], [null,4,null,null,5,null,null,3,6], [7,null,3,null,1,8,null,null,null]]";
const EASY_SOLVED: &str = "[[4,3,5,2,6,9,7,8,1], [6,8,2,5,7,1,4,9,3], [1,9,7,8,3,4,5,6,2], [8,2,6,1,9,5,3,4,7], [3,7,4,6,8,2,9,1,5], [9,5,1,7,4,3,6,2,8], [5,1,9,3,2,6,8,7,4], [2,4,8,9,5,7,1,3,6], [7,6,3,4,1,8,2,5,9]]";

#[test]
fn test_board_gen_all_locs() {
    assert_eq!(Board::gen_all_locs(1), vec![Loc::new(1, 1)]);
    assert_eq!(
        Board::gen_all_locs(4),
        vec![
            (1, 1).into(),
            Loc::new(1, 2),
            Loc::new(1, 3),
            Loc::new(1, 4),
            Loc::new(2, 1),
            Loc::new(2, 2),
            Loc::new(2, 3),
            Loc::new(2, 4),
            Loc::new(3, 1),
            Loc::new(3, 2),
            Loc::new(3, 3),
            Loc::new(3, 4),
            Loc::new(4, 1),
            Loc::new(4, 2),
            Loc::new(4, 3),
            Loc::new(4, 4),
        ]
    );
}

#[test]
fn test_board_new() {
    let b = Board::new(1);
    assert_eq!(b.size(), 1);
    assert_eq!(b.top(), 1);
    assert_eq!(b.to_vec(), vec![vec![None]]);
    assert_eq!(*b.verification(), Verifier::new(1));

    let b = Board::new(2);
    assert_eq!(b.size(), 2);
    assert_eq!(b.top(), 4);
    assert_eq!(b.to_vec(), vec![vec![None; 4]; 4]);
    for loc in Board::gen_all_locs(4) {
        assert_eq!(b.get(&loc), None);
    }
    assert_eq!(*b.verification(), Verifier::new(2));
}

#[test]
fn test_board_from() {
    assert_eq!(Board::new(1), Board::from_cells(1, vec![(Loc::new(1, 1), None)]).unwrap());
    assert_eq!(Board::new(2), Board::from_cells(2, all_cells(4, None)).unwrap());
}

#[test]
fn test_board_is_solved() {
    let boards = [
        board("[[1]]"),
        board("[[1,2,3,4],[3,4,1,2],[2,1,4,3],[4,3,2,1]]"),
        board(EASY_SOLVED),
    ];

    for b in boards {
        assert!(b.is_solved(), "{:?} is solved, but `is_solved()` returned `false`", b);
    }
}

#[test]
fn test_board_is_solved_false() {
    let boards = [
        Board::from_cells(1, vec![(Loc::new(1, 1), None)]).unwrap(),
        Board::from_cells(2, cells(2, &[[1, 2, 3, 4], [3, 4, 1, 2], [2, 1, 4, 3], [4, 3, 1, 2]])).unwrap(),
    ];

    for b in boards {
        assert!(!b.is_solved(), "{:?} is not solved, but `is_solved()` returned `true`", b);
    }
}

#[test]
fn test_board_from_json() {
    assert_eq!(
        Board::from_cells(2, cells(2, &[[1, 2, 3, 4], [3, 4, 1, 2], [2, 1, 4, 3], [4, 3, 2, 1]])).unwrap(),
        board("[[1,2,3,4],[3,4,1,2],[2,1,4,3],[4,3,2,1]]")
    )
}

#[test]
fn test_board_available_values() {
    let tests = [
        (board("[[null]]"), Loc::new(1, 1), vec![1]),
        (board("[[1]]"), Loc::new(1, 1), vec![]),
        (board("[[1,2,3,4],[3,4,1,2],[2,1,4,3],[4,3,1,2]]"), Loc::new(1, 1), vec![]),
        (board("[[null,2,3,4],[3,4,1,2],[2,1,4,3],[4,3,1,2]]"), Loc::new(1, 1), vec![1]),
        (board("[[null,null,3,4],[3,4,1,null],[null,1,4,3],[4,3,1,null]]"), Loc::new(1, 1), vec![1, 2]),
        (board("[[null,2,3,4],[3,4,1,null],[null,1,4,3],[4,3,1,null]]"), Loc::new(1, 1), vec![1]),
        (board("[[null,2,3,4],[3,null,1,2],[2,1,null,3],[4,3,2,null]]"), Loc::new(4, 4), vec![1]),
        (board(EASY), Loc::new(6, 1), vec![9]),
    ];

    for (board, loc, expected) in tests {
        assert_eq!(board.available_values(&loc), expected)
    }
}

#[test]
fn test_board_set_none() {
    let tests = [
        (board("[[null]]"), Loc::new(1, 1), Some(1), board("[[1]]")),
        (board("[[null]]"), Loc::new(1, 1), None, board("[[null]]")),
        (board("[[1]]"), Loc::new(1, 1), Some(1), board("[[1]]")),
        (board("[[1]]"), Loc::new(1, 1), None, board("[[null]]")),
    ];

    for (mut initial, loc, value, expected) in tests {
        initial.set(&loc, value);
        assert_eq!(initial, expected)
    }
}

#[test]
fn test_board_clone() {
    let initial = board("[[1]]");
    let mut cloned = initial.clone();

    assert_eq!(initial, cloned);

    cloned.set(&Loc::new(1, 1), None);
    assert_ne!(initial, cloned);
}

#[test]
fn test_board_solve() {
    let tests = [
        (board("[[null]]"), board("[[1]]")),
        (
            board("[[null,2,3,4],[3,null,1,2],[2,1,null,3],[4,3,2,null]]"),
            board("[[1,2,3,4],[3,4,1,2],[2,1,4,3],[4,3,2,1]]"),
        ),
        (board(EASY), board(EASY_SOLVED)),
    ];
    for (initial, expected) in tests {
        if let Some(solved) = initial.solve() {
            assert_eq!(solved, expected, "Board was not solved properly:\n{:?}\n{:?}", initial, expected);
        } else {
            panic!("Board seems unsolvable:\n{:?}", initial);
        }
    }
}

#[test]
fn single_cell_scenario() {
    let mut b = Board::new(1);
    assert_eq!(b.available_values(&Loc::new(1, 1)), vec![1]);
    b.set(&Loc::new(1, 1), Some(1));
    assert!(b.is_solved());
    assert_eq!(b.available_values(&Loc::new(1, 1)), Vec::<u8>::new());
}

#[test]
fn four_by_four_scenario_fills_two_corners() {
    let initial = board("[[null,2,3,4],[3,4,1,2],[2,1,4,3],[4,3,2,null]]");
    let solved = initial.solve().unwrap();
    assert_eq!(
        solved.to_vec(),
        vec![
            vec![Some(1), Some(2), Some(3), Some(4)],
            vec![Some(3), Some(4), Some(1), Some(2)],
            vec![Some(2), Some(1), Some(4), Some(3)],
            vec![Some(4), Some(3), Some(2), Some(1)],
        ]
    );
}

#[test]
fn solve_leaves_input_unchanged() {
    let initial = board(EASY);
    let before = initial.clone();
    let _ = initial.solve();
    assert_eq!(initial, before);
}

#[test]
fn solve_is_a_fixed_point_on_a_solved_grid() {
    let solved = board(EASY).solve().unwrap();
    assert_eq!(solved, board(EASY_SOLVED));
    assert_eq!(solved.solve().unwrap(), solved);
}

#[test]
fn solve_keeps_givens_and_solves() {
    let initial = board(EASY);
    let solved = initial.solve().unwrap();
    assert!(solved.is_solved());
    for loc in Board::gen_all_locs(9) {
        if let Some(v) = initial.get(&loc) {
            assert_eq!(solved.get(&loc), Some(v));
        }
    }
}

#[test]
fn solve_reports_no_solution_when_a_cell_has_no_candidate() {
    // (1, 1) sees 2, 3, 4 in its row and 1 in its column.
    let b = board("[[null,2,3,4],[null,null,null,null],[1,null,null,null],[null,null,null,null]]");
    assert_eq!(b.available_values(&Loc::new(1, 1)), Vec::<u8>::new());
    assert!(b.solve().is_none());
}

#[test]
fn solve_reports_no_solution_after_search() {
    // Row 1 lacks 1 and 2 in its first box, which already holds 1.
    let b = board("[[null,null,3,4],[1,null,null,null],[null,null,null,null],[null,null,null,null]]");
    assert_eq!(b.available_values(&Loc::new(1, 1)), vec![2]);
    assert_eq!(b.available_values(&Loc::new(1, 2)), vec![2]);
    assert!(b.solve().is_none());
}

#[test]
fn full_but_wrong_grid_is_not_solved_and_not_solvable() {
    let b = Board::from_cells(2, cells(2, &[[1, 2, 3, 4], [3, 4, 1, 2], [2, 1, 4, 3], [4, 3, 1, 2]])).unwrap();
    assert!(!b.is_solved());
    assert!(b.solve().is_none());
}

#[test]
fn grid_with_an_empty_cell_is_not_solved() {
    let b = board("[[1,2,3,4],[3,4,1,2],[2,1,4,3],[4,3,2,null]]");
    assert!(!b.is_solved());
}

#[test]
fn try_set_refuses_a_conflicting_value() {
    let mut b = board("[[null,2,3,4],[3,4,1,2],[2,1,4,3],[4,3,2,1]]");
    let before = b.clone();
    assert_eq!(
        b.try_set(&Loc::new(1, 1), Some(2)),
        Err(Conflict { value: 2, loc: Loc::new(1, 1) })
    );
    assert_eq!(b, before);
    assert_eq!(b.try_set(&Loc::new(1, 1), Some(1)), Ok(()));
    assert!(b.is_solved());
}

#[test]
fn try_set_refuses_every_value_on_a_solved_grid() {
    let mut b = board("[[1,2,3,4],[3,4,1,2],[2,1,4,3],[4,3,2,1]]");
    for v in 1..=4u8 {
        assert_eq!(
            b.try_set(&Loc::new(2, 3), Some(v)),
            Err(Conflict { value: v, loc: Loc::new(2, 3) })
        );
    }
    assert_eq!(b.try_set(&Loc::new(2, 3), Some(9)), Err(Conflict { value: 9, loc: Loc::new(2, 3) }));
    assert_eq!(b.try_set(&Loc::new(2, 3), None), Ok(()));
    assert_eq!(b.get(&Loc::new(2, 3)), None);
    assert_eq!(b.available_values(&Loc::new(2, 3)), vec![1]);
}

#[test]
fn set_twice_equals_set_once() {
    let mut once = board(EASY);
    once.set(&Loc::new(1, 1), Some(4));
    let mut twice = once.clone();
    twice.set(&Loc::new(1, 1), Some(4));
    assert_eq!(once, twice);
}

#[test]
fn set_then_clear_restores() {
    let initial = board(EASY);
    let mut b = initial.clone();
    b.set(&Loc::new(1, 1), Some(4));
    assert_ne!(b, initial);
    b.set(&Loc::new(1, 1), None);
    assert_eq!(b, initial);
}

#[test]
fn from_cells_rejects_bad_key_sets() {
    let mut missing = all_cells(4, None);
    missing.pop();
    assert!(Board::from_cells(2, missing).is_none());

    let mut doubled = all_cells(4, None);
    doubled[3] = (Loc::new(1, 1), None);
    assert!(Board::from_cells(2, doubled).is_none());

    let mut outside = all_cells(4, None);
    outside[0] = (Loc::new(5, 1), None);
    assert!(Board::from_cells(2, outside).is_none());

    let mut zero = all_cells(4, None);
    zero[0] = (Loc::new(1, 1), Some(0));
    assert!(Board::from_cells(2, zero).is_none());

    let mut big = all_cells(4, None);
    big[0] = (Loc::new(1, 1), Some(5));
    assert!(Board::from_cells(2, big).is_none());
}

#[test]
fn from_rows_checks_shape() {
    assert!(Board::from_rows(vec![vec![None; 3]; 3]).is_none());
    assert!(Board::from_rows(vec![vec![None; 4], vec![None; 4], vec![None; 4], vec![None; 3]]).is_none());
    assert!(Board::from_rows(vec![vec![Some(2)]]).is_none());
    let b = Board::from_rows(vec![vec![None; 4]; 4]).unwrap();
    assert_eq!(b, Board::new(2));
    assert_eq!(Board::from_rows(Vec::new()).unwrap(), Board::new(0));
}

#[test]
fn from_json_rejects_other_text() {
    assert!(Board::from_json("not json").is_none());
    assert!(Board::from_json("{\"a\": 1}").is_none());
    assert!(Board::from_json("[[1,2],[3]]").is_none());
    assert!(Board::from_json("[[-1]]").is_none());
}

#[test]
fn json_round_trip() {
    let b = board(EASY);
    let text = b.to_json().to_string();
    assert_eq!(board(&text), b);
    assert_eq!(board("[[1]]").to_json().to_string(), "[[1]]");
    assert_eq!(board("[[null]]").to_json().to_string(), "[[null]]");
}

#[test]
fn solve_reports_no_solution_for_conflicting_givens() {
    // Row 1 holds 1 twice; every other cell is empty.
    let b = board("[[1,1,null,null],[null,null,null,null],[null,null,null,null],[null,null,null,null]]");
    assert!(b.solve().is_none());
}
