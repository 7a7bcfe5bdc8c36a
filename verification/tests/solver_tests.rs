use sudoku::board::Board;
use sudoku::solver::{solve, SolveError, Solver};

fn load(rows: [&str; 9]) -> Board {
    let mut board = Board::new();
    for (i, row) in rows.iter().enumerate() {
        for (j, ch) in row.chars().enumerate() {
            if ch != '?' {
                assert_eq!(board.set_tile(i, j, ch as u8 - b'0'), Ok(()));
            }
        }
    }
    board
}

fn rows(board: &Board) -> Vec<String> {
    let mut all = Vec::new();
    for r in 0..9 {
        let mut line = String::new();
        for c in 0..9 {
            match board.get_tile(r, c) {
                Some(v) => line.push((b'0' + v) as char),
                None => line.push('?'),
            }
        }
        all.push(line);
    }
    all
}

const PUZZLE: [&str; 9] = [
    "5????8??3",
    "83?946??7",
    "?7213?9??",
    "1?769??32",
    "?9?812???",
    "?8?35??96",
    "4152?9?78",
    "?????1?29",
    "?2?47?5??",
];

#[test]
fn generates_a_valid_board() {
    let mut board = Board::new();
    let _ = solve(&mut board);
    assert_eq!(board.is_complete(), true);
}

#[test]
fn solve_partial() {
    let i = [
        "5????8??3",
        "83?946??7",
        "?7213?9??",
        "1?769??32",
        "?9?812???",
        "?8?35??96",
        "4152?9?78",
        "?????1?29",
        "?2?47?5??",
    ];

    let mut board = Board::new();

    for (i, &s) in i.iter().enumerate() {
        for (j, v) in s.split("").enumerate() {
            if v != "?" && v.len() > 0 {
                let _ = board.set_tile(i, j - 1, u8::from_str_radix(v, 10).unwrap());
            }
        }
    }

    let _ = solve(&mut board);

    assert_eq!(board.is_complete(), true);
}

#[test]
fn solve_keeps_the_given_cells() {
    let mut board = load(PUZZLE);
    assert_eq!(solve(&mut board), Ok(()));
    assert!(board.is_complete());
    for (r, row) in PUZZLE.iter().enumerate() {
        for (c, ch) in row.chars().enumerate() {
            if ch != '?' {
                assert_eq!(board.get_tile(r, c), Some(ch as u8 - b'0'));
            }
        }
    }
    assert_eq!(
        rows(&board),
        vec![
            "549728613", "831946257", "672135984", "157694832", "396812745", "284357196",
            "415269378", "763581429", "928473561",
        ]
    );
}

#[test]
fn solve_of_a_blank_board_is_repeatable() {
    let mut first = Board::new();
    let mut second = Board::new();
    assert_eq!(solve(&mut first), Ok(()));
    assert_eq!(solve(&mut second), Ok(()));
    assert_eq!(rows(&first), rows(&second));
    assert_eq!(
        rows(&first),
        vec![
            "856439271", "273168594", "914275683", "745682319", "392541768", "168793452",
            "429856137", "687314925", "531927846",
        ]
    );
}

#[test]
fn solve_of_a_full_board_changes_nothing() {
    let full = [
        "549728613", "831946257", "672135984", "157694832", "396812745", "284357196", "415269378",
        "763581429", "928473561",
    ];
    let mut board = load(full);
    assert_eq!(solve(&mut board), Ok(()));
    assert_eq!(rows(&board), full.to_vec());
}

#[test]
fn two_equal_values_in_a_row_exhaust_the_search() {
    let mut clash = PUZZLE;
    clash[0] = "55???8??3";
    let mut board = load(clash);
    assert_eq!(solve(&mut board), Err(SolveError::SearchExhausted));
    assert_eq!(rows(&board), clash.to_vec());
}

#[test]
fn cell_without_candidates_exhausts_the_search() {
    let mut board = Board::new();
    for c in 1..9 {
        assert_eq!(board.set_tile(0, c, c as u8), Ok(()));
    }
    assert_eq!(board.set_tile(1, 0, 9), Ok(()));
    assert_eq!(board.get_candidates(0, 0), Vec::<u8>::new());
    let before = rows(&board);
    assert_eq!(solve(&mut board), Err(SolveError::SearchExhausted));
    assert_eq!(rows(&board), before);
}

#[test]
fn clash_away_from_the_empty_cells_is_filled_but_not_complete() {
    let mut board = load([
        "449728613", "831946257", "672135984", "157694832", "396812745", "284357196", "415269378",
        "763581429", "92847356?",
    ]);
    assert_eq!(solve(&mut board), Ok(()));
    assert_eq!(board.get_tile(8, 8), Some(1));
    assert_eq!(board.get_tile(0, 0), Some(4));
    assert!(!board.is_complete());
}

#[test]
fn solver_steps_forward_and_back() {
    let mut board = load(PUZZLE);
    let mut search = Solver::new(&board);
    assert_eq!(search.pointer(), 0);
    assert!(!search.is_finished(&board));
    assert!(!search.is_stuck(&board));
    assert_eq!(board.get_candidates(0, 1), vec![4, 6]);
    search.advance(&mut board, 1);
    assert_eq!(board.get_tile(0, 1), Some(6));
    assert_eq!(search.pointer(), 1);
    assert_eq!(board.get_candidates(0, 2), vec![1, 4, 9]);
    search.advance(&mut board, 4);
    assert_eq!(board.get_tile(0, 2), Some(4));
    assert_eq!(search.pointer(), 2);
    let mut steps = 0;
    while !search.is_finished(&board) && !search.is_stuck(&board) {
        search.advance(&mut board, 0);
        steps += 1;
    }
    assert!(steps < 40);
    assert!(!search.is_finished(&board));
    let stuck_at = search.pointer();
    assert_eq!(search.retreat(&mut board), Ok(()));
    assert_eq!(search.pointer(), stuck_at - 1);
}

#[test]
fn solver_never_retries_a_failed_value() {
    let mut board = Board::new();
    for c in 2..9 {
        assert_eq!(board.set_tile(0, c, c as u8), Ok(()));
    }
    assert_eq!(board.set_tile(1, 1, 9), Ok(()));
    let mut search = Solver::new(&board);
    assert_eq!(board.get_candidates(0, 0), vec![1]);
    search.advance(&mut board, 7);
    assert_eq!(board.get_tile(0, 0), Some(1));
    assert!(search.is_stuck(&board));
    assert_eq!(search.retreat(&mut board), Ok(()));
    assert_eq!(board.get_tile(0, 0), None);
    assert_eq!(search.pointer(), 0);
    assert!(search.is_stuck(&board));
    assert_eq!(search.retreat(&mut board), Err(SolveError::SearchExhausted));
    assert_eq!(board.get_tile(0, 0), None);
}

#[test]
fn solver_of_a_full_board_is_finished() {
    let board = load([
        "549728613", "831946257", "672135984", "157694832", "396812745", "284357196", "415269378",
        "763581429", "928473561",
    ]);
    let search = Solver::new(&board);
    assert!(search.is_finished(&board));
    assert_eq!(search.pointer(), 0);
}
