use sudoku::board::{are_peers, Board, ClearUnassigned, InvalidAssignment, Tile};

fn load(rows: [&str; 9]) -> Board {
    let mut board = Board::new();
    for (i, row) in rows.iter().enumerate() {
        for (j, ch) in row.chars().enumerate() {
            if ch != '?' {
                assert_eq!(board.set_tile(i, j, ch as u8 - b'0'), Ok(()));
            }
        }
    }
    board
}

const PUZZLE: [&str; 9] = [
    "5????8??3",
    "83?946??7",
    "?7213?9??",
    "1?769??32",
    "?9?812???",
    "?8?35??96",
    "4152?9?78",
    "?????1?29",
    "?2?47?5??",
];

const SOLVED: [&str; 9] = [
    "549728613",
    "831946257",
    "672135984",
    "157694832",
    "396812745",
    "284357196",
    "415269378",
    "763581429",
    "928473561",
];

fn recount(board: &Board, row: usize, col: usize) -> Vec<u8> {
    let mut open = Vec::new();
    for v in 1..=9u8 {
        let mut count = 0;
        for r in 0..9 {
            for c in 0..9 {
                let other = (r, c) != (row, col);
                let shares = r == row || c == col || (r / 3 == row / 3 && c / 3 == col / 3);
                if other && shares && board.get_tile(r, c) == Some(v) {
                    count += 1;
                }
            }
        }
        if count == 0 {
            open.push(v);
        }
    }
    open
}

fn all_candidates(board: &Board) -> Vec<Vec<u8>> {
    let mut all = Vec::new();
    for r in 0..9 {
        for c in 0..9 {
            all.push(board.get_candidates(r, c));
        }
    }
    all
}

#[test]
fn new_tile_is_constructible() {
    let tile = Tile::new();
    let copy = tile;
    assert_eq!(format!("{:?}", tile), format!("{:?}", copy));
}

#[test]
fn new_board_is_blank() {
    let board = Board::new();
    for r in 0..9 {
        for c in 0..9 {
            assert_eq!(board.get_tile(r, c), None);
            assert_eq!(board.get_candidates(r, c), vec![1, 2, 3, 4, 5, 6, 7, 8, 9]);
        }
    }
    assert!(!board.is_complete());
}

#[test]
fn set_tile_assigns_and_blocks_peers() {
    let mut board = Board::new();
    assert_eq!(board.set_tile(4, 4, 7), Ok(()));
    assert_eq!(board.get_tile(4, 4), Some(7));
    for r in 0..9 {
        for c in 0..9 {
            let expect: Vec<u8> = if (r, c) != (4, 4) && (r == 4 || c == 4 || (r / 3 == 1 && c / 3 == 1)) {
                vec![1, 2, 3, 4, 5, 6, 8, 9]
            } else {
                vec![1, 2, 3, 4, 5, 6, 7, 8, 9]
            };
            assert_eq!(board.get_candidates(r, c), expect);
        }
    }
}

#[test]
fn box_peers_in_same_row_are_counted_once() {
    let mut board = Board::new();
    assert_eq!(board.set_tile(0, 0, 3), Ok(()));
    assert_eq!(board.set_tile(0, 1, 3), Ok(()));
    assert_eq!(board.clear_tile(0, 0), Ok(()));
    assert_eq!(board.get_candidates(0, 2), vec![1, 2, 4, 5, 6, 7, 8, 9]);
    assert_eq!(board.clear_tile(0, 1), Ok(()));
    assert_eq!(board.get_candidates(0, 2), vec![1, 2, 3, 4, 5, 6, 7, 8, 9]);
    assert_eq!(board.get_candidates(1, 1), vec![1, 2, 3, 4, 5, 6, 7, 8, 9]);
}

#[test]
fn set_tile_refuses_bad_values_and_assigned_cells() {
    let mut board = Board::new();
    assert_eq!(board.set_tile(0, 0, 0), Err(InvalidAssignment));
    assert_eq!(board.set_tile(0, 0, 10), Err(InvalidAssignment));
    assert_eq!(board.get_tile(0, 0), None);
    assert_eq!(board.set_tile(0, 0, 9), Ok(()));
    let before = all_candidates(&board);
    assert_eq!(board.set_tile(0, 0, 4), Err(InvalidAssignment));
    assert_eq!(board.set_tile(0, 0, 9), Err(InvalidAssignment));
    assert_eq!(board.get_tile(0, 0), Some(9));
    assert_eq!(all_candidates(&board), before);
}

#[test]
fn clear_tile_refuses_empty_cells() {
    let mut board = load(PUZZLE);
    let before = all_candidates(&board);
    assert_eq!(board.clear_tile(0, 1), Err(ClearUnassigned));
    assert_eq!(all_candidates(&board), before);
    assert_eq!(board.clear_tile(0, 0), Ok(()));
    assert_eq!(board.get_tile(0, 0), None);
    assert_eq!(board.clear_tile(0, 0), Err(ClearUnassigned));
}

#[test]
fn candidates_equal_a_recount_from_scratch() {
    let mut board = load(PUZZLE);
    for r in 0..9 {
        for c in 0..9 {
            assert_eq!(board.get_candidates(r, c), recount(&board, r, c));
        }
    }
    assert_eq!(board.get_candidates(0, 1), vec![4, 6]);
    assert_eq!(board.set_tile(0, 1, 6), Ok(()));
    assert_eq!(board.clear_tile(3, 0), Ok(()));
    assert_eq!(board.set_tile(8, 8, 9), Ok(()));
    for r in 0..9 {
        for c in 0..9 {
            assert_eq!(board.get_candidates(r, c), recount(&board, r, c));
        }
    }
}

#[test]
fn set_then_clear_is_a_round_trip() {
    let mut board = load(PUZZLE);
    let before = all_candidates(&board);
    for v in 1..=9u8 {
        assert_eq!(board.set_tile(4, 0, v), Ok(()));
        assert_eq!(board.clear_tile(4, 0), Ok(()));
        assert_eq!(all_candidates(&board), before);
        assert_eq!(board.get_tile(4, 0), None);
    }
}

#[test]
fn solved_grid_is_complete() {
    let board = load(SOLVED);
    assert!(board.is_complete());
}

#[test]
fn partial_grid_is_not_complete() {
    let mut board = load(SOLVED);
    assert_eq!(board.clear_tile(8, 8), Ok(()));
    assert!(!board.is_complete());
    assert!(!load(PUZZLE).is_complete());
}

#[test]
fn grid_of_fives_sums_to_45_everywhere_and_is_rejected() {
    let mut board = Board::new();
    for r in 0..9 {
        for c in 0..9 {
            assert_eq!(board.set_tile(r, c, 5), Ok(()));
        }
    }
    assert!(!board.is_complete());
}

#[test]
fn row_with_repeats_summing_to_45_is_rejected() {
    let mut rows = SOLVED;
    rows[0] = "559728513";
    let sum: u32 = rows[0].chars().map(|c| c as u32 - '0' as u32).sum();
    assert_eq!(sum, 45);
    assert!(!load(rows).is_complete());
}

#[test]
fn swapped_cells_in_a_row_are_rejected() {
    let mut rows = SOLVED;
    rows[3] = "517694832";
    assert!(!load(rows).is_complete());
}

#[test]
fn peers_share_row_column_or_box() {
    assert!(are_peers(0, 0, 0, 8));
    assert!(are_peers(0, 0, 8, 0));
    assert!(are_peers(0, 0, 2, 2));
    assert!(are_peers(4, 4, 3, 5));
    assert!(!are_peers(0, 0, 0, 0));
    assert!(!are_peers(0, 0, 3, 3));
    assert!(!are_peers(2, 2, 3, 3));
    assert!(!are_peers(4, 4, 2, 5));
}

#[test]
fn render_shows_the_board() {
    let text: String = Board::new().render().into_iter().collect();
    let mut expect = String::new();
    for _ in 0..9 {
        expect.push_str(" ? ? ? ? ? ? ? ? ? \n");
    }
    expect.push_str("------------------\n");
    assert_eq!(text, expect);
    let text: String = load(PUZZLE).render().into_iter().collect();
    let lines: Vec<&str> = text.lines().collect();
    assert_eq!(lines.len(), 10);
    assert_eq!(lines[0], " 5 ? ? ? ? 8 ? ? 3 ");
    assert_eq!(lines[6], " 4 1 5 2 ? 9 ? 7 8 ");
    assert_eq!(lines[9], "------------------");
}

#[test]
fn render_candidate_count_shows_the_counts() {
    let text: String = Board::new().render_candidate_count().into_iter().collect();
    let mut expect = String::new();
    for _ in 0..9 {
        expect.push_str(" 9 9 9 9 9 9 9 9 9 \n");
    }
    expect.push_str("------------------\n");
    assert_eq!(text, expect);
    let text: String = load(PUZZLE).render_candidate_count().into_iter().collect();
    let lines: Vec<&str> = text.lines().collect();
    assert_eq!(lines[0], " 3 2 4 1 1 2 4 3 3 ");
    assert_eq!(lines[8], " 3 2 4 1 3 1 4 2 1 ");
    let text: String = load(SOLVED).render_candidate_count().into_iter().collect();
    assert_eq!(text.lines().next(), Some(" 1 1 1 1 1 1 1 1 1 "));
}
