use sudoku::board::Board;
use sudoku::board_generator::{
    generate_board, generate_within, pointer_to_x_y, Difficulty, GenerationError, GenerationParams,
    Generator, TileGenerationState, ITERATION_BUDGET,
};
use sudoku::randomness::choose_index;

fn rows(board: &Board) -> Vec<String> {
    let mut all = Vec::new();
    for r in 0..9 {
        let mut line = String::new();
        for c in 0..9 {
            match board.get_tile(r, c) {
                Some(v) => line.push((b'0' + v) as char),
                None => line.push('?'),
            }
        }
        all.push(line);
    }
    all
}

#[test]
fn board_generates() {
    let board = generate_board(GenerationParams::default()).unwrap();
    let text: String = board.render().into_iter().collect();
    println!("{}", text);
    assert_eq!(board.is_complete(), true);
}

#[test]
fn default_params_are_seed_zero() {
    let by_default = generate_board(GenerationParams::default()).unwrap();
    let by_seed = generate_board(GenerationParams::new(0, Difficulty::Medium)).unwrap();
    assert_eq!(rows(&by_default), rows(&by_seed));
}

#[test]
fn seed_zero_gives_this_board() {
    let board = generate_board(GenerationParams::new(0, Difficulty::Medium)).unwrap();
    assert_eq!(
        rows(&board),
        vec![
            "416723958", "295814763", "873965241", "641352879", "389176524", "752489316",
            "968547132", "534291687", "127638495",
        ]
    );
}

#[test]
fn seed_one_gives_this_board() {
    let board = generate_board(GenerationParams::new(1, Difficulty::Solved)).unwrap();
    assert_eq!(
        rows(&board),
        vec![
            "859436271", "246917583", "731258469", "568173924", "497825136", "312649758",
            "185764392", "974382615", "623591847",
        ]
    );
}

#[test]
fn same_seed_gives_the_same_board() {
    for seed in [0, 1, 7, -3, 12345, i32::MIN, i32::MAX] {
        let first = generate_within(GenerationParams::new(seed, Difficulty::Hard), 100_000);
        let second = generate_within(GenerationParams::new(seed, Difficulty::Hard), 100_000);
        let first = first.unwrap();
        let second = second.unwrap();
        assert_eq!(rows(&first), rows(&second));
        for r in 0..9 {
            for c in 0..9 {
                assert_eq!(first.get_candidates(r, c), second.get_candidates(r, c));
            }
        }
    }
}

#[test]
fn difficulty_does_not_change_the_board() {
    let hard = generate_board(GenerationParams::new(7, Difficulty::Hard)).unwrap();
    for difficulty in [Difficulty::Medium, Difficulty::Easy, Difficulty::Solved] {
        let other = generate_board(GenerationParams::new(7, difficulty)).unwrap();
        assert_eq!(rows(&hard), rows(&other));
    }
}

#[test]
fn different_seeds_give_different_boards() {
    let a = generate_board(GenerationParams::new(0, Difficulty::Medium)).unwrap();
    let b = generate_board(GenerationParams::new(1, Difficulty::Medium)).unwrap();
    assert_ne!(rows(&a), rows(&b));
}

#[test]
fn generated_boards_are_complete() {
    let mut over_budget = 0;
    for seed in 0..200 {
        match generate_board(GenerationParams::new(seed, Difficulty::Medium)) {
            Ok(board) => assert!(board.is_complete()),
            Err(e) => {
                assert_eq!(e, GenerationError::IterationBudgetExceeded);
                over_budget += 1;
            }
        }
    }
    assert_eq!(over_budget, 3);
}

#[test]
fn budget_is_500_steps() {
    assert_eq!(ITERATION_BUDGET, 500);
    let params = GenerationParams::new(15, Difficulty::Medium);
    assert!(matches!(generate_board(params), Err(GenerationError::IterationBudgetExceeded)));
    let params = GenerationParams::new(15, Difficulty::Medium);
    assert!(generate_within(params, 100_000).unwrap().is_complete());
}

#[test]
fn budget_exceeded_is_reported() {
    for budget in [0, 1, 80, 144] {
        let result = generate_within(GenerationParams::new(0, Difficulty::Medium), budget);
        assert!(matches!(result, Err(GenerationError::IterationBudgetExceeded)));
    }
    let result = generate_within(GenerationParams::new(0, Difficulty::Medium), 145);
    assert!(result.unwrap().is_complete());
}

#[test]
fn tile_state_starts_full() {
    let state = TileGenerationState::new();
    assert_eq!(state.get_candidates(), &vec![1, 2, 3, 4, 5, 6, 7, 8, 9]);
    let state = TileGenerationState::fresh(vec![2, 4]);
    assert_eq!(state.get_candidates(), &vec![2, 4]);
}

#[test]
fn tile_state_removes_and_restores() {
    let mut state = TileGenerationState::new();
    assert_eq!(state.remove_candidate_value(3), true);
    assert_eq!(state.get_candidates(), &vec![1, 2, 9, 4, 5, 6, 7, 8]);
    assert_eq!(state.remove_candidate_value(3), false);
    assert_eq!(state.get_candidates(), &vec![1, 2, 9, 4, 5, 6, 7, 8]);
    assert_eq!(state.remove_candidate_value(8), true);
    assert_eq!(state.get_candidates(), &vec![1, 2, 9, 4, 5, 6, 7]);
    state.restore_candidate_value(3);
    assert_eq!(state.get_candidates(), &vec![1, 2, 9, 4, 5, 6, 7, 3]);
    state.restore_candidate_value(3);
    assert_eq!(state.get_candidates(), &vec![1, 2, 9, 4, 5, 6, 7, 3]);
    state.add_side_effect(12);
    state.clear_side_effects();
    assert_eq!(state.get_candidates(), &vec![1, 2, 9, 4, 5, 6, 7, 3]);
}

#[test]
fn pointer_maps_to_row_and_column() {
    assert_eq!(pointer_to_x_y(0), (0, 0));
    assert_eq!(pointer_to_x_y(8), (0, 8));
    assert_eq!(pointer_to_x_y(9), (1, 0));
    assert_eq!(pointer_to_x_y(41), (4, 5));
    assert_eq!(pointer_to_x_y(80), (8, 8));
}

#[test]
fn draw_picks_by_remainder() {
    assert_eq!(choose_index(0, 5), 0);
    assert_eq!(choose_index(10, 3), 1);
    assert_eq!(choose_index(8, 9), 8);
    assert_eq!(choose_index(u32::MAX, 9), 3);
    assert_eq!(choose_index(u32::MAX, 1), 0);
}

#[test]
fn forward_step_commits_and_prunes_later_peers() {
    let mut search = Generator::new();
    assert_eq!(search.pointer(), 0);
    assert!(!search.is_finished());
    assert!(!search.is_stuck());
    search.advance(4);
    assert_eq!(search.pointer(), 1);
    assert_eq!(search.board().get_tile(0, 0), Some(5));
    assert_eq!(search.tile(0).get_candidates(), &vec![1, 2, 3, 4, 5, 6, 7, 8, 9]);
    for p in 1..81 {
        let (r, c) = pointer_to_x_y(p);
        let expect: Vec<u8> = if r == 0 || c == 0 || (r < 3 && c < 3) {
            vec![1, 2, 3, 4, 9, 6, 7, 8]
        } else {
            vec![1, 2, 3, 4, 5, 6, 7, 8, 9]
        };
        assert_eq!(search.tile(p).get_candidates(), &expect);
    }
    search.advance(4);
    assert_eq!(search.board().get_tile(0, 1), Some(9));
    assert_eq!(search.tile(2).get_candidates(), &vec![1, 2, 3, 4, 8, 6, 7]);
    assert_eq!(search.tile(9).get_candidates(), &vec![1, 2, 3, 4, 8, 6, 7]);
    assert_eq!(search.tile(10).get_candidates(), &vec![1, 2, 3, 4, 8, 6, 7]);
    assert_eq!(search.tile(18).get_candidates(), &vec![1, 2, 3, 4, 8, 6, 7]);
    assert_eq!(search.tile(27).get_candidates(), &vec![1, 2, 3, 4, 9, 6, 7, 8]);
    assert_eq!(search.tile(28).get_candidates(), &vec![1, 2, 3, 4, 5, 6, 7, 8]);
    assert_eq!(search.tile(0).get_candidates(), &vec![1, 2, 3, 4, 5, 6, 7, 8, 9]);
}

#[test]
fn backward_step_undoes_the_last_commit() {
    let mut search = Generator::new();
    search.advance(4);
    search.advance(4);
    assert_eq!(search.retreat(), Ok(()));
    assert_eq!(search.pointer(), 1);
    assert_eq!(search.board().get_tile(0, 1), None);
    assert_eq!(search.board().get_tile(0, 0), Some(5));
    assert_eq!(search.tile(1).get_candidates(), &vec![1, 2, 3, 4, 8, 6, 7]);
    assert_eq!(search.tile(2).get_candidates(), &vec![1, 2, 3, 4, 6, 7, 8, 9]);
    assert_eq!(search.tile(3).get_candidates(), &vec![1, 2, 3, 4, 8, 6, 7, 9]);
    assert_eq!(search.tile(10).get_candidates(), &vec![1, 2, 3, 4, 8, 6, 7, 9]);
    assert_eq!(search.tile(28).get_candidates(), &vec![1, 2, 3, 4, 5, 6, 7, 8, 9]);
    assert_eq!(search.tile(27).get_candidates(), &vec![1, 2, 3, 4, 9, 6, 7, 8]);
    assert_eq!(search.board().get_candidates(0, 1), vec![1, 2, 3, 4, 6, 7, 8, 9]);
}

#[test]
fn backing_out_of_the_first_cell_exhausts_the_search() {
    let mut search = Generator::new();
    assert_eq!(search.retreat(), Err(GenerationError::SearchExhausted));
    assert_eq!(search.pointer(), 0);
    search.advance(0);
    assert_eq!(search.retreat(), Ok(()));
    assert_eq!(search.pointer(), 0);
    assert_eq!(search.tile(0).get_candidates(), &vec![9, 2, 3, 4, 5, 6, 7, 8]);
    assert_eq!(search.retreat(), Err(GenerationError::SearchExhausted));
    assert_eq!(search.board().get_tile(0, 0), None);
}

#[test]
fn stepping_by_hand_fills_the_board() {
    let mut search = Generator::new();
    let mut draw: u32 = 17;
    let mut steps = 0;
    while !search.is_finished() && steps < 1_000_000 {
        if search.is_stuck() {
            assert_eq!(search.retreat(), Ok(()));
        } else {
            draw = draw.wrapping_mul(1_103_515_245).wrapping_add(12_345);
            search.advance(draw >> 16);
        }
        steps += 1;
    }
    assert!(search.is_finished());
    assert_eq!(search.pointer(), 81);
    assert!(search.into_board().is_complete());
}
