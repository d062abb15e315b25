use flipull::board::BoardState;
use flipull::play::{points_for, MISS_MOVE};

fn board(
    level: i32,
    qualify: usize,
    rows: usize,
    cols: usize,
    is_column: Vec<bool>,
    positions: Vec<i32>,
    grid: Vec<i32>,
    held: i32,
) -> BoardState {
    let count = grid.iter().filter(|v| **v != 0).count();
    BoardState {
        level_number: level,
        qualify_blocks: qualify,
        row_count: rows,
        column_count: cols,
        legal_move_is_column: is_column,
        legal_move_position: positions,
        moves: String::new(),
        move_list: Vec::new(),
        board: grid,
        block_count: count,
        raw_score: 0,
        score: 0,
        held_block: held,
        previous_move_index: 0,
        miss_available: false,
    }
}

// row 0: . s o / row 1: s s o
fn small() -> BoardState {
    board(5, 0, 2, 3, vec![false, false, true], vec![1, 0, 2], vec![0, 1, 2, 1, 1, 2], 0)
}

#[test]
fn legal_move_wild_block_hits_first_block() {
    let b = small();
    assert_eq!(b.is_legal_move(false, 1), (true, false));
}

#[test]
fn legal_move_top_of_rightmost_column() {
    let b = small();
    assert_eq!(b.is_legal_move(true, 2), (true, true));
}

#[test]
fn legal_move_row_turns_down_at_wall() {
    // row 0 is empty: the throw turns down the rightmost column and hits the 'o' below,
    // which is the top block of that column
    let b = board(5, 0, 2, 3, vec![false], vec![0], vec![0, 0, 0, 1, 1, 2], 2);
    assert_eq!(b.is_legal_move(false, 0), (true, true));
}

#[test]
fn legal_move_mismatch_is_illegal() {
    let mut b = small();
    b.held_block = 2;
    assert_eq!(b.is_legal_move(false, 1), (false, false));
    assert_eq!(b.is_legal_move(false, 0), (false, false));
}

#[test]
fn legal_move_empty_path_is_illegal() {
    let b = board(5, 0, 2, 3, vec![true], vec![0], vec![0, 1, 2, 0, 1, 2], 0);
    assert_eq!(b.is_legal_move(true, 0), (false, false));
}

#[test]
fn make_move_clears_and_swaps() {
    // row 0: s o t / row 1: s s x
    let mut b = board(5, 0, 2, 3, vec![false, false, true], vec![1, 0, 2], vec![1, 2, 3, 1, 1, 4], 0);
    b.make_move(0);
    assert_eq!(b.board, vec![0, 0, 3, 1, 2, 1]);
    assert_eq!(b.held_block, 4);
    assert_eq!(b.block_count, 4);
    assert_eq!(b.raw_score, 400);
    assert_eq!(b.score, 380);
    assert_eq!(b.moves, "R1, ");
    assert_eq!(b.move_list, vec![0]);
    assert_eq!(b.previous_move_index, 0);
}

#[test]
fn make_move_invalid_throw_changes_only_the_record() {
    let mut b = board(5, 0, 2, 3, vec![false, false, true], vec![1, 0, 2], vec![1, 2, 3, 1, 1, 4], 0);
    b.make_move(0);
    b.make_move(2);
    // the column throw meets 't' while holding 'x': nothing is cleared
    assert_eq!(b.board, vec![0, 0, 3, 1, 2, 1]);
    assert_eq!(b.held_block, 4);
    assert_eq!(b.block_count, 4);
    assert_eq!(b.raw_score, 400);
    // 3 points per row moved (2 rows) and 20 for the throw
    assert_eq!(b.score, 354);
    assert_eq!(b.moves, "R1, C3, ");
    assert_eq!(b.move_list, vec![0, 2]);
    assert_eq!(b.previous_move_index, 2);
}

#[test]
fn make_move_column_clears_stacked_blocks() {
    let mut b = board(40, 0, 3, 1, vec![true], vec![0], vec![1, 1, 2], 0);
    b.make_move(0);
    assert_eq!(b.board, vec![0, 0, 1]);
    assert_eq!(b.held_block, 2);
    assert_eq!(b.block_count, 1);
    assert_eq!(b.raw_score, 400);
    // second half of the game: 40 points per throw
    assert_eq!(b.score, 360);
    assert_eq!(b.moves, "C1, ");
}

#[test]
fn make_move_clears_whole_row_and_leaves_floor() {
    let mut b = board(1, 0, 1, 2, vec![false], vec![0], vec![3, 3], 3);
    b.make_move(0);
    assert_eq!(b.board, vec![0, 0]);
    assert_eq!(b.held_block, 3);
    assert_eq!(b.block_count, 0);
    assert_eq!(b.raw_score, 400);
    assert_eq!(b.score, 380);
}

#[test]
fn make_move_blocks_above_fall() {
    // column 0 holds s over o over s; the row throw at the bottom row clears the lower s
    let mut b = board(1, 0, 3, 2, vec![false], vec![2], vec![1, 0, 2, 0, 1, 0], 1);
    b.make_move(0);
    assert_eq!(b.board, vec![0, 0, 1, 0, 2, 0]);
    assert_eq!(b.held_block, 1);
    assert_eq!(b.block_count, 2);
}

#[test]
fn make_move_row_penalty_in_second_half() {
    let mut b = board(40, 0, 3, 1, vec![false, false, false], vec![2, 1, 0], vec![1, 2, 3], 0);
    b.previous_move_index = 0;
    b.make_move(2);
    // 6 points per row moved (2 rows), 40 for the throw, 100 for one block
    assert_eq!(b.score, 100 - 12 - 40);
    assert_eq!(b.moves, "R3, ");
}

#[test]
fn make_move_miss_gives_wild_block() {
    let mut b = small();
    b.held_block = 3;
    b.miss_available = true;
    b.make_move(MISS_MOVE);
    assert_eq!(b.held_block, 0);
    assert!(!b.miss_available);
    assert_eq!(b.board, vec![0, 1, 2, 1, 1, 2]);
    assert_eq!(b.moves, "");
    assert_eq!(b.score, 0);
}

#[test]
fn clearing_n_blocks_scores_n_squared_hundreds() {
    assert_eq!(points_for(1), 100);
    assert_eq!(points_for(2), 400);
    assert_eq!(points_for(3), 900);
    assert_eq!(points_for(4), 1600);
    assert_eq!(points_for(5), 2500);
}

#[test]
fn legal_move_exactly_when_a_block_is_cleared() {
    for held in 0..5 {
        for pos in 0..2usize {
            let mut b = board(1, 0, 2, 3, vec![false, false], vec![1, 0], vec![0, 1, 2, 1, 1, 2], held);
            let before = b.block_count;
            let (legal, _) = b.is_legal_move(false, pos);
            let index = if pos == 1 { 0 } else { 1 };
            b.make_move(index);
            assert_eq!(legal, b.block_count < before);
        }
    }
}

#[test]
fn move_removes_exactly_the_cleared_blocks() {
    let mut b = board(5, 0, 2, 3, vec![false, false, true], vec![1, 0, 2], vec![1, 2, 3, 1, 1, 4], 0);
    b.make_move(0);
    let on_grid = b.board.iter().filter(|v| **v != 0).count();
    assert_eq!(on_grid, b.block_count);
}
