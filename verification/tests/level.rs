use flipull::board::BoardState;
use flipull::level::{load_board_state, parse_block, parse_indexes, LevelError};

const LEVELS: &str = "0 8 2 3\nR1 R2 C3 X\nsot\noxs\n\n5 1 2 2\nR1 C1\nss\no.\n\n";

#[test]
fn parse_block_maps_symbols() {
    assert_eq!(parse_block('.'), 0);
    assert_eq!(parse_block('s'), 1);
    assert_eq!(parse_block('o'), 2);
    assert_eq!(parse_block('t'), 3);
    assert_eq!(parse_block('x'), 4);
}

#[test]
fn parse_indexes_finds_ones() {
    assert_eq!(parse_indexes("00110"), vec![2, 3]);
    assert_eq!(parse_indexes(""), Vec::<usize>::new());
    assert_eq!(parse_indexes("1"), vec![0]);
    assert_eq!(parse_indexes("1a1"), vec![0, 2]);
}

#[test]
fn load_first_level() {
    let b = load_board_state(LEVELS, 0, false).unwrap();
    assert_eq!(b.level_number, 0);
    assert_eq!(b.qualify_blocks, 8);
    assert_eq!(b.row_count, 2);
    assert_eq!(b.column_count, 3);
    assert_eq!(b.legal_move_is_column, vec![false, false, true, true]);
    assert_eq!(b.legal_move_position, vec![1, 0, 2, -1]);
    assert_eq!(b.board, vec![1, 2, 3, 2, 4, 1]);
    assert_eq!(b.block_count, 6);
    assert_eq!(b.moves, "");
    assert_eq!(b.move_list, Vec::<usize>::new());
    assert_eq!(b.score, 0);
    assert_eq!(b.raw_score, 0);
    assert_eq!(b.held_block, 0);
    assert_eq!(b.previous_move_index, 0);
    assert!(!b.miss_available);
}

#[test]
fn load_later_level_with_miss() {
    let b = load_board_state(LEVELS, 5, true).unwrap();
    assert_eq!(b.level_number, 5);
    assert_eq!(b.qualify_blocks, 1);
    assert_eq!(b.legal_move_is_column, vec![false, true]);
    assert_eq!(b.legal_move_position, vec![1, 0]);
    assert_eq!(b.board, vec![1, 1, 2, 0]);
    // the empty square is not a block
    assert_eq!(b.block_count, 3);
    assert!(b.miss_available);
}

#[test]
fn load_missing_level_runs_out_of_lines() {
    assert_eq!(load_board_state(LEVELS, 7, false).err(), Some(LevelError::MissingField));
}

#[test]
fn load_rejects_bad_block() {
    let text = "0 8 2 3\nR1\nsqt\noxs\n\n";
    assert_eq!(load_board_state(text, 0, false).err(), Some(LevelError::BadBlock));
}

#[test]
fn load_rejects_short_grid_line() {
    // the newline is taken as a grid character
    let text = "0 8 2 3\nR1\nso\noxs\n\n";
    assert_eq!(load_board_state(text, 0, false).err(), Some(LevelError::BadBlock));
}

#[test]
fn load_rejects_row_outside_grid() {
    let text = "0 8 2 3\nR9\nsot\noxs\n\n";
    assert_eq!(load_board_state(text, 0, false).err(), Some(LevelError::BadMove));
}

#[test]
fn load_rejects_unknown_move() {
    let text = "0 8 2 3\nQ1\nsot\noxs\n\n";
    assert_eq!(load_board_state(text, 0, false).err(), Some(LevelError::BadMove));
}

#[test]
fn load_rejects_bad_number() {
    let text = "a 8 2 3\nR1\nsot\noxs\n\n";
    assert_eq!(load_board_state(text, 0, false).err(), Some(LevelError::BadNumber));
    let text = "0 8 2 3\nRx\nsot\noxs\n\n";
    assert_eq!(load_board_state(text, 0, false).err(), Some(LevelError::BadNumber));
    let text = "0 -8 2 3\nR1\nsot\noxs\n\n";
    assert_eq!(load_board_state(text, 0, false).err(), Some(LevelError::BadNumber));
}

#[test]
fn load_rejects_short_header() {
    let text = "0 8\nR1\nsot\noxs\n\n";
    assert_eq!(load_board_state(text, 0, false).err(), Some(LevelError::MissingField));
}

#[test]
fn load_accepts_signs_and_tabs() {
    let text = "+0\t8 2 3 extra\nR+1 C+3\nsot\noxs\n";
    let b = load_board_state(text, 0, false).unwrap();
    assert_eq!(b.legal_move_is_column, vec![false, true]);
    assert_eq!(b.legal_move_position, vec![1, 2]);
}

#[test]
fn report_shows_board() {
    let b = load_board_state(LEVELS, 0, false).unwrap();
    assert!(b.is_reportable());
    assert_eq!(
        b.report_text(),
        ">>> Board raw_score 0 hold . after moves \nsot\noxs\n\n"
    );
}

#[test]
fn report_after_moves() {
    let mut b: BoardState = load_board_state(LEVELS, 0, false).unwrap();
    b.make_move(0);
    b.raw_score = -1234;
    assert_eq!(
        b.report_text(),
        ">>> Board raw_score -1234 hold x after moves R1, \n.ot\nsos\n\n"
    );
}

#[test]
fn loaded_board_can_be_searched() {
    let b = load_board_state(LEVELS, 0, false).unwrap();
    assert!(b.has_sound_sizes());
    assert!(b.is_searchable());
}

#[test]
fn report_shows_extreme_scores() {
    let mut b = load_board_state(LEVELS, 5, false).unwrap();
    b.raw_score = i32::MIN;
    assert_eq!(
        b.report_text(),
        ">>> Board raw_score -2147483648 hold . after moves \nss\no.\n\n"
    );
    b.raw_score = 1000000;
    b.held_block = 3;
    assert_eq!(
        b.report_text(),
        ">>> Board raw_score 1000000 hold t after moves \nss\no.\n\n"
    );
}

#[test]
fn report_refuses_unknown_block() {
    let mut b = load_board_state(LEVELS, 5, false).unwrap();
    b.held_block = 5;
    assert!(!b.is_reportable());
    b.held_block = 0;
    b.board[1] = -1;
    assert!(!b.is_reportable());
}

#[test]
fn clone_keeps_every_field() {
    let mut b = load_board_state(LEVELS, 0, true).unwrap();
    b.make_move(0);
    let c = b.clone();
    assert_eq!(c.board, b.board);
    assert_eq!(c.moves, b.moves);
    assert_eq!(c.move_list, b.move_list);
    assert_eq!(c.score, b.score);
    assert_eq!(c.raw_score, b.raw_score);
    assert_eq!(c.held_block, b.held_block);
    assert_eq!(c.block_count, b.block_count);
    assert_eq!(c.legal_move_position, b.legal_move_position);
    assert_eq!(c.miss_available, b.miss_available);
}
