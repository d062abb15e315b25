use flipull::board::BoardState;
use flipull::search::SolutionFinder;
use flipull::openings::best_of;

fn board(
    level: i32,
    qualify: usize,
    rows: usize,
    cols: usize,
    is_column: Vec<bool>,
    positions: Vec<i32>,
    grid: Vec<i32>,
    held: i32,
) -> BoardState {
    let count = grid.iter().filter(|v| **v != 0).count();
    BoardState {
        level_number: level,
        qualify_blocks: qualify,
        row_count: rows,
        column_count: cols,
        legal_move_is_column: is_column,
        legal_move_position: positions,
        moves: String::new(),
        move_list: Vec::new(),
        board: grid,
        block_count: count,
        raw_score: 0,
        score: 0,
        held_block: held,
        previous_move_index: 0,
        miss_available: false,
    }
}

#[test]
fn ordered_moves_keeps_one_move_per_target() {
    // places 0 and 1 both attack row 1; place 2 attacks column 2
    let b = board(5, 0, 2, 3, vec![false, false, true], vec![1, 1, 2], vec![0, 1, 2, 1, 1, 2], 0);
    assert!(b.is_searchable());
    assert_eq!(b.ordered_moves(), vec![0, 2]);
}

#[test]
fn ordered_moves_skips_places_without_throw_and_illegal_throws() {
    let b = board(5, 0, 2, 3, vec![true, false, false], vec![-1, 1, 0], vec![0, 1, 2, 1, 1, 2], 2);
    assert!(b.is_searchable());
    // place 1 meets 's' with 'o' in hand; place 2 meets 's' in row 0 as well
    assert_eq!(b.ordered_moves(), Vec::<usize>::new());
}

#[test]
fn ordered_moves_goes_out_from_previous_move() {
    // four rows of single blocks, all 's'; the previous move was at place 2
    let mut b = board(5, 0, 4, 1, vec![false, false, false, false], vec![3, 2, 1, 0], vec![1, 1, 1, 1], 0);
    b.previous_move_index = 2;
    assert_eq!(b.ordered_moves(), vec![2, 3, 1, 0]);
}

#[test]
fn ordered_moves_keeps_one_top_right_hit() {
    // a single column: every row throw hits the top block of the rightmost column first
    // when the rows above are empty
    let b = board(5, 0, 3, 1, vec![false, false, false], vec![2, 1, 0], vec![0, 0, 1], 0);
    assert_eq!(b.ordered_moves(), vec![0]);
}

#[test]
fn find_best_solution_clears_a_pair() {
    let b = board(1, 0, 1, 2, vec![false], vec![0], vec![1, 1], 0);
    assert!(b.is_searchable());
    let mut finder = SolutionFinder { best_score: 0, best_board: None };
    let best = finder.find_best_solution(b).unwrap();
    // 400 for the pair, 20 for the throw, 1000 for the quota bonus
    assert_eq!(best.score, 1380);
    assert_eq!(best.raw_score, 1400);
    assert_eq!(best.moves, "R1, ");
    assert_eq!(best.block_count, 0);
    assert_eq!(finder.best_score, 1380);
}

#[test]
fn training_round_gets_flat_bonus() {
    let b = board(0, 1, 1, 3, vec![false], vec![0], vec![1, 1, 1], 0);
    let mut finder = SolutionFinder { best_score: 0, best_board: None };
    let best = finder.find_best_solution(b).unwrap();
    // 900 for three blocks, 20 for the throw, 1000 flat on round 0
    assert_eq!(best.score, 1880);
    assert_eq!(best.raw_score, 1900);
}

#[test]
fn bonus_counts_blocks_below_quota() {
    // quota 9, none left: 1000 plus 1000 for each of the 9 blocks below the quota
    let b = board(3, 9, 1, 3, vec![false], vec![0], vec![1, 1, 1], 0);
    let mut finder = SolutionFinder { best_score: 0, best_board: None };
    let best = finder.find_best_solution(b).unwrap();
    assert_eq!(best.score, 880 + 10000);
}

#[test]
fn search_takes_a_miss_when_stuck() {
    let mut b = board(1, 1, 1, 2, vec![false], vec![0], vec![1, 2], 3);
    b.miss_available = true;
    let mut finder = SolutionFinder { best_score: 0, best_board: None };
    let best = finder.find_best_solution(b).unwrap();
    assert_eq!(best.moves, "MISS, R1, ");
    assert_eq!(best.move_list, vec![999, 0]);
    assert!(!best.miss_available);
    // 100 for one block, 20 for the throw, 1000 bonus at the quota
    assert_eq!(best.score, 1080);
    assert_eq!(best.raw_score, 1100);
    assert_eq!(best.board, vec![0, 1]);
    assert_eq!(best.held_block, 2);
}

#[test]
fn search_without_finish_keeps_best_so_far() {
    let b = board(1, 0, 1, 2, vec![false], vec![0], vec![1, 2], 3);
    let mut finder = SolutionFinder { best_score: 0, best_board: None };
    assert!(finder.find_best_solution(b).is_none());
    assert_eq!(finder.best_score, 0);
}

#[test]
fn search_never_lowers_the_best_score() {
    let b = board(1, 0, 1, 2, vec![false], vec![0], vec![1, 1], 0);
    let mut finder = SolutionFinder { best_score: 5000, best_board: None };
    assert!(finder.find_best_solution(b).is_none());
    assert_eq!(finder.best_score, 5000);
}

#[test]
fn search_prefers_the_bigger_clear() {
    // row 1 (bottom) clears three 's' at once; row 0 clears one 'o' and stops
    // grid: row 0: o t t / row 1: s s s
    let b = board(1, 3, 2, 3, vec![false, false], vec![1, 0], vec![2, 3, 3, 1, 1, 1], 0);
    let mut finder = SolutionFinder { best_score: 0, best_board: None };
    let best = finder.find_best_solution(b).unwrap();
    // the bottom throw clears 3 (900), leaving 3 blocks = quota: bonus 1000
    assert_eq!(best.moves, "R1, ");
    assert_eq!(best.score, 900 - 20 + 1000);
}

#[test]
fn best_of_picks_first_highest() {
    let a = board(1, 0, 1, 1, vec![], vec![], vec![0], 0);
    let mut x = a.clone();
    x.score = 10;
    let mut y = a.clone();
    y.score = 30;
    y.moves = String::from("y");
    let mut z = a.clone();
    z.score = 30;
    z.moves = String::from("z");
    let results = vec![Some(x), None, Some(y), Some(z)];
    let best = best_of(&results).unwrap();
    assert_eq!(best.moves, "y");
    assert!(best_of(&vec![None]).is_none());
    let mut low = a.clone();
    low.score = -5;
    assert!(best_of(&vec![Some(low)]).is_none());
}

#[test]
fn opening_moves_one_per_target() {
    let b = board(1, 0, 2, 3, vec![false, false, true, true, true], vec![1, 0, 2, 2, -1], vec![1, 2, 3, 1, 1, 4], 0);
    assert_eq!(b.opening_moves(), vec![0, 1, 2]);
    let boards = b.opening_boards().unwrap();
    assert_eq!(boards.len(), 3);
    assert_eq!(boards[0].board, vec![0, 0, 3, 1, 2, 1]);
    assert_eq!(boards[0].moves, "R1, ");
    assert_eq!(boards[2].moves, "C3, ");
}

#[test]
fn opening_without_block_is_reported() {
    let b = board(1, 0, 2, 2, vec![false, true], vec![1, 0], vec![0, 1, 0, 1], 0);
    assert_eq!(b.opening_boards().err(), Some(1));
}

#[test]
fn search_looks_at_every_place() {
    // twelve places without a throw, then a row throw that clears the only two blocks
    let mut is_column = vec![true; 12];
    is_column.push(false);
    let mut positions = vec![-1; 12];
    positions.push(0);
    let b = board(1, 0, 1, 2, is_column, positions, vec![1, 1], 0);
    assert!(b.is_searchable());
    assert_eq!(b.ordered_moves(), vec![12]);
    let mut finder = SolutionFinder { best_score: 0, best_board: None };
    let best = finder.find_best_solution(b).unwrap();
    // 400 for two blocks, 3 per row for 12 rows and 20 for the throw, 1000 bonus
    assert_eq!(best.score, 400 - 36 - 20 + 1000);
    assert_eq!(best.moves, "R1, ");
}

#[test]
fn rows_and_columns_with_same_number_are_different_targets() {
    // eleven rows, one column: row 10 (bottom) and column 0 are different targets
    let mut grid = vec![0; 11];
    grid[10] = 1;
    let b = board(1, 0, 11, 1, vec![false, true], vec![10, 0], grid, 0);
    assert!(b.is_searchable());
    // both throws first hit the top block of the rightmost column: only the first is kept
    assert_eq!(b.ordered_moves(), vec![0]);
    let mut grid = vec![0; 22];
    grid[20] = 1;
    grid[21] = 2;
    let b = board(1, 0, 11, 2, vec![false, true], vec![10, 0], grid, 0);
    // row 10 hits the 's' in column 0 (not top-right); column 0 also hits it
    assert_eq!(b.ordered_moves(), vec![0, 1]);
}

#[test]
fn opening_with_held_block_is_made_even_if_it_clears_nothing() {
    let b = board(1, 0, 1, 2, vec![false], vec![0], vec![1, 2], 3);
    let boards = b.opening_boards().unwrap();
    assert_eq!(boards.len(), 1);
    assert_eq!(boards[0].board, vec![1, 2]);
    assert_eq!(boards[0].moves, "R1, ");
    assert_eq!(boards[0].score, -20);
}

#[test]
fn openings_score_at_least_one_search() {
    // no single first throw gets down to the quota of one block
    let b = board(2, 1, 1, 4, vec![false, true, true], vec![0, 3, 2], vec![1, 1, 2, 2], 0);
    assert!(b.is_searchable());
    let mut finder = SolutionFinder { best_score: 0, best_board: None };
    let single = finder.find_best_solution(b.clone());
    let boards = b.opening_boards().unwrap();
    let mut results = Vec::new();
    for opening in boards {
        if opening.is_searchable() {
            let mut f = SolutionFinder { best_score: 0, best_board: None };
            results.push(f.find_best_solution(opening));
        } else {
            results.push(None);
        }
    }
    let parallel = best_of(&results);
    let single = single.unwrap();
    assert!(parallel.unwrap().score >= single.score);
}

#[test]
fn best_round_replays_from_its_move_list() {
    let b = board(2, 1, 1, 4, vec![false, true, true], vec![0, 3, 2], vec![1, 1, 2, 2], 0);
    let mut finder = SolutionFinder { best_score: 0, best_board: None };
    let best = finder.find_best_solution(b.clone()).unwrap();
    let mut s = b.clone();
    for (k, idx) in best.move_list.iter().enumerate() {
        assert!(s.block_count > s.qualify_blocks, "quota reached before move {}", k);
        s.make_move(*idx);
    }
    assert_eq!(s.board, best.board);
    assert_eq!(s.block_count, best.block_count);
    assert_eq!(s.held_block, best.held_block);
    assert_eq!(s.moves, best.moves);
    assert!(s.block_count <= s.qualify_blocks);
    let bonus = 1000 * (s.qualify_blocks as i32 - s.block_count as i32 + 1);
    assert_eq!(best.score - s.score, bonus);
    assert_eq!(best.raw_score - s.raw_score, bonus);
}
