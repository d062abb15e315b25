use vstd::prelude::*;

verus! {

/// One round of the puzzle: the grid of blocks, the moves that can be thrown
/// from the left side, and what has happened so far in the round.
pub struct BoardState {
    pub level_number: i32,
    pub qualify_blocks: usize,
    pub row_count: usize,
    pub column_count: usize,
    /// For each place the player can stand, listed from the bottom row up:
    /// whether the throw goes down a column (`true`) or along a row (`false`).
    pub legal_move_is_column: Vec<bool>,
    /// For each place the player can stand: the row (counted from the top) or the
    /// column (counted from the left) that the throw attacks; negative where no
    /// throw is possible.
    pub legal_move_position: Vec<i32>,
    /// The moves made so far, as text such as `"C3, R1, "`.
    pub moves: String,
    /// The indexes of the moves made so far (999 for a miss).
    pub move_list: Vec<usize>,
    /// The grid, row by row from the top; 0 is an empty square.
    pub board: Vec<i32>,
    pub block_count: usize,
    /// Score from cleared blocks and bonuses only.
    pub raw_score: i32,
    /// Score with the time spent moving and throwing taken off.
    pub score: i32,
    /// The block in hand; 0 is the wild block.
    pub held_block: i32,
    pub previous_move_index: usize,
    pub miss_available: bool,
}

/// The mathematical value of a [`BoardState`].
pub struct BoardModel {
    pub level_number: int,
    pub qualify_blocks: nat,
    pub row_count: nat,
    pub column_count: nat,
    pub legal_move_is_column: Seq<bool>,
    pub legal_move_position: Seq<i32>,
    pub moves: Seq<char>,
    pub move_list: Seq<usize>,
    pub board: Seq<i32>,
    pub block_count: nat,
    pub raw_score: int,
    pub score: int,
    pub held_block: i32,
    pub previous_move_index: nat,
    pub miss_available: bool,
}

impl View for BoardState {
    type V = BoardModel;

    open spec fn view(&self) -> BoardModel {
        BoardModel {
            level_number: self.level_number as int,
            qualify_blocks: self.qualify_blocks as nat,
            row_count: self.row_count as nat,
            column_count: self.column_count as nat,
            legal_move_is_column: self.legal_move_is_column@,
            legal_move_position: self.legal_move_position@,
            moves: self.moves@,
            move_list: self.move_list@,
            board: self.board@,
            block_count: self.block_count as nat,
            raw_score: self.raw_score as int,
            score: self.score as int,
            held_block: self.held_block,
            previous_move_index: self.previous_move_index as nat,
            miss_available: self.miss_available,
        }
    }
}

impl Clone for BoardState {
    fn clone(&self) -> (res: Self)
        ensures
            res@ == self@,
    {
        let res = BoardState {
            level_number: self.level_number,
            qualify_blocks: self.qualify_blocks,
            row_count: self.row_count,
            column_count: self.column_count,
            legal_move_is_column: self.legal_move_is_column.clone(),
            legal_move_position: self.legal_move_position.clone(),
            moves: self.moves.clone(),
            move_list: self.move_list.clone(),
            board: self.board.clone(),
            block_count: self.block_count,
            raw_score: self.raw_score,
            score: self.score,
            held_block: self.held_block,
            previous_move_index: self.previous_move_index,
            miss_available: self.miss_available,
        };
        assert(res.legal_move_is_column@ =~= self.legal_move_is_column@);
        assert(res.legal_move_position@ =~= self.legal_move_position@);
        assert(res.move_list@ =~= self.move_list@);
        assert(res.board@ =~= self.board@);
        res
    }
}

} // verus!
