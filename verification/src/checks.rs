use vstd::prelude::*;
use crate::board::BoardState;
use crate::grid::count_nonzero;
use crate::throw::target_ok;
use crate::play::{sizes_ok, MISS_MOVE};
use crate::search::{search_ok, reach, max_loss, gain_room, bonus_room};
use crate::render::report_ok;

verus! {

impl BoardState {
    /// Whether the board has a grid of `row_count` by `column_count` squares and sizes
    /// that fit the move labels and score arithmetic.
    pub fn has_sound_sizes(&self) -> (res: bool)
        ensures
            res == sizes_ok(self@),
    {
        if self.row_count < 1 || self.column_count < 1 {
            return false;
        }
        if self.row_count > 2147483647 || self.column_count > 2147483647 {
            return false;
        }
        if self.legal_move_position.len() != self.legal_move_is_column.len() {
            return false;
        }
        match self.row_count.checked_mul(self.column_count) {
            Some(n) => n == self.board.len(),
            None => {
                let len = self.board.len();
                assert(len < self.row_count * self.column_count);
                false
            },
        }
    }

    /// Whether [`crate::search::SolutionFinder::find_best_solution`] can search from this
    /// board: see [`search_ok`].
    pub fn is_searchable(&self) -> (res: bool)
        ensures
            res == search_ok(self@),
    {
        let ghost m = self@;
        if !self.has_sound_sizes() {
            return false;
        }
        let len = self.legal_move_is_column.len();
        let prev = self.previous_move_index;
        if len > 2147483647 || prev > 2147483647 {
            return false;
        }
        if len > MISS_MOVE && self.legal_move_position[MISS_MOVE] >= 0 {
            return false;
        }
        let mut i: usize = 0;
        while i < len
            invariant
                m == self@,
                sizes_ok(m),
                len == m.legal_move_is_column.len(),
                i <= len,
                forall|j: int|
                    0 <= j < i ==> (#[trigger] m.legal_move_position[j] < 0 || target_ok(
                        m,
                        m.legal_move_is_column[j],
                        m.legal_move_position[j] as int,
                    )),
            decreases len - i,
        {
            let is_column = self.legal_move_is_column[i];
            let pos = self.legal_move_position[i];
            if pos >= 0 {
                if is_column && pos as usize >= self.column_count {
                    return false;
                }
                if !is_column && pos as usize >= self.row_count {
                    return false;
                }
            }
            i = i + 1;
        }
        if count_nonzero(&self.board) > self.block_count {
            return false;
        }
        let per_row: i128 = if self.level_number < 32 {
            3
        } else {
            6
        };
        let shot: i128 = if self.level_number < 32 {
            20
        } else {
            40
        };
        let far: i128 = if len > prev {
            len as i128
        } else {
            prev as i128
        };
        assert(far == reach(m));
        let loss: i128 = per_row * far + shot;
        assert(loss == max_loss(m));
        if loss > 2147483647 {
            return false;
        }
        let blocks = self.block_count as i128;
        assert(0 <= blocks * loss <= 0x1_0000_0000_0000_0000 * 0x8000_0000) by (nonlinear_arith)
            requires
                0 <= blocks <= 0x1_0000_0000_0000_0000,
                0 <= loss <= 0x8000_0000,
        ;
        if (self.score as i128) - blocks * loss < -2147483648 {
            return false;
        }
        let sides = self.row_count as i128 + self.column_count as i128;
        assert(0 <= sides * blocks <= 0x1_0000_0000 * 0x1_0000_0000_0000_0000) by (nonlinear_arith)
            requires
                0 <= blocks <= 0x1_0000_0000_0000_0000,
                0 <= sides <= 0x1_0000_0000,
        ;
        let gain: i128 = 100 * (sides * blocks);
        assert(gain == gain_room(m));
        let bonus: i128 = 1000 * (self.qualify_blocks as i128 + 1);
        assert(bonus == bonus_room(m));
        if gain + bonus > 2147483647 {
            return false;
        }
        if (self.score as i128) + gain + bonus > 2147483647 {
            return false;
        }
        (self.raw_score as i128) + gain + bonus <= 2147483647
    }

    /// Whether [`BoardState::report_text`] can show this board: see [`report_ok`].
    pub fn is_reportable(&self) -> (res: bool)
        ensures
            res == report_ok(self@),
    {
        if self.held_block < 0 || self.held_block >= 5 {
            return false;
        }
        let n = match self.row_count.checked_mul(self.column_count) {
            Some(n) => n,
            None => {
                let len = self.board.len();
                assert(len < self.row_count * self.column_count);
                return false;
            },
        };
        if n > self.board.len() {
            return false;
        }
        let mut i: usize = 0;
        while i < n
            invariant
                n == self.row_count * self.column_count,
                n <= self.board.len(),
                i <= n,
                forall|j: int| 0 <= j < i ==> 0 <= #[trigger] self.board@[j] < 5,
            decreases n - i,
        {
            if self.board[i] < 0 || self.board[i] >= 5 {
                return false;
            }
            i = i + 1;
        }
        true
    }
}

} // verus!
