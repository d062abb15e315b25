use vstd::prelude::*;
use crate::board::{BoardModel, BoardState};
use crate::grid::{square, cell_at, lemma_square, lemma_square_bound};

verus! {

/// The grid is non-empty and holds one entry per square.
pub open spec fn geometry_ok(m: BoardModel) -> bool {
    &&& 1 <= m.row_count
    &&& 1 <= m.column_count
    &&& m.board.len() == m.row_count * m.column_count
}

/// `pos` names a row (or, for a column throw, a column) of the grid.
pub open spec fn target_ok(m: BoardModel, is_column: bool, pos: int) -> bool {
    &&& 0 <= pos
    &&& if is_column { pos < m.column_count } else { pos < m.row_count }
}

/// How many squares a throw crosses. A row throw flies right to the wall, then turns
/// down the rightmost column to the floor; a column throw falls from the top to the floor.
pub open spec fn path_len(m: BoardModel, is_column: bool, pos: int) -> int {
    if is_column {
        m.row_count as int
    } else {
        m.column_count + m.row_count - pos - 1
    }
}

/// The row of the `i`-th square that a throw crosses.
pub open spec fn path_row(m: BoardModel, is_column: bool, pos: int, i: int) -> int {
    if is_column {
        i
    } else if i < m.column_count {
        pos
    } else {
        pos + i - m.column_count + 1
    }
}

/// The column of the `i`-th square that a throw crosses.
pub open spec fn path_col(m: BoardModel, is_column: bool, pos: int, i: int) -> int {
    if is_column {
        pos
    } else if i < m.column_count {
        i
    } else {
        m.column_count - 1
    }
}

/// The index in the grid of the `i`-th square that a throw crosses.
pub open spec fn path_square(m: BoardModel, is_column: bool, pos: int, i: int) -> int {
    square(m.column_count as int, path_row(m, is_column, pos, i), path_col(m, is_column, pos, i))
}

/// The blocks along the path of a throw, in the order it meets them (0 for empty squares).
pub open spec fn path_values(m: BoardModel, is_column: bool, pos: int) -> Seq<i32> {
    Seq::new(
        path_len(m, is_column, pos) as nat,
        |i: int| m.board[path_square(m, is_column, pos, i)],
    )
}

/// The first block at or after position `i` of a path.
pub open spec fn first_hit(vals: Seq<i32>, i: int) -> Option<int>
    decreases vals.len() - i,
{
    if i < 0 || i >= vals.len() {
        None
    } else if vals[i] != 0 {
        Some(i)
    } else {
        first_hit(vals, i + 1)
    }
}

/// A throw is legal when it hits a block and the held block matches it
/// (the wild block 0 matches every block).
pub open spec fn legal_throw(m: BoardModel, is_column: bool, pos: int) -> bool {
    let vals = path_values(m, is_column, pos);
    match first_hit(vals, 0) {
        Some(j) => m.held_block == 0 || vals[j] == m.held_block,
        None => false,
    }
}

/// The first block that a throw hits is the top block of the rightmost column.
pub open spec fn hits_top_right(m: BoardModel, is_column: bool, pos: int) -> bool {
    let vals = path_values(m, is_column, pos);
    let cc = m.column_count as int;
    match first_hit(vals, 0) {
        Some(j) => {
            &&& path_col(m, is_column, pos, j) == cc - 1
            &&& (path_row(m, is_column, pos, j) == 0 || cell_at(
                m.board,
                cc,
                path_row(m, is_column, pos, j) - 1,
                cc - 1,
            ) == 0)
        },
        None => false,
    }
}

/// The squares of a path lie inside the grid.
pub proof fn lemma_path_inside(m: BoardModel, is_column: bool, pos: int, i: int)
    requires
        geometry_ok(m),
        target_ok(m, is_column, pos),
        0 <= i < path_len(m, is_column, pos),
    ensures
        0 <= path_row(m, is_column, pos, i) < m.row_count,
        0 <= path_col(m, is_column, pos, i) < m.column_count,
        0 <= path_square(m, is_column, pos, i) < m.board.len(),
        path_square(m, is_column, pos, i) / (m.column_count as int) == path_row(m, is_column, pos, i),
        path_square(m, is_column, pos, i) % (m.column_count as int) == path_col(m, is_column, pos, i),
{
    lemma_square_bound(
        m.row_count as int,
        m.column_count as int,
        path_row(m, is_column, pos, i),
        path_col(m, is_column, pos, i),
    );
    lemma_square(m.column_count as int, path_row(m, is_column, pos, i), path_col(m, is_column, pos, i));
}

/// A later square of a path is in another column than an earlier one, or below it.
pub proof fn lemma_path_moves_on(m: BoardModel, is_column: bool, pos: int, p: int, i: int)
    requires
        geometry_ok(m),
        target_ok(m, is_column, pos),
        0 <= p < i < path_len(m, is_column, pos),
    ensures
        path_col(m, is_column, pos, i) != path_col(m, is_column, pos, p)
            || path_row(m, is_column, pos, i) > path_row(m, is_column, pos, p),
{
}

/// The wild block matches every block: with it in hand, a throw is legal exactly when
/// its path holds a block.
pub proof fn lemma_wild_block_matches_any(m: BoardModel, is_column: bool, pos: int)
    requires
        m.held_block == 0,
    ensures
        legal_throw(m, is_column, pos) <==> first_hit(path_values(m, is_column, pos), 0) is Some,
{
}

impl BoardState {
    /// Tells whether a throw at `move_position` (a column when `is_column`, else a row)
    /// would hit a block that the held block matches, and whether the first block it
    /// hits is the top block of the rightmost column.
    pub fn is_legal_move(&self, is_column: bool, move_position: usize) -> (res: (bool, bool))
        requires
            geometry_ok(self@),
            target_ok(self@, is_column, move_position as int),
        ensures
            res.0 == legal_throw(self@, is_column, move_position as int),
            res.1 == hits_top_right(self@, is_column, move_position as int),
    {
        let ghost m = self@;
        let ghost pos = move_position as int;
        let ghost vals = path_values(m, is_column, pos);
        let cc = self.column_count;
        let rc = self.row_count;
        let board_len = self.board.len();
        let mut is_top_right = false;
        let mut row: usize = if is_column { 0 } else { move_position };
        let mut column: usize = if is_column { move_position } else { 0 };
        let mut down: bool = is_column;
        let ghost mut i: int = 0;
        loop
            invariant
                m == self@,
                pos == move_position as int,
                vals == path_values(m, is_column, pos),
                geometry_ok(m),
                target_ok(m, is_column, pos),
                cc == m.column_count,
                rc == m.row_count,
                board_len == m.board.len(),
                0 <= i < path_len(m, is_column, pos),
                row == path_row(m, is_column, pos, i),
                column == path_col(m, is_column, pos, i),
                down == (is_column || i >= cc),
                first_hit(vals, 0) == first_hit(vals, i),
                !is_top_right,
            decreases path_len(m, is_column, pos) - i,
        {
            proof {
                lemma_path_inside(m, is_column, pos, i);
                assert(row * cc + column == path_square(m, is_column, pos, i));
            }
            let current_block = self.board[row * cc + column];
            assert(current_block == vals[i]);
            if current_block != 0 {
                assert(first_hit(vals, i) == Some(i));
                if column == cc - 1 {
                    if row == 0 {
                        is_top_right = true;
                    } else {
                        proof {
                            lemma_square_bound(rc as int, cc as int, row - 1, column as int);
                            assert((row - 1) * cc + column == square(cc as int, row - 1, column as int));
                        }
                        if self.board[(row - 1) * cc + column] == 0 {
                            is_top_right = true;
                        }
                    }
                }
                if self.held_block == 0 || self.held_block == current_block {
                    return (true, is_top_right);
                }
                return (false, is_top_right);
            }
            if down {
                row = row + 1;
            } else {
                column = column + 1;
            }
            if column >= cc {
                column = column - 1;
                row = row + 1;
                down = true;
            }
            proof {
                i = i + 1;
            }
            if row >= rc {
                assert(first_hit(vals, i) == None::<int>);
                return (false, false);
            }
        }
    }
}

} // verus!
