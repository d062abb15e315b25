use vstd::prelude::*;
use crate::board::{BoardModel, BoardState};
use crate::grid::{cell_at, lemma_square_bound};
use crate::level::block_symbols;
use crate::text::{push_char, push_signed_decimal, signed_decimal};

verus! {

/// The character for block number `v`.
pub open spec fn block_char(v: i32) -> char {
    block_symbols()[v as int]
}

/// Row `r` of the grid as text, ended by a newline.
pub open spec fn row_text(m: BoardModel, r: int) -> Seq<char> {
    Seq::new(
        m.column_count,
        |c: int| block_char(cell_at(m.board, m.column_count as int, r, c)),
    ).push('\n')
}

/// The first `rows` rows of the grid as text.
pub open spec fn grid_text(m: BoardModel, rows: int) -> Seq<char>
    decreases rows,
{
    if rows <= 0 {
        Seq::empty()
    } else {
        grid_text(m, rows - 1) + row_text(m, rows - 1)
    }
}

/// The report on a board: a header line with the raw score, the held block and the
/// moves so far, then the grid, then an empty line.
pub open spec fn report(m: BoardModel) -> Seq<char> {
    ">>> Board raw_score "@ + signed_decimal(m.raw_score) + " hold "@ + seq![
        block_char(m.held_block),
    ] + " after moves "@ + m.moves + seq!['\n'] + grid_text(m, m.row_count as int) + seq!['\n']
}

/// The held block and every block shown are block numbers, and the grid has at least
/// its squares.
pub open spec fn report_ok(m: BoardModel) -> bool {
    &&& 0 <= m.held_block < 5
    &&& m.board.len() >= m.row_count * m.column_count
    &&& forall|j: int| 0 <= j < m.row_count * m.column_count ==> 0 <= #[trigger] m.board[j] < 5
}

/// Reading a block character and showing the block give back what was read, and the
/// other way round.
pub proof fn lemma_block_symbols_roundtrip(v: i32, c: char)
    ensures
        0 <= v < 5 ==> crate::level::block_code(block_char(v)) == v,
        block_symbols().contains(c) ==> block_char(crate::level::block_code(c)) == c,
{
    if block_symbols().contains(c) {
        let i = choose|i: int| 0 <= i < block_symbols().len() && block_symbols()[i] == c;
        assert(block_symbols()[i] == c);
    }
}

fn symbol_of(v: i32) -> (c: char)
    requires
        0 <= v < 5,
    ensures
        c == block_char(v),
{
    if v == 0 {
        '.'
    } else if v == 1 {
        's'
    } else if v == 2 {
        'o'
    } else if v == 3 {
        't'
    } else {
        'x'
    }
}

impl BoardState {
    /// The text that shows the board: see [`report`].
    pub fn report_text(&self) -> (res: String)
        requires
            report_ok(self@),
        ensures
            res@ == report(self@),
    {
        let ghost m = self@;
        let mut s = String::new();
        s.append(">>> Board raw_score ");
        push_signed_decimal(&mut s, self.raw_score);
        s.append(" hold ");
        push_char(&mut s, symbol_of(self.held_block));
        s.append(" after moves ");
        s.append(self.moves.as_str());
        push_char(&mut s, '\n');
        let ghost head = s@;
        let rc = self.row_count;
        let cc = self.column_count;
        let board_len = self.board.len();
        let mut row: usize = 0;
        while row < rc
            invariant
                m == self@,
                report_ok(m),
                rc == m.row_count,
                cc == m.column_count,
                board_len == m.board.len(),
                row <= rc,
                s@ == head + grid_text(m, row as int),
            decreases rc - row,
        {
            let ghost before = s@;
            let mut column: usize = 0;
            while column < cc
                invariant
                    m == self@,
                    report_ok(m),
                    rc == m.row_count,
                    cc == m.column_count,
                    board_len == m.board.len(),
                    row < rc,
                    column <= cc,
                    s@ == before + Seq::new(
                        column as nat,
                        |c: int| block_char(cell_at(m.board, cc as int, row as int, c)),
                    ),
                decreases cc - column,
            {
                proof {
                    lemma_square_bound(rc as int, cc as int, row as int, column as int);
                    assert(row * cc + column == crate::grid::square(cc as int, row as int, column as int));
                }
                let v = self.board[row * cc + column];
                push_char(&mut s, symbol_of(v));
                assert(s@ =~= before + Seq::new(
                    (column + 1) as nat,
                    |c: int| block_char(cell_at(m.board, cc as int, row as int, c)),
                ));
                column = column + 1;
            }
            push_char(&mut s, '\n');
            assert(s@ =~= head + grid_text(m, row + 1));
            row = row + 1;
        }
        push_char(&mut s, '\n');
        s
    }
}

} // verus!
