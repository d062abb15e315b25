use vstd::prelude::*;
use crate::board::{BoardModel, BoardState};
use crate::grid::{
    square, remove_block, count_blocks, lemma_square, lemma_index,
    lemma_remove_block_elsewhere, lemma_count_remove_block, lemma_count_update,
};
use crate::text::{decimal, push_char, push_decimal};
use crate::throw::{
    geometry_ok, target_ok, path_len, path_row, path_col, path_square, path_values,
    first_hit, legal_throw, lemma_path_inside, lemma_path_moves_on,
};

verus! {

/// The move index that stands for a miss: the player gives up a life for a wild block.
pub const MISS_MOVE: usize = 999;

/// How a throw ends: it leaves the grid at the floor, or it stops at the `at`-th square
/// of its path, on a block that does not match.
pub enum ThrowEnd {
    Exits,
    Stops { at: int },
}

/// What a throw does: the block in hand at the end, the positions along the path of
/// the blocks it clears, and how it ends.
pub struct ThrowOutcome {
    pub held: i32,
    pub cleared: Seq<int>,
    pub end: ThrowEnd,
}

/// A throw that holds `held`, has cleared the path positions `cleared`, and now reaches
/// position `i` of a path with blocks `vals`: it passes empty squares, clears every block
/// that matches the block in hand (a wild block first takes the color of the block it
/// hits), and stops at the first block that does not match.
pub open spec fn throw_run(vals: Seq<i32>, i: int, held: i32, cleared: Seq<int>) -> ThrowOutcome
    decreases vals.len() - i,
{
    if i < 0 || i >= vals.len() {
        ThrowOutcome { held, cleared, end: ThrowEnd::Exits }
    } else if vals[i] == 0 {
        throw_run(vals, i + 1, held, cleared)
    } else if held != 0 && vals[i] != held {
        ThrowOutcome { held, cleared, end: ThrowEnd::Stops { at: i } }
    } else {
        throw_run(vals, i + 1, vals[i], cleared.push(i))
    }
}

/// What a throw at `pos` does on the board `m`.
pub open spec fn throw_outcome(m: BoardModel, is_column: bool, pos: int) -> ThrowOutcome {
    throw_run(path_values(m, is_column, pos), 0, m.held_block, Seq::empty())
}

/// The grid `b` after the blocks at the path positions `cleared` are cleared one after
/// the other, each letting the blocks above it fall.
pub open spec fn clear_path(
    m: BoardModel,
    is_column: bool,
    pos: int,
    b: Seq<i32>,
    cleared: Seq<int>,
) -> Seq<i32>
    decreases cleared.len(),
{
    if cleared.len() == 0 {
        b
    } else {
        let j = cleared.last();
        remove_block(
            clear_path(m, is_column, pos, b, cleared.drop_last()),
            m.column_count as int,
            path_row(m, is_column, pos, j),
            path_col(m, is_column, pos, j),
        )
    }
}

/// Points lost per row that the player moves: 3 in the first half of the game
/// (rounds below 32), 6 after.
pub open spec fn row_penalty(level: int) -> int {
    if level < 32 { 3 } else { 6 }
}

/// Points lost per throw for the time it takes: 20 in the first half of the game, 40 after.
pub open spec fn shot_penalty(level: int) -> int {
    if level < 32 { 20 } else { 40 }
}

/// Rows between two places on the left side.
pub open spec fn rows_travelled(a: int, b: int) -> int {
    if a >= b { a - b } else { b - a }
}

/// Points for clearing `k` blocks in one throw: `k * k * 100`.
pub open spec fn clear_points(k: int) -> int {
    100 * (k * k)
}

/// The text that records a throw: `"C<column>, "` with columns counted from 1 at the
/// left, or `"R<row>, "` with rows counted from 1 at the bottom.
pub open spec fn move_label(m: BoardModel, is_column: bool, pos: int) -> Seq<char> {
    if is_column {
        seq!['C'] + decimal((pos + 1) as nat) + seq![',', ' ']
    } else {
        seq!['R'] + decimal((m.row_count - pos) as nat) + seq![',', ' ']
    }
}

/// The board after the throw at `legal_move_position[idx]`.
pub open spec fn after_throw(m: BoardModel, idx: int) -> BoardModel {
    let is_column = m.legal_move_is_column[idx];
    let pos = m.legal_move_position[idx] as int;
    let vals = path_values(m, is_column, pos);
    let t = throw_outcome(m, is_column, pos);
    let k = t.cleared.len() as int;
    let base = BoardModel {
        score: m.score - row_penalty(m.level_number) * rows_travelled(idx, m.previous_move_index as int)
            - shot_penalty(m.level_number),
        previous_move_index: idx as nat,
        moves: m.moves + move_label(m, is_column, pos),
        move_list: m.move_list.push(idx as usize),
        ..m
    };
    if k == 0 {
        base
    } else {
        let cleared_board = clear_path(m, is_column, pos, m.board, t.cleared);
        BoardModel {
            board: match t.end {
                ThrowEnd::Exits => cleared_board,
                ThrowEnd::Stops { at } => cleared_board.update(
                    path_square(m, is_column, pos, at),
                    t.held,
                ),
            },
            held_block: match t.end {
                ThrowEnd::Exits => t.held,
                ThrowEnd::Stops { at } => vals[at],
            },
            block_count: (m.block_count - k) as nat,
            score: base.score + clear_points(k),
            raw_score: m.raw_score + clear_points(k),
            ..base
        }
    }
}

/// The board after move `idx`: a miss gives a wild block and uses up the spare life;
/// any other index throws from that place.
pub open spec fn after_move(m: BoardModel, idx: int) -> BoardModel {
    if idx == MISS_MOVE {
        BoardModel { held_block: 0, miss_available: false, ..m }
    } else {
        after_throw(m, idx)
    }
}

/// An `i32` can hold `x`.
pub open spec fn fits_i32(x: int) -> bool {
    i32::MIN <= x <= i32::MAX
}

/// The sizes fit the integers that the move labels and score arithmetic use.
pub open spec fn sizes_ok(m: BoardModel) -> bool {
    &&& geometry_ok(m)
    &&& m.row_count <= i32::MAX
    &&& m.column_count <= i32::MAX
    &&& m.legal_move_position.len() == m.legal_move_is_column.len()
}

/// Move `idx` can be made on `m`: it names a place with a throw, the throw hits at
/// least one block, no more blocks than `block_count` are cleared, and every score
/// on the way fits an `i32`.
pub open spec fn move_ok(m: BoardModel, idx: int) -> bool {
    idx == MISS_MOVE || {
        let is_column = m.legal_move_is_column[idx];
        let pos = m.legal_move_position[idx] as int;
        let t = throw_outcome(m, is_column, pos);
        let k = t.cleared.len() as int;
        let travel = row_penalty(m.level_number) * rows_travelled(idx, m.previous_move_index as int);
        let after_travel = m.score - travel;
        let after_shot = after_travel - shot_penalty(m.level_number);
        &&& sizes_ok(m)
        &&& 0 <= idx < m.legal_move_is_column.len()
        &&& idx <= i32::MAX
        &&& m.previous_move_index <= i32::MAX
        &&& target_ok(m, is_column, pos)
        &&& !(t.end is Exits && k == 0)
        &&& k <= m.block_count
        &&& fits_i32(travel)
        &&& fits_i32(after_travel)
        &&& fits_i32(after_shot)
        &&& k > 0 ==> fits_i32(k * k) && fits_i32(clear_points(k)) && fits_i32(
            after_shot + clear_points(k),
        ) && fits_i32(m.raw_score + clear_points(k))
    }
}

/// A throw run never forgets the blocks it has already cleared.
pub proof fn lemma_run_extends(vals: Seq<i32>, i: int, held: i32, cleared: Seq<int>)
    ensures
        throw_run(vals, i, held, cleared).cleared.len() >= cleared.len(),
        throw_run(vals, i, held, cleared).cleared.subrange(0, cleared.len() as int) == cleared,
    decreases vals.len() - i,
{
    if i < 0 || i >= vals.len() {
        assert(cleared.subrange(0, cleared.len() as int) =~= cleared);
    } else if vals[i] == 0 {
        lemma_run_extends(vals, i + 1, held, cleared);
    } else if held != 0 && vals[i] != held {
        assert(cleared.subrange(0, cleared.len() as int) =~= cleared);
    } else {
        lemma_run_extends(vals, i + 1, vals[i], cleared.push(i));
        let r = throw_run(vals, i + 1, vals[i], cleared.push(i)).cleared;
        assert(r.subrange(0, cleared.len() as int) =~= r.subrange(0, cleared.len() + 1 as int).subrange(
            0,
            cleared.len() as int,
        ));
        assert(cleared.push(i).subrange(0, cleared.len() as int) =~= cleared);
    }
}

/// Clearing earlier squares of a path leaves the later squares of the path as they were,
/// and keeps the size of the grid.
pub proof fn lemma_clear_path_keeps(
    m: BoardModel,
    is_column: bool,
    pos: int,
    b: Seq<i32>,
    cleared: Seq<int>,
    i: int,
)
    requires
        geometry_ok(m),
        target_ok(m, is_column, pos),
        b.len() == m.board.len(),
        0 <= i < path_len(m, is_column, pos),
        forall|p: int| 0 <= p < cleared.len() ==> 0 <= #[trigger] cleared[p] < i,
    ensures
        clear_path(m, is_column, pos, b, cleared).len() == b.len(),
        clear_path(m, is_column, pos, b, cleared)[path_square(m, is_column, pos, i)] == b[path_square(
            m,
            is_column,
            pos,
            i,
        )],
    decreases cleared.len(),
{
    if cleared.len() > 0 {
        let rest = cleared.drop_last();
        assert forall|p: int| 0 <= p < rest.len() implies 0 <= #[trigger] rest[p] < i by {
            assert(rest[p] == cleared[p]);
        }
        lemma_clear_path_keeps(m, is_column, pos, b, rest, i);
        let j = cleared.last();
        assert(0 <= j < i);
        lemma_path_moves_on(m, is_column, pos, j, i);
        lemma_path_inside(m, is_column, pos, i);
        lemma_path_inside(m, is_column, pos, j);
        lemma_remove_block_elsewhere(
            clear_path(m, is_column, pos, b, rest),
            m.column_count as int,
            path_row(m, is_column, pos, j),
            path_col(m, is_column, pos, j),
            path_row(m, is_column, pos, i),
            path_col(m, is_column, pos, i),
        );
    }
}

impl BoardState {
    /// Clears the block at row `row`, column `column`: the blocks above it fall one square
    /// and the top square of the column becomes empty.
    fn drop_column(&mut self, row: usize, column: usize)
        requires
            geometry_ok(old(self)@),
            row < old(self).row_count,
            column < old(self).column_count,
        ensures
            final(self)@ == (BoardModel {
                board: remove_block(
                    old(self)@.board,
                    old(self).column_count as int,
                    row as int,
                    column as int,
                ),
                ..old(self)@
            }),
    {
        let ghost pre = self.board@;
        let cc = self.column_count;
        let ghost cci = cc as int;
        let board_len = self.board.len();
        let mut a: usize = row;
        while a > 0
            invariant
                board_len == pre.len(),
                geometry_ok(old(self)@),
                self@ == (BoardModel { board: self.board@, ..old(self)@ }),
                cc == old(self).column_count,
                cci == cc as int,
                pre == old(self).board@,
                row < old(self).row_count,
                column < cc,
                a <= row,
                self.board@.len() == pre.len(),
                forall|j: int|
                    0 <= j < pre.len() ==> #[trigger] self.board@[j] == (if j % cci == column && a
                        < j / cci <= row {
                        pre[j - cci]
                    } else {
                        pre[j]
                    }),
            decreases a,
        {
            proof {
                crate::grid::lemma_square_bound(old(self).row_count as int, cci, a as int, column as int);
                lemma_square(cci, a as int, column as int);
                lemma_square(cci, a - 1, column as int);
                assert(a * cc + column == square(cci, a as int, column as int));
                assert((a - 1) * cc + column == square(cci, a - 1, column as int));
                assert(square(cci, a as int, column as int) - cci == square(cci, a - 1, column as int))
                    by (nonlinear_arith)
                    requires
                        a >= 1,
                ;
            }
            let above = self.board[(a - 1) * cc + column];
            self.board.set(a * cc + column, above);
            proof {
                assert forall|j: int| 0 <= j < pre.len() implies #[trigger] self.board@[j] == (if j
                    % cci == column && a - 1 < j / cci <= row {
                    pre[j - cci]
                } else {
                    pre[j]
                }) by {
                    lemma_index(cci, j);
                    if j != square(cci, a as int, column as int) {
                        if j % cci == column && j / cci == a {
                            assert(j == square(cci, a as int, column as int));
                        }
                    }
                }
            }
            a = a - 1;
        }
        proof {
            lemma_square(cci, 0, column as int);
            crate::grid::lemma_square_bound(old(self).row_count as int, cci, 0, column as int);
        }
        self.board.set(column, 0);
        proof {
            assert forall|j: int| 0 <= j < pre.len() implies #[trigger] self.board@[j] == remove_block(
                pre,
                cci,
                row as int,
                column as int,
            )[j] by {
                lemma_index(cci, j);
                if j != column as int {
                    if j % cci == column && j / cci == 0 {
                        assert(j == square(cci, 0, column as int));
                    }
                }
            }
            assert(self.board@ =~= remove_block(pre, cci, row as int, column as int));
        }
    }
}


/// The positions `cleared` lie below `bound`, in increasing order, on blocks.
pub open spec fn cleared_ok(vals: Seq<i32>, cleared: Seq<int>, bound: int) -> bool {
    &&& forall|q: int|
        0 <= q < cleared.len() ==> 0 <= #[trigger] cleared[q] < bound && vals[cleared[q]] != 0
    &&& forall|q1: int, q2: int|
        0 <= q1 < q2 < cleared.len() ==> #[trigger] cleared[q1] < #[trigger] cleared[q2]
}

/// A throw clears blocks only, in the order it meets them, and a throw that stops,
/// stops on a block that does not match the (non-wild) block in hand, after the
/// blocks it cleared.
pub proof fn lemma_run_props(vals: Seq<i32>, i: int, held: i32, cleared: Seq<int>)
    requires
        0 <= i <= vals.len(),
        cleared_ok(vals, cleared, i),
    ensures
        cleared_ok(vals, throw_run(vals, i, held, cleared).cleared, vals.len() as int),
        throw_run(vals, i, held, cleared).end matches ThrowEnd::Stops { at } ==> {
            &&& i <= at < vals.len()
            &&& vals[at] != 0
            &&& throw_run(vals, i, held, cleared).held != 0
            &&& vals[at] != throw_run(vals, i, held, cleared).held
            &&& cleared_ok(vals, throw_run(vals, i, held, cleared).cleared, at)
        },
    decreases vals.len() - i,
{
    if i >= vals.len() {
    } else if vals[i] == 0 {
        lemma_run_props(vals, i + 1, held, cleared);
    } else if held != 0 && vals[i] != held {
    } else {
        let c2 = cleared.push(i);
        assert forall|q1: int, q2: int| 0 <= q1 < q2 < c2.len() implies #[trigger] c2[q1]
            < #[trigger] c2[q2] by {
            if q2 == cleared.len() {
                assert(cleared[q1] < i);
            } else {
                assert(c2[q1] == cleared[q1] && c2[q2] == cleared[q2]);
            }
        }
        assert forall|q: int| 0 <= q < c2.len() implies 0 <= #[trigger] c2[q] < i + 1 && vals[c2[q]]
            != 0 by {
            if q < cleared.len() {
                assert(c2[q] == cleared[q]);
            }
        }
        lemma_run_props(vals, i + 1, vals[i], c2);
    }
}

proof fn lemma_legal_run(m: BoardModel, vals: Seq<i32>, i: int)
    requires
        0 <= i <= vals.len(),
    ensures
        (match first_hit(vals, i) {
            Some(j) => m.held_block == 0 || vals[j] == m.held_block,
            None => false,
        }) <==> throw_run(vals, i, m.held_block, Seq::empty()).cleared.len() > 0,
    decreases vals.len() - i,
{
    if i >= vals.len() {
    } else if vals[i] == 0 {
        lemma_legal_run(m, vals, i + 1);
    } else if m.held_block != 0 && vals[i] != m.held_block {
    } else {
        lemma_run_extends(vals, i + 1, vals[i], Seq::<int>::empty().push(i));
    }
}

/// A throw is legal exactly when it clears at least one block.
pub proof fn lemma_legal_iff_clears(m: BoardModel, is_column: bool, pos: int)
    ensures
        legal_throw(m, is_column, pos) <==> throw_outcome(m, is_column, pos).cleared.len() > 0,
{
    lemma_legal_run(m, path_values(m, is_column, pos), 0);
}

/// Clearing the blocks at the path positions `cleared` lowers the number of blocks by
/// the number of positions.
pub proof fn lemma_clear_path_count(m: BoardModel, is_column: bool, pos: int, cleared: Seq<int>)
    requires
        geometry_ok(m),
        target_ok(m, is_column, pos),
        cleared_ok(path_values(m, is_column, pos), cleared, path_len(m, is_column, pos)),
    ensures
        count_blocks(clear_path(m, is_column, pos, m.board, cleared)) == count_blocks(m.board)
            - cleared.len(),
        clear_path(m, is_column, pos, m.board, cleared).len() == m.board.len(),
    decreases cleared.len(),
{
    let vals = path_values(m, is_column, pos);
    if cleared.len() > 0 {
        let rest = cleared.drop_last();
        let j = cleared.last();
        assert(cleared_ok(vals, rest, path_len(m, is_column, pos))) by {
            assert forall|q: int| 0 <= q < rest.len() implies 0 <= #[trigger] rest[q] < path_len(
                m,
                is_column,
                pos,
            ) && vals[rest[q]] != 0 by {
                assert(rest[q] == cleared[q]);
            }
            assert forall|q1: int, q2: int| 0 <= q1 < q2 < rest.len() implies #[trigger] rest[q1]
                < #[trigger] rest[q2] by {
                assert(rest[q1] == cleared[q1] && rest[q2] == cleared[q2]);
            }
        }
        lemma_clear_path_count(m, is_column, pos, rest);
        assert forall|q: int| 0 <= q < rest.len() implies 0 <= #[trigger] rest[q] < j by {
            assert(rest[q] == cleared[q]);
            assert(cleared[q] < cleared[cleared.len() - 1]);
        }
        lemma_clear_path_keeps(m, is_column, pos, m.board, rest, j);
        lemma_path_inside(m, is_column, pos, j);
        lemma_count_remove_block(
            clear_path(m, is_column, pos, m.board, rest),
            m.row_count as int,
            m.column_count as int,
            path_row(m, is_column, pos, j),
            path_col(m, is_column, pos, j),
        );
        assert(vals[j] != 0);
    }
}

/// A move takes exactly the cleared blocks off the grid: the swap at the end of a throw
/// puts a block where a block was.
pub proof fn lemma_move_removes_cleared(m: BoardModel, idx: int)
    requires
        move_ok(m, idx),
        idx != MISS_MOVE,
    ensures
        count_blocks(after_move(m, idx).board) == count_blocks(m.board) - throw_outcome(
            m,
            m.legal_move_is_column[idx],
            m.legal_move_position[idx] as int,
        ).cleared.len(),
        throw_outcome(m, m.legal_move_is_column[idx], m.legal_move_position[idx] as int).cleared.len()
            <= count_blocks(m.board),
        after_move(m, idx).board.len() == m.board.len(),
{
    let is_column = m.legal_move_is_column[idx];
    let pos = m.legal_move_position[idx] as int;
    let vals = path_values(m, is_column, pos);
    let t = throw_outcome(m, is_column, pos);
    lemma_run_props(vals, 0, m.held_block, Seq::empty());
    lemma_clear_path_count(m, is_column, pos, t.cleared);
    if t.cleared.len() > 0 {
        if let ThrowEnd::Stops { at } = t.end {
            let cb = clear_path(m, is_column, pos, m.board, t.cleared);
            assert forall|q: int| 0 <= q < t.cleared.len() implies 0 <= #[trigger] t.cleared[q]
                < at by {}
            lemma_clear_path_keeps(m, is_column, pos, m.board, t.cleared, at);
            lemma_path_inside(m, is_column, pos, at);
            lemma_count_update(cb, path_square(m, is_column, pos, at), t.held);
        }
    }
}

proof fn lemma_increasing_len(s: Seq<int>, bound: int)
    requires
        forall|q: int| 0 <= q < s.len() ==> 0 <= #[trigger] s[q] < bound,
        forall|q1: int, q2: int| 0 <= q1 < q2 < s.len() ==> #[trigger] s[q1] < #[trigger] s[q2],
    ensures
        s.len() <= if bound > 0 { bound } else { 0 },
    decreases s.len(),
{
    if s.len() > 0 {
        let r = s.drop_last();
        let last = s[s.len() - 1];
        assert forall|q: int| 0 <= q < r.len() implies 0 <= #[trigger] r[q] < last by {
            assert(r[q] == s[q]);
        }
        assert forall|q1: int, q2: int| 0 <= q1 < q2 < r.len() implies #[trigger] r[q1]
            < #[trigger] r[q2] by {
            assert(r[q1] == s[q1] && r[q2] == s[q2]);
        }
        lemma_increasing_len(r, last);
    }
}

/// One throw clears at most as many blocks as its path has squares, fewer than
/// `row_count + column_count`.
pub proof fn lemma_throw_clears_at_most_path(m: BoardModel, is_column: bool, pos: int)
    requires
        target_ok(m, is_column, pos),
    ensures
        throw_outcome(m, is_column, pos).cleared.len() <= path_len(m, is_column, pos),
        path_len(m, is_column, pos) < m.row_count + m.column_count,
{
    let vals = path_values(m, is_column, pos);
    lemma_run_props(vals, 0, m.held_block, Seq::empty());
    let c = throw_outcome(m, is_column, pos).cleared;
    lemma_increasing_len(c, vals.len() as int);
}

/// Every block number in `b` lies in `0..5`.
pub open spec fn blocks_in_range(b: Seq<i32>) -> bool {
    forall|j: int| 0 <= j < b.len() ==> 0 <= #[trigger] b[j] < 5
}

/// A board whose grid has its squares, whose `block_count` is the number of blocks on
/// it, and whose blocks, and held block, are block numbers.
pub open spec fn board_valid(m: BoardModel) -> bool {
    &&& m.board.len() == m.row_count * m.column_count
    &&& m.block_count == count_blocks(m.board)
    &&& blocks_in_range(m.board)
    &&& 0 <= m.held_block < 5
}

proof fn lemma_run_held(vals: Seq<i32>, i: int, held: i32, cleared: Seq<int>)
    requires
        blocks_in_range(vals),
        0 <= held < 5,
        cleared.len() > 0 ==> held != 0,
    ensures
        0 <= throw_run(vals, i, held, cleared).held < 5,
        throw_run(vals, i, held, cleared).cleared.len() > 0 ==> throw_run(vals, i, held, cleared).held
            != 0,
    decreases vals.len() - i,
{
    if i < 0 || i >= vals.len() {
    } else if vals[i] == 0 {
        lemma_run_held(vals, i + 1, held, cleared);
    } else if held != 0 && vals[i] != held {
    } else {
        lemma_run_held(vals, i + 1, vals[i], cleared.push(i));
    }
}

proof fn lemma_clear_path_range(m: BoardModel, is_column: bool, pos: int, b: Seq<i32>, cleared: Seq<int>)
    requires
        blocks_in_range(b),
    ensures
        blocks_in_range(clear_path(m, is_column, pos, b, cleared)),
    decreases cleared.len(),
{
    if cleared.len() > 0 {
        lemma_clear_path_range(m, is_column, pos, b, cleared.drop_last());
        let prev = clear_path(m, is_column, pos, b, cleared.drop_last());
        let cc = m.column_count as int;
        let r = remove_block(prev, cc, path_row(m, is_column, pos, cleared.last()), path_col(
            m,
            is_column,
            pos,
            cleared.last(),
        ));
        assert forall|j: int| 0 <= j < r.len() implies 0 <= #[trigger] r[j] < 5 by {
            if j % cc == path_col(m, is_column, pos, cleared.last()) && j / cc <= path_row(
                m,
                is_column,
                pos,
                cleared.last(),
            ) && j / cc != 0 {
                assert(0 <= j - cc < prev.len()) by {
                    if cc > 0 {
                        lemma_index(cc, j);
                        assert(j >= cc) by (nonlinear_arith)
                            requires
                                j == cc * (j / cc) + j % cc,
                                j / cc >= 1,
                                j % cc >= 0,
                                cc > 0,
                        ;
                    }
                }
            }
        }
    }
}

/// A move keeps a valid board valid, and a throw that clears a block leaves a block
/// (not the wild block) in hand.
pub proof fn lemma_move_keeps_valid(m: BoardModel, idx: int)
    requires
        move_ok(m, idx),
        board_valid(m),
    ensures
        board_valid(after_move(m, idx)),
        idx != MISS_MOVE && throw_outcome(
            m,
            m.legal_move_is_column[idx],
            m.legal_move_position[idx] as int,
        ).cleared.len() > 0 ==> after_move(m, idx).held_block != 0,
{
    if idx != MISS_MOVE {
        let is_column = m.legal_move_is_column[idx];
        let pos = m.legal_move_position[idx] as int;
        let vals = path_values(m, is_column, pos);
        let t = throw_outcome(m, is_column, pos);
        assert(blocks_in_range(vals)) by {
            assert forall|i: int| 0 <= i < vals.len() implies 0 <= #[trigger] vals[i] < 5 by {
                lemma_path_inside(m, is_column, pos, i);
            }
        }
        lemma_run_held(vals, 0, m.held_block, Seq::empty());
        lemma_run_props(vals, 0, m.held_block, Seq::empty());
        lemma_move_removes_cleared(m, idx);
        lemma_clear_path_range(m, is_column, pos, m.board, t.cleared);
        lemma_clear_path_count(m, is_column, pos, t.cleared);
        if t.cleared.len() > 0 {
            if let ThrowEnd::Stops { at } = t.end {
                let cb = clear_path(m, is_column, pos, m.board, t.cleared);
                lemma_path_inside(m, is_column, pos, at);
                let u = cb.update(path_square(m, is_column, pos, at), t.held);
                assert forall|j: int| 0 <= j < u.len() implies 0 <= #[trigger] u[j] < 5 by {
                    if j != path_square(m, is_column, pos, at) {
                        assert(u[j] == cb[j]);
                    }
                }
            }
        }
    }
}

/// What a throw does to the scores: it costs the time it takes, and each throw that
/// removes `k` blocks earns `k * k * 100`. From round 32 on (the faster second half) a
/// throw costs 40 points plus 6 for each row moved from the previous place; before
/// round 32 it costs 20 plus 3 per row. The raw score only counts the blocks removed.
pub proof fn lemma_throw_score(m: BoardModel, idx: int)
    requires
        move_ok(m, idx),
        idx != MISS_MOVE,
    ensures
        ({
            let r = after_move(m, idx);
            let k = m.block_count - r.block_count;
            let rows = if idx >= m.previous_move_index {
                idx - m.previous_move_index
            } else {
                m.previous_move_index - idx
            };
            &&& 0 <= k <= m.block_count
            &&& m.level_number >= 32 ==> r.score == m.score - 6 * rows - 40 + 100 * (k * k)
            &&& m.level_number < 32 ==> r.score == m.score - 3 * rows - 20 + 100 * (k * k)
            &&& r.raw_score == m.raw_score + 100 * (k * k)
            &&& r.previous_move_index == idx
        }),
{
    let t = throw_outcome(m, m.legal_move_is_column[idx], m.legal_move_position[idx] as int);
    let k = t.cleared.len() as int;
    if k == 0 {
        assert(after_move(m, idx).block_count == m.block_count);
        assert(0int * 0int == 0) by (nonlinear_arith);
    } else {
        assert(after_move(m, idx).block_count == m.block_count - k);
    }
}

/// Under the conditions for making a move, a throw is legal exactly when the move
/// lowers the block count.
pub proof fn lemma_legal_iff_fewer_blocks(m: BoardModel, idx: int)
    requires
        move_ok(m, idx),
        idx != MISS_MOVE,
    ensures
        legal_throw(m, m.legal_move_is_column[idx], m.legal_move_position[idx] as int) <==> after_move(
            m,
            idx,
        ).block_count < m.block_count,
{
    lemma_legal_iff_clears(m, m.legal_move_is_column[idx], m.legal_move_position[idx] as int);
}

proof fn lemma_run_skips_empty(vals: Seq<i32>, i: int, held: i32)
    requires
        0 <= i,
        first_hit(vals, i) is Some,
    ensures
        throw_run(vals, i, held, Seq::empty()) == throw_run(
            vals,
            first_hit(vals, i)->Some_0,
            held,
            Seq::empty(),
        ),
    decreases vals.len() - i,
{
    if i < vals.len() && vals[i] == 0 {
        lemma_run_skips_empty(vals, i + 1, held);
    }
}

proof fn lemma_run_shift(
    v1: Seq<i32>,
    v2: Seq<i32>,
    i1: int,
    i2: int,
    held: i32,
    c1: Seq<int>,
    c2: Seq<int>,
)
    requires
        0 <= i1,
        0 <= i2,
        v1.len() - i1 == v2.len() - i2,
        forall|k: int| i1 <= k < v1.len() ==> #[trigger] v1[k] == v2[k + i2 - i1],
        c1.len() == c2.len(),
        forall|q: int| 0 <= q < c1.len() ==> c1[q] == c2[q] + (i1 - i2),
    ensures
        ({
            let r1 = throw_run(v1, i1, held, c1);
            let r2 = throw_run(v2, i2, held, c2);
            &&& r1.held == r2.held
            &&& r1.cleared.len() == r2.cleared.len()
            &&& forall|q: int| 0 <= q < r1.cleared.len() ==> r1.cleared[q] == r2.cleared[q] + (i1 - i2)
            &&& (r1.end is Exits <==> r2.end is Exits)
            &&& (r1.end matches ThrowEnd::Stops { at } ==> r2.end matches ThrowEnd::Stops { at: a2 }
                && at == a2 + (i1 - i2))
        }),
    decreases v1.len() - i1,
{
    if i1 < v1.len() {
        assert(v1[i1] == v2[i2]);
        if v1[i1] == 0 {
            lemma_run_shift(v1, v2, i1 + 1, i2 + 1, held, c1, c2);
        } else if held != 0 && v1[i1] != held {
        } else {
            assert forall|q: int| 0 <= q < c1.push(i1).len() implies c1.push(i1)[q] == c2.push(i2)[q]
                + ((i1 + 1) - (i2 + 1)) by {
                if q < c1.len() {
                    assert(c1.push(i1)[q] == c1[q]);
                    assert(c2.push(i2)[q] == c2[q]);
                }
            }
            lemma_run_shift(v1, v2, i1 + 1, i2 + 1, v1[i1], c1.push(i1), c2.push(i2));
        }
    }
}

proof fn lemma_clear_path_shift(
    m: BoardModel,
    col1: bool,
    pos1: int,
    col2: bool,
    pos2: int,
    b: Seq<i32>,
    c1: Seq<int>,
    c2: Seq<int>,
)
    requires
        c1.len() == c2.len(),
        forall|q: int|
            0 <= q < c1.len() ==> path_row(m, col1, pos1, c1[q]) == path_row(m, col2, pos2, c2[q])
                && path_col(m, col1, pos1, c1[q]) == path_col(m, col2, pos2, c2[q]),
    ensures
        clear_path(m, col1, pos1, b, c1) == clear_path(m, col2, pos2, b, c2),
    decreases c1.len(),
{
    if c1.len() > 0 {
        lemma_clear_path_shift(m, col1, pos1, col2, pos2, b, c1.drop_last(), c2.drop_last());
        assert(c1.last() == c1[c1.len() - 1]);
    }
}

/// Where a throw first hits a block in the rightmost column, it goes on straight down
/// that column, whatever its direction: two throws that first hit the same block there
/// leave the same grid, the same block in hand, the same block count and the same raw
/// score. (Several places that first hit the top block of the rightmost column make the
/// same move.)
pub proof fn lemma_same_first_block_same_play(m: BoardModel, idx1: int, idx2: int)
    requires
        move_ok(m, idx1),
        move_ok(m, idx2),
        idx1 != MISS_MOVE,
        idx2 != MISS_MOVE,
        ({
            let col1 = m.legal_move_is_column[idx1];
            let pos1 = m.legal_move_position[idx1] as int;
            let col2 = m.legal_move_is_column[idx2];
            let pos2 = m.legal_move_position[idx2] as int;
            let h1 = first_hit(path_values(m, col1, pos1), 0);
            let h2 = first_hit(path_values(m, col2, pos2), 0);
            &&& h1 is Some
            &&& h2 is Some
            &&& path_col(m, col1, pos1, h1->Some_0) == m.column_count - 1
            &&& path_col(m, col2, pos2, h2->Some_0) == m.column_count - 1
            &&& path_row(m, col1, pos1, h1->Some_0) == path_row(m, col2, pos2, h2->Some_0)
        }),
    ensures
        after_move(m, idx1).board == after_move(m, idx2).board,
        after_move(m, idx1).held_block == after_move(m, idx2).held_block,
        after_move(m, idx1).block_count == after_move(m, idx2).block_count,
        after_move(m, idx1).raw_score == after_move(m, idx2).raw_score,
{
    let col1 = m.legal_move_is_column[idx1];
    let pos1 = m.legal_move_position[idx1] as int;
    let col2 = m.legal_move_is_column[idx2];
    let pos2 = m.legal_move_position[idx2] as int;
    let v1 = path_values(m, col1, pos1);
    let v2 = path_values(m, col2, pos2);
    lemma_first_hit_in(v1, 0);
    lemma_first_hit_in(v2, 0);
    let j1 = first_hit(v1, 0)->Some_0;
    let j2 = first_hit(v2, 0)->Some_0;
    let r = path_row(m, col1, pos1, j1);
    let cc = m.column_count as int;
    // both paths go down the rightmost column from row r
    assert forall|k: int| j1 <= k < v1.len() implies #[trigger] path_row(m, col1, pos1, k) == r + k
        - j1 && path_col(m, col1, pos1, k) == cc - 1 && path_row(m, col2, pos2, k + j2 - j1) == r + k
        - j1 && path_col(m, col2, pos2, k + j2 - j1) == cc - 1 by {
    }
    assert(v1.len() - j1 == v2.len() - j2);
    assert forall|k: int| j1 <= k < v1.len() implies #[trigger] v1[k] == v2[k + j2 - j1] by {
        assert(path_row(m, col1, pos1, k) == r + k - j1);
        assert(path_square(m, col1, pos1, k) == path_square(m, col2, pos2, k + j2 - j1));
    }
    lemma_run_skips_empty(v1, 0, m.held_block);
    lemma_run_skips_empty(v2, 0, m.held_block);
    lemma_run_shift(v1, v2, j1, j2, m.held_block, Seq::empty(), Seq::empty());
    let t1 = throw_outcome(m, col1, pos1);
    let t2 = throw_outcome(m, col2, pos2);
    lemma_run_props(v1, 0, m.held_block, Seq::empty());
    lemma_run_props(v2, 0, m.held_block, Seq::empty());
    lemma_run_props(v1, j1, m.held_block, Seq::empty());
    lemma_run_props(v2, j2, m.held_block, Seq::empty());
    assert forall|q: int| 0 <= q < t1.cleared.len() implies path_row(m, col1, pos1, t1.cleared[q])
        == path_row(m, col2, pos2, t2.cleared[q]) && path_col(m, col1, pos1, t1.cleared[q]) == path_col(
        m,
        col2,
        pos2,
        t2.cleared[q],
    ) by {
        assert(t2.cleared[q] == t1.cleared[q] + j2 - j1);
        assert(path_row(m, col1, pos1, t1.cleared[q]) == r + t1.cleared[q] - j1);
    }
    lemma_clear_path_shift(m, col1, pos1, col2, pos2, m.board, t1.cleared, t2.cleared);
    if let ThrowEnd::Stops { at } = t1.end {
        let a2 = t2.end->at;
        assert(path_row(m, col1, pos1, at) == r + at - j1);
        assert(path_square(m, col1, pos1, at) == path_square(m, col2, pos2, a2));
        assert(v1[at] == v2[a2]);
    }
}

proof fn lemma_first_hit_in(vals: Seq<i32>, i: int)
    requires
        0 <= i,
    ensures
        first_hit(vals, i) matches Some(j) ==> i <= j < vals.len() && vals[j] != 0 && forall|k: int|
            i <= k < j ==> vals[k] == 0,
    decreases vals.len() - i,
{
    if i < vals.len() && vals[i] == 0 {
        lemma_first_hit_in(vals, i + 1);
    }
}

/// Points for clearing `k` blocks in one throw.
pub fn points_for(k: usize) -> (res: i32)
    requires
        k > 0,
        fits_i32(k * k),
        fits_i32(clear_points(k as int)),
    ensures
        res == clear_points(k as int),
{
    assert(k <= k * k) by (nonlinear_arith)
        requires
            k >= 1,
    ;
    let k: i32 = k as i32;
    100 * (k * k)
}

impl BoardState {
    /// Makes move `move_index`: a miss ([`MISS_MOVE`]) takes a wild block and uses up the
    /// spare life; any other index throws the held block from that place. The throw
    /// clears the matching blocks along its path (blocks above each cleared block fall),
    /// swaps colors with the first block that does not match, and scores `k * k * 100`
    /// for `k` cleared blocks; moving and throwing cost points (see [`after_throw`]).
    /// A throw whose first block does not match clears nothing and leaves the grid and
    /// the held block as they were.
    pub fn make_move(&mut self, move_index: usize)
        requires
            move_ok(old(self)@, move_index as int),
        ensures
            final(self)@ == after_move(old(self)@, move_index as int),
    {
        if move_index == MISS_MOVE {
            self.held_block = 0;
            self.miss_available = false;
            return;
        }
        let ghost m = self@;
        let ghost idx = move_index as int;
        let is_column = self.legal_move_is_column[move_index];
        let move_position = self.legal_move_position[move_index];
        let ghost p = move_position as int;
        let pos: usize = move_position as usize;
        let per_row: i64 = if self.level_number < 32 {
            3
        } else {
            6
        };
        let prev = self.previous_move_index;
        let travelled: i64 = if move_index >= prev {
            (move_index - prev) as i64
        } else {
            (prev - move_index) as i64
        };
        assert(per_row * travelled == row_penalty(m.level_number) * rows_travelled(
            idx,
            m.previous_move_index as int,
        ));
        let travel: i32 = (per_row * travelled) as i32;
        self.score = self.score - travel;
        let shot: i32 = if self.level_number < 32 {
            20
        } else {
            40
        };
        self.score = self.score - shot;
        self.previous_move_index = move_index;
        if is_column {
            push_char(&mut self.moves, 'C');
            push_decimal(&mut self.moves, (pos + 1) as u32);
        } else {
            push_char(&mut self.moves, 'R');
            push_decimal(&mut self.moves, (self.row_count - pos) as u32);
        }
        push_char(&mut self.moves, ',');
        push_char(&mut self.moves, ' ');
        assert(self.moves@ =~= m.moves + move_label(m, is_column, p));
        self.move_list.push(move_index);
        let ghost base = self@;
        assert(base == (BoardModel {
            score: m.score - row_penalty(m.level_number) * rows_travelled(
                idx,
                m.previous_move_index as int,
            ) - shot_penalty(m.level_number),
            previous_move_index: idx as nat,
            moves: m.moves + move_label(m, is_column, p),
            move_list: m.move_list.push(idx as usize),
            ..m
        }));
        let ghost vals = path_values(m, is_column, p);
        let ghost t = throw_outcome(m, is_column, p);
        let cc = self.column_count;
        let rc = self.row_count;
        let board_len = self.board.len();
        let mut blocks_cleared: usize = 0;
        let mut row: usize = if is_column {
            0
        } else {
            pos
        };
        let mut column: usize = if is_column {
            pos
        } else {
            0
        };
        let mut down: bool = is_column;
        let ghost mut i: int = 0;
        let ghost mut cleared: Seq<int> = Seq::empty();
        loop
            invariant
                move_ok(m, idx),
                m == old(self)@,
                idx == move_index as int,
                idx != MISS_MOVE,
                is_column == m.legal_move_is_column[idx],
                p == m.legal_move_position[idx] as int,
                pos == p,
                vals == path_values(m, is_column, p),
                t == throw_outcome(m, is_column, p),
                self@ == (BoardModel {
                    board: self.board@,
                    held_block: self.held_block,
                    block_count: self.block_count as nat,
                    ..base
                }),
                base == (BoardModel {
                    score: m.score - row_penalty(m.level_number) * rows_travelled(
                        idx,
                        m.previous_move_index as int,
                    ) - shot_penalty(m.level_number),
                    previous_move_index: idx as nat,
                    moves: m.moves + move_label(m, is_column, p),
                    move_list: m.move_list.push(idx as usize),
                    ..m
                }),
                cc == m.column_count,
                rc == m.row_count,
                board_len == m.board.len(),
                0 <= i < path_len(m, is_column, p),
                row == path_row(m, is_column, p, i),
                column == path_col(m, is_column, p, i),
                down == (is_column || i >= cc),
                blocks_cleared == cleared.len(),
                self.block_count == m.block_count - cleared.len(),
                self.board@ == clear_path(m, is_column, p, m.board, cleared),
                t == throw_run(vals, i, self.held_block, cleared),
                forall|q: int| 0 <= q < cleared.len() ==> 0 <= #[trigger] cleared[q] < i,
                cleared.len() == 0 ==> self.held_block == m.held_block,
            decreases path_len(m, is_column, p) - i,
        {
            proof {
                lemma_path_inside(m, is_column, p, i);
                lemma_clear_path_keeps(m, is_column, p, m.board, cleared, i);
                assert(row * cc + column == path_square(m, is_column, p, i));
            }
            let current_block = self.board[row * cc + column];
            assert(current_block == vals[i]);
            if current_block != 0 {
                if self.held_block != 0 && self.held_block != current_block {
                    assert(t == ThrowOutcome {
                        held: self.held_block,
                        cleared,
                        end: ThrowEnd::Stops { at: i },
                    });
                    if blocks_cleared == 0 {
                        assert(cleared =~= Seq::<int>::empty());
                        assert(self.board@ =~= m.board);
                        assert(self@ == base);
                        assert(after_throw(m, idx) == base);
                        return;
                    }
                    let held = self.held_block;
                    self.board.set(row * cc + column, held);
                    self.held_block = current_block;
                    let gain = points_for(blocks_cleared);
                    self.score = self.score + gain;
                    self.raw_score = self.raw_score + gain;
                    return;
                }
                assert(t == throw_run(vals, i + 1, current_block, cleared.push(i)));
                if self.held_block == 0 {
                    self.held_block = current_block;
                }
                proof {
                    lemma_run_extends(vals, i + 1, current_block, cleared.push(i));
                }
                blocks_cleared = blocks_cleared + 1;
                self.block_count = self.block_count - 1;
                self.drop_column(row, column);
                proof {
                    assert(cleared.push(i).drop_last() =~= cleared);
                    cleared = cleared.push(i);
                }
            } else {
                assert(t == throw_run(vals, i + 1, self.held_block, cleared));
            }
            if down {
                row = row + 1;
            } else {
                column = column + 1;
            }
            if column >= cc {
                column = column - 1;
                row = row + 1;
                down = true;
            }
            proof {
                i = i + 1;
            }
            assert(row == path_row(m, is_column, p, i));
            assert(column == path_col(m, is_column, p, i));
            if row >= rc {
                assert(i == path_len(m, is_column, p));
                assert(i == vals.len());
                assert(t == ThrowOutcome { held: self.held_block, cleared, end: ThrowEnd::Exits });
                let gain = points_for(blocks_cleared);
                self.score = self.score + gain;
                self.raw_score = self.raw_score + gain;
                return;
            }
        }
    }
}

} // verus!
