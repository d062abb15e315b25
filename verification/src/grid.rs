use vstd::prelude::*;
use vstd::arithmetic::div_mod::{
    lemma_fundamental_div_mod,
    lemma_fundamental_div_mod_converse,
    lemma_div_pos_is_pos,
    lemma_mod_pos_bound,
};

verus! {

/// Index of the square in row `r` and column `c` of a grid stored row by row.
pub open spec fn square(cc: int, r: int, c: int) -> int {
    r * cc + c
}

/// The block in row `r` and column `c`.
pub open spec fn cell_at(b: Seq<i32>, cc: int, r: int, c: int) -> i32 {
    b[square(cc, r, c)]
}

/// The grid after the block in row `r`, column `c` is cleared: every block above it
/// in that column falls down one square, and the top square of the column is empty.
pub open spec fn remove_block(b: Seq<i32>, cc: int, r: int, c: int) -> Seq<i32> {
    Seq::new(
        b.len(),
        |j: int|
            if j % cc == c && j / cc <= r {
                if j / cc == 0 {
                    0i32
                } else {
                    b[j - cc]
                }
            } else {
                b[j]
            },
    )
}

/// A square lies at its row and column.
pub proof fn lemma_square(cc: int, r: int, c: int)
    requires
        cc > 0,
        0 <= r,
        0 <= c < cc,
    ensures
        square(cc, r, c) / cc == r,
        square(cc, r, c) % cc == c,
        0 <= square(cc, r, c),
{
    assert(0 <= r * cc) by (nonlinear_arith)
        requires
            0 <= r,
            cc > 0,
    ;
    lemma_fundamental_div_mod_converse(r * cc + c, cc, r, c);
}

/// A square of an `rc` by `cc` grid is inside the grid.
pub proof fn lemma_square_bound(rc: int, cc: int, r: int, c: int)
    requires
        0 <= r < rc,
        0 <= c < cc,
    ensures
        0 <= square(cc, r, c) < rc * cc,
{
    assert(0 <= r * cc + c < rc * cc) by (nonlinear_arith)
        requires
            0 <= r < rc,
            0 <= c < cc,
    ;
}

/// Every index is the square of its row and column.
pub proof fn lemma_index(cc: int, j: int)
    requires
        cc > 0,
        0 <= j,
    ensures
        j == square(cc, j / cc, j % cc),
        0 <= j % cc < cc,
        0 <= j / cc,
{
    lemma_fundamental_div_mod(j, cc);
    lemma_mod_pos_bound(j, cc);
    lemma_div_pos_is_pos(j, cc);
    assert(cc * (j / cc) == (j / cc) * cc) by (nonlinear_arith);
}

/// Clearing a block changes nothing in other columns nor below it.
pub proof fn lemma_remove_block_elsewhere(b: Seq<i32>, cc: int, r: int, c: int, r2: int, c2: int)
    requires
        cc > 0,
        0 <= c < cc,
        0 <= c2 < cc,
        0 <= r2,
        0 <= square(cc, r2, c2) < b.len(),
        c2 != c || r2 > r,
    ensures
        remove_block(b, cc, r, c)[square(cc, r2, c2)] == b[square(cc, r2, c2)],
{
    lemma_square(cc, r2, c2);
}

/// Number of blocks (non-zero squares) in a grid.
pub open spec fn count_blocks(b: Seq<i32>) -> nat
    decreases b.len(),
{
    if b.len() == 0 {
        0
    } else {
        count_blocks(b.drop_last()) + if b.last() != 0 { 1nat } else { 0nat }
    }
}

/// 1 for a block, 0 for an empty square.
pub open spec fn is_block(v: i32) -> int {
    if v != 0 { 1 } else { 0 }
}

/// Writing one square changes the count by what was there and what is written.
pub proof fn lemma_count_update(b: Seq<i32>, j: int, v: i32)
    requires
        0 <= j < b.len(),
    ensures
        count_blocks(b.update(j, v)) == count_blocks(b) - is_block(b[j]) + is_block(v),
    decreases b.len(),
{
    let u = b.update(j, v);
    if j == b.len() - 1 {
        assert(u.drop_last() =~= b.drop_last());
    } else {
        assert(u.drop_last() =~= b.drop_last().update(j, v));
        lemma_count_update(b.drop_last(), j, v);
    }
}

/// The grid while the blocks above row `r` of column `c` are being moved down: rows
/// `a + 1` to `r` hold what was one row higher, the rest is as it was.
pub open spec fn shifted_down(b: Seq<i32>, cc: int, r: int, c: int, a: int) -> Seq<i32> {
    Seq::new(
        b.len(),
        |j: int|
            if j % cc == c && a < j / cc <= r {
                b[j - cc]
            } else {
                b[j]
            },
    )
}

proof fn lemma_count_shifted(b: Seq<i32>, rc: int, cc: int, r: int, c: int, a: int)
    requires
        b.len() == rc * cc,
        cc > 0,
        0 <= a <= r < rc,
        0 <= c < cc,
    ensures
        count_blocks(shifted_down(b, cc, r, c, a)) == count_blocks(b) - is_block(
            b[square(cc, r, c)],
        ) + is_block(b[square(cc, a, c)]),
    decreases r - a,
{
    lemma_square_bound(rc, cc, r, c);
    lemma_square_bound(rc, cc, a, c);
    if a == r {
        assert forall|j: int| 0 <= j < b.len() implies shifted_down(b, cc, r, c, a)[j] == b[j] by {
        }
        assert(shifted_down(b, cc, r, c, a) =~= b);
    } else {
        lemma_count_shifted(b, rc, cc, r, c, a + 1);
        let prev = shifted_down(b, cc, r, c, a + 1);
        let sq = square(cc, a + 1, c);
        lemma_square_bound(rc, cc, a + 1, c);
        lemma_square(cc, a + 1, c);
        lemma_square(cc, a, c);
        assert((a + 1) * cc + c - cc == a * cc + c) by (nonlinear_arith);
        assert(sq - cc == square(cc, a, c));
        assert forall|j: int| 0 <= j < b.len() implies #[trigger] shifted_down(b, cc, r, c, a)[j]
            == prev.update(sq, b[sq - cc])[j] by {
            lemma_index(cc, j);
            if j != sq && j % cc == c && j / cc == a + 1 {
                assert(j == sq);
            }
        }
        assert(shifted_down(b, cc, r, c, a) =~= prev.update(sq, b[sq - cc]));
        lemma_count_update(prev, sq, b[sq - cc]);
        assert(prev[sq] == b[sq]);
    }
}

/// Clearing a block lowers the count by one; clearing an empty square changes nothing.
pub proof fn lemma_count_remove_block(b: Seq<i32>, rc: int, cc: int, r: int, c: int)
    requires
        b.len() == rc * cc,
        cc > 0,
        0 <= r < rc,
        0 <= c < cc,
    ensures
        count_blocks(remove_block(b, cc, r, c)) == count_blocks(b) - is_block(b[square(cc, r, c)]),
{
    lemma_count_shifted(b, rc, cc, r, c, 0);
    let s = shifted_down(b, cc, r, c, 0);
    lemma_square(cc, 0, c);
    lemma_square_bound(rc, cc, 0, c);
    assert forall|j: int| 0 <= j < b.len() implies #[trigger] remove_block(b, cc, r, c)[j] == s.update(
        c,
        0,
    )[j] by {
        lemma_index(cc, j);
        if j != c && j % cc == c && j / cc == 0 {
            assert(j == square(cc, 0, c));
        }
    }
    assert(remove_block(b, cc, r, c) =~= s.update(c, 0));
    lemma_count_update(s, c, 0);
    assert(s[c] == b[square(cc, 0, c)]);
}

/// A grid with a block somewhere has at least one block.
pub proof fn lemma_count_positive(b: Seq<i32>, j: int)
    requires
        0 <= j < b.len(),
        b[j] != 0,
    ensures
        count_blocks(b) >= 1,
    decreases b.len(),
{
    if j < b.len() - 1 {
        lemma_count_positive(b.drop_last(), j);
    }
}

/// The number of blocks in a grid.
pub fn count_nonzero(b: &Vec<i32>) -> (res: usize)
    ensures
        res == count_blocks(b@),
{
    let mut n: usize = 0;
    let mut i: usize = 0;
    while i < b.len()
        invariant
            i <= b.len(),
            n == count_blocks(b@.take(i as int)),
            n <= i,
        decreases b.len() - i,
    {
        assert(b@.take(i + 1).drop_last() =~= b@.take(i as int));
        if b[i] != 0 {
            n = n + 1;
        }
        i = i + 1;
    }
    assert(b@.take(b.len() as int) =~= b@);
    n
}

} // verus!
