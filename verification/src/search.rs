use vstd::prelude::*;
use crate::board::{BoardModel, BoardState};
use crate::grid::count_blocks;
use crate::text::push_char;
use crate::throw::{target_ok, legal_throw, hits_top_right, first_hit, path_values, path_square};
use crate::play::{
    throw_run, MISS_MOVE, after_move, move_ok, sizes_ok, fits_i32, clear_points, row_penalty,
    shot_penalty, rows_travelled, throw_outcome, lemma_legal_iff_clears, lemma_move_removes_cleared,
};

verus! {

/// The row throw or column throw, and the target, of place `idx`.
pub open spec fn move_pair(m: BoardModel, idx: int) -> (bool, i32) {
    (m.legal_move_is_column[idx], m.legal_move_position[idx])
}

/// The farther of the number of places and the previous place.
pub open spec fn reach(m: BoardModel) -> int {
    if m.legal_move_is_column.len() > m.previous_move_index {
        m.legal_move_is_column.len() as int
    } else {
        m.previous_move_index as int
    }
}

/// The most points that one throw can cost on board `m`.
pub open spec fn max_loss(m: BoardModel) -> int {
    row_penalty(m.level_number) * reach(m) + shot_penalty(m.level_number)
}

/// The most points that the blocks left can still give: one throw clears at most
/// `row_count + column_count` blocks, so `k * k <= (row_count + column_count) * k`.
pub open spec fn gain_room(m: BoardModel) -> int {
    100 * ((m.row_count + m.column_count) * m.block_count) as int
}

/// The largest bonus that ending the round can give.
pub open spec fn bonus_room(m: BoardModel) -> int {
    1000 * (m.qualify_blocks + 1) as int
}

/// A board that the search can start from: the sizes fit, every place with a throw
/// names a target inside the grid, place 999 (which stands for a miss) has no throw,
/// `block_count` counts at least the blocks on the grid, and no score reachable from
/// here leaves the `i32` range.
pub open spec fn search_ok(m: BoardModel) -> bool {
    &&& sizes_ok(m)
    &&& m.legal_move_is_column.len() <= i32::MAX
    &&& m.previous_move_index <= i32::MAX
    &&& (m.legal_move_is_column.len() <= MISS_MOVE || m.legal_move_position[MISS_MOVE as int] < 0)
    &&& forall|i: int|
        0 <= i < m.legal_move_is_column.len() ==> (#[trigger] m.legal_move_position[i] < 0
            || target_ok(m, m.legal_move_is_column[i], m.legal_move_position[i] as int))
    &&& count_blocks(m.board) <= m.block_count
    &&& max_loss(m) <= i32::MAX
    &&& m.score - m.block_count * max_loss(m) >= i32::MIN
    &&& gain_room(m) + bonus_room(m) <= i32::MAX
    &&& m.score + gain_room(m) + bonus_room(m) <= i32::MAX
    &&& m.raw_score + gain_room(m) + bonus_room(m) <= i32::MAX
    &&& m.raw_score >= i32::MIN
}

/// The scan for candidate moves after some of its steps.
pub struct CandidateScan {
    pub seen: Seq<(bool, i32)>,
    pub saw_top_right: bool,
    pub moves: Seq<usize>,
}

/// The place looked at in step `t` of the scan: steps go out from the previous move,
/// one place further every two steps, looking up before looking down.
pub open spec fn scan_index(m: BoardModel, t: int) -> int {
    if t % 2 == 0 {
        m.previous_move_index + t / 2
    } else {
        m.previous_move_index - t / 2
    }
}

/// The step of the scan at which place `idx` is first looked at.
pub open spec fn scan_order(m: BoardModel, idx: int) -> int {
    if idx >= m.previous_move_index {
        2 * (idx - m.previous_move_index)
    } else {
        2 * (m.previous_move_index - idx) + 1
    }
}

/// The number of steps of the scan: enough to look at every place.
pub open spec fn scan_steps(m: BoardModel) -> int {
    2 * (reach(m) + 1)
}

/// One step of the scan: a place is skipped when it has no throw, when a place looked
/// at before attacks the same target in the same direction, or when it hits the top
/// block of the rightmost column after another such place was seen; it is kept when
/// its throw is legal.
pub open spec fn scan_step(m: BoardModel, st: CandidateScan, t: int) -> CandidateScan {
    let idx = scan_index(m, t);
    if idx < 0 || idx >= m.legal_move_is_column.len() {
        st
    } else {
        let is_column = m.legal_move_is_column[idx];
        let pos = m.legal_move_position[idx] as int;
        if pos < 0 {
            st
        } else if st.seen.contains(move_pair(m, idx)) {
            st
        } else {
            let seen = st.seen.push(move_pair(m, idx));
            let top_right = hits_top_right(m, is_column, pos);
            if top_right && st.saw_top_right {
                CandidateScan { seen, ..st }
            } else if !legal_throw(m, is_column, pos) {
                CandidateScan { seen, saw_top_right: st.saw_top_right || top_right, moves: st.moves }
            } else {
                CandidateScan {
                    seen,
                    saw_top_right: st.saw_top_right || top_right,
                    moves: st.moves.push(idx as usize),
                }
            }
        }
    }
}

/// The scan after `t` steps.
pub open spec fn scan(m: BoardModel, t: int) -> CandidateScan
    decreases t,
{
    if t <= 0 {
        CandidateScan { seen: Seq::empty(), saw_top_right: false, moves: Seq::empty() }
    } else {
        scan_step(m, scan(m, t - 1), t - 1)
    }
}

/// The moves that the search tries from board `m`, in the order it tries them.
pub open spec fn candidate_moves(m: BoardModel) -> Seq<usize> {
    scan(m, scan_steps(m)).moves
}

/// Every candidate move names a place with a legal throw.
pub open spec fn candidates_legal(m: BoardModel, moves: Seq<usize>) -> bool {
    forall|i: int|
        0 <= i < moves.len() ==> {
            let idx = #[trigger] moves[i] as int;
            &&& 0 <= idx < m.legal_move_is_column.len()
            &&& 0 <= m.legal_move_position[idx]
            &&& legal_throw(m, m.legal_move_is_column[idx], m.legal_move_position[idx] as int)
        }
}

/// Place `idx` has a throw.
pub open spec fn has_throw(m: BoardModel, idx: int) -> bool {
    0 <= idx < m.legal_move_is_column.len() && 0 <= m.legal_move_position[idx]
}

/// Place `idx` first hits the top block of the rightmost column.
pub open spec fn move_hits_top_right(m: BoardModel, idx: int) -> bool {
    hits_top_right(m, m.legal_move_is_column[idx], m.legal_move_position[idx] as int)
}

/// Place `j` is the nearest place to the previous move that attacks its target in its
/// direction (up before down at equal distance).
pub open spec fn nearest_for_target(m: BoardModel, j: int) -> bool {
    forall|i: int|
        #![trigger move_pair(m, i)]
        has_throw(m, i) && scan_order(m, i) < scan_order(m, j) ==> move_pair(m, i) != move_pair(
            m,
            j,
        )
}

/// The pairs seen after `t` steps of the scan are those of the places looked at.
pub open spec fn seen_inv(m: BoardModel, t: int, st: CandidateScan) -> bool {
    &&& forall|j: int|
        #![trigger move_pair(m, j)]
        has_throw(m, j) && scan_order(m, j) < t ==> st.seen.contains(move_pair(m, j))
    &&& forall|p: (bool, i32)|
        #![trigger st.seen.contains(p)]
        st.seen.contains(p) ==> exists|i: int|
            #![trigger move_pair(m, i)]
            has_throw(m, i) && scan_order(m, i) < t && move_pair(m, i) == p
}

/// The moves kept so far are places with a throw, looked at already, each the nearest
/// for its target.
pub open spec fn kept_nearest(m: BoardModel, t: int, moves: Seq<usize>) -> bool {
    forall|q: int|
        #![trigger moves[q]]
        0 <= q < moves.len() ==> has_throw(m, moves[q] as int) && scan_order(m, moves[q] as int) < t
            && nearest_for_target(m, moves[q] as int)
}

/// The moves kept so far come in the order of the scan.
pub open spec fn kept_in_order(m: BoardModel, moves: Seq<usize>) -> bool {
    forall|q1: int, q2: int|
        #![trigger moves[q1], moves[q2]]
        0 <= q1 < q2 < moves.len() ==> scan_order(m, moves[q1] as int) < scan_order(
            m,
            moves[q2] as int,
        )
}

/// At most one kept move hits the top block of the rightmost column, and then the scan
/// has seen such a move.
pub open spec fn kept_one_top_right(m: BoardModel, saw: bool, moves: Seq<usize>) -> bool {
    &&& forall|q: int|
        #![trigger moves[q]]
        0 <= q < moves.len() && move_hits_top_right(m, moves[q] as int) ==> saw
    &&& forall|q1: int, q2: int|
        #![trigger moves[q1], moves[q2]]
        0 <= q1 < q2 < moves.len() ==> !(move_hits_top_right(m, moves[q1] as int)
            && move_hits_top_right(m, moves[q2] as int))
}

/// Every place looked at so far that is the nearest for its target, has a legal throw,
/// and does not hit the top block of the rightmost column, is kept.
pub open spec fn kept_all(m: BoardModel, t: int, moves: Seq<usize>) -> bool {
    forall|j: int|
        #![trigger nearest_for_target(m, j)]
        has_throw(m, j) && scan_order(m, j) < t && nearest_for_target(m, j) && legal_throw(
            m,
            m.legal_move_is_column[j],
            m.legal_move_position[j] as int,
        ) && !move_hits_top_right(m, j) ==> moves.contains(j as usize)
}

/// The moves kept after `t` steps of the scan.
pub open spec fn moves_inv(m: BoardModel, t: int, st: CandidateScan) -> bool {
    &&& candidates_legal(m, st.moves)
    &&& kept_nearest(m, t, st.moves)
    &&& kept_in_order(m, st.moves)
    &&& kept_one_top_right(m, st.saw_top_right, st.moves)
    &&& kept_all(m, t, st.moves)
}

proof fn lemma_scan_order_step(m: BoardModel, t: int, j: int)
    requires
        t >= 0,
        scan_order(m, j) == t,
    ensures
        j == scan_index(m, t),
        !(t % 2 == 1 && t / 2 == 0),
{
}

proof fn lemma_scan_index_order(m: BoardModel, s: int)
    requires
        s >= 0,
        has_throw(m, scan_index(m, s)),
    ensures
        s % 2 == 1 && s / 2 == 0 ==> scan_order(m, scan_index(m, s)) == 0,
        !(s % 2 == 1 && s / 2 == 0) ==> scan_order(m, scan_index(m, s)) == s,
{
}

proof fn lemma_step_seen(m: BoardModel, s: int, st: CandidateScan)
    requires
        s >= 0,
        seen_inv(m, s, st),
    ensures
        seen_inv(m, s + 1, scan_step(m, st, s)),
{
    let nx = scan_step(m, st, s);
    let idx = scan_index(m, s);
    let fresh = has_throw(m, idx) && !st.seen.contains(move_pair(m, idx));
    if has_throw(m, idx) {
        lemma_scan_index_order(m, s);
    }
    assert forall|j: int| #![trigger move_pair(m, j)] has_throw(m, j) && scan_order(m, j) < s + 1
        implies nx.seen.contains(move_pair(m, j)) by {
        if scan_order(m, j) == s {
            lemma_scan_order_step(m, s, j);
            if fresh {
                assert(nx.seen.last() == move_pair(m, j));
            }
        } else {
            assert(st.seen.contains(move_pair(m, j)));
            if fresh {
                let k = choose|k: int| 0 <= k < st.seen.len() && st.seen[k] == move_pair(m, j);
                assert(nx.seen[k] == move_pair(m, j));
            }
        }
    }
    assert forall|p: (bool, i32)| #![trigger nx.seen.contains(p)] nx.seen.contains(p) implies exists|
        i: int,
    |
        #![trigger move_pair(m, i)]
        has_throw(m, i) && scan_order(m, i) < s + 1 && move_pair(m, i) == p by {
        if fresh {
            let k = choose|k: int| 0 <= k < nx.seen.len() && nx.seen[k] == p;
            if k == st.seen.len() {
                assert(move_pair(m, idx) == p);
            } else {
                assert(st.seen[k] == p);
                assert(st.seen.contains(p));
            }
        } else {
            assert(st.seen.contains(p));
        }
    }
}

#[verifier::rlimit(40)]
proof fn lemma_step_pushed(m: BoardModel, s: int, st: CandidateScan)
    requires
        m.legal_move_is_column.len() <= i32::MAX,
        s >= 0,
        seen_inv(m, s, st),
        moves_inv(m, s, st),
        scan_step(m, st, s).moves.len() > st.moves.len(),
    ensures
        moves_inv(m, s + 1, scan_step(m, st, s)),
{
    let nx = scan_step(m, st, s);
    let idx = scan_index(m, s);
    lemma_scan_index_order(m, s);
    let last = st.moves.len() as int;
    assert(nx.moves[last] == idx as usize);
    assert(scan_order(m, idx) == s);
    assert(nearest_for_target(m, idx)) by {
        assert forall|i: int| #![trigger move_pair(m, i)] has_throw(m, i) && scan_order(m, i)
            < scan_order(m, idx) implies move_pair(m, i) != move_pair(m, idx) by {
            assert(st.seen.contains(move_pair(m, i)));
        }
    }
    assert forall|q: int| #![trigger nx.moves[q]] 0 <= q < nx.moves.len() implies has_throw(
        m,
        nx.moves[q] as int,
    ) && scan_order(m, nx.moves[q] as int) < s + 1 && nearest_for_target(m, nx.moves[q] as int) by {
        if q < last {
            assert(nx.moves[q] == st.moves[q]);
        }
    }
    assert forall|q1: int, q2: int| #![trigger nx.moves[q1], nx.moves[q2]] 0 <= q1 < q2
        < nx.moves.len() implies scan_order(m, nx.moves[q1] as int) < scan_order(
        m,
        nx.moves[q2] as int,
    ) by {
        assert(nx.moves[q1] == st.moves[q1]);
        if q2 < last {
            assert(nx.moves[q2] == st.moves[q2]);
        }
    }
    assert forall|q: int| #![trigger nx.moves[q]] 0 <= q < nx.moves.len() && move_hits_top_right(
        m,
        nx.moves[q] as int,
    ) implies nx.saw_top_right by {
        if q < last {
            assert(nx.moves[q] == st.moves[q]);
        }
    }
    assert forall|q1: int, q2: int| #![trigger nx.moves[q1], nx.moves[q2]] 0 <= q1 < q2
        < nx.moves.len() implies !(move_hits_top_right(m, nx.moves[q1] as int)
        && move_hits_top_right(m, nx.moves[q2] as int)) by {
        assert(nx.moves[q1] == st.moves[q1]);
        if q2 < last {
            assert(nx.moves[q2] == st.moves[q2]);
        }
    }
    assert forall|i: int| 0 <= i < nx.moves.len() implies {
        let j = #[trigger] nx.moves[i] as int;
        &&& 0 <= j < m.legal_move_is_column.len()
        &&& 0 <= m.legal_move_position[j]
        &&& legal_throw(m, m.legal_move_is_column[j], m.legal_move_position[j] as int)
    } by {
        if i < last {
            assert(nx.moves[i] == st.moves[i]);
        }
    }
    assert forall|j: int| #![trigger nearest_for_target(m, j)] has_throw(m, j) && scan_order(m, j) < s + 1
        && nearest_for_target(m, j) && legal_throw(
        m,
        m.legal_move_is_column[j],
        m.legal_move_position[j] as int,
    ) && !move_hits_top_right(m, j) implies nx.moves.contains(j as usize) by {
        if scan_order(m, j) == s {
            lemma_scan_order_step(m, s, j);
            assert(nx.moves[last] == j as usize);
        } else {
            assert(has_throw(m, j) && scan_order(m, j) < s && move_pair(m, j) == move_pair(m, j));
            assert(st.moves.contains(j as usize));
            let k = choose|k: int| 0 <= k < st.moves.len() && st.moves[k] == j as usize;
            assert(nx.moves[k] == j as usize);
        }
    }
    assert(candidates_legal(m, nx.moves));
    assert(kept_nearest(m, s + 1, nx.moves));
    assert(kept_in_order(m, nx.moves));
    assert(kept_one_top_right(m, nx.saw_top_right, nx.moves));
    assert(kept_all(m, s + 1, nx.moves));
}

#[verifier::rlimit(40)]
proof fn lemma_step_kept(m: BoardModel, s: int, st: CandidateScan)
    requires
        m.legal_move_is_column.len() <= i32::MAX,
        s >= 0,
        seen_inv(m, s, st),
        moves_inv(m, s, st),
        scan_step(m, st, s).moves.len() <= st.moves.len(),
    ensures
        moves_inv(m, s + 1, scan_step(m, st, s)),
{
    let nx = scan_step(m, st, s);
    assert(nx.moves == st.moves);
    assert(st.saw_top_right ==> nx.saw_top_right);
    assert forall|j: int| #![trigger nearest_for_target(m, j)] has_throw(m, j) && scan_order(m, j) < s + 1
        && nearest_for_target(m, j) && legal_throw(
        m,
        m.legal_move_is_column[j],
        m.legal_move_position[j] as int,
    ) && !move_hits_top_right(m, j) implies nx.moves.contains(j as usize) by {
        if scan_order(m, j) == s {
            lemma_scan_order_step(m, s, j);
            if st.seen.contains(move_pair(m, j)) {
                let i = choose|i: int|
                    #![trigger move_pair(m, i)]
                    has_throw(m, i) && scan_order(m, i) < s && move_pair(m, i) == move_pair(m, j);
                assert(move_pair(m, i) != move_pair(m, j));
            }
        } else {
            assert(has_throw(m, j) && scan_order(m, j) < s && move_pair(m, j) == move_pair(m, j));
            assert(st.moves.contains(j as usize));
        }
    }
    assert(candidates_legal(m, nx.moves));
    assert(kept_nearest(m, s + 1, nx.moves));
    assert(kept_in_order(m, nx.moves));
    assert(kept_one_top_right(m, nx.saw_top_right, nx.moves));
    assert(kept_all(m, s + 1, nx.moves));
}

proof fn lemma_scan_inv(m: BoardModel, t: int)
    requires
        m.legal_move_is_column.len() <= i32::MAX,
        t >= 0,
    ensures
        seen_inv(m, t, scan(m, t)),
        moves_inv(m, t, scan(m, t)),
    decreases t,
{
    if t > 0 {
        lemma_scan_inv(m, t - 1);
        let st = scan(m, t - 1);
        assert(scan(m, t) == scan_step(m, st, t - 1));
        lemma_step_seen(m, t - 1, st);
        if scan_step(m, st, t - 1).moves.len() > st.moves.len() {
            lemma_step_pushed(m, t - 1, st);
        } else {
            lemma_step_kept(m, t - 1, st);
        }
    }
}

/// Every move that the search tries is a legal throw from a place with a throw.
pub proof fn lemma_candidates_legal(m: BoardModel)
    requires
        search_ok(m),
    ensures
        candidates_legal(m, candidate_moves(m)),
{
    lemma_scan_inv(m, scan_steps(m));
}

/// Which moves the search tries: every move it tries is the nearest place to the
/// previous move that attacks its target in its direction, the moves come in order of
/// distance (up before down), at most one of them hits the top block of the rightmost
/// column, and every place with a legal throw that is the nearest for its target and
/// does not hit that top block is tried.
pub proof fn lemma_candidates_nearest(m: BoardModel)
    requires
        search_ok(m),
    ensures
        forall|q: int|
            0 <= q < candidate_moves(m).len() ==> nearest_for_target(
                m,
                #[trigger] candidate_moves(m)[q] as int,
            ),
        forall|q1: int, q2: int|
            0 <= q1 < q2 < candidate_moves(m).len() ==> scan_order(
                m,
                #[trigger] candidate_moves(m)[q1] as int,
            ) < scan_order(m, #[trigger] candidate_moves(m)[q2] as int),
        forall|q1: int, q2: int|
            0 <= q1 < q2 < candidate_moves(m).len() ==> !(move_hits_top_right(
                m,
                #[trigger] candidate_moves(m)[q1] as int,
            ) && move_hits_top_right(m, #[trigger] candidate_moves(m)[q2] as int)),
        forall|j: int|
            has_throw(m, j) && nearest_for_target(m, j) && legal_throw(
                m,
                m.legal_move_is_column[j],
                m.legal_move_position[j] as int,
            ) && !move_hits_top_right(m, j) ==> candidate_moves(m).contains(j as usize),
{
    lemma_scan_inv(m, scan_steps(m));
    let st = scan(m, scan_steps(m));
    assert(st.moves == candidate_moves(m));
    assert forall|q: int| 0 <= q < candidate_moves(m).len() implies nearest_for_target(
        m,
        #[trigger] candidate_moves(m)[q] as int,
    ) by {
        assert(st.moves[q] == candidate_moves(m)[q]);
    }
    assert forall|j: int|
        has_throw(m, j) && nearest_for_target(m, j) && legal_throw(
            m,
            m.legal_move_is_column[j],
            m.legal_move_position[j] as int,
        ) && !move_hits_top_right(m, j) implies candidate_moves(m).contains(j as usize) by {
        assert(scan_order(m, j) < scan_steps(m));
        assert(has_throw(m, j) && scan_order(m, j) < scan_steps(m));
        assert(move_pair(m, j) == move_pair(m, j));
    }
}

pub(crate) fn pair_seen(seen: &Vec<(bool, i32)>, pair: (bool, i32)) -> (res: bool)
    ensures
        res == seen@.contains(pair),
{
    let mut i: usize = 0;
    while i < seen.len()
        invariant
            i <= seen.len(),
            forall|j: int| 0 <= j < i ==> seen@[j] != pair,
        decreases seen.len() - i,
    {
        if seen[i].0 == pair.0 && seen[i].1 == pair.1 {
            assert(seen@[i as int] == pair);
            return true;
        }
        i = i + 1;
    }
    false
}

impl BoardState {
    /// One step of the scan for candidate moves (see [`scan_step`]).
    fn scan_one(
        &self,
        move_index: usize,
        seen: &mut Vec<(bool, i32)>,
        saw_top_right: &mut bool,
        res: &mut Vec<usize>,
    )
        requires
            search_ok(self@),
            move_index < self.legal_move_is_column.len(),
        ensures
            (CandidateScan { seen: final(seen)@, saw_top_right: *final(saw_top_right), moves: final(res)@ })
                == ({
                let st = CandidateScan {
                    seen: old(seen)@,
                    saw_top_right: *old(saw_top_right),
                    moves: old(res)@,
                };
                let m = self@;
                let idx = move_index as int;
                if m.legal_move_position[idx] < 0 {
                    st
                } else if st.seen.contains(move_pair(m, idx)) {
                    st
                } else {
                    let seen = st.seen.push(move_pair(m, idx));
                    let top_right = hits_top_right(
                        m,
                        m.legal_move_is_column[idx],
                        m.legal_move_position[idx] as int,
                    );
                    if top_right && st.saw_top_right {
                        CandidateScan { seen, ..st }
                    } else if !legal_throw(
                        m,
                        m.legal_move_is_column[idx],
                        m.legal_move_position[idx] as int,
                    ) {
                        CandidateScan {
                            seen,
                            saw_top_right: st.saw_top_right || top_right,
                            moves: st.moves,
                        }
                    } else {
                        CandidateScan {
                            seen,
                            saw_top_right: st.saw_top_right || top_right,
                            moves: st.moves.push(move_index),
                        }
                    }
                }
            }),
    {
        let is_column = self.legal_move_is_column[move_index];
        let move_position = self.legal_move_position[move_index];
        if move_position >= 0 {
            assert(self@.legal_move_position[move_index as int] == move_position);
            let pair = (is_column, move_position);
            if !pair_seen(seen, pair) {
                seen.push(pair);
                let (is_legal, is_top_right) = self.is_legal_move(is_column, move_position as usize);
                if !(is_top_right && *saw_top_right) {
                    if is_top_right {
                        *saw_top_right = true;
                    }
                    if is_legal {
                        res.push(move_index);
                    }
                }
            }
        }
    }

    /// The moves to try from this board, in order: going out from the previous move over
    /// every place (up before down), keeping the nearest place for each target and
    /// direction, one move that hits the top block of the rightmost column, and only
    /// legal throws.
    pub fn ordered_moves(&self) -> (res: Vec<usize>)
        requires
            search_ok(self@),
        ensures
            res@ == candidate_moves(self@),
    {
        let ghost m = self@;
        let len = self.legal_move_is_column.len();
        let prev = self.previous_move_index;
        let limit: usize = if len > prev {
            len
        } else {
            prev
        };
        let mut seen: Vec<(bool, i32)> = Vec::new();
        let mut saw_top_right = false;
        let mut res: Vec<usize> = Vec::new();
        let mut delta: usize = 0;
        while delta <= limit
            invariant
                m == self@,
                search_ok(m),
                len == m.legal_move_is_column.len(),
                prev == m.previous_move_index,
                limit == reach(m),
                limit <= i32::MAX,
                delta <= limit + 1,
                scan(m, 2 * delta) == (CandidateScan { seen: seen@, saw_top_right, moves: res@ }),
            decreases limit + 1 - delta,
        {
            let ghost t = 2 * delta;
            assert(scan(m, t + 1) == scan_step(m, scan(m, t), t));
            assert(scan(m, t + 2) == scan_step(m, scan(m, t + 1), t + 1));
            assert(scan_index(m, t) == prev + delta);
            assert(scan_index(m, t + 1) == prev - delta);
            if prev + delta < len {
                self.scan_one(prev + delta, &mut seen, &mut saw_top_right, &mut res);
            }
            if delta <= prev && prev - delta < len {
                self.scan_one(prev - delta, &mut seen, &mut saw_top_right, &mut res);
            }
            delta = delta + 1;
        }
        res
    }
}

/// The best finished round found so far.
pub struct SearchState {
    pub best_score: int,
    pub best_board: Option<BoardModel>,
}

/// The text that records a miss.
pub open spec fn miss_label() -> Seq<char> {
    seq!['M', 'I', 'S', 'S', ',', ' ']
}

/// The board after the player takes a miss on purpose: a wild block in hand, the spare
/// life gone, and the miss recorded.
pub open spec fn miss_board(m: BoardModel) -> BoardModel {
    BoardModel {
        held_block: 0,
        miss_available: false,
        move_list: m.move_list.push(MISS_MOVE),
        moves: m.moves + miss_label(),
        ..m
    }
}

/// The bonus for ending a round with `block_count` blocks left: 1000 points on the
/// training round (round 0), else 1000 points plus 1000 for each block below the quota.
pub open spec fn round_bonus(m: BoardModel) -> int {
    if m.level_number == 0 {
        1000
    } else {
        1000 * (m.qualify_blocks - m.block_count + 1)
    }
}

/// The board with the end-of-round bonus added to both scores.
pub open spec fn finished(m: BoardModel) -> BoardModel {
    BoardModel { score: m.score + round_bonus(m), raw_score: m.raw_score + round_bonus(m), ..m }
}

/// Remembers a finished round when it beats the best score so far.
pub open spec fn record(st: SearchState, f: BoardModel) -> SearchState {
    if f.score > st.best_score {
        SearchState { best_score: f.score, best_board: Some(f) }
    } else {
        st
    }
}

/// 1 while the spare life is there, else 0.
pub open spec fn miss_flag(m: BoardModel) -> int {
    if m.miss_available { 1 } else { 0 }
}

/// The depth-first search from board `m` with best-so-far `st`: when no move is
/// possible and the spare life is there, the search goes on after a miss; then it tries
/// each candidate move in order, going deeper while more blocks than the quota are left,
/// and otherwise recording the finished round.
pub open spec fn search(m: BoardModel, st: SearchState) -> SearchState
    decreases m.block_count, miss_flag(m), 1int, 0int,
    when search_ok(m)
{
    let st1 = if candidate_moves(m).len() == 0 && m.miss_available {
        search(miss_board(m), st)
    } else {
        st
    };
    explore(m, 0, st1)
}

/// The search over the candidate moves of `m` from the `i`-th on.
pub open spec fn explore(m: BoardModel, i: int, st: SearchState) -> SearchState
    decreases m.block_count, miss_flag(m), 0int, candidate_moves(m).len() - i,
    when search_ok(m) && 0 <= i
{
    if i >= candidate_moves(m).len() {
        st
    } else {
        let c = after_move(m, candidate_moves(m)[i] as int);
        let st2 = if c.block_count > m.qualify_blocks {
            proof {
                lemma_candidate_child(m, i);
            }
            search(c, st)
        } else {
            record(st, finished(c))
        };
        explore(m, i + 1, st2)
    }
}

/// A throw from a place with a throw that clears at least one block can be made on a
/// board the search can start from, and leads to such a board with fewer blocks left;
/// a finished round's bonus fits the scores.
pub proof fn lemma_move_ok_when_clears(m: BoardModel, idx: int)
    requires
        search_ok(m),
        0 <= idx < m.legal_move_is_column.len(),
        0 <= m.legal_move_position[idx],
        throw_outcome(m, m.legal_move_is_column[idx], m.legal_move_position[idx] as int).cleared.len()
            > 0,
    ensures
        move_ok(m, idx),
        idx != MISS_MOVE,
        after_move(m, idx).block_count < m.block_count,
        search_ok(after_move(m, idx)),
        after_move(m, idx).qualify_blocks == m.qualify_blocks,
        after_move(m, idx).level_number == m.level_number,
        after_move(m, idx).row_count == m.row_count,
        after_move(m, idx).column_count == m.column_count,
        after_move(m, idx).block_count <= m.qualify_blocks ==> {
            let c = after_move(m, idx);
            &&& 1000 <= round_bonus(c) <= bonus_room(c)
            &&& fits_i32(c.score + round_bonus(c))
            &&& fits_i32(c.raw_score + round_bonus(c))
        },
{
    let is_column = m.legal_move_is_column[idx];
    let pos = m.legal_move_position[idx] as int;
    assert(target_ok(m, is_column, pos));
    let t = throw_outcome(m, is_column, pos);
    let k = t.cleared.len() as int;
    let b = m.block_count as int;
    let l = max_loss(m);
    let p = m.row_count + m.column_count;
    let rp = row_penalty(m.level_number);
    let diff = rows_travelled(idx, m.previous_move_index as int);
    let far = reach(m);
    assert(0 <= diff <= far);
    assert(0 <= rp * diff <= rp * far) by (nonlinear_arith)
        requires
            0 <= diff <= far,
            rp == 3 || rp == 6,
    ;
    crate::play::lemma_run_props(
        crate::throw::path_values(m, is_column, pos),
        0,
        m.held_block,
        Seq::empty(),
    );
    crate::play::lemma_clear_path_count(m, is_column, pos, t.cleared);
    crate::play::lemma_throw_clears_at_most_path(m, is_column, pos);
    assert(1 <= k <= b);
    assert(k < p);
    assert(b * l >= l) by (nonlinear_arith)
        requires
            b >= 1,
            l >= 0,
    ;
    assert(k * k <= p * b) by (nonlinear_arith)
        requires
            1 <= k <= b,
            k <= p,
    ;
    assert(k * k <= k * p) by (nonlinear_arith)
        requires
            1 <= k <= p,
    ;
    assert(p * b == p * (b - k) + k * p) by (nonlinear_arith);
    assert(clear_points(k) <= gain_room(m));
    assert(move_ok(m, idx));
    lemma_move_removes_cleared(m, idx);
    let c = after_move(m, idx);
    assert(c.block_count == b - k);
    assert(reach(c) <= far);
    let l2 = max_loss(c);
    assert(rp * reach(c) <= rp * far) by (nonlinear_arith)
        requires
            reach(c) <= far,
            rp == 3 || rp == 6,
    ;
    assert(0 <= l2 <= l);
    assert((b - k) * l2 <= (b - k) * l) by (nonlinear_arith)
        requires
            0 <= l2 <= l,
            b - k >= 0,
    ;
    assert((b - k) * l + l <= b * l) by (nonlinear_arith)
        requires
            1 <= k <= b,
            l >= 0,
    ;
    assert(gain_room(c) == 100 * (p * (b - k)));
    assert(0 <= p * (b - k)) by (nonlinear_arith)
        requires
            p >= 0,
            b - k >= 0,
    ;
    assert(clear_points(k) + gain_room(c) <= gain_room(m));
    if c.block_count <= m.qualify_blocks {
        assert(round_bonus(c) <= bonus_room(c));
    }
}

/// The first block that a throw hits lies on the grid.
proof fn lemma_first_hit_bounds(vals: Seq<i32>, i: int)
    requires
        0 <= i,
    ensures
        first_hit(vals, i) matches Some(j) ==> i <= j < vals.len() && vals[j] != 0,
    decreases vals.len() - i,
{
    if i < vals.len() && vals[i] == 0 {
        lemma_first_hit_bounds(vals, i + 1);
    }
}

proof fn lemma_run_hits(vals: Seq<i32>, i: int, held: i32)
    requires
        0 <= i,
        first_hit(vals, i) is Some,
    ensures
        !(throw_run(vals, i, held, Seq::empty()).end is Exits && throw_run(
            vals,
            i,
            held,
            Seq::empty(),
        ).cleared.len() == 0),
    decreases vals.len() - i,
{
    if i < vals.len() && vals[i] == 0 {
        lemma_run_hits(vals, i + 1, held);
    } else if i < vals.len() && !(held != 0 && vals[i] != held) {
        crate::play::lemma_run_extends(vals, i + 1, vals[i], Seq::<int>::empty().push(i));
    }
}

/// A throw from a place with a throw whose path holds a block can be made on a board
/// the search can start from.
pub proof fn lemma_move_ok_when_hits(m: BoardModel, idx: int)
    requires
        search_ok(m),
        has_throw(m, idx),
        first_hit(
            path_values(m, m.legal_move_is_column[idx], m.legal_move_position[idx] as int),
            0,
        ) is Some,
    ensures
        move_ok(m, idx),
{
    let is_column = m.legal_move_is_column[idx];
    let pos = m.legal_move_position[idx] as int;
    let vals = path_values(m, is_column, pos);
    let t = throw_outcome(m, is_column, pos);
    if t.cleared.len() > 0 {
        lemma_move_ok_when_clears(m, idx);
    } else {
        lemma_first_hit_bounds(vals, 0);
        let j = first_hit(vals, 0)->0;
        crate::throw::lemma_path_inside(m, is_column, pos, j);
        crate::grid::lemma_count_positive(m.board, path_square(m, is_column, pos, j));
        let b = m.block_count as int;
        let l = max_loss(m);
        let rp = row_penalty(m.level_number);
        let diff = rows_travelled(idx, m.previous_move_index as int);
        let far = reach(m);
        assert(0 <= rp * diff <= rp * far) by (nonlinear_arith)
            requires
                0 <= diff <= far,
                rp == 3 || rp == 6,
        ;
        assert(b * l >= l) by (nonlinear_arith)
            requires
                b >= 1,
                l >= 0,
        ;
        crate::play::lemma_run_props(vals, 0, m.held_block, Seq::empty());
        lemma_run_hits(vals, 0, m.held_block);
    }
}

/// A candidate move can be made, clears at least one block, and leads to a board that
/// the search can go on from; a finished round's bonus fits the scores.
pub proof fn lemma_candidate_child(m: BoardModel, i: int)
    requires
        search_ok(m),
        0 <= i < candidate_moves(m).len(),
    ensures
        move_ok(m, candidate_moves(m)[i] as int),
        candidate_moves(m)[i] as int != MISS_MOVE,
        after_move(m, candidate_moves(m)[i] as int).block_count < m.block_count,
        search_ok(after_move(m, candidate_moves(m)[i] as int)),
        after_move(m, candidate_moves(m)[i] as int).qualify_blocks == m.qualify_blocks,
        after_move(m, candidate_moves(m)[i] as int).level_number == m.level_number,
        after_move(m, candidate_moves(m)[i] as int).row_count == m.row_count,
        after_move(m, candidate_moves(m)[i] as int).column_count == m.column_count,
        after_move(m, candidate_moves(m)[i] as int).block_count <= m.qualify_blocks ==> {
            let c = after_move(m, candidate_moves(m)[i] as int);
            &&& 1000 <= round_bonus(c) <= bonus_room(c)
            &&& fits_i32(c.score + round_bonus(c))
            &&& fits_i32(c.raw_score + round_bonus(c))
        },
{
    lemma_candidates_legal(m);
    let idx = candidate_moves(m)[i] as int;
    let is_column = m.legal_move_is_column[idx];
    let pos = m.legal_move_position[idx] as int;
    lemma_legal_iff_clears(m, is_column, pos);
    lemma_move_ok_when_clears(m, idx);
}

/// What a search can do to the best-so-far: leave it as it was, or raise the best score
/// and remember a finished round of the same level with that score.
pub open spec fn improves(m: BoardModel, st: SearchState, r: SearchState) -> bool {
    r == st || {
        &&& r.best_score > st.best_score
        &&& r.best_board matches Some(b)
        &&& b.score == r.best_score
        &&& b.block_count <= b.qualify_blocks
        &&& b.qualify_blocks == m.qualify_blocks
        &&& b.level_number == m.level_number
        &&& b.row_count == m.row_count
        &&& b.column_count == m.column_count
    }
}

/// The larger of two optional scores (`None` is below every score).
pub open spec fn max_score(a: Option<int>, b: Option<int>) -> Option<int> {
    match (a, b) {
        (Some(x), Some(y)) => Some(if x >= y { x } else { y }),
        (Some(x), None) => Some(x),
        (None, _) => b,
    }
}

/// The highest score of a finished round that the search can reach from `m`
/// (`None` when it reaches none).
pub open spec fn tree_best(m: BoardModel) -> Option<int>
    decreases m.block_count, miss_flag(m), 1int, 0int,
    when search_ok(m)
{
    let from_miss = if candidate_moves(m).len() == 0 && m.miss_available {
        tree_best(miss_board(m))
    } else {
        None
    };
    max_score(from_miss, moves_best(m, 0))
}

/// The highest score of a finished round that the search reaches through the
/// candidate moves of `m` from the `i`-th on.
pub open spec fn moves_best(m: BoardModel, i: int) -> Option<int>
    decreases m.block_count, miss_flag(m), 0int, candidate_moves(m).len() - i,
    when search_ok(m) && 0 <= i
{
    if i >= candidate_moves(m).len() {
        None
    } else {
        let c = after_move(m, candidate_moves(m)[i] as int);
        let here = if c.block_count > m.qualify_blocks {
            proof {
                lemma_candidate_child(m, i);
            }
            tree_best(c)
        } else {
            Some(finished(c).score)
        };
        max_score(here, moves_best(m, i + 1))
    }
}

proof fn lemma_improves_trans(m: BoardModel, a: SearchState, b: SearchState, c: SearchState)
    requires
        improves(m, a, b),
        improves(m, b, c),
    ensures
        improves(m, a, c),
{
}

/// The search raises the best score to the best finished round it reaches, and
/// otherwise leaves the best-so-far as it was; a remembered round is finished (no more
/// blocks than the quota), of the same round, and carries the best score.
pub proof fn lemma_search_finds_best(m: BoardModel, st: SearchState)
    requires
        search_ok(m),
    ensures
        improves(m, st, search(m, st)),
        Some(search(m, st).best_score) == max_score(Some(st.best_score), tree_best(m)),
    decreases m.block_count, miss_flag(m), 1int, 0int,
{
    let st1 = if candidate_moves(m).len() == 0 && m.miss_available {
        search(miss_board(m), st)
    } else {
        st
    };
    if candidate_moves(m).len() == 0 && m.miss_available {
        assert(search_ok(miss_board(m)));
        lemma_search_finds_best(miss_board(m), st);
    }
    lemma_moves_find_best(m, 0, st1);
    lemma_improves_trans(m, st, st1, explore(m, 0, st1));
}

/// [`lemma_search_finds_best`] for the candidate moves of `m` from the `i`-th on.
pub proof fn lemma_moves_find_best(m: BoardModel, i: int, st: SearchState)
    requires
        search_ok(m),
        0 <= i,
    ensures
        improves(m, st, explore(m, i, st)),
        Some(explore(m, i, st).best_score) == max_score(Some(st.best_score), moves_best(m, i)),
    decreases m.block_count, miss_flag(m), 0int, candidate_moves(m).len() - i,
{
    if i < candidate_moves(m).len() {
        lemma_candidate_child(m, i);
        let c = after_move(m, candidate_moves(m)[i] as int);
        let st2 = if c.block_count > m.qualify_blocks {
            search(c, st)
        } else {
            record(st, finished(c))
        };
        if c.block_count > m.qualify_blocks {
            lemma_search_finds_best(c, st);
        }
        lemma_moves_find_best(m, i + 1, st2);
        lemma_improves_trans(m, st, st2, explore(m, i + 1, st2));
    }
}

/// Two boards that agree on everything but the record of the moves made.
pub open spec fn same_play(a: BoardModel, b: BoardModel) -> bool {
    (BoardModel { moves: b.moves, move_list: b.move_list, ..a }) == b
}

/// The board after the moves `ms`, one after the other (999 a miss).
pub open spec fn replay(m: BoardModel, ms: Seq<usize>) -> BoardModel
    decreases ms.len(),
{
    if ms.len() == 0 {
        m
    } else {
        replay(after_move(m, ms[0] as int), ms.drop_first())
    }
}

/// Board `b` records moves `ms` made after those of `m`; before each of those moves more
/// blocks than the quota were left; and making them from `m`, then ending the round,
/// gives `b` back.
pub open spec fn replays_to(m: BoardModel, b: BoardModel, ms: Seq<usize>) -> bool {
    &&& b.move_list == m.move_list + ms
    &&& forall|k: int|
        0 <= k < ms.len() ==> #[trigger] replay(m, ms.take(k)).block_count > m.qualify_blocks
    &&& same_play(finished(replay(m, ms)), b)
}

proof fn lemma_replay_first(m: BoardModel, idx: usize, ms2: Seq<usize>, k: int)
    requires
        1 <= k <= ms2.len() + 1,
    ensures
        replay(m, seq![idx].add(ms2).take(k)) == replay(after_move(m, idx as int), ms2.take(k - 1)),
{
    let s = seq![idx].add(ms2).take(k);
    assert(s[0] == idx);
    assert(s.drop_first() =~= ms2.take(k - 1));
}

/// The best-so-far `r` after a search from `m` started at `st` is `st`, or its board is
/// what making its recorded moves from `m`, then ending the round, gives.
pub open spec fn found_by_play(m: BoardModel, st: SearchState, r: SearchState) -> bool {
    r == st || (r.best_board matches Some(b) && exists|ms: Seq<usize>|
        #[trigger] replays_to(m, b, ms))
}

proof fn lemma_same_play_move(a: BoardModel, b: BoardModel, i: int)
    requires
        same_play(a, b),
    ensures
        same_play(after_move(a, i), after_move(b, i)),
{
    assert(a.board == b.board && a.held_block == b.held_block && a.row_count == b.row_count
        && a.column_count == b.column_count && a.legal_move_is_column == b.legal_move_is_column
        && a.legal_move_position == b.legal_move_position);
    if i != MISS_MOVE {
        let is_column = a.legal_move_is_column[i];
        let pos = a.legal_move_position[i] as int;
        assert(path_values(a, is_column, pos) =~= path_values(b, is_column, pos));
        assert(throw_outcome(a, is_column, pos) == throw_outcome(b, is_column, pos));
        assert(crate::play::move_label(a, is_column, pos) == crate::play::move_label(
            b,
            is_column,
            pos,
        ));
        let t = throw_outcome(a, is_column, pos);
        assert(crate::play::clear_path(a, is_column, pos, a.board, t.cleared)
            == crate::play::clear_path(b, is_column, pos, b.board, t.cleared)) by {
            lemma_same_clear_path(a, b, is_column, pos, a.board, t.cleared);
        }
    }
}

proof fn lemma_same_clear_path(
    a: BoardModel,
    b: BoardModel,
    is_column: bool,
    pos: int,
    g: Seq<i32>,
    cleared: Seq<int>,
)
    requires
        a.row_count == b.row_count,
        a.column_count == b.column_count,
    ensures
        crate::play::clear_path(a, is_column, pos, g, cleared) == crate::play::clear_path(
            b,
            is_column,
            pos,
            g,
            cleared,
        ),
    decreases cleared.len(),
{
    if cleared.len() > 0 {
        lemma_same_clear_path(a, b, is_column, pos, g, cleared.drop_last());
    }
}

proof fn lemma_same_play_replay(a: BoardModel, b: BoardModel, ms: Seq<usize>)
    requires
        same_play(a, b),
    ensures
        same_play(replay(a, ms), replay(b, ms)),
    decreases ms.len(),
{
    if ms.len() > 0 {
        lemma_same_play_move(a, b, ms[0] as int);
        lemma_same_play_replay(after_move(a, ms[0] as int), after_move(b, ms[0] as int), ms.drop_first());
    }
}

/// The best round that a search from a board with more blocks than the quota remembers
/// is what making its recorded moves from the starting board, then ending the round,
/// gives; before each of those moves more blocks than the quota were left.
pub proof fn lemma_search_replays(m: BoardModel, st: SearchState)
    requires
        search_ok(m),
        m.block_count > m.qualify_blocks,
    ensures
        found_by_play(m, st, search(m, st)),
    decreases m.block_count, miss_flag(m), 1int, 0int,
{
    let st1 = if candidate_moves(m).len() == 0 && m.miss_available {
        search(miss_board(m), st)
    } else {
        st
    };
    if candidate_moves(m).len() == 0 && m.miss_available {
        let c = miss_board(m);
        lemma_search_replays(c, st);
        if st1 != st {
            let b = st1.best_board->Some_0;
            let ms2 = choose|ms2: Seq<usize>| replays_to(c, b, ms2);
            let ms = seq![MISS_MOVE].add(ms2);
            assert(ms[0] == MISS_MOVE);
            assert(ms.drop_first() =~= ms2);
            assert(same_play(after_move(m, MISS_MOVE as int), c));
            lemma_same_play_replay(after_move(m, MISS_MOVE as int), c, ms2);
            assert forall|k: int| 0 <= k < ms.len() implies #[trigger] replay(m, ms.take(k)).block_count
                > m.qualify_blocks by {
                if k == 0 {
                    assert(ms.take(0) =~= Seq::<usize>::empty());
                } else {
                    lemma_replay_first(m, MISS_MOVE, ms2, k);
                    lemma_same_play_replay(after_move(m, MISS_MOVE as int), c, ms2.take(k - 1));
                    assert(replay(c, ms2.take(k - 1)).block_count > c.qualify_blocks);
                }
            }
            assert(b.move_list =~= m.move_list + ms);
            assert(replays_to(m, b, ms));
        }
    }
    lemma_moves_replay(m, 0, st1);
    let r = explore(m, 0, st1);
    if r != st1 && st1 != st {
    }
}

/// [`lemma_search_replays`] for the candidate moves of `m` from the `i`-th on.
pub proof fn lemma_moves_replay(m: BoardModel, i: int, st: SearchState)
    requires
        search_ok(m),
        m.block_count > m.qualify_blocks,
        0 <= i,
    ensures
        found_by_play(m, st, explore(m, i, st)),
    decreases m.block_count, miss_flag(m), 0int, candidate_moves(m).len() - i,
{
    if i < candidate_moves(m).len() {
        lemma_candidate_child(m, i);
        let idx = candidate_moves(m)[i];
        let c = after_move(m, idx as int);
        let st2 = if c.block_count > m.qualify_blocks {
            search(c, st)
        } else {
            record(st, finished(c))
        };
        if c.block_count > m.qualify_blocks {
            lemma_search_replays(c, st);
        }
        if st2 == st {
            assert(found_by_play(m, st, st2));
        } else if c.block_count > m.qualify_blocks {
            let b = st2.best_board->Some_0;
            let ms2 = choose|ms2: Seq<usize>| replays_to(c, b, ms2);
            let ms = seq![idx].add(ms2);
            assert(ms[0] == idx);
            assert(ms.drop_first() =~= ms2);
            assert forall|k: int| 0 <= k < ms.len() implies #[trigger] replay(m, ms.take(k)).block_count
                > m.qualify_blocks by {
                if k == 0 {
                    assert(ms.take(0) =~= Seq::<usize>::empty());
                } else {
                    lemma_replay_first(m, idx, ms2, k);
                    assert(replay(c, ms2.take(k - 1)).block_count > c.qualify_blocks);
                }
            }
            assert(b.move_list =~= m.move_list + ms);
            assert(replays_to(m, b, ms));
            assert(found_by_play(m, st, st2));
        } else {
            let ms = seq![idx];
            assert(ms[0] == idx);
            assert(ms.drop_first() =~= Seq::<usize>::empty());
            assert(ms.take(0) =~= Seq::<usize>::empty());
            assert(replay(c, Seq::<usize>::empty()) == c);
            assert(replay(m, ms) == c);
            assert(finished(c).move_list =~= m.move_list + ms);
            assert(replays_to(m, finished(c), ms));
            assert(st2.best_board == Some(finished(c)));
            assert(st2.best_board->Some_0 == finished(c));
            assert(replays_to(m, st2.best_board->Some_0, ms));
            assert(found_by_play(m, st, st2));
        }
        assert(found_by_play(m, st, st2));
        lemma_moves_replay(m, i + 1, st2);
        assert(explore(m, i, st) == explore(m, i + 1, st2));
        let r = explore(m, i + 1, st2);
        if r != st2 {
            let b = r.best_board->Some_0;
            let ms = choose|ms: Seq<usize>| replays_to(m, b, ms);
            assert(replays_to(m, b, ms));
        }
    }
}

/// Moves `ms` are a way the search may play the round from `m` to its end: each is one
/// of the moves tried on the board it is made on (or a miss, when no move is tried there
/// and the spare life is left), every move but the last leaves more blocks than the
/// quota, and the last leaves no more than the quota.
pub open spec fn search_route(m: BoardModel, ms: Seq<usize>) -> bool
    decreases ms.len(),
{
    if ms.len() == 0 {
        false
    } else {
        let i = ms[0];
        let next = after_move(m, i as int);
        &&& (candidate_moves(m).contains(i) || (i == MISS_MOVE && candidate_moves(m).len() == 0
            && m.miss_available))
        &&& if next.block_count > m.qualify_blocks {
            search_route(next, ms.drop_first())
        } else {
            ms.len() == 1
        }
    }
}

proof fn lemma_same_play_scan(a: BoardModel, b: BoardModel, t: int)
    requires
        same_play(a, b),
    ensures
        scan(a, t) == scan(b, t),
    decreases t,
{
    if t > 0 {
        lemma_same_play_scan(a, b, t - 1);
        assert(a.board == b.board && a.held_block == b.held_block && a.row_count == b.row_count
            && a.column_count == b.column_count && a.legal_move_is_column == b.legal_move_is_column
            && a.legal_move_position == b.legal_move_position
            && a.previous_move_index == b.previous_move_index);
        let idx = scan_index(a, t - 1);
        if 0 <= idx < a.legal_move_is_column.len() {
            let is_column = a.legal_move_is_column[idx];
            let pos = a.legal_move_position[idx] as int;
            assert(path_values(a, is_column, pos) =~= path_values(b, is_column, pos));
        }
    }
}

/// Boards that differ only in the record of the moves made are offered the same moves.
proof fn lemma_same_play_candidates(a: BoardModel, b: BoardModel)
    requires
        same_play(a, b),
    ensures
        candidate_moves(a) == candidate_moves(b),
{
    assert(scan_steps(a) == scan_steps(b));
    lemma_same_play_scan(a, b, scan_steps(a));
}

/// The best score reached through the candidate moves from the `i`-th on is at least
/// what candidate `j` (with `i <= j`) reaches.
proof fn lemma_moves_best_covers(m: BoardModel, i: int, j: int, x: int)
    requires
        search_ok(m),
        0 <= i <= j < candidate_moves(m).len(),
        ({
            let c = after_move(m, candidate_moves(m)[j] as int);
            if c.block_count > m.qualify_blocks {
                tree_best(c) matches Some(y) && y >= x
            } else {
                finished(c).score >= x
            }
        }),
    ensures
        moves_best(m, i) matches Some(y) && y >= x,
    decreases j - i,
{
    lemma_candidate_child(m, i);
    if i < j {
        lemma_moves_best_covers(m, i + 1, j, x);
    }
}

proof fn lemma_tree_best_covers_route(a: BoardModel, b: BoardModel, ms: Seq<usize>)
    requires
        search_ok(a),
        same_play(a, b),
        a.block_count > a.qualify_blocks,
        search_route(b, ms),
    ensures
        tree_best(a) matches Some(y) && y >= finished(replay(b, ms)).score,
    decreases ms.len(),
{
    lemma_same_play_candidates(a, b);
    let i = ms[0];
    let nb = after_move(b, i as int);
    let rest = ms.drop_first();
    assert(replay(b, ms) == replay(nb, rest));
    if candidate_moves(b).contains(i) {
        let j = choose|j: int| 0 <= j < candidate_moves(a).len() && candidate_moves(a)[j] == i;
        lemma_candidate_child(a, j);
        let na = after_move(a, i as int);
        lemma_same_play_move(a, b, i as int);
        if nb.block_count > b.qualify_blocks {
            lemma_tree_best_covers_route(na, nb, rest);
            if let Some(y) = tree_best(na) {
                lemma_moves_best_covers(a, 0, j, y);
            }
        } else {
            assert(rest.len() == 0);
            assert(replay(nb, rest) == nb);
            lemma_moves_best_covers(a, 0, j, finished(na).score);
        }
    } else {
        assert(i == MISS_MOVE);
        let na = miss_board(a);
        assert(search_ok(na));
        assert(same_play(na, nb));
        assert(nb.block_count > b.qualify_blocks);
        lemma_tree_best_covers_route(na, nb, rest);
    }
}

/// The search does not miss a better way to play: from a board with more blocks than
/// the quota, the best score it ends with is at least the score of every way the search
/// may play the round to its end (see [`search_route`]), made with [`replay`] and ended
/// with the bonus.
pub proof fn lemma_search_beats_every_route(m: BoardModel, st: SearchState, ms: Seq<usize>)
    requires
        search_ok(m),
        m.block_count > m.qualify_blocks,
        search_route(m, ms),
    ensures
        search(m, st).best_score >= finished(replay(m, ms)).score,
        search(m, st).best_score >= st.best_score,
{
    assert(same_play(m, m));
    lemma_tree_best_covers_route(m, m, ms);
    lemma_search_finds_best(m, st);
}

/// The view of an optional board.
pub open spec fn option_view(b: Option<BoardState>) -> Option<BoardModel> {
    match b {
        Some(x) => Some(x@),
        None => None,
    }
}

/// Searches for the highest-scoring way to finish a round.
pub struct SolutionFinder {
    pub best_score: i32,
    pub best_board: Option<BoardState>,
}

impl View for SolutionFinder {
    type V = SearchState;

    open spec fn view(&self) -> SearchState {
        SearchState { best_score: self.best_score as int, best_board: option_view(self.best_board) }
    }
}

fn clone_best(b: &Option<BoardState>) -> (res: Option<BoardState>)
    ensures
        option_view(res) == option_view(*b),
{
    match b {
        Some(x) => Some(x.clone()),
        None => None,
    }
}

impl SolutionFinder {
    /// Searches every way to play the round from `board` (see [`search`]), remembering
    /// each finished round that beats the best score so far, and returns the best
    /// finished round found by this finder.
    pub fn find_best_solution(&mut self, board: BoardState) -> (res: Option<BoardState>)
        requires
            search_ok(board@),
        ensures
            final(self)@ == search(board@, old(self)@),
            option_view(res) == final(self)@.best_board,
            board@.block_count > board@.qualify_blocks ==> forall|ms: Seq<usize>|
                #[trigger] search_route(board@, ms) ==> final(self)@.best_score >= finished(
                    replay(board@, ms),
                ).score,
        decreases board@.block_count, miss_flag(board@),
    {
        let ghost m = board@;
        let try_legal_moves = board.ordered_moves();
        if try_legal_moves.len() == 0 && board.miss_available {
            let mut new_board = board.clone();
            new_board.held_block = 0;
            new_board.miss_available = false;
            new_board.move_list.push(MISS_MOVE);
            push_char(&mut new_board.moves, 'M');
            push_char(&mut new_board.moves, 'I');
            push_char(&mut new_board.moves, 'S');
            push_char(&mut new_board.moves, 'S');
            push_char(&mut new_board.moves, ',');
            push_char(&mut new_board.moves, ' ');
            assert(new_board.moves@ =~= m.moves + miss_label());
            assert(new_board@ == miss_board(m));
            self.find_best_solution(new_board);
        }
        let ghost st1 = self@;
        let n = try_legal_moves.len();
        let mut i: usize = 0;
        while i < n
            invariant
                m == board@,
                search_ok(m),
                try_legal_moves@ == candidate_moves(m),
                n == try_legal_moves.len(),
                i <= n,
                search(m, old(self)@) == explore(m, 0, st1),
                explore(m, 0, st1) == explore(m, i as int, self@),
            decreases n - i,
        {
            let move_index = try_legal_moves[i];
            proof {
                lemma_candidate_child(m, i as int);
            }
            let mut new_board = board.clone();
            new_board.make_move(move_index);
            let ghost c = new_board@;
            let ghost before = self@;
            if new_board.block_count > new_board.qualify_blocks {
                self.find_best_solution(new_board);
            } else {
                let bonus: i32 = if new_board.level_number == 0 {
                    1000
                } else {
                    1000 * ((new_board.qualify_blocks - new_board.block_count + 1) as i32)
                };
                new_board.score = new_board.score + bonus;
                new_board.raw_score = new_board.raw_score + bonus;
                assert(new_board@ == finished(c));
                if new_board.score > self.best_score {
                    self.best_score = new_board.score;
                    self.best_board = Some(new_board);
                }
            }
            i = i + 1;
        }
        proof {
            assert forall|ms: Seq<usize>|
                m.block_count > m.qualify_blocks && #[trigger] search_route(m, ms) implies search(
                    m,
                    old(self)@,
                ).best_score >= finished(replay(m, ms)).score by {
                lemma_search_beats_every_route(m, old(self)@, ms);
            }
        }
        clone_best(&self.best_board)
    }
}

} // verus!
