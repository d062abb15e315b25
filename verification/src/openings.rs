use vstd::prelude::*;
use crate::board::{BoardModel, BoardState};
use crate::throw::{legal_throw, target_ok, first_hit, path_values};
use crate::play::{after_move, lemma_legal_iff_clears};
use crate::search::{
    candidate_moves, has_throw, move_pair, nearest_for_target, scan_order, lemma_candidates_nearest,
    search_ok, option_view, pair_seen, lemma_move_ok_when_clears, lemma_move_ok_when_hits,
    SearchState, search, tree_best, moves_best, lemma_search_finds_best, lemma_candidate_child,
    lemma_candidates_legal,
};

verus! {

/// The first moves of a round tried in parallel after `n` places were looked at: each
/// place with a throw whose (direction, target) pair was not seen at an earlier place.
pub open spec fn opening_scan(m: BoardModel, n: int) -> (Seq<(bool, i32)>, Seq<usize>)
    decreases n,
{
    if n <= 0 {
        (Seq::empty(), Seq::empty())
    } else {
        let prev = opening_scan(m, n - 1);
        let i = n - 1;
        let pair = (m.legal_move_is_column[i], m.legal_move_position[i]);
        if m.legal_move_position[i] < 0 || prev.0.contains(pair) {
            prev
        } else {
            (prev.0.push(pair), prev.1.push(i as usize))
        }
    }
}

/// The first moves of a round tried in parallel, one per distinct attacked target.
pub open spec fn opening_moves(m: BoardModel) -> Seq<usize> {
    opening_scan(m, m.legal_move_is_column.len() as int).1
}

proof fn lemma_opening_scan(m: BoardModel, n: int)
    requires
        0 <= n <= m.legal_move_is_column.len(),
        m.legal_move_is_column.len() <= usize::MAX,
    ensures
        forall|q: int|
            0 <= q < opening_scan(m, n).1.len() ==> {
                let i = #[trigger] opening_scan(m, n).1[q] as int;
                0 <= i < n && 0 <= m.legal_move_position[i]
            },
    decreases n,
{
    if n > 0 {
        lemma_opening_scan(m, n - 1);
        let prev = opening_scan(m, n - 1);
        assert forall|q: int| 0 <= q < opening_scan(m, n).1.len() implies {
            let i = #[trigger] opening_scan(m, n).1[q] as int;
            0 <= i < n && 0 <= m.legal_move_position[i]
        } by {
            if q < prev.1.len() {
                assert(opening_scan(m, n).1[q] == prev.1[q]);
            }
        }
    }
}

/// Every opening move names a place with a throw.
pub proof fn lemma_openings_have_throws(m: BoardModel)
    requires
        m.legal_move_is_column.len() <= usize::MAX,
    ensures
        forall|q: int|
            0 <= q < opening_moves(m).len() ==> {
                let i = #[trigger] opening_moves(m)[q] as int;
                0 <= i < m.legal_move_is_column.len() && 0 <= m.legal_move_position[i]
            },
{
    lemma_opening_scan(m, m.legal_move_is_column.len() as int);
}

/// Place `j` has a throw and no earlier place attacks its target in its direction.
pub open spec fn first_for_target(m: BoardModel, j: int) -> bool {
    &&& has_throw(m, j)
    &&& forall|i: int| #![trigger move_pair(m, i)] 0 <= i < j && has_throw(m, i) ==> move_pair(m, i) != move_pair(m, j)
}

proof fn lemma_opening_scan_members(m: BoardModel, n: int)
    requires
        0 <= n <= m.legal_move_is_column.len(),
        m.legal_move_is_column.len() <= usize::MAX,
    ensures
        forall|p: (bool, i32)|
            #![trigger opening_scan(m, n).0.contains(p)]
            opening_scan(m, n).0.contains(p) <==> exists|i: int|
                #![trigger move_pair(m, i)]
                0 <= i < n && has_throw(m, i) && move_pair(m, i) == p,
        forall|j: int|
            #![trigger first_for_target(m, j)]
            0 <= j < n && first_for_target(m, j) ==> opening_scan(m, n).1.contains(j as usize),
    decreases n,
{
    if n > 0 {
        lemma_opening_scan_members(m, n - 1);
        let prev = opening_scan(m, n - 1);
        let cur = opening_scan(m, n);
        let i = n - 1;
        let pair = (m.legal_move_is_column[i], m.legal_move_position[i]);
        assert(pair == move_pair(m, i));
        let added = !(m.legal_move_position[i] < 0 || prev.0.contains(pair));
        assert forall|p: (bool, i32)| #![trigger cur.0.contains(p)] cur.0.contains(p) <==> exists|k: int|
            #![trigger move_pair(m, k)]
            0 <= k < n && has_throw(m, k) && move_pair(m, k) == p by {
            if cur.0.contains(p) {
                if added {
                    let x = choose|x: int| 0 <= x < cur.0.len() && cur.0[x] == p;
                    if x == prev.0.len() {
                        assert(move_pair(m, i) == p);
                    } else {
                        assert(prev.0[x] == p);
                        assert(prev.0.contains(p));
                    }
                } else {
                    assert(prev.0.contains(p));
                }
            }
            if exists|k: int| #![trigger move_pair(m, k)] 0 <= k < n && has_throw(m, k) && move_pair(m, k) == p {
                let k = choose|k: int| #![trigger move_pair(m, k)] 0 <= k < n && has_throw(m, k) && move_pair(m, k) == p;
                if k < n - 1 {
                    assert(prev.0.contains(p));
                    if added {
                        let x = choose|x: int| 0 <= x < prev.0.len() && prev.0[x] == p;
                        assert(cur.0[x] == p);
                    }
                } else {
                    if added {
                        assert(cur.0[prev.0.len() as int] == p);
                    }
                }
            }
        }
        assert forall|j: int| #![trigger first_for_target(m, j)] 0 <= j < n && first_for_target(m, j)
            implies cur.1.contains(j as usize) by {
            if j < n - 1 {
                assert(prev.1.contains(j as usize));
                if added {
                    let x = choose|x: int| 0 <= x < prev.1.len() && prev.1[x] == j as usize;
                    assert(cur.1[x] == j as usize);
                }
            } else {
                if prev.0.contains(pair) {
                    let k = choose|k: int| #![trigger move_pair(m, k)] 0 <= k < n - 1 && has_throw(m, k) && move_pair(m, k) == pair;
                    assert(move_pair(m, k) != move_pair(m, j));
                }
                assert(cur.1[prev.1.len() as int] == j as usize);
            }
        }
    }
}

/// From the first move of a round (previous place 0), every move the search tries is
/// one of the openings searched in parallel: the threads together search every subtree
/// that the search in one thread goes into.
pub proof fn lemma_candidates_are_openings(m: BoardModel)
    requires
        search_ok(m),
        m.previous_move_index == 0,
    ensures
        forall|q: int|
            0 <= q < candidate_moves(m).len() ==> opening_moves(m).contains(
                #[trigger] candidate_moves(m)[q],
            ),
{
    lemma_candidates_nearest(m);
    lemma_opening_scan_members(m, m.legal_move_is_column.len() as int);
    assert forall|q: int| 0 <= q < candidate_moves(m).len() implies opening_moves(m).contains(
        #[trigger] candidate_moves(m)[q],
    ) by {
        let j = candidate_moves(m)[q] as int;
        assert(nearest_for_target(m, j));
        crate::search::lemma_candidates_legal(m);
        assert(has_throw(m, j));
        assert forall|i: int| #![trigger move_pair(m, i)] 0 <= i < j && has_throw(m, i) implies move_pair(m, i)
            != move_pair(m, j) by {
            assert(scan_order(m, i) < scan_order(m, j));
        }
        assert(first_for_target(m, j));
        assert((j as usize) == candidate_moves(m)[q]);
    }
}

/// A search with nothing found yet.
pub open spec fn fresh_search() -> SearchState {
    SearchState { best_score: 0, best_board: None }
}

/// The best score that `best_of` picks is at least 0 and at least the score of every
/// result it looks at.
proof fn lemma_best_of_scan_bounds(results: Seq<Option<BoardModel>>, n: int)
    requires
        0 <= n <= results.len(),
    ensures
        best_of_scan(results, n).0 >= 0,
        forall|q: int|
            0 <= q < n && (#[trigger] results[q]) is Some ==> best_of_scan(results, n).0
                >= results[q]->0.score,
    decreases n,
{
    if n > 0 {
        lemma_best_of_scan_bounds(results, n - 1);
    }
}

/// Every score that the search reaches through the candidate moves from the `i`-th on
/// is the best score reached below one of those moves.
proof fn lemma_moves_best_from_child(m: BoardModel, i: int)
    requires
        search_ok(m),
        0 <= i,
        forall|q: int|
            0 <= q < candidate_moves(m).len() ==> after_move(
                m,
                #[trigger] candidate_moves(m)[q] as int,
            ).block_count > m.qualify_blocks,
    ensures
        moves_best(m, i) matches Some(x) ==> exists|j: int|
            i <= j < candidate_moves(m).len() && #[trigger] tree_best(
                after_move(m, candidate_moves(m)[j] as int),
            ) == Some(x),
    decreases candidate_moves(m).len() - i,
{
    if i < candidate_moves(m).len() {
        lemma_candidate_child(m, i);
        lemma_moves_best_from_child(m, i + 1);
        let c = after_move(m, candidate_moves(m)[i] as int);
        assert(c.block_count > m.qualify_blocks);
        if let Some(x) = moves_best(m, i) {
            if tree_best(c) == Some(x) {
                assert(tree_best(after_move(m, candidate_moves(m)[i] as int)) == Some(x));
            } else {
                assert(moves_best(m, i + 1) == Some(x));
            }
        }
    }
}

/// From the first move of a round, when no legal first move finishes the round and the
/// search does not start with a miss, the best of the searches started from the
/// openings (each with nothing found yet, one result per opening) scores at least as
/// high as one search from the start of the round.
pub proof fn lemma_openings_score_at_least(m: BoardModel, results: Seq<Option<BoardModel>>)
    requires
        search_ok(m),
        m.previous_move_index == 0,
        !(candidate_moves(m).len() == 0 && m.miss_available),
        forall|i: int|
            0 <= i < m.legal_move_is_column.len() && 0 <= m.legal_move_position[i] && legal_throw(
                m,
                m.legal_move_is_column[i],
                m.legal_move_position[i] as int,
            ) ==> #[trigger] after_move(m, i).block_count > m.qualify_blocks,
        results.len() == opening_moves(m).len(),
        forall|q: int|
            0 <= q < results.len() && legal_throw(
                m,
                m.legal_move_is_column[opening_moves(m)[q] as int],
                m.legal_move_position[opening_moves(m)[q] as int] as int,
            ) ==> #[trigger] results[q] == search(
                after_move(m, opening_moves(m)[q] as int),
                fresh_search(),
            ).best_board,
    ensures
        best_of_scan(results, results.len() as int).0 >= search(m, fresh_search()).best_score,
{
    let n = results.len() as int;
    lemma_best_of_scan_bounds(results, n);
    lemma_search_finds_best(m, fresh_search());
    lemma_candidates_legal(m);
    lemma_candidates_are_openings(m);
    assert forall|q: int| 0 <= q < candidate_moves(m).len() implies after_move(
        m,
        #[trigger] candidate_moves(m)[q] as int,
    ).block_count > m.qualify_blocks by {
        let idx = candidate_moves(m)[q] as int;
        assert(after_move(m, idx).block_count > m.qualify_blocks);
    }
    lemma_moves_best_from_child(m, 0);
    assert(tree_best(m) == moves_best(m, 0));
    if let Some(x) = moves_best(m, 0) {
        let j = choose|j: int|
            0 <= j < candidate_moves(m).len() && #[trigger] tree_best(
                after_move(m, candidate_moves(m)[j] as int),
            ) == Some(x);
        let idx = candidate_moves(m)[j] as int;
        let c = after_move(m, idx);
        lemma_candidate_child(m, j);
        lemma_search_finds_best(c, fresh_search());
        assert(opening_moves(m).contains(candidate_moves(m)[j]));
        let q = choose|q: int|
            0 <= q < opening_moves(m).len() && opening_moves(m)[q] == candidate_moves(m)[j];
        assert(opening_moves(m)[q] as int == idx);
        assert(results[q] == search(c, fresh_search()).best_board);
        let r = search(c, fresh_search());
        if r != fresh_search() {
            assert(results[q] is Some);
        }
    }
}

impl BoardState {
    /// The first moves to try, one per distinct (direction, target) pair, in order.
    pub fn opening_moves(&self) -> (res: Vec<usize>)
        requires
            self.legal_move_position@.len() == self.legal_move_is_column@.len(),
        ensures
            res@ == opening_moves(self@),
    {
        let ghost m = self@;
        let len = self.legal_move_is_column.len();
        let mut seen: Vec<(bool, i32)> = Vec::new();
        let mut res: Vec<usize> = Vec::new();
        let mut move_index: usize = 0;
        while move_index < len
            invariant
                m == self@,
                len == m.legal_move_is_column.len(),
                m.legal_move_position.len() == len,
                move_index <= len,
                opening_scan(m, move_index as int) == (seen@, res@),
            decreases len - move_index,
        {
            let is_column = self.legal_move_is_column[move_index];
            let move_position = self.legal_move_position[move_index];
            if move_position >= 0 {
                let pair = (is_column, move_position);
                if !pair_seen(&seen, pair) {
                    seen.push(pair);
                    res.push(move_index);
                }
            }
            move_index = move_index + 1;
        }
        res
    }

    /// The board after each opening move, in the order of [`BoardState::opening_moves`],
    /// each ready to search from when its throw is legal; `Err(i)` for the first opening
    /// place `i` whose throw would hit no block at all.
    pub fn opening_boards(&self) -> (res: Result<Vec<BoardState>, usize>)
        requires
            search_ok(self@),
        ensures
            match res {
                Ok(boards) => {
                    &&& boards@.len() == opening_moves(self@).len()
                    &&& forall|q: int|
                        0 <= q < boards@.len() ==> #[trigger] boards@[q]@ == after_move(
                            self@,
                            opening_moves(self@)[q] as int,
                        )
                    &&& forall|q: int|
                        0 <= q < opening_moves(self@).len() ==> opening_hits(
                            self@,
                            #[trigger] opening_moves(self@)[q] as int,
                        )
                    &&& forall|q: int|
                        0 <= q < opening_moves(self@).len() && legal_throw(
                            self@,
                            self@.legal_move_is_column[opening_moves(self@)[q] as int],
                            self@.legal_move_position[opening_moves(self@)[q] as int] as int,
                        ) ==> search_ok(#[trigger] boards@[q]@)
                },
                Err(i) => exists|q: int|
                    0 <= q < opening_moves(self@).len() && #[trigger] opening_moves(self@)[q] == i
                        && !opening_hits(self@, i as int) && forall|r: int|
                        0 <= r < q ==> opening_hits(self@, #[trigger] opening_moves(self@)[r] as int),
            },
    {
        let ghost m = self@;
        let moves = self.opening_moves();
        proof {
            lemma_openings_have_throws(m);
        }
        let mut boards: Vec<BoardState> = Vec::new();
        let mut q: usize = 0;
        while q < moves.len()
            invariant
                m == self@,
                search_ok(m),
                moves@ == opening_moves(m),
                forall|r: int|
                    0 <= r < opening_moves(m).len() ==> {
                        let i = #[trigger] opening_moves(m)[r] as int;
                        0 <= i < m.legal_move_is_column.len() && 0 <= m.legal_move_position[i]
                    },
                q <= moves.len(),
                boards@.len() == q,
                forall|r: int|
                    0 <= r < q ==> #[trigger] boards@[r]@ == after_move(m, opening_moves(m)[r] as int),
                forall|r: int| 0 <= r < q ==> opening_hits(m, #[trigger] opening_moves(m)[r] as int),
                forall|r: int|
                    0 <= r < q && legal_throw(
                        m,
                        m.legal_move_is_column[opening_moves(m)[r] as int],
                        m.legal_move_position[opening_moves(m)[r] as int] as int,
                    ) ==> search_ok(#[trigger] boards@[r]@),
            decreases moves.len() - q,
        {
            let move_index = moves[q];
            let ghost i = move_index as int;
            assert(opening_moves(m)[q as int] == move_index);
            let is_column = self.legal_move_is_column[move_index];
            let move_position = self.legal_move_position[move_index];
            assert(target_ok(m, is_column, move_position as int));
            if !self.throw_hits_block(is_column, move_position as usize) {
                return Err(move_index);
            }
            proof {
                lemma_move_ok_when_hits(m, i);
                lemma_legal_iff_clears(m, is_column, move_position as int);
                if legal_throw(m, is_column, move_position as int) {
                    lemma_move_ok_when_clears(m, i);
                }
            }
            let mut new_board = self.clone();
            new_board.make_move(move_index);
            boards.push(new_board);
            q = q + 1;
        }
        Ok(boards)
    }

    /// Whether the throw at `move_position` hits a block somewhere on its path.
    fn throw_hits_block(&self, is_column: bool, move_position: usize) -> (res: bool)
        requires
            crate::throw::geometry_ok(self@),
            target_ok(self@, is_column, move_position as int),
        ensures
            res == (first_hit(path_values(self@, is_column, move_position as int), 0) is Some),
    {
        let mut probe = self.clone();
        probe.held_block = 0;
        let (hits, _) = probe.is_legal_move(is_column, move_position);
        assert(path_values(probe@, is_column, move_position as int) == path_values(
            self@,
            is_column,
            move_position as int,
        ));
        hits
    }
}

/// The throw of opening place `i` hits a block somewhere on its path.
pub open spec fn opening_hits(m: BoardModel, i: int) -> bool {
    first_hit(path_values(m, m.legal_move_is_column[i], m.legal_move_position[i] as int), 0) is Some
}

/// The best of the finished rounds found from each opening: the first with the highest
/// score above 0, or `None` when none scores above 0.
pub open spec fn best_of_scan(results: Seq<Option<BoardModel>>, n: int) -> (int, Option<BoardModel>)
    decreases n,
{
    if n <= 0 {
        (0, None)
    } else {
        let prev = best_of_scan(results, n - 1);
        match results[n - 1] {
            Some(b) => if b.score > prev.0 {
                (b.score, Some(b))
            } else {
                prev
            },
            None => prev,
        }
    }
}

/// Picks the best result of the searches started from the openings.
pub fn best_of(results: &Vec<Option<BoardState>>) -> (res: Option<BoardState>)
    ensures
        option_view(res) == best_of_scan(
            results@.map_values(|r: Option<BoardState>| option_view(r)),
            results@.len() as int,
        ).1,
{
    let ghost views = results@.map_values(|r: Option<BoardState>| option_view(r));
    let mut best_score: i32 = 0;
    let mut best_board: Option<BoardState> = None;
    let n = results.len();
    let mut i: usize = 0;
    while i < n
        invariant
            n == results@.len(),
            views == results@.map_values(|r: Option<BoardState>| option_view(r)),
            i <= n,
            best_of_scan(views, i as int) == (best_score as int, option_view(best_board)),
        decreases n - i,
    {
        assert(views[i as int] == option_view(results@[i as int]));
        match &results[i] {
            Some(board) => {
                if board.score > best_score {
                    best_score = board.score;
                    best_board = Some(board.clone());
                }
            },
            None => {},
        }
        i = i + 1;
    }
    best_board
}

} // verus!
