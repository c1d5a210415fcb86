use vstd::prelude::*;
use rand::seq::SliceRandom;
use crate::board::{Board, FULL_MASK, four_connected, lemma_legal_moves};
use crate::laws::lemma_move_grows_mask;

verus! {

/// Visit statistics of one board. Results are counted in half points: a loss is worth 0,
/// a draw 1 and a win 2, so `wins_half / (2 * count)` is the average result.
#[derive(Clone, Copy, PartialEq, Eq, Structural, Debug)]
pub struct Stats {
    pub wins_half: u64,
    pub count: u64,
}

impl Default for Stats {
    fn default() -> (r: Stats)
        ensures
            r == zero_stats(),
    {
        Stats { wins_half: 0, count: 0 }
    }
}

/// Statistics of a board that has not been visited yet.
pub open spec fn zero_stats() -> Stats {
    Stats { wins_half: 0, count: 0 }
}

/// One more visit that ended with `result` half points.
pub open spec fn add_result(s: Stats, result: u64) -> Stats {
    Stats { wins_half: s.wins_half.saturating_add(result), count: s.count.saturating_add(1) }
}

/// No board appears twice in a table.
pub open spec fn keys_unique(t: Seq<(Board, Stats)>) -> bool {
    forall|i: int, j: int| 0 <= i < j < t.len() ==> #[trigger] t[i].0 != #[trigger] t[j].0
}

/// The table holds `b`.
pub open spec fn holds(t: Seq<(Board, Stats)>, b: Board) -> bool {
    exists|i: int| 0 <= i < t.len() && #[trigger] t[i].0 == b
}

/// The statistics that the table holds for `b`.
pub open spec fn stats_of(t: Seq<(Board, Stats)>, b: Board) -> Option<Stats> {
    if holds(t, b) {
        Some(t[choose|i: int| 0 <= i < t.len() && #[trigger] t[i].0 == b].1)
    } else {
        None
    }
}

/// The visit count of `b`, zero where the table does not hold it.
pub open spec fn count_of(t: Seq<(Board, Stats)>, b: Board) -> u64 {
    match stats_of(t, b) {
        Some(s) => s.count,
        None => 0,
    }
}

/// The table after one visit of `b` that ended with `result`.
pub open spec fn record(t: Seq<(Board, Stats)>, b: Board, result: u64) -> Seq<(Board, Stats)> {
    Seq::new(
        t.len(),
        |i: int|
            if t[i].0 == b {
                (t[i].0, add_result(t[i].1, result))
            } else {
                t[i]
            },
    )
}

/// The table after one visit of each board of `path`, in order.
pub open spec fn record_path(t: Seq<(Board, Stats)>, path: Seq<Board>, result: u64) -> Seq<
    (Board, Stats),
>
    decreases path.len(),
{
    if path.len() == 0 {
        t
    } else {
        record(record_path(t, path.drop_last(), result), path.last(), result)
    }
}

/// The table once `b` is held, with fresh statistics if it was not.
pub open spec fn expanded(t: Seq<(Board, Stats)>, b: Board) -> Seq<(Board, Stats)> {
    if holds(t, b) {
        t
    } else {
        t.push((b, zero_stats()))
    }
}

/// A move of `node` with the statistics of the board it leads to.
pub open spec fn child_entry(t: Seq<(Board, Stats)>, node: Board, mv: u8) -> (u8, Stats) {
    (
        mv,
        match stats_of(t, node.next(mv)) {
            Some(s) => s,
            None => zero_stats(),
        },
    )
}

/// The move with the strictly greatest average result among `moves`, scanning in order;
/// the running choice starts at move 0 with score 0, and unvisited boards never win.
pub open spec fn best_of(t: Seq<(Board, Stats)>, root: Board, moves: Seq<u8>) -> (u8, u64, u64)
    decreases moves.len(),
{
    if moves.len() == 0 {
        (0, 0, 1)
    } else {
        let prev = best_of(t, root, moves.drop_last());
        let mv = moves.last();
        match stats_of(t, root.next(mv)) {
            Some(s) => if s.count > 0 && (s.wins_half as int) * (prev.2 as int) > (prev.1 as int)
                * (s.count as int) {
                (mv, s.wins_half, s.count)
            } else {
                prev
            },
            None => prev,
        }
    }
}

/// The walk down the tree stops at `node`: it has no free column, or the side that just moved
/// there, at an odd count of stones, has four in a line.
pub open spec fn walk_stops(node: Board) -> bool {
    node.legal_moves().len() == 0 || (node.moves_count % 2 == 1 && four_connected(
        node.position ^ node.mask,
    ))
}

/// A move of `node` leads to a board that the table does not hold.
pub open spec fn has_unvisited_child(t: Seq<(Board, Stats)>, node: Board) -> bool {
    exists|mv: u8| #[trigger] node.legal_moves().contains(mv) && !holds(t, node.next(mv))
}

/// The result, in half points, of a playout from `b` that plays the moves of `ms` in turn, or
/// `None` where `ms` is not a complete playout: a full board or one with no free column ends
/// with 1; otherwise each move must go to a free column, and a move that makes four in a line
/// for its side ends the playout with 2 when the stone count is then odd and 0 otherwise.
pub open spec fn playout(b: Board, ms: Seq<u8>) -> Option<u64>
    decreases ms.len(),
{
    if b.full() || b.legal_moves().len() == 0 {
        if ms.len() == 0 {
            Some(1)
        } else {
            None
        }
    } else if ms.len() == 0 || !b.column_free(ms[0]) {
        None
    } else {
        let n = b.next(ms[0]);
        if four_connected(n.position ^ n.mask) {
            if ms.len() == 1 {
                Some(
                    if n.moves_count % 2 == 1 {
                        2
                    } else {
                        0
                    },
                )
            } else {
                None
            }
        } else {
            playout(n, ms.drop_first())
        }
    }
}

/// Playing one more move before a playout's remaining moves.
proof fn lemma_playout_prefix(b: Board, played: Seq<u8>, mv: u8, rest: Seq<u8>)
    ensures
        played.push(mv) + rest == played + (seq![mv] + rest),
        (seq![mv] + rest)[0] == mv,
        (seq![mv] + rest).drop_first() == rest,
        (seq![mv] + rest).len() == rest.len() + 1,
{
    assert(played.push(mv) + rest =~= played + (seq![mv] + rest));
    assert((seq![mv] + rest).drop_first() =~= rest);
}

/// A table entry for `b` gives its statistics.
proof fn lemma_stats_at(t: Seq<(Board, Stats)>, b: Board, i: int)
    requires
        keys_unique(t),
        0 <= i < t.len(),
        t[i].0 == b,
    ensures
        holds(t, b),
        stats_of(t, b) == Some(t[i].1),
{
    let j = choose|j: int| 0 <= j < t.len() && #[trigger] t[j].0 == b;
    if i < j {
        assert(t[i].0 != t[j].0);
    } else if j < i {
        assert(t[j].0 != t[i].0);
    }
}

/// Relies on rand's `SliceRandom::choose` with the thread-local generator: one element of a
/// nonempty slice, `None` for an empty one.
#[verifier::external_body]
fn choose_move(moves: &Vec<u8>) -> (r: Option<u8>)
    ensures
        moves@.len() == 0 <==> r == None::<u8>,
        forall|m: u8| r == Some(m) ==> moves@.contains(m),
{
    moves.choose(&mut rand::thread_rng()).copied()
}

/// One step of the walk down the tree.
pub enum SelectStep {
    /// The walk ends at this node.
    Stop,
    /// A child that the table does not hold yet: the walk ends there.
    Frontier(Board),
    /// Every child is held: each move with its child's statistics, and the node's visit count.
    Descend(Vec<(u8, Stats)>, u64),
}

/// What one random move of a playout leads to.
#[derive(Clone, Copy, PartialEq, Eq, Structural, Debug)]
pub enum RolloutStep {
    /// The game goes on from this board.
    Continue(Board),
    /// The move made four in a line; the result in half points.
    Finished(u64),
}

/// Search statistics, keyed by board, of one search run.
pub struct Solver {
    entries: Vec<(Board, Stats)>,
}

impl View for Solver {
    type V = Seq<(Board, Stats)>;

    closed spec fn view(&self) -> Seq<(Board, Stats)> {
        self.entries@
    }
}

impl Solver {
    /// The invariant of the table.
    pub closed spec fn wf(&self) -> bool {
        keys_unique(self.entries@)
    }

    /// A solver with an empty table.
    pub fn default() -> (r: Solver)
        ensures
            r.wf(),
            r@ == Seq::<(Board, Stats)>::empty(),
    {
        Solver { entries: Vec::new() }
    }

    /// Clears the table and registers `root` with fresh statistics.
    pub fn reset(&mut self, root: Board)
        ensures
            final(self).wf(),
            final(self)@ == seq![(root, zero_stats())],
    {
        let mut entries: Vec<(Board, Stats)> = Vec::new();
        entries.push((root, Stats { wins_half: 0, count: 0 }));
        self.entries = entries;
        assert(self.entries@ =~= seq![(root, zero_stats())]);
    }

    /// The index of `b` in the table, if it is held.
    pub fn find(&self, b: &Board) -> (r: Option<usize>)
        requires
            self.wf(),
        ensures
            match r {
                Some(i) => i < self@.len() && self@[i as int].0 == *b && stats_of(self@, *b)
                    == Some(self@[i as int].1),
                None => !holds(self@, *b),
            },
    {
        let mut i: usize = 0;
        while i < self.entries.len()
            invariant
                i <= self.entries@.len(),
                keys_unique(self.entries@),
                forall|k: int| 0 <= k < i ==> #[trigger] self.entries@[k].0 != *b,
            decreases self.entries@.len() - i,
        {
            if self.entries[i].0 == *b {
                proof {
                    lemma_stats_at(self.entries@, *b, i as int);
                }
                return Some(i);
            }
            i = i + 1;
        }
        None
    }

    /// The statistics held for `b`.
    pub fn get(&self, b: &Board) -> (r: Option<Stats>)
        requires
            self.wf(),
        ensures
            r == stats_of(self@, *b),
    {
        match self.find(b) {
            Some(i) => Some(self.entries[i].1),
            None => None,
        }
    }

    /// Adds `node` with fresh statistics unless the table holds it already.
    pub fn expand(&mut self, node: Board)
        requires
            old(self).wf(),
        ensures
            final(self).wf(),
            final(self)@ == expanded(old(self)@, node),
    {
        if self.find(&node).is_none() {
            self.entries.push((node, Stats { wins_half: 0, count: 0 }));
            proof {
                assert forall|i: int, j: int|
                    0 <= i < j < self.entries@.len() implies #[trigger] self.entries@[i].0
                    != #[trigger] self.entries@[j].0 by {
                    if j == self.entries@.len() - 1 {
                        assert(old(self).entries@[i].0 != node);
                    }
                }
            }
        }
    }

    /// Counts one visit of `node` that ended with `result` half points.
    fn record_visit(&mut self, node: &Board, result: u64)
        requires
            old(self).wf(),
        ensures
            final(self).wf(),
            final(self)@ == record(old(self)@, *node, result),
    {
        match self.find(node) {
            Some(i) => {
                let (b, s) = self.entries[i];
                let updated = Stats {
                    wins_half: s.wins_half.saturating_add(result),
                    count: s.count.saturating_add(1),
                };
                self.entries.set(i, (b, updated));
                proof {
                    assert forall|k: int| 0 <= k < old(self)@.len() && k != i implies old(
                        self,
                    )@[k].0 != *node by {
                        if k < i {
                            assert(old(self).entries@[k].0 != old(self).entries@[i as int].0);
                        } else {
                            assert(old(self).entries@[i as int].0 != old(self).entries@[k].0);
                        }
                    }
                    assert(self.entries@ =~= record(old(self)@, *node, result));
                }
            },
            None => {
                assert(self.entries@ =~= record(old(self)@, *node, result));
            },
        }
    }

    /// Counts one visit, ending with `result` half points, of every board on `path`.
    pub fn backpropagate(&mut self, result: u64, path: &Vec<Board>)
        requires
            old(self).wf(),
        ensures
            final(self).wf(),
            final(self)@ == record_path(old(self)@, path@, result),
    {
        let mut i: usize = 0;
        while i < path.len()
            invariant
                i <= path@.len(),
                self.wf(),
                self@ == record_path(old(self)@, path@.take(i as int), result),
            decreases path@.len() - i,
        {
            self.record_visit(&path[i], result);
            assert(path@.take(i + 1).drop_last() =~= path@.take(i as int));
            i = i + 1;
        }
        assert(path@.take(path@.len() as int) =~= path@);
    }

    /// Plays `mv` in a playout: the game ends when the move makes four in a line for the side
    /// that played it, with 2 half points when the stone count is then odd and 0 otherwise.
    pub fn rollout_step(node: Board, mv: u8) -> (r: RolloutStep)
        requires
            node.wf(),
            node.column_free(mv),
        ensures
            ({
                let n = node.next(mv);
                if four_connected(n.position ^ n.mask) {
                    r == RolloutStep::Finished(
                        if n.moves_count % 2 == 1 {
                            2u64
                        } else {
                            0u64
                        },
                    )
                } else {
                    r == RolloutStep::Continue(n)
                }
            }),
    {
        let next = node.play(mv);
        if Board::are_four_connected(next.get_opponent_position()) {
            RolloutStep::Finished(
                if next.moves_count % 2 == 1 {
                    2
                } else {
                    0
                },
            )
        } else {
            RolloutStep::Continue(next)
        }
    }

    /// Plays uniformly random moves from `start` until the board is full, no column is free,
    /// or a move makes four in a line (see `rollout_step`). A full or blocked board gives 1 half
    /// point.
    pub fn rollout(start: Board) -> (r: u64)
        requires
            start.wf(),
        ensures
            r <= 2,
            start.full() ==> r == 1,
            exists|ms: Seq<u8>| playout(start, ms) == Some(r),
    {
        let mut node = start;
        let ghost played: Seq<u8> = Seq::empty();
        proof {
            assert forall|rest: Seq<u8>| #[trigger] playout(start, played + rest) == playout(
                node,
                rest,
            ) by {
                assert(played + rest =~= rest);
            }
        }
        while !node.is_draw()
            invariant
                node.wf(),
                start.full() ==> node == start,
                forall|rest: Seq<u8>| #[trigger] playout(start, played + rest) == playout(
                    node,
                    rest,
                ),
            decreases FULL_MASK - node.mask,
        {
            let moves = node.get_legal_moves();
            match choose_move(&moves) {
                None => {
                    proof {
                        assert(playout(node, Seq::empty()) == Some(1u64));
                        assert(played + Seq::empty() =~= played);
                        assert(playout(start, played + Seq::<u8>::empty()) == Some(1u64));
                    }
                    return 1;
                },
                Some(mv) => {
                    proof {
                        lemma_legal_moves(node, 7);
                        assert(node.legal_moves_below(7).contains(mv));
                        lemma_move_grows_mask(node, mv);
                        assert(node.legal_moves().len() > 0);
                    }
                    let ghost before = node;
                    match Solver::rollout_step(node, mv) {
                        RolloutStep::Continue(next) => {
                            proof {
                                assert forall|rest: Seq<u8>| #[trigger] playout(
                                    start,
                                    played.push(mv) + rest,
                                ) == playout(next, rest) by {
                                    lemma_playout_prefix(before, played, mv, rest);
                                    assert(playout(start, played + (seq![mv] + rest)) == playout(
                                        before,
                                        seq![mv] + rest,
                                    ));
                                }
                                played = played.push(mv);
                            }
                            node = next;
                        },
                        RolloutStep::Finished(result) => {
                            proof {
                                lemma_playout_prefix(before, played, mv, Seq::empty());
                                assert(playout(start, played + (seq![mv] + Seq::empty())) == playout(
                                    before,
                                    seq![mv] + Seq::empty(),
                                ));
                                assert(playout(start, played.push(mv) + Seq::empty()) == Some(
                                    result,
                                ));
                            }
                            return result;
                        },
                    }
                },
            }
        }
        proof {
            assert(playout(node, Seq::empty()) == Some(1u64));
            assert(playout(start, played + Seq::<u8>::empty()) == Some(1u64));
        }
        1
    }

    /// Whether the search goes on after `iterations` rounds: the clock is consulted every 250
    /// rounds, and the search stops at such a round once the deadline has passed.
    pub fn keep_searching(iterations: u64, deadline_passed: bool) -> (r: bool)
        ensures
            r == !(iterations % 250 == 0 && deadline_passed),
    {
        !(iterations % 250 == 0 && deadline_passed)
    }

    /// One step of the walk down the tree from `node`.
    pub fn select_step(&self, node: Board) -> (r: SelectStep)
        requires
            self.wf(),
            node.wf(),
        ensures
            walk_stops(node) <==> r is Stop,
            !walk_stops(node) && has_unvisited_child(self@, node) <==> r is Frontier,
            forall|c: Board|
                r == SelectStep::Frontier(c) ==> exists|mv: u8|
                    #[trigger] node.legal_moves().contains(mv) && c == node.next(mv) && !holds(
                        self@,
                        c,
                    ),
            r matches SelectStep::Descend(children, total) ==> children@ == node.legal_moves().map_values(
                |mv: u8| child_entry(self@, node, mv),
            ) && total == count_of(self@, node),
    {
        let legal = node.get_legal_moves();
        if legal.len() == 0 || node.is_player_win() {
            return SelectStep::Stop;
        }
        proof {
            lemma_legal_moves(node, 7);
        }
        let mut unvisited: Vec<u8> = Vec::new();
        let mut children: Vec<(u8, Stats)> = Vec::new();
        let mut i: usize = 0;
        while i < legal.len()
            invariant
                i <= legal@.len(),
                legal@ == node.legal_moves(),
                self.wf(),
                node.wf(),
                forall|k: int| 0 <= k < legal@.len() ==> node.column_free(#[trigger] legal@[k]),
                forall|m: u8|
                    #[trigger] unvisited@.contains(m) ==> legal@.contains(m) && !holds(
                        self@,
                        node.next(m),
                    ),
                unvisited@.len() == 0 ==> forall|k: int|
                    0 <= k < i ==> holds(self@, node.next(#[trigger] legal@[k])),
                children@ == legal@.take(i as int).map_values(
                    |mv: u8| child_entry(self@, node, mv),
                ),
            decreases legal@.len() - i,
        {
            let mv = legal[i];
            let child = node.play(mv);
            let found = self.get(&child);
            match found {
                Some(s) => {
                    children.push((mv, s));
                },
                None => {
                    assert(legal@.contains(mv));
                    let ghost before = unvisited@;
                    unvisited.push(mv);
                    children.push((mv, Stats { wins_half: 0, count: 0 }));
                    assert forall|m: u8| #[trigger] unvisited@.contains(m) implies legal@.contains(
                        m,
                    ) && !holds(self@, node.next(m)) by {
                        if m != mv {
                            let k = choose|k: int| 0 <= k < unvisited@.len() && unvisited@[k] == m;
                            assert(before[k] == m);
                            assert(before.contains(m));
                        }
                    }
                },
            }
            assert(legal@.take(i + 1).map_values(|mv: u8| child_entry(self@, node, mv))
                =~= legal@.take(i as int).map_values(|mv: u8| child_entry(self@, node, mv)).push(
                child_entry(self@, node, mv),
            ));
            i = i + 1;
        }
        assert(legal@.take(legal@.len() as int) =~= legal@);
        if unvisited.len() > 0 {
            let pick = choose_move(&unvisited);
            match pick {
                Some(mv) => {
                    assert(unvisited@.contains(mv));
                    assert(node.legal_moves_below(7).contains(mv));
                    assert(node.legal_moves().contains(mv) && !holds(self@, node.next(mv)));
                    let child = node.play(mv);
                    return SelectStep::Frontier(child);
                },
                None => {
                    return SelectStep::Stop;
                },
            }
        }
        proof {
            assert forall|mv: u8| #[trigger] node.legal_moves().contains(mv) implies holds(
                self@,
                node.next(mv),
            ) by {
                let k = choose|k: int| 0 <= k < legal@.len() && legal@[k] == mv;
                assert(holds(self@, node.next(legal@[k])));
            }
        }
        let total = match self.get(&node) {
            Some(s) => s.count,
            None => 0,
        };
        SelectStep::Descend(children, total)
    }

    /// Holds `path`'s last board, plays a random game from it, and counts the result on every
    /// board of `path`.
    pub fn simulate(&mut self, path: &Vec<Board>)
        requires
            old(self).wf(),
            path@.len() > 0,
            path@.last().wf(),
        ensures
            final(self).wf(),
            exists|result: u64, ms: Seq<u8>|
                result <= 2 && playout(path@.last(), ms) == Some(result) && final(self)@
                    == record_path(expanded(old(self)@, path@.last()), path@, result),
    {
        let frontier = path[path.len() - 1];
        self.expand(frontier);
        let result = Solver::rollout(frontier);
        self.backpropagate(result, path);
    }

    /// The move from `root` whose board has the strictly greatest average result, scanning the
    /// free columns in ascending order from a running choice of move 0 with score 0.
    pub fn best_move(&self, root: Board) -> (r: u8)
        requires
            self.wf(),
            root.wf(),
        ensures
            r == best_of(self@, root, root.legal_moves()).0,
    {
        let moves = root.get_legal_moves();
        proof {
            lemma_legal_moves(root, 7);
        }
        let mut best: u8 = 0;
        let mut best_wins: u64 = 0;
        let mut best_count: u64 = 1;
        let mut i: usize = 0;
        while i < moves.len()
            invariant
                i <= moves@.len(),
                moves@ == root.legal_moves(),
                self.wf(),
                root.wf(),
                forall|k: int| 0 <= k < moves@.len() ==> root.column_free(#[trigger] moves@[k]),
                (best, best_wins, best_count) == best_of(self@, root, moves@.take(i as int)),
            decreases moves@.len() - i,
        {
            let mv = moves[i];
            let child = root.play(mv);
            assert(moves@.take(i + 1).drop_last() =~= moves@.take(i as int));
            match self.get(&child) {
                Some(s) => {
                    proof {
                        let a = s.wins_half as int;
                        let b = best_count as int;
                        let c = best_wins as int;
                        let d = s.count as int;
                        assert(a * b <= 0xffff_ffff_ffff_ffff * 0xffff_ffff_ffff_ffff && c * d
                            <= 0xffff_ffff_ffff_ffff * 0xffff_ffff_ffff_ffff) by (nonlinear_arith)
                            requires
                                0 <= a <= 0xffff_ffff_ffff_ffff,
                                0 <= b <= 0xffff_ffff_ffff_ffff,
                                0 <= c <= 0xffff_ffff_ffff_ffff,
                                0 <= d <= 0xffff_ffff_ffff_ffff,
                        ;
                    }
                    let lhs: u128 = (s.wins_half as u128) * (best_count as u128);
                    let rhs: u128 = (best_wins as u128) * (s.count as u128);
                    if s.count > 0 && lhs > rhs {
                        best = mv;
                        best_wins = s.wins_half;
                        best_count = s.count;
                    }
                },
                None => {},
            }
            i = i + 1;
        }
        assert(moves@.take(moves@.len() as int) =~= moves@);
        best
    }

    /// The move that the search plays from `root`: the only free column when there is one;
    /// else the final choice of `best_move` when that column is free, and the lowest free
    /// column when it is not (the running choice, column 0, may be full).
    pub fn chosen_move(&self, root: Board) -> (r: u8)
        requires
            self.wf(),
            root.wf(),
            root.legal_moves().len() > 0,
        ensures
            root.column_free(r),
            root.legal_moves().len() == 1 ==> r == root.legal_moves()[0],
            root.legal_moves().len() > 1 ==> r == if root.column_free(
                best_of(self@, root, root.legal_moves()).0,
            ) {
                best_of(self@, root, root.legal_moves()).0
            } else {
                root.legal_moves()[0]
            },
    {
        let moves = root.get_legal_moves();
        proof {
            lemma_legal_moves(root, 7);
        }
        if moves.len() == 1 {
            return moves[0];
        }
        let best = self.best_move(root);
        if root.is_move_legal(best) {
            best
        } else {
            moves[0]
        }
    }
}

} // verus!
