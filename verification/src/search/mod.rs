// Walking the move tree.
//
// The search is negamax with alpha-beta pruning: a node scores for the side to move, and
// the node one ply up negates the answer. Alpha is the best the side to move has been
// promised elsewhere in the tree, beta the best its opponent has; once a move beats beta
// the rest of the node need not be looked at. The depth asked for is only where the full
// move list stops - quiescence carries on with captures from there, so no line is scored
// in the middle of a trade.
pub mod ordering;
pub mod exchange;
pub mod perft;
pub mod value;

use vstd::prelude::*;
use std::time::Instant;
use crate::board::board::{Board, playable};
use crate::board::chess_move::Move;
use crate::board::movegen::{generated, legal_move, lemma_legal_playable};
use crate::board::rules::{in_check, law_undo_restores, played, record_for, valid_squares};
use crate::board::status::{no_legal_moves, repetitions_spec};
use crate::clock::{TimeSpan, elapsed_since, has_passed, moment_after, now};
use crate::evaluate::{MATE, MATE_BOUND, base_value, clamped_phase, evaluate, evaluate_spec, game_phase_count, piece_value};
use crate::search::exchange::see;
use crate::search::ordering::{KILLERS_PER_PLY, MoveOrder, handed_order, holds, lemma_selected_len, selected, was_loaded};
use crate::search::perft::{legal_list, lemma_generated_is_legal_list, lemma_played_is_position_after, position_after};
use crate::search::value::{
    ab_scan, ab_value, capture_pairs, child_node, evasion_pairs, killer_slot, lemma_generated_is_capture_list, node_pairs,
    node_repeats, node_seen_before, qs_scan, qs_value, remember_spec, root_scan, root_table_move, root_value, stored_spec,
    ab_counts, ab_scan_counts, count_sum, lemma_ab_counts_nonnegative, lemma_saturated_sum, saturated_counts,
    deepened_counts, lemma_deepened_counts_nonnegative, lemma_root_total_nonnegative, root_counts, root_scan_counts,
    deepened, empty_killer_table, next_generation, pass_value,
};
use crate::board::chess_move::MoveRecord;
use crate::board::rules::Position;
use crate::board::hashing::position_hash;
use crate::transposition::{Entry, NodeType, TranspositionTable, lookup, probe_cutoff};
use crate::board::piece::PieceType;

verus! {

/// How deep the search runs unless something asks for another depth.
pub const DEFAULT_DEPTH: u32 = 6;

/// The ceiling a timed search deepens towards.
pub const MAX_SEARCH_DEPTH: u32 = 64;

/// How often the clock is read, in nodes.
pub const DEADLINE_CHECK_INTERVAL: u64 = 2048;

/// Wider than any score: the window a root search starts with.
pub const INFINITY: i32 = 1_000_000;

/// How far short of alpha a capture may fall and still be worth looking at.
pub const DELTA_MARGIN: i32 = 200;

/// At or below this phase (out of 24, so a quarter of a full board) delta pruning stops.
pub const DELTA_ENDGAME_PHASE: i32 = 6;

/// The bound on the whole tree: quiescence stops extending lines at this ply, and killers
/// are kept for this many plies.
pub const MAX_PLY: u32 = 128;

/// How far a score can count plies and still stay inside the window: a mate found this
/// deep would no longer fit between -INFINITY and INFINITY.
pub const PLY_LIMIT: u32 = 800_000;

/// The board is back as it was: same position, same history, same position keys.
pub open spec fn unchanged(before: Board, after: Board) -> bool {
    &&& after.wf()
    &&& after.position() == before.position()
    &&& after.history() == before.history()
    &&& after.keys() == before.keys()
}

/// A move a killer may be: one that neither takes nor promotes.
pub open spec fn quiet(m: Move) -> bool {
    m.captured is None && m.promotion is None
}

/// A score inside the widest window.
pub open spec fn in_window(score: int) -> bool {
    -INFINITY <= score <= INFINITY
}

/// Mate or stalemate: a mate is worth a little less the deeper it is.
pub open spec fn terminal_spec(b: Board, ply: int) -> int {
    if in_check(b.position().squares, b.position().turn) {
        -MATE + ply
    } else {
        0
    }
}

/// A score brought into the window.
pub open spec fn clamp_spec(score: int, alpha: int, beta: int) -> int {
    if score < alpha {
        alpha
    } else if score > beta {
        beta
    } else {
        score
    }
}

/// The position on the board repeats one already on it, often enough to end the line
/// here: three times at the root, twice anywhere below it.
pub open spec fn repetition_draw_spec(b: Board, ply: int) -> bool {
    let reps = repetitions_spec(b.history(), b.keys(), b.stored_hash(), b.history().len() as int);
    reps >= 3 || (ply > 0 && reps >= 2)
}

/// What a node answers before it searches a single move, if anything: a repeated
/// position is a draw; a score the table holds that settles the window is taken, brought
/// into the window; and with depth left, a position without a legal move is mate or
/// stalemate, and one past the fifty moves a draw.
pub open spec fn node_shortcut(slots: Seq<Option<Entry>>, b: Board, depth: int, ply: int, alpha: int, beta: int) -> Option<int> {
    if repetition_draw_spec(b, ply) {
        Some(0)
    } else {
        match probe_cutoff(lookup(slots, b.stored_hash()), depth, ply, alpha, beta) {
            Some(score) => Some(clamp_spec(score as int, alpha, beta)),
            None => if depth == 0 {
                None
            } else if no_legal_moves(b.position()) {
                Some(terminal_spec(b, ply))
            } else if b.position().halfmove >= 100 {
                Some(0)
            } else {
                None
            },
        }
    }
}

/// The side to move is mated on the board: in check with no legal move.
pub open spec fn mated(b: Board) -> bool {
    in_check(b.position().squares, b.position().turn) && no_legal_moves(b.position())
}

/// A board as a node of the search: its position, its history and the keys before each
/// move of it.
pub open spec fn node_of(b: Board) -> (Position, Seq<MoveRecord>, Seq<u64>) {
    (b.position(), b.history(), b.keys())
}

/// The killers after `m` beat beta at `ply`: a quiet move not already first at that ply
/// goes first there and the old first moves to second; anything else leaves the killers
/// as they were.
pub open spec fn remembered(
    before: Seq<[Option<Move>; KILLERS_PER_PLY]>,
    m: Move,
    ply: int,
    after: Seq<[Option<Move>; KILLERS_PER_PLY]>,
) -> bool {
    if quiet(m) && 0 <= ply < MAX_PLY && before[ply]@[0] != Some(m) {
        &&& after.len() == before.len()
        &&& forall|p: int| 0 <= p < before.len() && p != ply ==> #[trigger] after[p] == before[p]
        &&& after[ply]@[0] == Some(m)
        &&& after[ply]@[1] == before[ply]@[0]
    } else {
        after == before
    }
}

/// The board a move leads to from `b`: the move played, and pushed onto the history with
/// the key of the position it left.
pub open spec fn child_of(b: Board, m: Move, c: Board) -> bool {
    &&& c.wf()
    &&& played(b.position(), m, c.position())
    &&& c.history() == b.history().push(record_for(b.position(), m))
    &&& c.keys() == b.keys().push(b.stored_hash())
}

/// What quiescence answers on `b` with the window (alpha, beta) at `ply`: `was_aborted`
/// and `now_aborted` are whether the search had run out of time before and after.
pub open spec fn quiescence_answer(was_aborted: bool, now_aborted: bool, b: Board, alpha: int, beta: int, ply: int, r: int) -> bool {
    let standing = evaluate_spec(b.position().squares, b.position().turn);
    &&& in_window(r)
    &&& was_aborted ==> r == alpha
    &&& ply >= MAX_PLY && !now_aborted ==> r == clamp_spec(standing, alpha, beta)
    &&& ply < MAX_PLY && mated(b) && !now_aborted ==> r == terminal_spec(b, ply)
    &&& !(ply < MAX_PLY && mated(b)) ==> alpha <= r <= beta
    &&& ply < MAX_PLY && !in_check(b.position().squares, b.position().turn) && !now_aborted ==> r >= clamp_spec(standing, alpha, beta)
}

/// What alpha-beta answers on `b` at `depth` with the window (alpha, beta) at `ply`,
/// given the table's slots when it starts: the node's shortcut where it has one, and a
/// score inside the window otherwise, unless quiescence finds the side to move mated.
pub open spec fn alpha_beta_answer(
    slots: Seq<Option<Entry>>,
    was_aborted: bool,
    now_aborted: bool,
    b: Board,
    depth: int,
    alpha: int,
    beta: int,
    ply: int,
    r: int,
) -> bool {
    &&& in_window(r)
    &&& was_aborted ==> r == alpha
    &&& !now_aborted ==> (node_shortcut(slots, b, depth, ply, alpha, beta) matches Some(v) ==> r == v)
    &&& node_shortcut(slots, b, depth, ply, alpha, beta) is None && !(depth == 0 && ply < MAX_PLY && mated(b))
        ==> alpha <= r <= beta
}

/// The most a capture could bring in: what it takes, plus what a promotion turns into.
pub open spec fn optimistic_gain_spec(m: Move) -> int {
    let victim = match m.captured {
        Some(c) => base_value(c.kind()),
        None => 0,
    };
    let promotion = match m.promotion {
        Some(t) => base_value(t) - base_value(PieceType::Pawn),
        None => 0,
    };
    victim + promotion
}

/// The delta margin: none once the endgame is reached, where a capture short of alpha
/// today is tomorrow's passed pawn.
pub open spec fn delta_margin_spec(b: Board) -> int {
    if clamped_phase(b.position().squares) <= DELTA_ENDGAME_PHASE {
        0
    } else {
        DELTA_MARGIN as int
    }
}

/// Mate or stalemate; a mate is worth a little less the deeper it is, favoring the
/// shortest line.
pub fn terminal_score(board: &Board, ply: u32) -> (r: i32)
    requires
        board.wf(),
        ply <= PLY_LIMIT,
    ensures
        r == terminal_spec(*board, ply as int),
        in_window(r as int),
{
    if board.is_check(board.turn()) {
        -MATE + ply as i32
    } else {
        0
    }
}

/// The most a capture could bring in: what it takes, plus what a promotion turns into.
pub fn optimistic_gain(chess_move: &Move) -> (r: i32)
    requires
        playable(*chess_move),
    ensures
        r == optimistic_gain_spec(*chess_move),
{
    let victim: i16 = match chess_move.captured {
        Some(piece) => piece_value(piece.piece_type()),
        None => 0,
    };
    let promotion: i16 = match chess_move.promotion {
        Some(piece_type) => piece_value(piece_type) - piece_value(PieceType::Pawn),
        None => 0,
    };
    (victim + promotion) as i32
}

/// Zero once the endgame is reached, the margin otherwise.
pub fn delta_margin(board: &Board) -> (r: i32)
    requires
        board.wf(),
    ensures
        r == delta_margin_spec(*board),
{
    if game_phase_count(board) <= DELTA_ENDGAME_PHASE {
        0
    } else {
        DELTA_MARGIN
    }
}

/// The table and the killers, which outlive a single node, and what the running search
/// has counted.
pub struct Search {
    table: TranspositionTable,
    /// The nodes of the running search, counted from its root.
    positions_searched: u64,
    positions_searched_quiescience: u64,
    /// Quiet moves that beat beta at each ply, newest first.
    killers: Vec<[Option<Move>; KILLERS_PER_PLY]>,
    beta_cutoffs: u64,
    killer_cutoffs: u64,
    first_move_cutoffs: u64,
    lmr_reductions: u64,
    lmr_researches: u64,
    /// When the running search must stop; None for a search bounded only by depth.
    deadline: Option<Instant>,
    /// Set once the deadline passes: every node then returns at once.
    aborted: bool,
}

impl Search {
    /// The killers kept for each ply.
    pub closed spec fn killer_table(&self) -> Seq<[Option<Move>; KILLERS_PER_PLY]> {
        self.killers@
    }

    /// The running search has run out of time.
    pub closed spec fn is_aborted(&self) -> bool {
        self.aborted
    }

    /// The running search has a deadline.
    pub closed spec fn has_deadline(&self) -> bool {
        self.deadline is Some
    }

    /// The nodes the running search has counted.
    pub closed spec fn nodes(&self) -> u64 {
        self.positions_searched
    }

    /// The slots of the search's transposition table.
    pub closed spec fn table_slots(&self) -> Seq<Option<Entry>> {
        self.table.slots()
    }

    /// The generation the table files entries under.
    pub closed spec fn table_generation(&self) -> u8 {
        self.table.generation()
    }

    /// The cutoff counters: beta cutoffs, those a killer made, those the first move made.
    pub closed spec fn cutoffs(&self) -> (int, int, int) {
        (self.beta_cutoffs as int, self.killer_cutoffs as int, self.first_move_cutoffs as int)
    }

    /// The late move reduction counters: reductions made, and reduced moves searched again.
    pub closed spec fn reductions(&self) -> (int, int) {
        (self.lmr_reductions as int, self.lmr_researches as int)
    }

    /// The table is well formed, there is a killer slot for every ply, and every killer
    /// is a quiet move.
    pub closed spec fn wf(&self) -> bool {
        &&& self.table.wf()
        &&& self.killers@.len() == MAX_PLY
        &&& forall|p: int, s: int|
            0 <= p < MAX_PLY && 0 <= s < KILLERS_PER_PLY ==> (#[trigger] self.killers@[p]@[s] matches Some(m) ==> quiet(m))
    }

    /// Whether the node counts and abort state changed only as a search may change them:
    /// an aborted search stays aborted, and only a search with a deadline aborts.
    pub open spec fn stepped(before: Search, after: Search) -> bool {
        &&& after.wf()
        &&& after.has_deadline() == before.has_deadline()
        &&& before.is_aborted() ==> after.is_aborted()
        &&& after.is_aborted() ==> before.is_aborted() || before.has_deadline()
        &&& after.nodes() >= before.nodes()
    }

    /// A search with a table of about `table_megabytes`. The opening book is not part of
    /// this library, so every position is searched.
    pub fn new(table_megabytes: usize) -> (r: Search)
        requires
            table_megabytes <= usize::MAX / 1048576,
        ensures
            r.wf(),
            !r.has_deadline(),
            !r.is_aborted(),
    {
        let table = TranspositionTable::new(table_megabytes);
        let mut killers: Vec<[Option<Move>; KILLERS_PER_PLY]> = Vec::new();
        while killers.len() < MAX_PLY as usize
            invariant
                killers@.len() <= MAX_PLY,
                forall|p: int, s: int|
                    0 <= p < killers@.len() && 0 <= s < KILLERS_PER_PLY ==> #[trigger] killers@[p]@[s] is None,
            decreases MAX_PLY - killers@.len(),
        {
            killers.push([None, None]);
        }
        Search {
            table,
            positions_searched: 0,
            positions_searched_quiescience: 0,
            killers,
            beta_cutoffs: 0,
            killer_cutoffs: 0,
            first_move_cutoffs: 0,
            lmr_reductions: 0,
            lmr_researches: 0,
            deadline: None,
            aborted: false,
        }
    }

    /// Searches every position, opening or not.
    pub fn without_book(table_megabytes: usize) -> (r: Search)
        requires
            table_megabytes <= usize::MAX / 1048576,
        ensures
            r.wf(),
            !r.has_deadline(),
            !r.is_aborted(),
    {
        Search::new(table_megabytes)
    }

    /// Asked once a node: reads the clock only every DEADLINE_CHECK_INTERVAL nodes, and
    /// once the answer is yes it stays yes for the rest of the search.
    fn should_stop(&mut self) -> (r: bool)
        requires
            old(self).wf(),
        ensures
            Search::stepped(*old(self), *final(self)),
            r == final(self).is_aborted(),
            final(self).nodes() == old(self).nodes(),
            final(self).table_slots() == old(self).table_slots(),
            final(self).killer_table() == old(self).killer_table(),
            final(self).table_generation() == old(self).table_generation(),
            final(self).cutoffs() == old(self).cutoffs(),
            final(self).reductions() == old(self).reductions(),
    {
        if self.aborted {
            return true;
        }
        match self.deadline {
            Some(deadline) => {
                if self.positions_searched % DEADLINE_CHECK_INTERVAL == 0 && has_passed(&deadline) {
                    self.aborted = true;
                }
            },
            None => {},
        }
        self.aborted
    }

    /// The killers of a ply, or none at all past the depth they are kept for.
    pub fn killers_at(&self, ply: u32) -> (r: [Option<Move>; KILLERS_PER_PLY])
        requires
            self.wf(),
        ensures
            ply < MAX_PLY ==> r == self.killer_table()[ply as int],
            ply >= MAX_PLY ==> r@[0] is None && r@[1] is None,
            forall|s: int| 0 <= s < KILLERS_PER_PLY ==> (#[trigger] r@[s] matches Some(m) ==> quiet(m)),
    {
        if ply < MAX_PLY {
            let killers = self.killers[ply as usize];
            proof {
                assert forall|s: int| 0 <= s < KILLERS_PER_PLY implies (#[trigger] killers@[s] matches Some(m) ==> quiet(m)) by {
                    assert(self.killers@[ply as int]@[s] == killers@[s]);
                }
            }
            killers
        } else {
            [None, None]
        }
    }

    /// A quiet move that beat beta, remembered for the next node at this ply: captures and
    /// promotions are not kept, and a move already first does not push itself into second.
    fn remember_killer(&mut self, chess_move: Move, ply: u32)
        requires
            old(self).wf(),
        ensures
            Search::stepped(*old(self), *final(self)),
            final(self).nodes() == old(self).nodes(),
            final(self).is_aborted() == old(self).is_aborted(),
            final(self).table_slots() == old(self).table_slots(),
            final(self).table_generation() == old(self).table_generation(),
            remembered(old(self).killer_table(), chess_move, ply as int, final(self).killer_table()),
            final(self).killer_table() == remember_spec(old(self).killer_table(), chess_move, ply as int),
            final(self).cutoffs() == old(self).cutoffs(),
            final(self).reductions() == old(self).reductions(),
    {
        if chess_move.captured.is_some() || chess_move.promotion.is_some() {
            return;
        }
        if ply >= MAX_PLY {
            return;
        }
        let slots = self.killers[ply as usize];
        match slots[0] {
            Some(first) => {
                if first == chess_move {
                    return;
                }
            },
            None => {},
        }
        let updated: [Option<Move>; KILLERS_PER_PLY] = [Some(chess_move), slots[0]];
        let ghost before = self.killers@;
        self.killers.set(ply as usize, updated);
        proof {
            broadcast use vstd::array::group_array_axioms;
            let slot = vstd::array::spec_array_update(vstd::array::spec_array_update(before[ply as int], 0, Some(chess_move)), 1, before[ply as int]@[0]);
            assert(updated =~= slot);
            assert(self.killers@ =~= before.update(ply as int, slot));
            assert forall|p: int, s: int|
                0 <= p < MAX_PLY && 0 <= s < KILLERS_PER_PLY implies (#[trigger] self.killers@[p]@[s] matches Some(m) ==> quiet(m)) by {
                if p != ply {
                    assert(self.killers@[p] == before[p]);
                } else if s == 1 {
                    assert(before[p]@[0] == slots@[0]);
                }
            }
        }
    }
}

/// The score brought into the window.
fn clamp_score(score: i32, alpha: i32, beta: i32) -> (r: i32)
    requires
        alpha <= beta,
    ensures
        r == clamp_spec(score as int, alpha as int, beta as int),
{
    if score < alpha {
        alpha
    } else if score > beta {
        beta
    } else {
        score
    }
}

impl Search {
    /// Captures only, until nothing is hanging, then the static evaluation - out of check
    /// every evasion instead, never pruned, so a mate cannot read as a score. Nodes past
    /// MAX_PLY are scored as they stand. Nothing here is filed in the table.
    pub fn quiescence(&mut self, board: &mut Board, alpha: i32, beta: i32, ply: u32) -> (r: i32)
        requires
            old(self).wf(),
            old(board).wf(),
            -INFINITY <= alpha <= beta <= INFINITY,
            ply <= PLY_LIMIT,
        ensures
            Search::stepped(*old(self), *final(self)),
            unchanged(*old(board), *final(board)),
            in_window(r as int),
            old(self).is_aborted() ==> r == alpha,
            ply >= MAX_PLY && !final(self).is_aborted() ==> r == clamp_spec(
                evaluate_spec(old(board).position().squares, old(board).position().turn),
                alpha as int,
                beta as int,
            ),
            ply < MAX_PLY && mated(*old(board)) && !final(self).is_aborted() ==> r == terminal_spec(*old(board), ply as int),
            !(ply < MAX_PLY && mated(*old(board))) ==> alpha <= r <= beta,
            ply < MAX_PLY && !in_check(old(board).position().squares, old(board).position().turn)
                && !final(self).is_aborted() ==> r >= clamp_spec(
                evaluate_spec(old(board).position().squares, old(board).position().turn),
                alpha as int,
                beta as int,
            ),
            !final(self).is_aborted() ==> r == qs_value(old(self).killer_table(), old(board).position(), alpha as int, beta as int, ply as int),
            final(self).killer_table() == old(self).killer_table(),
            final(self).table_slots() == old(self).table_slots(),
            final(self).table_generation() == old(self).table_generation(),
            final(self).cutoffs() == old(self).cutoffs(),
            final(self).reductions() == old(self).reductions(),
        decreases (if ply < MAX_PLY { MAX_PLY - ply } else { 0 }), 0int,
    {
        let ghost entry = *self;
        let ghost before = *board;
        let ghost p = before.position();
        let ghost killers_held = entry.killer_table();
        let ghost target = qs_value(killers_held, p, alpha as int, beta as int, ply as int);
        self.positions_searched = self.positions_searched.saturating_add(1);
        self.positions_searched_quiescience = self.positions_searched_quiescience.saturating_add(1);
        if self.should_stop() {
            return alpha;
        }
        if ply >= MAX_PLY {
            let standing = evaluate(board);
            return clamp_score(standing, alpha, beta);
        }
        // the best score found so far, never below alpha
        let mut best = alpha;

        // no standing pat out of check, and every evasion counts, not only captures
        if board.is_check(board.turn()) {
            let killers = self.killers_at(ply);
            let mut order = MoveOrder::new();
            order.load(board, None, killers);
            let ghost loaded = order.loaded();
            let ghost moves = order.moves();
            let ghost sequence = handed_order(loaded);
            proof {
                lemma_generated_is_legal_list(p, moves);
                assert(loaded =~= evasion_pairs(p, killers_held[ply as int]@));
                if moves.len() > 0 {
                    assert(moves.contains(moves[0]));
                } else {
                    assert forall|m: Move| !legal_move(before.position(), before.position().turn, m) by {
                        if legal_move(before.position(), before.position().turn, m) {
                            assert(moves.contains(m));
                        }
                    }
                }
            }
            if order.len() == 0 {
                return terminal_score(board, ply);
            }
            loop
                invariant
                    entry == *old(self),
                    before == *old(board),
                    p == before.position(),
                    killers_held == entry.killer_table(),
                    target == qs_value(killers_held, p, alpha as int, beta as int, ply as int),
                    Search::stepped(entry, *self),
                    !self.is_aborted(),
                    self.killer_table() == entry.killer_table(),
                    self.table_slots() == entry.table_slots(),
                    self.table_generation() == entry.table_generation(),
                    self.cutoffs() == entry.cutoffs(),
                    self.reductions() == entry.reductions(),
                    unchanged(before, *board),
                    order.wf(),
                    order.loaded() == loaded,
                    loaded.len() == moves.len(),
                    order.moves().len() == moves.len(),
                    forall|i: int| 0 <= i < loaded.len() ==> #[trigger] loaded[i].0 == moves[i],
                    generated(before.position(), before.position().turn, false, moves),
                    order.pairs() == selected(loaded, order.handed() as nat),
                    sequence == handed_order(loaded),
                    target == qs_scan(killers_held, p, sequence, order.handed(), best as int, beta as int, ply as int, false, evaluate_spec(p.squares, p.turn)),
                    -INFINITY <= best <= beta <= INFINITY,
                    alpha <= best,
                    !mated(before),
                    ply < MAX_PLY,
                ensures
                    order.handed() == moves.len(),
                decreases order.moves().len() - order.handed(),
            {
                let ghost h = order.handed();
                let next = order.next();
                let chess_move = match next {
                    Some(m) => m,
                    None => {
                        break;
                    },
                };
                proof {
                    lemma_selected_len(loaded, (h + 1) as nat);
                    assert(order.pairs() == selected(loaded, (h + 1) as nat));
                    assert(chess_move == order.pairs()[h].0);
                    assert(chess_move == sequence[h]);
                    let i = choose|i: int| 0 <= i < loaded.len() && loaded[i].0 == chess_move;
                    assert(moves.contains(moves[i]));
                }
                let score = self.quiescence_move(board, chess_move, best, beta, ply);
                if self.aborted {
                    return best;
                }
                proof {
                    assert(score == -qs_value(killers_held, position_after(p, chess_move), -(beta as int), -(best as int), ply + 1));
                    assert(target == qs_scan(killers_held, p, sequence, h, best as int, beta as int, ply as int, false, evaluate_spec(p.squares, p.turn)));
                    assert(0 <= h < sequence.len());
                    assert(sequence[h] == chess_move);
                    assert(score >= beta ==> target == beta);
                }
                if score >= beta {
                    return beta;
                }
                if score > best {
                    best = score;
                }
            }
            proof {
                assert(sequence.len() == loaded.len());
                assert(order.handed() == sequence.len());
            }
            return best;
        }

        // nobody is forced to capture, so this is a floor; most nodes cut off on it
        let stand_pat = evaluate(board);
        if stand_pat >= beta {
            return beta;
        }
        if stand_pat > best {
            best = stand_pat;
        }
        let ghost floor = clamp_spec(stand_pat as int, alpha as int, beta as int);
        let margin = delta_margin(board);
        let mut order = MoveOrder::new();
        order.load_captures(board);
        let ghost loaded = order.loaded();
        let ghost moves = order.moves();
        let ghost sequence = handed_order(loaded);
        proof {
            lemma_generated_is_capture_list(p, moves);
            assert(loaded =~= capture_pairs(p));
        }
        loop
            invariant
                entry == *old(self),
                before == *old(board),
                p == before.position(),
                killers_held == entry.killer_table(),
                target == qs_value(killers_held, p, alpha as int, beta as int, ply as int),
                Search::stepped(entry, *self),
                !self.is_aborted(),
                self.killer_table() == entry.killer_table(),
                self.table_slots() == entry.table_slots(),
                    self.table_generation() == entry.table_generation(),
                    self.cutoffs() == entry.cutoffs(),
                    self.reductions() == entry.reductions(),
                unchanged(before, *board),
                order.wf(),
                order.loaded() == loaded,
                loaded.len() == moves.len(),
                order.moves().len() == moves.len(),
                forall|i: int| 0 <= i < loaded.len() ==> #[trigger] loaded[i].0 == moves[i],
                generated(before.position(), before.position().turn, true, moves),
                order.pairs() == selected(loaded, order.handed() as nat),
                sequence == handed_order(loaded),
                stand_pat == evaluate_spec(p.squares, p.turn),
                margin == delta_margin_spec(before),
                target == qs_scan(killers_held, p, sequence, order.handed(), best as int, beta as int, ply as int, true, stand_pat as int),
                -INFINITY <= best <= beta <= INFINITY,
                alpha <= best,
                floor <= best,
                floor == clamp_spec(
                    evaluate_spec(before.position().squares, before.position().turn),
                    alpha as int,
                    beta as int,
                ),
                !in_check(before.position().squares, before.position().turn),
                ply < MAX_PLY,
            ensures
                order.handed() == moves.len(),
            decreases order.moves().len() - order.handed(),
        {
            let ghost h = order.handed();
            let next = order.next();
            let chess_move = match next {
                Some(m) => m,
                None => {
                    break;
                },
            };
            proof {
                lemma_selected_len(loaded, (h + 1) as nat);
                assert(order.pairs() == selected(loaded, (h + 1) as nat));
                assert(chess_move == order.pairs()[h].0);
                assert(chess_move == sequence[h]);
                let i = choose|i: int| 0 <= i < loaded.len() && loaded[i].0 == chess_move;
                assert(moves.contains(moves[i]));
                board.lemma_wf_squares();
                lemma_legal_playable(board.position(), board.position().turn, chess_move);
            }
            // delta pruning: winning this piece for free still would not reach the best so far
            if (stand_pat as i64) + (optimistic_gain(&chess_move) as i64) + (margin as i64) < (best as i64) {
                continue;
            }
            // and a capture the recaptures win back is not worth a subtree of its own
            if see(board, &chess_move) < 0 {
                continue;
            }
            let score = self.quiescence_move(board, chess_move, best, beta, ply);
            if self.aborted {
                return best;
            }
            proof {
                assert(score == -qs_value(killers_held, position_after(p, chess_move), -(beta as int), -(best as int), ply + 1));
                assert(target == qs_scan(killers_held, p, sequence, h, best as int, beta as int, ply as int, true, stand_pat as int));
            }
            if score >= beta {
                return beta;
            }
            if score > best {
                best = score;
            }
        }
        proof {
            assert(sequence.len() == loaded.len());
            assert(order.handed() == sequence.len());
        }
        best
    }
}

impl Search {
    /// Plays a legal move, asks quiescence one ply down with the window turned around, and
    /// takes the move back: the move's score for the side that played it.
    fn quiescence_move(&mut self, board: &mut Board, chess_move: Move, alpha: i32, beta: i32, ply: u32) -> (r: i32)
        requires
            old(self).wf(),
            old(board).wf(),
            legal_move(old(board).position(), old(board).position().turn, chess_move),
            -INFINITY <= alpha <= beta <= INFINITY,
            ply < MAX_PLY,
        ensures
            Search::stepped(*old(self), *final(self)),
            unchanged(*old(board), *final(board)),
            in_window(r as int),
            exists|c: Board|
                #[trigger] child_of(*old(board), chess_move, c) && quiescence_answer(
                    old(self).is_aborted(),
                    final(self).is_aborted(),
                    c,
                    -(beta as int),
                    -(alpha as int),
                    ply + 1,
                    -(r as int),
                ),
            !final(self).is_aborted() ==> r == -qs_value(
                old(self).killer_table(),
                position_after(old(board).position(), chess_move),
                -(beta as int),
                -(alpha as int),
                ply + 1,
            ),
            final(self).killer_table() == old(self).killer_table(),
            final(self).table_slots() == old(self).table_slots(),
            final(self).table_generation() == old(self).table_generation(),
            final(self).cutoffs() == old(self).cutoffs(),
            final(self).reductions() == old(self).reductions(),
        decreases MAX_PLY - ply - 1, 1int,
    {
        let ghost before = *board;
        let ghost entry = *self;
        proof {
            board.lemma_wf_squares();
            lemma_legal_playable(board.position(), board.position().turn, chess_move);
        }
        board.make_move(&chess_move);
        let ghost after = board.position();
        let ghost child_board = *board;
        let child = self.quiescence(board, -beta, -alpha, ply + 1);
        proof {
            lemma_played_is_position_after(before.position(), chess_move, child_board.position());
            assert(child_of(before, chess_move, child_board));
            assert(quiescence_answer(
                entry.is_aborted(),
                self.is_aborted(),
                child_board,
                -(beta as int),
                -(alpha as int),
                ply + 1,
                child as int,
            ));
        }
        board.undo_move();
        proof {
            law_undo_restores(before.position(), chess_move, after);
            assert(board.history() =~= before.history());
            assert(board.keys() =~= before.keys());
        }
        -child
    }
}

impl Search {
    /// Negamax with alpha-beta pruning, fail-hard: the value of the node for the side to
    /// move, clamped into the window. A repeated position scores as a draw, a node the
    /// table settles is answered from it, depth 0 hands over to quiescence, and a node
    /// with no moves scores as mate or stalemate. What a node finds is filed in the table.
    pub fn alpha_beta(&mut self, board: &mut Board, depth: u32, alpha: i32, beta: i32, ply: u32) -> (r: i32)
        requires
            old(self).wf(),
            old(board).wf(),
            -INFINITY <= alpha <= beta <= INFINITY,
            ply + depth <= PLY_LIMIT,
            old(board).history().len() + depth < usize::MAX,
        ensures
            Search::stepped(*old(self), *final(self)),
            unchanged(*old(board), *final(board)),
            in_window(r as int),
            old(self).is_aborted() ==> r == alpha,
            !final(self).is_aborted() ==> (node_shortcut(
                old(self).table_slots(),
                *old(board),
                depth as int,
                ply as int,
                alpha as int,
                beta as int,
            ) matches Some(v) ==> r == v),
            node_shortcut(old(self).table_slots(), *old(board), depth as int, ply as int, alpha as int, beta as int) is None
                && !(depth == 0 && ply < MAX_PLY && mated(*old(board))) ==> alpha <= r <= beta,
            final(self).table_generation() == old(self).table_generation(),
            final(self).reductions() == old(self).reductions(),
            !final(self).is_aborted() ==> ({
                let v = ab_value(
                    old(self).table_slots(),
                    old(self).table_generation(),
                    old(self).killer_table(),
                    node_of(*old(board)),
                    depth as int,
                    alpha as int,
                    beta as int,
                    ply as int,
                );
                r == v.0 && final(self).table_slots() == v.1 && final(self).killer_table() == v.2
            }),
            !final(self).is_aborted() ==> final(self).cutoffs() == saturated_counts(
                count_sum(
                    old(self).cutoffs(),
                    ab_counts(
                        old(self).table_slots(),
                        old(self).table_generation(),
                        old(self).killer_table(),
                        node_of(*old(board)),
                        depth as int,
                        alpha as int,
                        beta as int,
                        ply as int,
                    ),
                ),
            ),
        decreases depth, 1int,
    {
        let ghost entry = *self;
        let ghost before = *board;
        let ghost node = node_of(before);
        let ghost target = ab_value(
            entry.table_slots(),
            entry.table_generation(),
            entry.killer_table(),
            node,
            depth as int,
            alpha as int,
            beta as int,
            ply as int,
        );
        let ghost counted = ab_counts(
            entry.table_slots(),
            entry.table_generation(),
            entry.killer_table(),
            node,
            depth as int,
            alpha as int,
            beta as int,
            ply as int,
        );
        proof {
            before.lemma_hash_is_position_hash();
        }
        self.positions_searched = self.positions_searched.saturating_add(1);
        // out of time: unwind without searching, and without filing anything on the way
        if self.should_stop() {
            return alpha;
        }
        // a repeated position is a draw regardless of material
        if board.is_repetition_draw(ply) {
            return 0;
        }
        // the table files positions, not the moves that led to them
        let probe = self.table.probe(board.hash(), depth, ply, alpha, beta);
        match probe.cutoff {
            Some(score) => {
                return clamp_score(score, alpha, beta);
            },
            None => {},
        }
        if depth == 0 {
            return self.quiescence(board, alpha, beta, ply);
        }
        let killers = self.killers_at(ply);
        let mut order = MoveOrder::new();
        order.load(board, probe.best_move, killers);
        let ghost loaded = order.loaded();
        let ghost moves = order.moves();
        let ghost sequence = handed_order(loaded);
        proof {
            lemma_generated_is_legal_list(before.position(), moves);
            assert(killers@ =~= killer_slot(entry.killer_table(), ply as int));
            assert(loaded =~= node_pairs(before.position(), probe.best_move, killer_slot(entry.killer_table(), ply as int)));
            if moves.len() > 0 {
                assert(moves.contains(moves[0]));
            } else {
                assert forall|m: Move| !legal_move(before.position(), before.position().turn, m) by {
                    if legal_move(before.position(), before.position().turn, m) {
                        assert(moves.contains(m));
                    }
                }
            }
        }
        if order.len() == 0 {
            return terminal_score(board, ply);
        }
        // a mate on the last ply of the fifty still counts as mate, not a draw
        if board.is_fifty_move_draw() {
            return 0;
        }
        let mut best = alpha;
        // until a move beats alpha, this node is worth no more than alpha
        let mut node_type = NodeType::UpperBound;
        let mut best_move: Option<Move> = None;
        let mut tried: usize = 0;
        let ghost mut acc: (int, int, int) = (0, 0, 0);
        loop
            invariant
                entry == *old(self),
                before == *old(board),
                node == node_of(before),
                acc.0 >= 0 && acc.1 >= 0 && acc.2 >= 0,
                self.reductions() == entry.reductions(),
                self.cutoffs() == saturated_counts(count_sum(entry.cutoffs(), acc)),
                counted == ab_counts(
                    entry.table_slots(),
                    entry.table_generation(),
                    entry.killer_table(),
                    node,
                    depth as int,
                    alpha as int,
                    beta as int,
                    ply as int,
                ),
                counted == count_sum(
                    acc,
                    ab_scan_counts(
                        self.table_slots(),
                        entry.table_generation(),
                        self.killer_table(),
                        node,
                        sequence,
                        order.handed(),
                        best as int,
                        depth as int,
                        beta as int,
                        ply as int,
                        killers@,
                    ),
                ),
                killers@ == killer_slot(entry.killer_table(), ply as int),
                before.stored_hash() == position_hash(before.position()),
                target == ab_value(
                    entry.table_slots(),
                    entry.table_generation(),
                    entry.killer_table(),
                    node,
                    depth as int,
                    alpha as int,
                    beta as int,
                    ply as int,
                ),
                target == ab_scan(
                    self.table_slots(),
                    entry.table_generation(),
                    self.killer_table(),
                    node,
                    sequence,
                    order.handed(),
                    best as int,
                    best_move,
                    node_type,
                    depth as int,
                    beta as int,
                    ply as int,
                ),
                self.table_generation() == entry.table_generation(),
                Search::stepped(entry, *self),
                !self.is_aborted(),
                unchanged(before, *board),
                order.wf(),
                order.loaded() == loaded,
                loaded.len() == moves.len(),
                order.moves().len() == moves.len(),
                order.pairs() == selected(loaded, order.handed() as nat),
                sequence == handed_order(loaded),
                forall|i: int| 0 <= i < loaded.len() ==> #[trigger] loaded[i].0 == moves[i],
                generated(before.position(), before.position().turn, false, moves),
                -INFINITY <= best <= beta <= INFINITY,
                alpha <= best,
                node_shortcut(entry.table_slots(), before, depth as int, ply as int, alpha as int, beta as int) is None,
                1 <= depth,
                ply + depth <= PLY_LIMIT,
                before.history().len() + depth < usize::MAX,
            ensures
                order.handed() == moves.len(),
            decreases order.moves().len() - order.handed(),
        {
            let ghost h = order.handed();
            let next = order.next();
            let chess_move = match next {
                Some(m) => m,
                None => {
                    break;
                },
            };
            proof {
                lemma_selected_len(loaded, (h + 1) as nat);
                assert(order.pairs() == selected(loaded, (h + 1) as nat));
                assert(chess_move == order.pairs()[h].0);
                assert(chess_move == sequence[h]);
                let i = choose|i: int| 0 <= i < loaded.len() && loaded[i].0 == chess_move;
                assert(moves.contains(moves[i]));
            }
            tried = order.handed_out();
            let ghost slots_before = self.table_slots();
            let ghost killers_before = self.killer_table();
            let ghost cuts_before = self.cutoffs();
            let score = self.alpha_beta_move(board, chess_move, depth, best, beta, ply);
            // this move's score never finished, so it can neither raise the best nor be filed
            if self.aborted {
                return best;
            }
            let ghost below = ab_counts(
                slots_before,
                entry.table_generation(),
                killers_before,
                child_node(node, chess_move),
                depth - 1,
                -(beta as int),
                -(best as int),
                ply + 1,
            );
            proof {
                lemma_ab_counts_nonnegative(
                    slots_before,
                    entry.table_generation(),
                    killers_before,
                    child_node(node, chess_move),
                    depth - 1,
                    -(beta as int),
                    -(best as int),
                    ply + 1,
                );
                lemma_saturated_sum(count_sum(entry.cutoffs(), acc), below);
                assert(self.cutoffs() == saturated_counts(count_sum(entry.cutoffs(), count_sum(acc, below))));
                assert(counted == count_sum(
                    acc,
                    ab_scan_counts(
                        slots_before,
                        entry.table_generation(),
                        killers_before,
                        node,
                        sequence,
                        h,
                        best as int,
                        depth as int,
                        beta as int,
                        ply as int,
                        killers@,
                    ),
                ));
                assert(0 <= h < sequence.len());
                assert(target == ab_scan(
                    slots_before,
                    entry.table_generation(),
                    killers_before,
                    node,
                    sequence,
                    h,
                    best as int,
                    best_move,
                    node_type,
                    depth as int,
                    beta as int,
                    ply as int,
                ));
            }
            if score >= beta {
                self.beta_cutoffs = self.beta_cutoffs.saturating_add(1);
                if tried == 1 {
                    self.first_move_cutoffs = self.first_move_cutoffs.saturating_add(1);
                }
                if holds(&killers[0], &chess_move) || holds(&killers[1], &chess_move) {
                    self.killer_cutoffs = self.killer_cutoffs.saturating_add(1);
                }
                self.remember_killer(chess_move, ply);
                proof {
                    board.lemma_hash_is_position_hash();
                    let bump = (1int, if killers@[0] == Some(chess_move) || killers@[1] == Some(chess_move) { 1int } else { 0int }, if h == 0 { 1int } else { 0int });
                    lemma_saturated_sum(count_sum(entry.cutoffs(), count_sum(acc, below)), bump);
                    assert(self.cutoffs() == saturated_counts(count_sum(entry.cutoffs(), count_sum(acc, count_sum(below, bump)))));
                }
                // beta is only a floor here, and this is the move to try first next time
                self.table.store(board.hash(), depth, ply, beta, NodeType::LowerBound, Some(chess_move));
                return beta;
            }
            if score > best {
                best = score;
                best_move = Some(chess_move);
                node_type = NodeType::Exact;
            }
            proof {
                acc = count_sum(acc, below);
            }
        }
        proof {
            assert(sequence.len() == loaded.len());
            board.lemma_hash_is_position_hash();
        }
        self.table.store(board.hash(), depth, ply, best, node_type, best_move);
        best
    }

    /// Plays a legal move, searches one ply less deep with the window turned around, and
    /// takes the move back: the move's score for the side that played it.
    fn alpha_beta_move(&mut self, board: &mut Board, chess_move: Move, depth: u32, alpha: i32, beta: i32, ply: u32) -> (r: i32)
        requires
            old(self).wf(),
            old(board).wf(),
            legal_move(old(board).position(), old(board).position().turn, chess_move),
            -INFINITY <= alpha <= beta <= INFINITY,
            1 <= depth,
            ply + depth <= PLY_LIMIT,
            old(board).history().len() + depth < usize::MAX,
        ensures
            Search::stepped(*old(self), *final(self)),
            unchanged(*old(board), *final(board)),
            in_window(r as int),
            exists|c: Board|
                #[trigger] child_of(*old(board), chess_move, c) && alpha_beta_answer(
                    old(self).table_slots(),
                    old(self).is_aborted(),
                    final(self).is_aborted(),
                    c,
                    depth - 1,
                    -(beta as int),
                    -(alpha as int),
                    ply + 1,
                    -(r as int),
                ),
            final(self).table_generation() == old(self).table_generation(),
            final(self).reductions() == old(self).reductions(),
            !final(self).is_aborted() ==> ({
                let v = ab_value(
                    old(self).table_slots(),
                    old(self).table_generation(),
                    old(self).killer_table(),
                    child_node(node_of(*old(board)), chess_move),
                    depth - 1,
                    -(beta as int),
                    -(alpha as int),
                    ply + 1,
                );
                -(r as int) == v.0 && final(self).table_slots() == v.1 && final(self).killer_table() == v.2
            }),
            !final(self).is_aborted() ==> final(self).cutoffs() == saturated_counts(
                count_sum(
                    old(self).cutoffs(),
                    ab_counts(
                        old(self).table_slots(),
                        old(self).table_generation(),
                        old(self).killer_table(),
                        child_node(node_of(*old(board)), chess_move),
                        depth - 1,
                        -(beta as int),
                        -(alpha as int),
                        ply + 1,
                    ),
                ),
            ),
        decreases depth, 0int,
    {
        let ghost before = *board;
        let ghost entry = *self;
        proof {
            board.lemma_wf_squares();
            lemma_legal_playable(board.position(), board.position().turn, chess_move);
        }
        board.make_move(&chess_move);
        let ghost after = board.position();
        let ghost child_board = *board;
        let child = self.alpha_beta(board, depth - 1, -beta, -alpha, ply + 1);
        proof {
            lemma_played_is_position_after(before.position(), chess_move, child_board.position());
            before.lemma_hash_is_position_hash();
            assert(node_of(child_board) == child_node(node_of(before), chess_move));
            assert(entry.cutoffs() == old(self).cutoffs());
            assert(child_of(before, chess_move, child_board));
            assert(alpha_beta_answer(
                entry.table_slots(),
                entry.is_aborted(),
                self.is_aborted(),
                child_board,
                depth - 1,
                -(beta as int),
                -(alpha as int),
                ply + 1,
                child as int,
            ));
        }
        board.undo_move();
        proof {
            law_undo_restores(before.position(), chess_move, after);
            assert(board.history() =~= before.history());
            assert(board.keys() =~= before.keys());
        }
        -child
    }
}

/// What a search is allowed to spend: plies, wall time, or both.
#[derive(Clone, Copy)]
pub struct SearchLimits {
    /// The deepest pass the deepening may run; a ceiling only, under a deadline.
    pub max_depth: u32,
    /// When set, the search stops once this passes and keeps the last finished pass.
    pub deadline: Option<Instant>,
}

impl SearchLimits {
    /// Deepen to exactly this depth, however long it takes.
    pub fn depth(max_depth: u32) -> (r: SearchLimits)
        ensures
            r.max_depth == max_depth,
            r.deadline is None,
    {
        SearchLimits { max_depth, deadline: None }
    }

    /// Deepen for as long as `budget` allows, up to MAX_SEARCH_DEPTH. A budget the
    /// machine's clock cannot count that far ahead sets no deadline at all.
    pub fn timed(budget: TimeSpan) -> (r: SearchLimits)
        ensures
            r.max_depth == MAX_SEARCH_DEPTH,
    {
        SearchLimits { max_depth: MAX_SEARCH_DEPTH, deadline: moment_after(budget) }
    }
}

/// One pass of the deepening, as it stood when that pass finished.
#[derive(Clone, Copy)]
pub struct DepthPass {
    pub depth: u32,
    pub best_move: Option<Move>,
    pub score: i32,
    /// Every node of the search so far, this pass and the shallower ones before it.
    pub positions_searched: u64,
    /// Measured from the start of the search, not of this pass.
    pub elapsed: TimeSpan,
}

pub struct SearchResult {
    /// The deepest pass that finished, which is what best_move and score come from.
    pub depth: u32,
    pub best_move: Option<Move>,
    pub score: i32,
    pub positions_searched: u64,
    pub positions_searched_quiescience: u64,
    /// How many nodes the table answered without searching them.
    pub table_cutoffs: u64,
    /// How many of the table's slots have been written, and how many there are.
    pub table_filled: usize,
    pub table_slots: usize,
    /// Whether the move was read out of an opening book; this library has none.
    pub from_book: bool,
    /// Whether the deadline cut the search short.
    pub aborted: bool,
    /// What each pass of the deepening found, in order.
    pub passes: Vec<DepthPass>,
    pub beta_cutoffs: u64,
    pub killer_cutoffs: u64,
    pub first_move_cutoffs: u64,
    pub lmr_reductions: u64,
    pub lmr_researches: u64,
}

/// A score that proves a mate.
pub open spec fn is_mate_score(score: int) -> bool {
    score >= MATE_BOUND || score <= -MATE_BOUND
}

/// `m` is the only legal move of the side to move.
pub open spec fn sole_legal_move(b: Board, m: Move) -> bool {
    forall|other: Move| #[trigger] legal_move(b.position(), b.position().turn, other) <==> other == m
}

/// The side to move has exactly one legal move.
pub open spec fn forced_move(b: Board) -> bool {
    exists|m: Move| #[trigger] sole_legal_move(b, m)
}

/// Why a finished pass ends the deepening: the game is over on the board, a mate is
/// proved, or the move is forced under a clock.
pub open spec fn last_pass_reason(pass: DepthPass, forced: bool) -> bool {
    pass.best_move is None || is_mate_score(pass.score as int) || forced
}

/// What a finished deepening looks like: one pass per depth from 1 up, the result taken
/// from the last, every pass but the last leaving room for another, and node counts that
/// only grow.
pub open spec fn deepening_shape(r: SearchResult, forced: bool) -> bool {
    let passes = r.passes@;
    &&& passes.len() == r.depth
    &&& forall|i: int| 0 <= i < passes.len() ==> #[trigger] passes[i].depth == i + 1
    &&& forall|i: int| 0 <= i < passes.len() ==> in_window(#[trigger] passes[i].score as int)
    &&& forall|i: int| 0 <= i < passes.len() - 1 ==> !last_pass_reason(#[trigger] passes[i], forced)
    &&& forall|i: int, j: int| 0 <= i < j < passes.len() ==> #[trigger] passes[i].positions_searched <= #[trigger] passes[j].positions_searched
    &&& passes.len() > 0 ==> {
        &&& r.best_move == passes.last().best_move
        &&& r.score == passes.last().score
        &&& passes.last().positions_searched <= r.positions_searched
        &&& !r.aborted ==> passes.last().positions_searched == r.positions_searched
    }
}

impl Search {
    /// Whether the deadline has passed; false for a search that was given none.
    fn out_of_time(&self) -> (r: bool)
        ensures
            !self.has_deadline() ==> !r,
    {
        match self.deadline {
            Some(deadline) => has_passed(&deadline),
            None => false,
        }
    }

    /// Like alpha_beta with the window wide open, but it must return a move: the best
    /// move of the position and its score, preferring among equal scores a move that does
    /// not repeat a position already on the board. `previous_best` is ordered first, and
    /// failing that the move the table kept.
    pub fn search_root(&mut self, board: &mut Board, depth: u32, previous_best: Option<Move>) -> (r: (Option<Move>, i32))
        requires
            old(self).wf(),
            old(board).wf(),
            1 <= depth <= PLY_LIMIT,
            old(board).history().len() + depth < usize::MAX,
        ensures
            Search::stepped(*old(self), *final(self)),
            unchanged(*old(board), *final(board)),
            in_window(r.1 as int),
            r.0 matches Some(m) ==> legal_move(old(board).position(), old(board).position().turn, m),
            no_legal_moves(old(board).position()) ==> r.0 is None && r.1 == terminal_spec(*old(board), 0),
            !no_legal_moves(old(board).position()) && !final(self).is_aborted() ==> r.0 is Some,
            final(self).table_generation() == old(self).table_generation(),
            final(self).reductions() == old(self).reductions(),
            !final(self).is_aborted() ==> ({
                let v = root_value(
                    old(self).table_slots(),
                    old(self).table_generation(),
                    old(self).killer_table(),
                    node_of(*old(board)),
                    depth as int,
                    previous_best,
                );
                r.0 == v.0 && r.1 == v.1 && final(self).table_slots() == v.2 && final(self).killer_table() == v.3
            }),
            !final(self).is_aborted() ==> final(self).cutoffs() == saturated_counts(
                count_sum(
                    old(self).cutoffs(),
                    root_counts(
                        old(self).table_slots(),
                        old(self).table_generation(),
                        old(self).killer_table(),
                        node_of(*old(board)),
                        depth as int,
                        previous_best,
                    ),
                ),
            ),
    {
        let ghost entry = *self;
        let ghost before = *board;
        let ghost node = node_of(before);
        let ghost target = root_value(
            entry.table_slots(),
            entry.table_generation(),
            entry.killer_table(),
            node,
            depth as int,
            previous_best,
        );
        let ghost counted = root_counts(
            entry.table_slots(),
            entry.table_generation(),
            entry.killer_table(),
            node,
            depth as int,
            previous_best,
        );
        proof {
            before.lemma_hash_is_position_hash();
        }
        let table_move = match previous_best {
            Some(m) => Some(m),
            None => self.table.best_move(board.hash()),
        };
        let mut order = MoveOrder::new();
        // the root has no killers: nothing above it ever cut off
        let no_killers: [Option<Move>; KILLERS_PER_PLY] = [None, None];
        order.load(board, table_move, no_killers);
        let ghost loaded = order.loaded();
        let ghost moves = order.moves();
        let ghost sequence = handed_order(loaded);
        proof {
            lemma_generated_is_legal_list(before.position(), moves);
            assert(no_killers@ =~= seq![None, None]);
            assert(table_move == root_table_move(previous_best, entry.table_slots(), before.position()));
            assert(loaded =~= node_pairs(before.position(), table_move, seq![None, None]));
            if moves.len() > 0 {
                assert(moves.contains(moves[0]));
            } else {
                assert forall|m: Move| !legal_move(before.position(), before.position().turn, m) by {
                    if legal_move(before.position(), before.position().turn, m) {
                        assert(moves.contains(m));
                    }
                }
            }
        }
        if order.len() == 0 {
            return (None, terminal_score(board, 0));
        }
        let mut best_move: Option<Move> = None;
        // whether best_move repeats a position already on the board - only breaks ties
        let mut best_repeats = false;
        let mut alpha = -INFINITY;
        let ghost mut acc: (int, int, int) = (0, 0, 0);
        loop
            invariant
                acc.0 >= 0 && acc.1 >= 0 && acc.2 >= 0,
                self.reductions() == entry.reductions(),
                counted == root_counts(
                    entry.table_slots(),
                    entry.table_generation(),
                    entry.killer_table(),
                    node,
                    depth as int,
                    previous_best,
                ),
                !self.is_aborted() ==> self.cutoffs() == saturated_counts(count_sum(entry.cutoffs(), acc)),
                !self.is_aborted() ==> counted == count_sum(
                    acc,
                    root_scan_counts(
                        self.table_slots(),
                        entry.table_generation(),
                        self.killer_table(),
                        node,
                        sequence,
                        order.handed(),
                        best_move,
                        best_repeats,
                        alpha as int,
                        depth as int,
                    ),
                ),
                entry == *old(self),
                before == *old(board),
                Search::stepped(entry, *self),
                order.handed() > 0 ==> !self.is_aborted(),
                unchanged(before, *board),
                order.wf(),
                order.loaded() == loaded,
                loaded.len() == moves.len(),
                moves.len() > 0,
                forall|i: int| 0 <= i < loaded.len() ==> #[trigger] loaded[i].0 == moves[i],
                generated(before.position(), before.position().turn, false, moves),
                in_window(alpha as int),
                1 <= depth <= PLY_LIMIT,
                before.history().len() + depth < usize::MAX,
                best_move matches Some(m) ==> legal_move(before.position(), before.position().turn, m),
                order.handed() > 0 ==> best_move is Some,
                order.moves().len() == moves.len(),
                node == node_of(before),
                before.stored_hash() == position_hash(before.position()),
                self.table_generation() == entry.table_generation(),
                order.pairs() == selected(loaded, order.handed() as nat),
                sequence == handed_order(loaded),
                target == root_value(
                    entry.table_slots(),
                    entry.table_generation(),
                    entry.killer_table(),
                    node,
                    depth as int,
                    previous_best,
                ),
                !self.is_aborted() ==> target == root_scan(
                    self.table_slots(),
                    entry.table_generation(),
                    self.killer_table(),
                    node,
                    sequence,
                    order.handed(),
                    best_move,
                    best_repeats,
                    alpha as int,
                    depth as int,
                ),
            ensures
                order.handed() == order.moves().len(),
                order.moves().len() == moves.len(),
            decreases order.moves().len() - order.handed(),
        {
            let ghost h = order.handed();
            let next = order.next();
            let chess_move = match next {
                Some(m) => m,
                None => {
                    break;
                },
            };
            proof {
                lemma_selected_len(loaded, (h + 1) as nat);
                assert(order.pairs() == selected(loaded, (h + 1) as nat));
                assert(chess_move == order.pairs()[h].0);
                assert(chess_move == sequence[h]);
                let i = choose|i: int| 0 <= i < loaded.len() && loaded[i].0 == chess_move;
                assert(moves.contains(moves[i]));
            }
            let ghost slots_before = self.table_slots();
            let ghost killers_before = self.killer_table();
            let ghost alpha_before = alpha as int;
            let (score, repeats) = self.root_move(board, chess_move, depth, alpha);
            let ghost below = ab_counts(
                slots_before,
                entry.table_generation(),
                killers_before,
                child_node(node, chess_move),
                depth - 1,
                -INFINITY,
                -alpha_before,
                1,
            );
            proof {
                if !self.is_aborted() {
                    lemma_ab_counts_nonnegative(
                        slots_before,
                        entry.table_generation(),
                        killers_before,
                        child_node(node, chess_move),
                        depth - 1,
                        -INFINITY,
                        -alpha_before,
                        1,
                    );
                    lemma_saturated_sum(count_sum(entry.cutoffs(), acc), below);
                    assert(self.cutoffs() == saturated_counts(count_sum(entry.cutoffs(), count_sum(acc, below))));
                }
            }
            // the clock ran out under this move: its score is unfinished
            if self.aborted {
                return (best_move, alpha);
            }
            // among equally scored moves, prefer the one that doesn't repeat
            let better = best_move.is_none() || score > alpha || (score == alpha && best_repeats && !repeats);
            if better {
                alpha = score;
                best_move = Some(chess_move);
                best_repeats = repeats;
            }
            proof {
                acc = count_sum(acc, below);
            }
        }
        proof {
            assert(sequence.len() == loaded.len());
            board.lemma_hash_is_position_hash();
        }
        // nothing was cut off up here, so this is what the position is worth
        self.table.store(board.hash(), depth, 0, alpha, NodeType::Exact, best_move);
        (best_move, alpha)
    }

    /// Plays a root move, searches it with the window open above `alpha`, notes whether
    /// the position it leads to has been on the board before, and takes the move back.
    fn root_move(&mut self, board: &mut Board, chess_move: Move, depth: u32, alpha: i32) -> (r: (i32, bool))
        requires
            old(self).wf(),
            old(board).wf(),
            legal_move(old(board).position(), old(board).position().turn, chess_move),
            in_window(alpha as int),
            1 <= depth <= PLY_LIMIT,
            old(board).history().len() + depth < usize::MAX,
        ensures
            Search::stepped(*old(self), *final(self)),
            unchanged(*old(board), *final(board)),
            in_window(r.0 as int),
            exists|c: Board|
                #[trigger] child_of(*old(board), chess_move, c) && alpha_beta_answer(
                    old(self).table_slots(),
                    old(self).is_aborted(),
                    final(self).is_aborted(),
                    c,
                    depth - 1,
                    -INFINITY,
                    -(alpha as int),
                    1,
                    -(r.0 as int),
                ) && r.1 == (repetitions_spec(c.history(), c.keys(), c.stored_hash(), c.history().len() as int) > 1),
            final(self).table_generation() == old(self).table_generation(),
            final(self).reductions() == old(self).reductions(),
            r.1 == node_seen_before(child_node(node_of(*old(board)), chess_move)),
            !final(self).is_aborted() ==> ({
                let v = ab_value(
                    old(self).table_slots(),
                    old(self).table_generation(),
                    old(self).killer_table(),
                    child_node(node_of(*old(board)), chess_move),
                    depth - 1,
                    -INFINITY,
                    -(alpha as int),
                    1,
                );
                -(r.0 as int) == v.0 && final(self).table_slots() == v.1 && final(self).killer_table() == v.2
            }),
            !final(self).is_aborted() ==> final(self).cutoffs() == saturated_counts(
                count_sum(
                    old(self).cutoffs(),
                    ab_counts(
                        old(self).table_slots(),
                        old(self).table_generation(),
                        old(self).killer_table(),
                        child_node(node_of(*old(board)), chess_move),
                        depth - 1,
                        -INFINITY,
                        -(alpha as int),
                        1,
                    ),
                ),
            ),
    {
        let ghost before = *board;
        let ghost entry = *self;
        proof {
            board.lemma_wf_squares();
            lemma_legal_playable(board.position(), board.position().turn, chess_move);
        }
        board.make_move(&chess_move);
        let ghost after = board.position();
        let ghost child_board = *board;
        let child = self.alpha_beta(board, depth - 1, -INFINITY, -alpha, 1);
        proof {
            board.lemma_hash_is_position_hash();
            child_board.lemma_hash_is_position_hash();
            lemma_played_is_position_after(before.position(), chess_move, child_board.position());
            before.lemma_hash_is_position_hash();
            assert(node_of(child_board) == child_node(node_of(before), chess_move));
        }
        let repeats = board.position_repetitions() > 1;
        proof {
            assert(child_of(before, chess_move, child_board));
            assert(alpha_beta_answer(
                entry.table_slots(),
                entry.is_aborted(),
                self.is_aborted(),
                child_board,
                depth - 1,
                -INFINITY,
                -(alpha as int),
                1,
                child as int,
            ));
        }
        board.undo_move();
        proof {
            law_undo_restores(before.position(), chess_move, after);
            assert(board.history() =~= before.history());
            assert(board.keys() =~= before.keys());
        }
        (-child, repeats)
    }
}

/// A killer slot for every ply, all empty.
fn empty_killers() -> (r: Vec<[Option<Move>; KILLERS_PER_PLY]>)
    ensures
        r@.len() == MAX_PLY,
        forall|p: int, s: int| 0 <= p < MAX_PLY && 0 <= s < KILLERS_PER_PLY ==> #[trigger] r@[p]@[s] is None,
{
    let mut killers: Vec<[Option<Move>; KILLERS_PER_PLY]> = Vec::new();
    while killers.len() < MAX_PLY as usize
        invariant
            killers@.len() <= MAX_PLY,
            forall|p: int, s: int| 0 <= p < killers@.len() && 0 <= s < KILLERS_PER_PLY ==> #[trigger] killers@[p]@[s] is None,
        decreases MAX_PLY - killers@.len(),
    {
        killers.push([None, None]);
    }
    killers
}

/// Whether the side to move has exactly one legal move, read off its move list.
fn is_forced(board: &Board) -> (r: bool)
    requires
        board.wf(),
    ensures
        r == forced_move(*board),
{
    let moves = board.legal_moves();
    let ghost p = board.position();
    proof {
        if moves@.len() == 1 {
            let m = moves@[0];
            assert forall|other: Move| #[trigger] legal_move(p, p.turn, other) <==> other == m by {
                if legal_move(p, p.turn, other) {
                    assert(moves@.contains(other));
                }
                if other == m {
                    assert(moves@.contains(m));
                }
            }
            assert(sole_legal_move(*board, m));
        } else if moves@.len() == 0 {
            assert forall|m: Move| !#[trigger] sole_legal_move(*board, m) by {
                if sole_legal_move(*board, m) {
                    assert(legal_move(p, p.turn, m));
                    assert(moves@.contains(m));
                }
            }
        } else {
            assert(moves@.contains(moves@[0]));
            assert(moves@.contains(moves@[1]));
            assert(moves@[0] != moves@[1]);
            assert forall|m: Move| !#[trigger] sole_legal_move(*board, m) by {
                if sole_legal_move(*board, m) {
                    assert(legal_move(p, p.turn, moves@[0]));
                    assert(legal_move(p, p.turn, moves@[1]));
                }
            }
        }
    }
    moves.len() == 1
}

impl Search {
    /// The best move for the side to move, iteratively deepened to `depth` plies.
    pub fn find_best_move(&mut self, board: &mut Board, depth: u32) -> (r: SearchResult)
        requires
            old(self).wf(),
            old(board).wf(),
            depth <= PLY_LIMIT,
            old(board).history().len() + depth < usize::MAX,
        ensures
            final(self).wf(),
            !final(self).has_deadline(),
            unchanged(*old(board), *final(board)),
            deepening_shape(r, false),
            r.depth == depth || (r.depth > 0 && last_pass_reason(r.passes@.last(), false)),
            depth >= 1 ==> r.depth >= 1,
            depth == 0 ==> r.best_move is None,
            in_window(r.score as int),
            r.best_move matches Some(m) ==> legal_move(old(board).position(), old(board).position().turn, m),
            no_legal_moves(old(board).position()) ==> r.best_move is None && r.score == terminal_spec(*old(board), 0),
            !no_legal_moves(old(board).position()) && depth >= 1 ==> r.best_move is Some,
            !r.aborted,
            !r.from_book,
            forall|i: int|
                #![trigger r.passes@[i]]
                0 <= i < r.passes@.len() ==> ({
                    let v = pass_value(
                        old(self).table_slots(),
                        next_generation(old(self).table_generation()),
                        node_of(*old(board)),
                        (i + 1) as nat,
                    );
                    r.passes@[i].best_move == v.0 && r.passes@[i].score == v.1
                }),
            r.lmr_reductions == 0 && r.lmr_researches == 0,
            (r.beta_cutoffs as int, r.killer_cutoffs as int, r.first_move_cutoffs as int) == saturated_counts(
                deepened_counts(
                    old(self).table_slots(),
                    next_generation(old(self).table_generation()),
                    node_of(*old(board)),
                    r.depth as nat,
                ),
            ),
    {
        self.find_best_move_limited(board, &SearchLimits::depth(depth))
    }

    /// The same search, told what it may spend rather than only how deep to go: passes of
    /// depth 1, 2, ... up to `limits.max_depth`, each ordering the previous pass's move
    /// first. The first pass always runs to its end; under a deadline a later pass that
    /// runs out of time is thrown away and the last finished one answers. The deepening
    /// stops early once the game is over on the board, once a mate is proved, or, under a
    /// deadline, when the move is forced.
    pub fn find_best_move_limited(&mut self, board: &mut Board, limits: &SearchLimits) -> (r: SearchResult)
        requires
            old(self).wf(),
            old(board).wf(),
            limits.max_depth <= PLY_LIMIT,
            old(board).history().len() + limits.max_depth < usize::MAX,
        ensures
            final(self).wf(),
            !final(self).has_deadline(),
            unchanged(*old(board), *final(board)),
            deepening_shape(r, limits.deadline is Some && forced_move(*old(board))),
            r.depth <= limits.max_depth,
            r.depth < limits.max_depth && !r.aborted ==> r.depth > 0 && last_pass_reason(
                r.passes@.last(),
                limits.deadline is Some && forced_move(*old(board)),
            ),
            limits.max_depth >= 1 ==> r.depth >= 1,
            limits.max_depth == 0 ==> r.best_move is None,
            in_window(r.score as int),
            r.best_move matches Some(m) ==> legal_move(old(board).position(), old(board).position().turn, m),
            forall|i: int|
                0 <= i < r.passes@.len() ==> (#[trigger] r.passes@[i].best_move matches Some(m) ==> legal_move(
                    old(board).position(),
                    old(board).position().turn,
                    m,
                )),
            no_legal_moves(old(board).position()) ==> r.best_move is None && r.score == terminal_spec(*old(board), 0),
            !no_legal_moves(old(board).position()) && limits.max_depth >= 1 ==> r.best_move is Some,
            limits.deadline is None ==> !r.aborted,
            !r.from_book,
            forall|i: int|
                #![trigger r.passes@[i]]
                0 <= i < r.passes@.len() ==> ({
                    let v = pass_value(
                        old(self).table_slots(),
                        next_generation(old(self).table_generation()),
                        node_of(*old(board)),
                        (i + 1) as nat,
                    );
                    r.passes@[i].best_move == v.0 && r.passes@[i].score == v.1
                }),
            r.lmr_reductions == 0 && r.lmr_researches == 0,
            !r.aborted ==> (r.beta_cutoffs as int, r.killer_cutoffs as int, r.first_move_cutoffs as int)
                == saturated_counts(
                deepened_counts(
                    old(self).table_slots(),
                    next_generation(old(self).table_generation()),
                    node_of(*old(board)),
                    r.depth as nat,
                ),
            ),
            limits.max_depth == 0 && !no_legal_moves(old(board).position()) && !r.aborted ==> r.score == qs_value(
                empty_killer_table(),
                old(board).position(),
                -INFINITY as int,
                INFINITY as int,
                0,
            ),
    {
        let depth = limits.max_depth;
        let ghost before = *board;
        let ghost node = node_of(before);
        let ghost slots0 = self.table_slots();
        let ghost generation = next_generation(self.table_generation());
        self.table.start_search();
        self.positions_searched = 1;
        self.positions_searched_quiescience = 0;
        self.beta_cutoffs = 0;
        self.killer_cutoffs = 0;
        self.first_move_cutoffs = 0;
        self.lmr_reductions = 0;
        self.lmr_researches = 0;
        // killers are ply-relative to this search
        self.killers = empty_killers();
        proof {
            broadcast use vstd::array::group_array_axioms;
            assert forall|p: int| 0 <= p < MAX_PLY implies #[trigger] self.killers@[p] == empty_killer_table()[p] by {
                assert(self.killers@[p]@[0] is None && self.killers@[p]@[1] is None);
                assert(self.killers@[p] =~= empty_killer_table()[p]);
            }
            assert(self.killer_table() =~= empty_killer_table());
            assert(self.table_slots() == slots0);
        }
        // the first pass runs to the end whatever the clock says
        self.deadline = None;
        self.aborted = false;

        let started = now();
        let mut best_move: Option<Move> = None;
        let mut score: i32 = 0;
        let mut reached: u32 = 0;
        let mut passes: Vec<DepthPass> = Vec::new();

        // one legal move is no choice at all - only under a clock
        let forced = limits.deadline.is_some() && is_forced(board);
        let ghost forced_spec = limits.deadline is Some && forced_move(before);
        let ghost no_moves = no_legal_moves(before.position());
        let moves_here = board.legal_moves();
        proof {
            let p = before.position();
            if moves_here@.len() > 0 {
                assert(moves_here@.contains(moves_here@[0]));
            } else {
                assert forall|m: Move| !legal_move(p, p.turn, m) by {
                    if legal_move(p, p.turn, m) {
                        assert(moves_here@.contains(m));
                    }
                }
            }
        }

        if depth == 0 {
            // the position scored as it stands - quiescence, nothing to deepen
            score = if moves_here.len() == 0 {
                terminal_score(board, 0)
            } else {
                self.quiescence(board, -INFINITY, INFINITY, 0)
            };
        } else {
            let mut current: u32 = 1;
            let mut done = false;
            while current <= depth && !done
                invariant
                    self.wf(),
                    before == *old(board),
                    unchanged(before, *board),
                    1 <= current <= depth + 1,
                    depth == limits.max_depth,
                    depth <= PLY_LIMIT,
                    before.history().len() + depth < usize::MAX,
                    forced == forced_spec,
                    no_moves == no_legal_moves(before.position()),
                    reached == passes@.len(),
                    reached == current - 1 || (done && reached == current),
                    reached <= depth,
                    !done ==> self.has_deadline() == (reached >= 1 && limits.deadline is Some),
                    self.has_deadline() ==> limits.deadline is Some && reached >= 1,
                    self.is_aborted() ==> done && limits.deadline is Some && reached >= 1,
                    done ==> self.is_aborted() || (reached >= 1 && last_pass_reason(passes@.last(), forced_spec)),
                    !done ==> reached == current - 1,
                    forall|i: int| 0 <= i < passes@.len() ==> #[trigger] passes@[i].depth == i + 1,
                    forall|i: int| 0 <= i < passes@.len() ==> in_window(#[trigger] passes@[i].score as int),
                    forall|i: int| 0 <= i < passes@.len() - 1 ==> !last_pass_reason(#[trigger] passes@[i], forced_spec),
                    !done && passes@.len() > 0 ==> !last_pass_reason(passes@.last(), forced_spec),
                    forall|i: int, j: int|
                        0 <= i < j < passes@.len() ==> #[trigger] passes@[i].positions_searched <= #[trigger] passes@[j].positions_searched,
                    passes@.len() > 0 ==> {
                        &&& best_move == passes@.last().best_move
                        &&& score == passes@.last().score
                        &&& passes@.last().positions_searched <= self.nodes()
                        &&& !self.is_aborted() ==> passes@.last().positions_searched == self.nodes()
                    },
                    in_window(score as int),
                    best_move matches Some(m) ==> legal_move(before.position(), before.position().turn, m),
                    forall|i: int|
                        0 <= i < passes@.len() ==> (#[trigger] passes@[i].best_move matches Some(m) ==> legal_move(
                            before.position(),
                            before.position().turn,
                            m,
                        )),
                    no_moves ==> best_move is None,
                    no_moves && reached >= 1 ==> score == terminal_spec(before, 0) && done,
                    !no_moves && reached >= 1 ==> best_move is Some,
                    limits.deadline is None ==> !self.is_aborted(),
                    node == node_of(before),
                    self.table_generation() == generation,
                    !self.is_aborted() ==> self.cutoffs() == saturated_counts(
                        deepened_counts(slots0, generation, node, reached as nat),
                    ),
                    self.reductions() == (0int, 0int),
                    !self.is_aborted() ==> ({
                        let s = deepened(slots0, generation, node, reached as nat);
                        self.table_slots() == s.0 && self.killer_table() == s.1 && best_move == s.2
                    }),
                    forall|i: int|
                        #![trigger passes@[i]]
                        0 <= i < passes@.len() ==> ({
                            let v = pass_value(slots0, generation, node, (i + 1) as nat);
                            passes@[i].best_move == v.0 && passes@[i].score == v.1
                        }),
                decreases depth + 1 - current, (if done { 0int } else { 1int }),
            {
                // no point starting a pass with the clock already out
                if self.out_of_time() {
                    self.aborted = true;
                    done = true;
                } else {
                    let ghost nodes_before = self.nodes();
                    let ghost old_passes = passes@;
                    proof {
                        assert(reached == current - 1);
                        assert(pass_value(slots0, generation, node, current as nat) == root_value(
                            deepened(slots0, generation, node, reached as nat).0,
                            generation,
                            deepened(slots0, generation, node, reached as nat).1,
                            node,
                            current as int,
                            deepened(slots0, generation, node, reached as nat).2,
                        ));
                        assert(deepened(slots0, generation, node, current as nat) == ({
                            let v = pass_value(slots0, generation, node, current as nat);
                            (v.2, v.3, v.0)
                        }));
                    }
                    proof {
                        lemma_deepened_counts_nonnegative(slots0, generation, node, reached as nat);
                        let s = deepened(slots0, generation, node, reached as nat);
                        lemma_root_total_nonnegative(s.0, generation, s.1, node, current as int, s.2);
                        lemma_saturated_sum(
                            deepened_counts(slots0, generation, node, reached as nat),
                            root_counts(s.0, generation, s.1, node, current as int, s.2),
                        );
                        assert(deepened_counts(slots0, generation, node, current as nat) == count_sum(
                            deepened_counts(slots0, generation, node, reached as nat),
                            root_counts(s.0, generation, s.1, node, current as int, s.2),
                        ));
                    }
                    let (pass_move, pass_score) = self.search_root(board, current, best_move);
                    if self.aborted {
                        // this pass never finished: keep what the pass before it found
                        done = true;
                    } else {
                        best_move = pass_move;
                        score = pass_score;
                        reached = current;
                        let elapsed = elapsed_since(&started);
                        passes.push(DepthPass {
                            depth: current,
                            best_move,
                            score: pass_score,
                            positions_searched: self.positions_searched,
                            elapsed,
                        });
                        proof {
                            assert forall|i: int| 0 <= i < old_passes.len() implies passes@[i] == old_passes[i] by {}
                        }
                        let mate = pass_score >= MATE_BOUND || pass_score <= -MATE_BOUND;
                        if best_move.is_none() || forced || mate {
                            done = true;
                        } else {
                            // the first pass is in, so from here the clock may interrupt
                            self.deadline = limits.deadline;
                            current = current + 1;
                        }
                    }
                }
            }
        }
        self.deadline = None;
        let table_cutoffs = self.table.cutoffs();
        let table_filled = self.table.filled();
        let table_slots = self.table.slot_count();
        SearchResult {
            depth: reached,
            best_move,
            score,
            positions_searched: self.positions_searched,
            positions_searched_quiescience: self.positions_searched_quiescience,
            table_cutoffs,
            table_filled,
            table_slots,
            from_book: false,
            aborted: self.aborted,
            passes,
            beta_cutoffs: self.beta_cutoffs,
            killer_cutoffs: self.killer_cutoffs,
            first_move_cutoffs: self.first_move_cutoffs,
            lmr_reductions: self.lmr_reductions,
            lmr_researches: self.lmr_researches,
        }
    }
}

} // verus!
