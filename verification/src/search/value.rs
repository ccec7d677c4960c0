// What a quiescence search is worth, written as the recursion it walks: the moves in the
// order they are handed out, each answered one ply down with the window turned around.
use vstd::prelude::*;
use crate::board::chess_move::{Move, MoveRecord};
use crate::board::hashing::position_hash;
use crate::board::movegen::generated;
use crate::board::rules::{Position, in_check, record_for};
use crate::board::status::repetitions_spec;
use crate::transposition::{Entry, NodeType, keeps_existing, lookup, new_entry, probe_cutoff, probe_move, slot_index};
use crate::evaluate::{MATE, clamped_phase, evaluate_spec};
use crate::search::exchange::see_spec;
use crate::search::ordering::{KILLERS_PER_PLY, capture_score_spec, handed_order, order_score};
use crate::search::perft::{lemma_ordered_lists_agree, legal_list, position_after};
use crate::search::{DELTA_ENDGAME_PHASE, DELTA_MARGIN, INFINITY, MAX_PLY, clamp_spec, optimistic_gain_spec, quiet};
use vstd::array::{spec_array_fill_for_copy_type, spec_array_update};

verus! {

/// The captures of the side to move, in the order the generator hands them out.
pub open spec fn capture_list(p: Position) -> Seq<Move> {
    choose|s: Seq<Move>| generated(p, p.turn, true, s)
}

/// Any generated list of the captures is the one `capture_list` names.
pub proof fn lemma_generated_is_capture_list(p: Position, moves: Seq<Move>)
    requires
        generated(p, p.turn, true, moves),
    ensures
        moves == capture_list(p),
{
    let chosen = capture_list(p);
    assert(generated(p, p.turn, true, chosen));
    lemma_ordered_lists_agree(moves, chosen);
}

/// The evasions out of check with the scores they are ordered by: no table move, the
/// killers of the ply.
pub open spec fn evasion_pairs(p: Position, killers: Seq<Option<Move>>) -> Seq<(Move, i32)> {
    let moves = legal_list(p);
    Seq::new(moves.len(), |i: int| (moves[i], order_score(p.squares, moves[i], None, killers) as i32))
}

/// The captures with their MVV-LVA scores.
pub open spec fn capture_pairs(p: Position) -> Seq<(Move, i32)> {
    let moves = capture_list(p);
    Seq::new(moves.len(), |i: int| (moves[i], capture_score_spec(moves[i]) as i32))
}

/// The delta margin of a position: none in the endgame.
pub open spec fn margin_of(p: Position) -> int {
    if clamped_phase(p.squares) <= DELTA_ENDGAME_PHASE {
        0
    } else {
        DELTA_MARGIN as int
    }
}

/// The value of quiescence at `p` with the window (alpha, beta), `ply` plies from the root,
/// for the killers the search holds. Past MAX_PLY the static evaluation; in check every
/// evasion, and mate when there is none; otherwise the static evaluation as a floor, and
/// the captures that pass the delta and exchange tests searched on top of it. Fail hard:
/// the answer stays in the window.
pub open spec fn qs_value(
    killers: Seq<[Option<Move>; KILLERS_PER_PLY]>,
    p: Position,
    alpha: int,
    beta: int,
    ply: int,
) -> int
    decreases (if ply < MAX_PLY { MAX_PLY - ply } else { 0 }), 1int, 0int,
{
    let standing = evaluate_spec(p.squares, p.turn);
    if ply >= MAX_PLY {
        clamp_spec(standing, alpha, beta)
    } else if in_check(p.squares, p.turn) {
        if legal_list(p).len() == 0 {
            -MATE + ply
        } else {
            let moves = handed_order(evasion_pairs(p, killers[ply]@));
            qs_scan(killers, p, moves, 0, alpha, beta, ply, false, standing)
        }
    } else if standing >= beta {
        beta
    } else {
        let moves = handed_order(capture_pairs(p));
        qs_scan(killers, p, moves, 0, if standing > alpha { standing } else { alpha }, beta, ply, true, standing)
    }
}

/// The moves of `moves` from the `k`-th on, searched with `best` the score to beat. With
/// `pruned`, a capture that could not reach `best` even winning its piece for free, or
/// that loses material in the exchange, is skipped.
pub open spec fn qs_scan(
    killers: Seq<[Option<Move>; KILLERS_PER_PLY]>,
    p: Position,
    moves: Seq<Move>,
    k: int,
    best: int,
    beta: int,
    ply: int,
    pruned: bool,
    standing: int,
) -> int
    decreases (if ply < MAX_PLY { MAX_PLY - ply } else { 0 }), 0int, moves.len() - k,
{
    if k < 0 || k >= moves.len() || ply >= MAX_PLY {
        best
    } else {
        let m = moves[k];
        if pruned && (standing + optimistic_gain_spec(m) + margin_of(p) < best || see_spec(p.squares, m) < 0) {
            qs_scan(killers, p, moves, k + 1, best, beta, ply, pruned, standing)
        } else {
            let score = -qs_value(killers, position_after(p, m), -beta, -best, ply + 1);
            if score >= beta {
                beta
            } else {
                qs_scan(killers, p, moves, k + 1, if score > best { score } else { best }, beta, ply, pruned, standing)
            }
        }
    }
}

/// The killers kept for `ply`, or none past the plies they are kept for.
pub open spec fn killer_slot(killers: Seq<[Option<Move>; KILLERS_PER_PLY]>, ply: int) -> Seq<Option<Move>> {
    if 0 <= ply < MAX_PLY {
        killers[ply]@
    } else {
        seq![None, None]
    }
}

/// The killers once `m` beat beta at `ply`: a quiet move not already first there goes
/// first, and the old first moves to second.
pub open spec fn remember_spec(
    killers: Seq<[Option<Move>; KILLERS_PER_PLY]>,
    m: Move,
    ply: int,
) -> Seq<[Option<Move>; KILLERS_PER_PLY]> {
    if quiet(m) && 0 <= ply < MAX_PLY && killers[ply]@[0] != Some(m) {
        let slot = spec_array_update(spec_array_update(killers[ply], 0, Some(m)), 1, killers[ply]@[0]);
        killers.update(ply, slot)
    } else {
        killers
    }
}

/// The table once `store` has filed this node in the generation `generation`.
pub open spec fn stored_spec(
    slots: Seq<Option<Entry>>,
    generation: u8,
    hash: u64,
    depth: int,
    ply: int,
    score: int,
    node_type: NodeType,
    best_move: Option<Move>,
) -> Seq<Option<Entry>> {
    let slot = slot_index(slots.len(), hash);
    if keeps_existing(slots[slot], generation, depth) {
        slots
    } else {
        slots.update(slot, Some(new_entry(hash, depth, ply, score, node_type, best_move, generation)))
    }
}

/// A node of the search: the position, the moves that led to it and the key of the
/// position before each of them.
pub open spec fn child_node(
    node: (Position, Seq<MoveRecord>, Seq<u64>),
    m: Move,
) -> (Position, Seq<MoveRecord>, Seq<u64>) {
    (position_after(node.0, m), node.1.push(record_for(node.0, m)), node.2.push(position_hash(node.0)))
}

/// The position repeats often enough to end the line: three times at the root, twice
/// below it.
pub open spec fn node_repeats(node: (Position, Seq<MoveRecord>, Seq<u64>), ply: int) -> bool {
    let reps = repetitions_spec(node.1, node.2, position_hash(node.0), node.1.len() as int);
    reps >= 3 || (ply > 0 && reps >= 2)
}

/// The legal moves with the scores a full-width node orders them by.
pub open spec fn node_pairs(p: Position, table_move: Option<Move>, killers: Seq<Option<Move>>) -> Seq<(Move, i32)> {
    let moves = legal_list(p);
    Seq::new(moves.len(), |i: int| (moves[i], order_score(p.squares, moves[i], table_move, killers) as i32))
}

/// What alpha-beta answers at `node`, `depth` plies deep, with the window (alpha, beta)
/// at `ply`, starting from the table `slots` of generation `generation` and from the
/// killers: its score, and the table and killers it leaves. A repetition is a draw; a
/// table entry that settles the node answers it, brought into the window; depth 0 is
/// quiescence; no legal move is mate or stalemate; past the fifty moves a draw; otherwise
/// the moves, best ordered first, each scored one ply less deep with the window turned
/// around, until one beats beta. Every finished node is filed in the table.
pub open spec fn ab_value(
    slots: Seq<Option<Entry>>,
    generation: u8,
    killers: Seq<[Option<Move>; KILLERS_PER_PLY]>,
    node: (Position, Seq<MoveRecord>, Seq<u64>),
    depth: int,
    alpha: int,
    beta: int,
    ply: int,
) -> (int, Seq<Option<Entry>>, Seq<[Option<Move>; KILLERS_PER_PLY]>)
    decreases depth, 1int, 0int,
{
    let p = node.0;
    let found = lookup(slots, position_hash(p));
    if node_repeats(node, ply) {
        (0, slots, killers)
    } else if probe_cutoff(found, depth, ply, alpha, beta) is Some {
        (clamp_spec(probe_cutoff(found, depth, ply, alpha, beta)->0 as int, alpha, beta), slots, killers)
    } else if depth <= 0 {
        (qs_value(killers, p, alpha, beta, ply), slots, killers)
    } else if legal_list(p).len() == 0 {
        (if in_check(p.squares, p.turn) { -MATE + ply } else { 0 }, slots, killers)
    } else if p.halfmove >= 100 {
        (0, slots, killers)
    } else {
        let moves = handed_order(node_pairs(p, probe_move(found), killer_slot(killers, ply)));
        ab_scan(slots, generation, killers, node, moves, 0, alpha, None, NodeType::UpperBound, depth, beta, ply)
    }
}

/// The moves of `moves` from the `k`-th on, each searched one ply less deep, with `best`,
/// `best_move` and `node_type` what the node has found so far.
pub open spec fn ab_scan(
    slots: Seq<Option<Entry>>,
    generation: u8,
    killers: Seq<[Option<Move>; KILLERS_PER_PLY]>,
    node: (Position, Seq<MoveRecord>, Seq<u64>),
    moves: Seq<Move>,
    k: int,
    best: int,
    best_move: Option<Move>,
    node_type: NodeType,
    depth: int,
    beta: int,
    ply: int,
) -> (int, Seq<Option<Entry>>, Seq<[Option<Move>; KILLERS_PER_PLY]>)
    decreases depth, 0int, moves.len() - k,
{
    let hash = position_hash(node.0);
    if k < 0 || k >= moves.len() || depth <= 0 {
        (best, stored_spec(slots, generation, hash, depth, ply, best, node_type, best_move), killers)
    } else {
        let m = moves[k];
        let child = ab_value(slots, generation, killers, child_node(node, m), depth - 1, -beta, -best, ply + 1);
        let score = -child.0;
        if score >= beta {
            (
                beta,
                stored_spec(child.1, generation, hash, depth, ply, beta, NodeType::LowerBound, Some(m)),
                remember_spec(child.2, m, ply),
            )
        } else if score > best {
            ab_scan(child.1, generation, child.2, node, moves, k + 1, score, Some(m), NodeType::Exact, depth, beta, ply)
        } else {
            ab_scan(child.1, generation, child.2, node, moves, k + 1, best, best_move, node_type, depth, beta, ply)
        }
    }
}

/// Cutoff counts: beta cutoffs, of those the ones a killer made, and the ones the first
/// move made.
pub open spec fn count_sum(a: (int, int, int), b: (int, int, int)) -> (int, int, int) {
    (a.0 + b.0, a.1 + b.1, a.2 + b.2)
}

/// A count as a counter that stops at the largest u64 holds it.
pub open spec fn saturated(x: int) -> int {
    if x > u64::MAX {
        u64::MAX as int
    } else {
        x
    }
}

/// Counts as three such counters hold them.
pub open spec fn saturated_counts(a: (int, int, int)) -> (int, int, int) {
    (saturated(a.0), saturated(a.1), saturated(a.2))
}

/// Counting on from a counter that has stopped gives what counting from the start would.
pub proof fn lemma_saturated_sum(a: (int, int, int), b: (int, int, int))
    requires
        a.0 >= 0 && a.1 >= 0 && a.2 >= 0,
        b.0 >= 0 && b.1 >= 0 && b.2 >= 0,
    ensures
        saturated_counts(count_sum(saturated_counts(a), b)) == saturated_counts(count_sum(a, b)),
{
}

/// The cutoffs alpha-beta counts at `node`, the same search as `ab_value`: none at a node
/// answered before a move is searched, and otherwise those of the moves searched.
pub open spec fn ab_counts(
    slots: Seq<Option<Entry>>,
    generation: u8,
    killers: Seq<[Option<Move>; KILLERS_PER_PLY]>,
    node: (Position, Seq<MoveRecord>, Seq<u64>),
    depth: int,
    alpha: int,
    beta: int,
    ply: int,
) -> (int, int, int)
    decreases depth, 1int, 0int,
{
    let p = node.0;
    let found = lookup(slots, position_hash(p));
    if node_repeats(node, ply) || probe_cutoff(found, depth, ply, alpha, beta) is Some || depth <= 0
        || legal_list(p).len() == 0 || p.halfmove >= 100 {
        (0, 0, 0)
    } else {
        let slot = killer_slot(killers, ply);
        let moves = handed_order(node_pairs(p, probe_move(found), slot));
        ab_scan_counts(slots, generation, killers, node, moves, 0, alpha, depth, beta, ply, slot)
    }
}

/// The cutoffs counted over the moves of `moves` from the `k`-th on: each move's own
/// subtree, and one more for the move that beats beta - a killer's when it is one of
/// `node_killers`, the node's killers when it was entered, and a first move's when it
/// is the first.
pub open spec fn ab_scan_counts(
    slots: Seq<Option<Entry>>,
    generation: u8,
    killers: Seq<[Option<Move>; KILLERS_PER_PLY]>,
    node: (Position, Seq<MoveRecord>, Seq<u64>),
    moves: Seq<Move>,
    k: int,
    best: int,
    depth: int,
    beta: int,
    ply: int,
    node_killers: Seq<Option<Move>>,
) -> (int, int, int)
    decreases depth, 0int, moves.len() - k,
{
    if k < 0 || k >= moves.len() || depth <= 0 {
        (0, 0, 0)
    } else {
        let m = moves[k];
        let next = child_node(node, m);
        let child = ab_value(slots, generation, killers, next, depth - 1, -beta, -best, ply + 1);
        let below = ab_counts(slots, generation, killers, next, depth - 1, -beta, -best, ply + 1);
        let score = -child.0;
        if score >= beta {
            count_sum(
                below,
                (
                    1,
                    if node_killers[0] == Some(m) || node_killers[1] == Some(m) { 1 } else { 0 },
                    if k == 0 { 1 } else { 0 },
                ),
            )
        } else {
            count_sum(
                below,
                ab_scan_counts(
                    child.1,
                    generation,
                    child.2,
                    node,
                    moves,
                    k + 1,
                    if score > best { score } else { best },
                    depth,
                    beta,
                    ply,
                    node_killers,
                ),
            )
        }
    }
}

/// What alpha-beta counts at a node is never negative.
pub proof fn lemma_ab_counts_nonnegative(
    slots: Seq<Option<Entry>>,
    generation: u8,
    killers: Seq<[Option<Move>; KILLERS_PER_PLY]>,
    node: (Position, Seq<MoveRecord>, Seq<u64>),
    depth: int,
    alpha: int,
    beta: int,
    ply: int,
)
    ensures
        ab_counts(slots, generation, killers, node, depth, alpha, beta, ply).0 >= 0,
        ab_counts(slots, generation, killers, node, depth, alpha, beta, ply).1 >= 0,
        ab_counts(slots, generation, killers, node, depth, alpha, beta, ply).2 >= 0,
    decreases depth, 1int, 0int,
{
    let p = node.0;
    let found = lookup(slots, position_hash(p));
    if !(node_repeats(node, ply) || probe_cutoff(found, depth, ply, alpha, beta) is Some || depth <= 0
        || legal_list(p).len() == 0 || p.halfmove >= 100) {
        let slot = killer_slot(killers, ply);
        let moves = handed_order(node_pairs(p, probe_move(found), slot));
        lemma_scan_counts_nonnegative(slots, generation, killers, node, moves, 0, alpha, depth, beta, ply, slot);
    }
}

/// What the move scan counts is never negative.
pub proof fn lemma_scan_counts_nonnegative(
    slots: Seq<Option<Entry>>,
    generation: u8,
    killers: Seq<[Option<Move>; KILLERS_PER_PLY]>,
    node: (Position, Seq<MoveRecord>, Seq<u64>),
    moves: Seq<Move>,
    k: int,
    best: int,
    depth: int,
    beta: int,
    ply: int,
    node_killers: Seq<Option<Move>>,
)
    ensures
        ab_scan_counts(slots, generation, killers, node, moves, k, best, depth, beta, ply, node_killers).0 >= 0,
        ab_scan_counts(slots, generation, killers, node, moves, k, best, depth, beta, ply, node_killers).1 >= 0,
        ab_scan_counts(slots, generation, killers, node, moves, k, best, depth, beta, ply, node_killers).2 >= 0,
    decreases depth, 0int, moves.len() - k,
{
    if 0 <= k < moves.len() && depth > 0 {
        let m = moves[k];
        let next = child_node(node, m);
        let child = ab_value(slots, generation, killers, next, depth - 1, -beta, -best, ply + 1);
        lemma_ab_counts_nonnegative(slots, generation, killers, next, depth - 1, -beta, -best, ply + 1);
        let score = -child.0;
        if score < beta {
            lemma_scan_counts_nonnegative(
                child.1,
                generation,
                child.2,
                node,
                moves,
                k + 1,
                if score > best { score } else { best },
                depth,
                beta,
                ply,
                node_killers,
            );
        }
    }
}

/// The position of `node` has been on the board before.
pub open spec fn node_seen_before(node: (Position, Seq<MoveRecord>, Seq<u64>)) -> bool {
    repetitions_spec(node.1, node.2, position_hash(node.0), node.1.len() as int) > 1
}

/// The move ordered first at the root: the best move of the pass before, else the one the
/// table kept for the position.
pub open spec fn root_table_move(previous_best: Option<Move>, slots: Seq<Option<Entry>>, p: Position) -> Option<Move> {
    match previous_best {
        Some(m) => Some(m),
        None => probe_move(lookup(slots, position_hash(p))),
    }
}

/// What a root search `depth` plies deep answers: the move it picks and its score, and the
/// table and killers it leaves. Without a legal move, no move and the mate or stalemate
/// score. Otherwise every move is searched with the window open above the best so far, and
/// the best is kept - among equal scores, a move to a position not seen before over one
/// that was - and the root is filed in the table.
pub open spec fn root_value(
    slots: Seq<Option<Entry>>,
    generation: u8,
    killers: Seq<[Option<Move>; KILLERS_PER_PLY]>,
    node: (Position, Seq<MoveRecord>, Seq<u64>),
    depth: int,
    previous_best: Option<Move>,
) -> (Option<Move>, int, Seq<Option<Entry>>, Seq<[Option<Move>; KILLERS_PER_PLY]>) {
    let p = node.0;
    if legal_list(p).len() == 0 {
        (None, if in_check(p.squares, p.turn) { -MATE as int } else { 0 }, slots, killers)
    } else {
        let moves = handed_order(node_pairs(p, root_table_move(previous_best, slots, p), seq![None, None]));
        root_scan(slots, generation, killers, node, moves, 0, None, false, -INFINITY as int, depth)
    }
}

/// The root moves from the `k`-th on, with `best_move`, whether it repeats, and `alpha` its
/// score, what the root has found so far.
pub open spec fn root_scan(
    slots: Seq<Option<Entry>>,
    generation: u8,
    killers: Seq<[Option<Move>; KILLERS_PER_PLY]>,
    node: (Position, Seq<MoveRecord>, Seq<u64>),
    moves: Seq<Move>,
    k: int,
    best_move: Option<Move>,
    best_repeats: bool,
    alpha: int,
    depth: int,
) -> (Option<Move>, int, Seq<Option<Entry>>, Seq<[Option<Move>; KILLERS_PER_PLY]>)
    decreases moves.len() - k,
{
    if k < 0 || k >= moves.len() {
        (best_move, alpha, stored_spec(slots, generation, position_hash(node.0), depth, 0, alpha, NodeType::Exact, best_move), killers)
    } else {
        let m = moves[k];
        let next = child_node(node, m);
        let child = ab_value(slots, generation, killers, next, depth - 1, -INFINITY, -alpha, 1);
        let score = -child.0;
        let repeats = node_seen_before(next);
        if best_move is None || score > alpha || (score == alpha && best_repeats && !repeats) {
            root_scan(child.1, generation, child.2, node, moves, k + 1, Some(m), repeats, score, depth)
        } else {
            root_scan(child.1, generation, child.2, node, moves, k + 1, best_move, best_repeats, alpha, depth)
        }
    }
}

/// A killer table with every slot empty.
pub open spec fn empty_killer_table() -> Seq<[Option<Move>; KILLERS_PER_PLY]> {
    Seq::new(MAX_PLY as nat, |i: int| spec_array_fill_for_copy_type::<Option<Move>, KILLERS_PER_PLY>(None))
}

/// The generation after `generation`, wrapping.
pub open spec fn next_generation(generation: u8) -> u8 {
    if generation == 255 {
        0
    } else {
        (generation + 1) as u8
    }
}

/// The table, the killers and the best move the deepening holds once `k` passes are in,
/// starting from the table `slots` under `generation` and no killers.
pub open spec fn deepened(
    slots: Seq<Option<Entry>>,
    generation: u8,
    node: (Position, Seq<MoveRecord>, Seq<u64>),
    k: nat,
) -> (Seq<Option<Entry>>, Seq<[Option<Move>; KILLERS_PER_PLY]>, Option<Move>)
    decreases k, 1nat,
{
    if k == 0 {
        (slots, empty_killer_table(), None)
    } else {
        let v = pass_value(slots, generation, node, k);
        (v.2, v.3, v.0)
    }
}

/// What the pass `k` plies deep answers: the root searched from where the passes before
/// it left the table and killers, its best move ordered first.
pub open spec fn pass_value(
    slots: Seq<Option<Entry>>,
    generation: u8,
    node: (Position, Seq<MoveRecord>, Seq<u64>),
    k: nat,
) -> (Option<Move>, int, Seq<Option<Entry>>, Seq<[Option<Move>; KILLERS_PER_PLY]>)
    decreases k, 0nat,
{
    if k == 0 {
        (None, 0, slots, empty_killer_table())
    } else {
        let s = deepened(slots, generation, node, (k - 1) as nat);
        root_value(s.0, generation, s.1, node, k as int, s.2)
    }
}

/// The cutoffs a root search counts: those of every root move's subtree.
pub open spec fn root_counts(
    slots: Seq<Option<Entry>>,
    generation: u8,
    killers: Seq<[Option<Move>; KILLERS_PER_PLY]>,
    node: (Position, Seq<MoveRecord>, Seq<u64>),
    depth: int,
    previous_best: Option<Move>,
) -> (int, int, int) {
    let p = node.0;
    if legal_list(p).len() == 0 {
        (0, 0, 0)
    } else {
        let moves = handed_order(node_pairs(p, root_table_move(previous_best, slots, p), seq![None, None]));
        root_scan_counts(slots, generation, killers, node, moves, 0, None, false, -INFINITY as int, depth)
    }
}

/// The cutoffs counted under the root moves from the `k`-th on.
pub open spec fn root_scan_counts(
    slots: Seq<Option<Entry>>,
    generation: u8,
    killers: Seq<[Option<Move>; KILLERS_PER_PLY]>,
    node: (Position, Seq<MoveRecord>, Seq<u64>),
    moves: Seq<Move>,
    k: int,
    best_move: Option<Move>,
    best_repeats: bool,
    alpha: int,
    depth: int,
) -> (int, int, int)
    decreases moves.len() - k,
{
    if k < 0 || k >= moves.len() {
        (0, 0, 0)
    } else {
        let m = moves[k];
        let next = child_node(node, m);
        let child = ab_value(slots, generation, killers, next, depth - 1, -INFINITY, -alpha, 1);
        let below = ab_counts(slots, generation, killers, next, depth - 1, -INFINITY, -alpha, 1);
        let score = -child.0;
        let repeats = node_seen_before(next);
        if best_move is None || score > alpha || (score == alpha && best_repeats && !repeats) {
            count_sum(below, root_scan_counts(child.1, generation, child.2, node, moves, k + 1, Some(m), repeats, score, depth))
        } else {
            count_sum(below, root_scan_counts(child.1, generation, child.2, node, moves, k + 1, best_move, best_repeats, alpha, depth))
        }
    }
}

/// What the root scan counts is never negative.
pub proof fn lemma_root_counts_nonnegative(
    slots: Seq<Option<Entry>>,
    generation: u8,
    killers: Seq<[Option<Move>; KILLERS_PER_PLY]>,
    node: (Position, Seq<MoveRecord>, Seq<u64>),
    moves: Seq<Move>,
    k: int,
    best_move: Option<Move>,
    best_repeats: bool,
    alpha: int,
    depth: int,
)
    ensures
        root_scan_counts(slots, generation, killers, node, moves, k, best_move, best_repeats, alpha, depth).0 >= 0,
        root_scan_counts(slots, generation, killers, node, moves, k, best_move, best_repeats, alpha, depth).1 >= 0,
        root_scan_counts(slots, generation, killers, node, moves, k, best_move, best_repeats, alpha, depth).2 >= 0,
    decreases moves.len() - k,
{
    if 0 <= k < moves.len() {
        let m = moves[k];
        let next = child_node(node, m);
        let child = ab_value(slots, generation, killers, next, depth - 1, -INFINITY, -alpha, 1);
        lemma_ab_counts_nonnegative(slots, generation, killers, next, depth - 1, -INFINITY, -alpha, 1);
        let score = -child.0;
        let repeats = node_seen_before(next);
        if best_move is None || score > alpha || (score == alpha && best_repeats && !repeats) {
            lemma_root_counts_nonnegative(child.1, generation, child.2, node, moves, k + 1, Some(m), repeats, score, depth);
        } else {
            lemma_root_counts_nonnegative(child.1, generation, child.2, node, moves, k + 1, best_move, best_repeats, alpha, depth);
        }
    }
}

/// The cutoffs the first `k` passes of a deepening count together.
pub open spec fn deepened_counts(
    slots: Seq<Option<Entry>>,
    generation: u8,
    node: (Position, Seq<MoveRecord>, Seq<u64>),
    k: nat,
) -> (int, int, int)
    decreases k,
{
    if k == 0 {
        (0, 0, 0)
    } else {
        let s = deepened(slots, generation, node, (k - 1) as nat);
        count_sum(deepened_counts(slots, generation, node, (k - 1) as nat), root_counts(s.0, generation, s.1, node, k as int, s.2))
    }
}

/// What a root search counts is never negative.
pub proof fn lemma_root_total_nonnegative(
    slots: Seq<Option<Entry>>,
    generation: u8,
    killers: Seq<[Option<Move>; KILLERS_PER_PLY]>,
    node: (Position, Seq<MoveRecord>, Seq<u64>),
    depth: int,
    previous_best: Option<Move>,
)
    ensures
        root_counts(slots, generation, killers, node, depth, previous_best).0 >= 0,
        root_counts(slots, generation, killers, node, depth, previous_best).1 >= 0,
        root_counts(slots, generation, killers, node, depth, previous_best).2 >= 0,
{
    let p = node.0;
    if legal_list(p).len() > 0 {
        let moves = handed_order(node_pairs(p, root_table_move(previous_best, slots, p), seq![None, None]));
        lemma_root_counts_nonnegative(slots, generation, killers, node, moves, 0, None, false, -INFINITY as int, depth);
    }
}

/// What the passes of a deepening count is never negative.
pub proof fn lemma_deepened_counts_nonnegative(
    slots: Seq<Option<Entry>>,
    generation: u8,
    node: (Position, Seq<MoveRecord>, Seq<u64>),
    k: nat,
)
    ensures
        deepened_counts(slots, generation, node, k).0 >= 0,
        deepened_counts(slots, generation, node, k).1 >= 0,
        deepened_counts(slots, generation, node, k).2 >= 0,
    decreases k,
{
    if k > 0 {
        lemma_deepened_counts_nonnegative(slots, generation, node, (k - 1) as nat);
        let s = deepened(slots, generation, node, (k - 1) as nat);
        lemma_root_total_nonnegative(s.0, generation, s.1, node, k as int, s.2);
    }
}

} // verus!
