// Counting the positions a number of plies away: every legal move sequence of that
// length is played out and its leaves counted. The counts for known positions are
// published, so they are the check that move generation is right.
use vstd::prelude::*;
use crate::board::board::Board;
use crate::board::castling::{CastlingRights, lemma_rights_ext};
use crate::board::chess_move::Move;
use crate::board::movegen::{generated, legal_move, lemma_legal_playable, move_key, strictly_ordered};
use crate::board::piece::opponent_of;
use crate::board::rules::{
    Position, apply_squares, en_passant_after, halfmove_after, law_undo_restores, played, rights_after,
};
use crate::search::unchanged;

verus! {

/// The position a move leads to.
pub open spec fn position_after(p: Position, m: Move) -> Position {
    Position {
        squares: apply_squares(p.squares, m),
        turn: opponent_of(p.turn),
        castling: choose|c: CastlingRights| rights_after(p.castling, m, c),
        en_passant: en_passant_after(m),
        halfmove: halfmove_after(p.halfmove, m),
    }
}

/// Playing a move leads to exactly one position.
pub proof fn lemma_played_is_position_after(p: Position, m: Move, after: Position)
    requires
        played(p, m, after),
    ensures
        after == position_after(p, m),
{
    let c = choose|c: CastlingRights| rights_after(p.castling, m, c);
    assert(rights_after(p.castling, m, after.castling));
    assert forall|col: crate::board::piece::Color, s: crate::board::castling::CastleSide| c.allows(col, s) == after.castling.allows(col, s) by {
        assert(rights_after(p.castling, m, c));
    }
    lemma_rights_ext(c, after.castling);
}

/// The legal moves of the side to move, in the order the generator hands them out.
pub open spec fn legal_list(p: Position) -> Seq<Move> {
    choose|s: Seq<Move>| generated(p, p.turn, false, s)
}

/// How many positions are `depth` plies away: one at depth 0, and otherwise the sum,
/// over the legal moves, of the positions `depth - 1` plies past each.
pub open spec fn perft(p: Position, depth: nat) -> nat
    decreases depth, 1nat, 0nat,
{
    if depth == 0 {
        1
    } else {
        perft_sum(p, legal_list(p), (depth - 1) as nat, legal_list(p).len())
    }
}

/// The positions `rest` plies past each of the first `n` moves.
pub open spec fn perft_sum(p: Position, moves: Seq<Move>, rest: nat, n: nat) -> nat
    decreases rest + 1, 0nat, n,
{
    if n == 0 || n > moves.len() {
        0
    } else {
        perft_sum(p, moves, rest, (n - 1) as nat) + perft(position_after(p, moves[n - 1]), rest)
    }
}

/// A partial sum is no larger than the whole.
proof fn lemma_perft_sum_grows(p: Position, moves: Seq<Move>, rest: nat, n: nat, total: nat)
    requires
        n <= total <= moves.len(),
    ensures
        perft_sum(p, moves, rest, n) <= perft_sum(p, moves, rest, total),
    decreases total - n,
{
    if n < total {
        lemma_perft_sum_grows(p, moves, rest, n, (total - 1) as nat);
    }
}

/// Two strictly ordered lists of the same moves are the same list.
pub proof fn lemma_ordered_lists_agree(a: Seq<Move>, b: Seq<Move>)
    requires
        strictly_ordered(a),
        strictly_ordered(b),
        forall|m: Move| a.contains(m) <==> b.contains(m),
    ensures
        a == b,
    decreases a.len(),
{
    if a.len() == 0 {
        if b.len() > 0 {
            assert(b.contains(b[0]));
        }
        assert(a =~= b);
    } else {
        if b.len() == 0 {
            assert(a.contains(a[0]));
        }
        assert(a.contains(a[0]));
        assert(b.contains(b[0]));
        let i = choose|i: int| 0 <= i < b.len() && b[i] == a[0];
        let j = choose|j: int| 0 <= j < a.len() && a[j] == b[0];
        if i > 0 {
            assert(move_key(b[0]) < move_key(b[i]));
        }
        if j > 0 {
            assert(move_key(a[0]) < move_key(a[j]));
        }
        assert(move_key(a[0]) == move_key(b[0]));
        if j > 0 {
            assert(false);
        }
        assert(a[0] == b[0]);
        let ta = a.drop_first();
        let tb = b.drop_first();
        assert forall|m: Move| ta.contains(m) <==> tb.contains(m) by {
            if ta.contains(m) {
                let k = choose|k: int| 0 <= k < ta.len() && ta[k] == m;
                assert(a[k + 1] == m);
                assert(move_key(a[0]) < move_key(a[k + 1]));
                assert(a.contains(m));
                assert(b.contains(m));
                let l = choose|l: int| 0 <= l < b.len() && b[l] == m;
                if l == 0 {
                    assert(false);
                }
                assert(tb[l - 1] == m);
            }
            if tb.contains(m) {
                let k = choose|k: int| 0 <= k < tb.len() && tb[k] == m;
                assert(b[k + 1] == m);
                assert(move_key(b[0]) < move_key(b[k + 1]));
                assert(b.contains(m));
                assert(a.contains(m));
                let l = choose|l: int| 0 <= l < a.len() && a[l] == m;
                if l == 0 {
                    assert(false);
                }
                assert(ta[l - 1] == m);
            }
        }
        assert forall|x: int, y: int| 0 <= x < y < ta.len() implies move_key(#[trigger] ta[x]) < move_key(#[trigger] ta[y]) by {
            assert(ta[x] == a[x + 1] && ta[y] == a[y + 1]);
        }
        assert forall|x: int, y: int| 0 <= x < y < tb.len() implies move_key(#[trigger] tb[x]) < move_key(#[trigger] tb[y]) by {
            assert(tb[x] == b[x + 1] && tb[y] == b[y + 1]);
        }
        lemma_ordered_lists_agree(ta, tb);
        assert(a =~= seq![a[0]] + ta);
        assert(b =~= seq![b[0]] + tb);
    }
}

/// Keeping only the moves that take something keeps a list ordered, and keeps exactly
/// those of its moves.
proof fn lemma_captures_of_ordered(s: Seq<Move>)
    requires
        strictly_ordered(s),
    ensures
        strictly_ordered(s.filter(|m: Move| m.captured is Some)),
        forall|m: Move| s.filter(|m: Move| m.captured is Some).contains(m) <==> s.contains(m) && m.captured is Some,
    decreases s.len(),
{
    let takes = |m: Move| m.captured is Some;
    reveal(Seq::filter);
    if s.len() == 0 {
        assert(s.filter(takes) =~= s);
    } else {
        let rest = s.drop_last();
        assert forall|x: int, y: int| 0 <= x < y < rest.len() implies move_key(#[trigger] rest[x]) < move_key(#[trigger] rest[y]) by {
            assert(rest[x] == s[x] && rest[y] == s[y]);
        }
        lemma_captures_of_ordered(rest);
        let sub = rest.filter(takes);
        assert forall|i: int| 0 <= i < sub.len() implies move_key(#[trigger] sub[i]) < move_key(s.last()) by {
            assert(sub.contains(sub[i]));
            assert(rest.contains(sub[i]));
            let j = choose|j: int| 0 <= j < rest.len() && rest[j] == sub[i];
            assert(s[j] == rest[j]);
        }
        assert forall|m: Move| s.contains(m) <==> rest.contains(m) || m == s.last() by {
            if s.contains(m) {
                let j = choose|j: int| 0 <= j < s.len() && s[j] == m;
                if j < s.len() - 1 {
                    assert(rest[j] == m);
                }
            }
            if rest.contains(m) {
                let j = choose|j: int| 0 <= j < rest.len() && rest[j] == m;
                assert(s[j] == m);
            }
            if m == s.last() {
                assert(s[s.len() - 1] == m);
            }
        }
        if takes(s.last()) {
            let f = sub.push(s.last());
            assert(s.filter(takes) == f);
            assert forall|x: int, y: int| 0 <= x < y < f.len() implies move_key(#[trigger] f[x]) < move_key(#[trigger] f[y]) by {
                if y < sub.len() {
                    assert(f[x] == sub[x] && f[y] == sub[y]);
                } else {
                    assert(f[x] == sub[x]);
                }
            }
            assert forall|m: Move| f.contains(m) <==> sub.contains(m) || m == s.last() by {
                if f.contains(m) {
                    let j = choose|j: int| 0 <= j < f.len() && f[j] == m;
                    if j < sub.len() {
                        assert(sub[j] == m);
                    }
                }
                if sub.contains(m) {
                    let j = choose|j: int| 0 <= j < sub.len() && sub[j] == m;
                    assert(f[j] == m);
                }
                if m == s.last() {
                    assert(f[f.len() - 1] == m);
                }
            }
        } else {
            assert(s.filter(takes) == sub);
        }
    }
}

/// The captures of a position are its legal moves that take something, in the order the
/// full list has them.
pub proof fn law_captures_are_the_moves_that_take(p: Position, color: crate::board::piece::Color, all: Seq<Move>, captures: Seq<Move>)
    requires
        generated(p, color, false, all),
        generated(p, color, true, captures),
    ensures
        captures == all.filter(|m: Move| m.captured is Some),
{
    lemma_captures_of_ordered(all);
    let kept = all.filter(|m: Move| m.captured is Some);
    assert forall|m: Move| captures.contains(m) <==> kept.contains(m) by {
        assert(captures.contains(m) == (legal_move(p, color, m) && m.captured is Some));
        assert(all.contains(m) == legal_move(p, color, m));
        assert(kept.contains(m) == (all.contains(m) && m.captured is Some));
    }
    lemma_ordered_lists_agree(captures, kept);
}

/// Any generated list of the legal moves is the one `legal_list` names.
pub proof fn lemma_generated_is_legal_list(p: Position, moves: Seq<Move>)
    requires
        generated(p, p.turn, false, moves),
    ensures
        moves == legal_list(p),
{
    let chosen = legal_list(p);
    assert(generated(p, p.turn, false, chosen));
    lemma_ordered_lists_agree(moves, chosen);
}

/// How many positions are `depth` plies away - the check that move generation is
/// right. The board is left as it was.
pub fn count_positions(board: &mut Board, depth: u32) -> (r: u64)
    requires
        old(board).wf(),
        perft(old(board).position(), depth as nat) <= u64::MAX,
    ensures
        r == perft(old(board).position(), depth as nat),
        unchanged(*old(board), *final(board)),
    decreases depth,
{
    if depth == 0 {
        return 1;
    }
    let ghost before = *board;
    let ghost p = board.position();
    let moves = board.legal_moves();
    proof {
        lemma_generated_is_legal_list(p, moves@);
    }
    let mut positions: u64 = 0;
    let mut i: usize = 0;
    while i < moves.len()
        invariant
            before == *old(board),
            p == before.position(),
            unchanged(before, *board),
            moves@ == legal_list(p),
            generated(p, p.turn, false, moves@),
            i <= moves@.len(),
            1 <= depth,
            perft(p, depth as nat) <= u64::MAX,
            positions == perft_sum(p, moves@, (depth - 1) as nat, i as nat),
        decreases moves.len() - i,
    {
        let chess_move = moves[i];
        proof {
            assert(moves@.contains(chess_move));
            board.lemma_wf_squares();
            lemma_legal_playable(p, p.turn, chess_move);
        }
        board.make_move(&chess_move);
        let ghost after = board.position();
        proof {
            lemma_played_is_position_after(p, chess_move, after);
            lemma_perft_sum_grows(p, moves@, (depth - 1) as nat, (i + 1) as nat, moves@.len());
        }
        let below = count_positions(board, depth - 1);
        board.undo_move();
        proof {
            law_undo_restores(p, chess_move, after);
            assert(board.history() =~= before.history());
            assert(board.keys() =~= before.keys());
        }
        positions = positions + below;
        i = i + 1;
    }
    positions
}

/// The same count where it fits in a u64, and None where it does not: a caller can ask
/// for any depth.
pub fn count_positions_checked(board: &mut Board, depth: u32) -> (r: Option<u64>)
    requires
        old(board).wf(),
    ensures
        r == (if perft(old(board).position(), depth as nat) <= u64::MAX {
            Some(perft(old(board).position(), depth as nat) as u64)
        } else {
            None
        }),
        unchanged(*old(board), *final(board)),
    decreases depth,
{
    if depth == 0 {
        return Some(1);
    }
    let ghost before = *board;
    let ghost p = board.position();
    let moves = board.legal_moves();
    proof {
        lemma_generated_is_legal_list(p, moves@);
    }
    let mut positions: u64 = 0;
    let mut i: usize = 0;
    while i < moves.len()
        invariant
            before == *old(board),
            p == before.position(),
            unchanged(before, *board),
            moves@ == legal_list(p),
            generated(p, p.turn, false, moves@),
            i <= moves@.len(),
            1 <= depth,
            positions == perft_sum(p, moves@, (depth - 1) as nat, i as nat),
        decreases moves.len() - i,
    {
        let chess_move = moves[i];
        proof {
            assert(moves@.contains(chess_move));
            board.lemma_wf_squares();
            lemma_legal_playable(p, p.turn, chess_move);
        }
        board.make_move(&chess_move);
        let ghost after = board.position();
        proof {
            lemma_played_is_position_after(p, chess_move, after);
            lemma_perft_sum_grows(p, moves@, (depth - 1) as nat, (i + 1) as nat, moves@.len());
        }
        let below = count_positions_checked(board, depth - 1);
        board.undo_move();
        proof {
            law_undo_restores(p, chess_move, after);
            assert(board.history() =~= before.history());
            assert(board.keys() =~= before.keys());
        }
        match below {
            None => {
                return None;
            },
            Some(count) => {
                match positions.checked_add(count) {
                    None => {
                        return None;
                    },
                    Some(sum) => {
                        positions = sum;
                    },
                }
            },
        }
        i = i + 1;
    }
    Some(positions)
}

} // verus!
