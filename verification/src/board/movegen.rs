// Move generation and the attack scan.
//
// Every candidate move is worked out square pair by square pair - for each piece of the
// side to move and each square it could go to - and then kept only when the position it
// leaves does not have the mover's own king in check. What comes out is exactly the set
// of legal moves the rules below describe, each of them once, in the order the moves are
// walked: the king's steps first, then the pawns', knights', bishops', rooks' and queens'
// moves, each piece by its square, and the castles last. A king or a knight goes through
// its directions in a fixed order, a pawn pushes once, pushes twice and then takes towards
// the a-file and the h-file, and a slider reaches its squares from the lowest up.
use vstd::prelude::*;
use crate::board::board::{Board, playable};
use crate::board::castling::{
    CastleSide, CastlingRights, king_castle_spec, king_start_spec, king_castle_square,
    king_start_square, rook_castle_spec, rook_castle_square, rook_start_spec, rook_start_square,
};
use crate::board::chess_move::Move;
use crate::board::piece::{
    Color, Piece, PieceType, en_passant_rank_of, group_piece, is_promotion_choice, opponent_of,
    pawn_direction_of, pawn_start_rank_of, promotion_choice, promotion_choices, promotion_index,
    promotion_rank_of,
};
use crate::board::rules::{
    Position, apply_squares, attacked, attacks_square, in_check, is_attacked_on, is_in_check_on,
    fits, move_in_range, piece_attacks, valid_squares,
};
use crate::board::square::{
    en_passant_captured_spec, en_passant_captured_square, file_of, file_spec, index_of, offset_spec, rank_of,
    rank_spec,
};

verus! {

broadcast use group_piece;

/// The square `to` is empty or holds a piece of the other side.
pub open spec fn enemy_or_empty(sq: Seq<Option<Piece>>, to: int, color: Color) -> bool {
    sq[to] is None || sq[to].unwrap().side() != color
}

/// A pawn push: one square forward onto an empty square, or two from the start rank
/// when the square it steps over is empty as well.
pub open spec fn pawn_push(sq: Seq<Option<Piece>>, color: Color, from: int, to: int) -> bool {
    let dir = pawn_direction_of(color);
    let dr = rank_spec(to) - rank_spec(from);
    &&& file_spec(to) == file_spec(from)
    &&& sq[to] is None
    &&& (dr == dir || (dr == 2 * dir && rank_spec(from) == pawn_start_rank_of(color) && sq[index_of(
        file_spec(from),
        rank_spec(from) + dir,
    )] is None))
}

/// A pawn reaching the last rank turns into a queen, rook, bishop or knight; every other
/// move promotes nothing.
pub open spec fn promotion_fits(color: Color, to: int, promotion: Option<PieceType>) -> bool {
    if rank_spec(to) == promotion_rank_of(color) {
        promotion matches Some(t) && is_promotion_choice(t)
    } else {
        promotion is None
    }
}

/// A move that is neither a castle nor an en passant capture, following the movement rules.
pub open spec fn ordinary_move(p: Position, color: Color, m: Move) -> bool {
    let sq = p.squares;
    &&& m.castle is None
    &&& !m.en_passant
    &&& m.captured == sq[m.to as int]
    &&& enemy_or_empty(sq, m.to as int, color)
    &&& if m.piece.kind() == PieceType::Pawn {
        &&& (pawn_push(sq, color, m.from as int, m.to as int) || (piece_attacks(sq, m.piece, m.from as int, m.to as int)
            && sq[m.to as int] is Some))
        &&& promotion_fits(color, m.to as int, m.promotion)
    } else {
        &&& piece_attacks(sq, m.piece, m.from as int, m.to as int)
        &&& m.promotion is None
    }
}

/// A pawn taking a pawn that just passed it, onto the square it skipped.
pub open spec fn en_passant_move(p: Position, color: Color, m: Move) -> bool {
    let sq = p.squares;
    &&& m.en_passant
    &&& m.castle is None
    &&& m.promotion is None
    &&& m.piece.kind() == PieceType::Pawn
    &&& p.en_passant == Some(m.to)
    &&& rank_spec(m.to as int) == en_passant_rank_of(color)
    &&& piece_attacks(sq, m.piece, m.from as int, m.to as int)
    &&& sq[m.to as int] is None
    &&& sq[en_passant_captured_spec(m.to as int, color)] is Some
    &&& m.captured == sq[en_passant_captured_spec(m.to as int, color)]
}

/// The squares strictly between the king's and the rook's start square are empty.
pub open spec fn castle_path_empty(sq: Seq<Option<Piece>>, color: Color, side: CastleSide) -> bool {
    let a = king_start_spec(color);
    let b = rook_start_spec(color, side);
    forall|s: int| ((a < s < b) || (b < s < a)) ==> #[trigger] sq[s] is None
}

/// A castle: the right is still there, king and rook stand on their start squares with
/// nothing between them, and the king neither stands on, crosses nor lands on an attacked
/// square.
pub open spec fn castle_move(p: Position, color: Color, m: Move) -> bool {
    let sq = p.squares;
    let enemy = opponent_of(color);
    &&& m.castle matches Some(side) && {
        &&& m.captured is None
        &&& m.promotion is None
        &&& !m.en_passant
        &&& m.piece == Piece::of(PieceType::King, color)
        &&& m.from == king_start_spec(color)
        &&& m.to == king_castle_spec(color, side)
        &&& p.castling.allows(color, side)
        &&& sq[rook_start_spec(color, side)] == Some(Piece::of(PieceType::Rook, color))
        &&& castle_path_empty(sq, color, side)
        &&& !attacked(sq, king_start_spec(color), enemy)
        &&& !attacked(sq, rook_castle_spec(color, side), enemy)
        &&& !attacked(sq, king_castle_spec(color, side), enemy)
    }
}

/// A legal move of `color`: its piece stands on its square, it follows the movement
/// rules, and it does not leave that side's own king in check.
pub open spec fn legal_move(p: Position, color: Color, m: Move) -> bool {
    &&& m.from < 64
    &&& m.to < 64
    &&& p.squares[m.from as int] == Some(m.piece)
    &&& m.piece.side() == color
    &&& (castle_move(p, color, m) || ((ordinary_move(p, color, m) || en_passant_move(p, color, m)) && !in_check(
        apply_squares(p.squares, m),
        color,
    )))
}

/// Which of the moves between two squares this is: 0 for the only one there can be,
/// 1 to 4 for the promotions in the order queen, rook, bishop, knight.
pub open spec fn move_variant(m: Move) -> int {
    match m.promotion {
        Some(t) => 1 + promotion_index(t),
        None => 0,
    }
}

/// Where a king step stands among the eight directions a king is walked in, or past them.
pub open spec fn king_step_index(df: int, dr: int) -> int {
    if df == 1 && dr == 0 {
        0
    } else if df == 1 && dr == 1 {
        1
    } else if df == 0 && dr == 1 {
        2
    } else if df == -1 && dr == 1 {
        3
    } else if df == -1 && dr == 0 {
        4
    } else if df == -1 && dr == -1 {
        5
    } else if df == 0 && dr == -1 {
        6
    } else if df == 1 && dr == -1 {
        7
    } else {
        8
    }
}

/// Where a knight jump stands among the eight a knight is walked in, or past them.
pub open spec fn knight_step_index(df: int, dr: int) -> int {
    if df == 1 && dr == 2 {
        0
    } else if df == 2 && dr == 1 {
        1
    } else if df == 2 && dr == -1 {
        2
    } else if df == 1 && dr == -2 {
        3
    } else if df == -1 && dr == -2 {
        4
    } else if df == -2 && dr == -1 {
        5
    } else if df == -2 && dr == 1 {
        6
    } else if df == -1 && dr == 2 {
        7
    } else {
        8
    }
}

/// Which block of the list the moves of `piece` from `from` to `to` fall in: the king's
/// steps first, then the pawns', knights', bishops', rooks' and queens' moves, and the
/// castles last.
pub open spec fn move_group(piece: Piece, from: int, to: int) -> int {
    let df = file_spec(to) - file_spec(from);
    let dr = rank_spec(to) - rank_spec(from);
    match piece.kind() {
        PieceType::King => if (df == 2 || df == -2) && dr == 0 { 6 } else { 0 },
        PieceType::Pawn => 1,
        PieceType::Knight => 2,
        PieceType::Bishop => 3,
        PieceType::Rook => 4,
        PieceType::Queen => 5,
    }
}

/// Where the moves of `piece` from `from` to `to` stand among that piece's moves: a king
/// or knight by the direction it is walked in, a pawn pushing once, pushing twice, taking
/// towards the a-file and taking towards the h-file in that order, a slider by the square
/// it reaches, a castle on the king's side before one on the queen's. What no such rule
/// places comes after all of them, by its square.
pub open spec fn move_slot(piece: Piece, from: int, to: int) -> int {
    let df = file_spec(to) - file_spec(from);
    let dr = rank_spec(to) - rank_spec(from);
    let dir = pawn_direction_of(piece.side());
    let placed = match piece.kind() {
        PieceType::King => if (df == 2 || df == -2) && dr == 0 {
            if df > 0 { 0 } else { 1 }
        } else {
            king_step_index(df, dr)
        },
        PieceType::Knight => knight_step_index(df, dr),
        PieceType::Pawn => if df == 0 && dr == dir {
            0
        } else if df == 0 && dr == 2 * dir {
            1
        } else if df == -1 && dr == dir {
            2
        } else if df == 1 && dr == dir {
            3
        } else {
            8
        },
        _ => to,
    };
    if placed < 64 && (piece.kind() == PieceType::Bishop || piece.kind() == PieceType::Rook || piece.kind()
        == PieceType::Queen || placed < 8) {
        placed
    } else {
        64 + to
    }
}

/// The place of the moves between two squares in the generator's order.
pub open spec fn pair_key(piece: Piece, from: int, to: int) -> int {
    (move_group(piece, from, to) * 64 + from) * 128 + move_slot(piece, from, to)
}

/// The order the generator hands moves out in: by piece group, then by square, then by
/// where the move stands among the piece's moves, and a promotion's choices queen,
/// rook, bishop, knight.
pub open spec fn move_key(m: Move) -> int {
    pair_key(m.piece, m.from as int, m.to as int) * 8 + move_variant(m)
}

/// The list is in strictly increasing key order, so no move is in it twice.
pub open spec fn strictly_ordered(moves: Seq<Move>) -> bool {
    forall|i: int, j: int| 0 <= i < j < moves.len() ==> move_key(#[trigger] moves[i]) < move_key(#[trigger] moves[j])
}

/// What a generated list of moves holds: every legal move of `color` (only the captures,
/// when asked for those), each exactly once.
pub open spec fn generated(p: Position, color: Color, captures_only: bool, moves: Seq<Move>) -> bool {
    &&& forall|m: Move| moves.contains(m) <==> legal_move(p, color, m) && (captures_only ==> m.captured is Some)
    &&& strictly_ordered(moves)
}

/// A strictly ordered list holds no move twice.
pub proof fn lemma_ordered_no_duplicates(moves: Seq<Move>)
    requires
        strictly_ordered(moves),
    ensures
        moves.no_duplicates(),
{
    assert forall|i: int, j: int| 0 <= i < moves.len() && 0 <= j < moves.len() && i != j implies moves[i] != moves[j] by {
        if i < j {
            assert(move_key(moves[i]) < move_key(moves[j]));
        } else {
            assert(move_key(moves[j]) < move_key(moves[i]));
        }
    }
}

/// The squares once `m` is played on them.
pub fn squares_after(sq: &Vec<Option<Piece>>, m: &Move) -> (r: Vec<Option<Piece>>)
    requires
        valid_squares(sq@),
        playable(*m),
    ensures
        r@ == apply_squares(sq@, *m),
        valid_squares(r@),
{
    let mut after = sq.clone();
    let color = m.piece.color();
    if m.en_passant {
        after.set(en_passant_captured_square(m.to, color) as usize, None);
    }
    let arriving = match m.promotion {
        Some(piece_type) => Piece::new(piece_type, color),
        None => m.piece,
    };
    after.set(m.to as usize, Some(arriving));
    after.set(m.from as usize, None);
    match m.castle {
        Some(side) => {
            let rook_from = rook_start_square(color, side);
            let rook_to = rook_castle_square(color, side);
            let rook = after[rook_from as usize];
            after.set(rook_to as usize, rook);
            after.set(rook_from as usize, None);
        },
        None => {},
    }
    proof {
        assert(after@ =~= apply_squares(sq@, *m));
    }
    after
}

/// Whether playing `m` leaves the king of `color` out of check.
pub fn leaves_king_safe(sq: &Vec<Option<Piece>>, m: &Move, color: Color) -> (r: bool)
    requires
        valid_squares(sq@),
        playable(*m),
    ensures
        r == !in_check(apply_squares(sq@, *m), color),
{
    let after = squares_after(sq, m);
    !is_in_check_on(&after, color)
}

/// Whether a pawn of `color` may push from `from` to `to`.
fn is_pawn_push(sq: &Vec<Option<Piece>>, color: Color, from: u8, to: u8) -> (r: bool)
    requires
        valid_squares(sq@),
        from < 64,
        to < 64,
    ensures
        r == pawn_push(sq@, color, from as int, to as int),
{
    if file_of(from) != file_of(to) || sq[to as usize].is_some() {
        return false;
    }
    let dir = color.pawn_direction();
    let dr = rank_of(to) as i8 - rank_of(from) as i8;
    if dr == dir {
        return true;
    }
    if dr == 2 * dir && rank_of(from) == color.pawn_start_rank() {
        let over = ((rank_of(from) as i8 + dir) * 8 + file_of(from) as i8) as usize;
        assert(over == index_of(file_spec(from as int), rank_spec(from as int) + pawn_direction_of(color)));
        return sq[over].is_none();
    }
    false
}

/// Whether every square between the king's and the rook's start square is empty.
fn is_castle_path_empty(sq: &Vec<Option<Piece>>, color: Color, side: CastleSide) -> (r: bool)
    requires
        valid_squares(sq@),
    ensures
        r == castle_path_empty(sq@, color, side),
{
    let a = king_start_square(color);
    let b = rook_start_square(color, side);
    let (low, high) = if a < b { (a, b) } else { (b, a) };
    let mut square = low + 1;
    while square < high
        invariant
            valid_squares(sq@),
            low < high <= 63,
            low + 1 <= square <= high,
            (low == a && high == b) || (low == b && high == a),
            a == king_start_spec(color),
            b == rook_start_spec(color, side),
            forall|s: int| low < s < square ==> #[trigger] sq@[s] is None,
        decreases high - square,
    {
        if sq[square as usize].is_some() {
            return false;
        }
        square = square + 1;
    }
    true
}

/// Whether `color` may castle to `side` with the squares and rights as they are.
fn castle_allowed(sq: &Vec<Option<Piece>>, rights: CastlingRights, color: Color, side: CastleSide) -> (r: bool)
    requires
        valid_squares(sq@),
    ensures
        r == {
            &&& rights.allows(color, side)
            &&& sq@[rook_start_spec(color, side)] == Some(Piece::of(PieceType::Rook, color))
            &&& castle_path_empty(sq@, color, side)
            &&& !attacked(sq@, king_start_spec(color), opponent_of(color))
            &&& !attacked(sq@, rook_castle_spec(color, side), opponent_of(color))
            &&& !attacked(sq@, king_castle_spec(color, side), opponent_of(color))
        },
{
    let enemy = color.opponent();
    rights.get(color, side)
        && sq[rook_start_square(color, side) as usize] == Some(Piece::new(PieceType::Rook, color))
        && is_castle_path_empty(sq, color, side)
        && !is_attacked_on(sq, king_start_square(color), enemy)
        && !is_attacked_on(sq, rook_castle_square(color, side), enemy)
        && !is_attacked_on(sq, king_castle_square(color, side), enemy)
}

/// The moves of the pair (from, to) that are in a list.
pub open spec fn at_pair(m: Move, from: int, to: int) -> bool {
    m.from == from && m.to == to
}

/// Appends `m` when it keeps the king safe; the list stays ordered.
fn push_if_safe(sq: &Vec<Option<Piece>>, moves: &mut Vec<Move>, m: Move, color: Color) -> (r: bool)
    requires
        valid_squares(sq@),
        playable(m),
        strictly_ordered(old(moves)@),
        forall|i: int| 0 <= i < old(moves)@.len() ==> move_key(#[trigger] old(moves)@[i]) < move_key(m),
    ensures
        r == !in_check(apply_squares(sq@, m), color),
        final(moves)@ == (if r { old(moves)@.push(m) } else { old(moves)@ }),
        strictly_ordered(final(moves)@),
{
    if leaves_king_safe(sq, &m, color) {
        moves.push(m);
        true
    } else {
        false
    }
}

/// The list before and after a pair was looked at: the old moves stay in front, the new
/// ones belong to the pair, and the list stays ordered.
pub open spec fn extended(before: Seq<Move>, after: Seq<Move>, piece: Piece, from: int, to: int) -> bool {
    &&& strictly_ordered(after)
    &&& after.len() >= before.len()
    &&& forall|i: int| 0 <= i < before.len() ==> after[i] == #[trigger] before[i]
    &&& forall|i: int| before.len() <= i < after.len() ==> at_pair(#[trigger] after[i], from, to) && after[i].piece == piece
}

/// Every move in the list comes before the moves of `piece` between the pair (from, to)
/// in key order.
pub open spec fn before_pair(moves: Seq<Move>, piece: Piece, from: int, to: int) -> bool {
    forall|i: int| 0 <= i < moves.len() ==> move_key(#[trigger] moves[i]) < pair_key(piece, from, to) * 8
}

/// The pawn moves between two squares that follow the movement rules: one move, or one
/// per promotion choice on the last rank, each kept when it leaves the king safe.
fn push_pawn_candidates(
    sq: &Vec<Option<Piece>>,
    Ghost(p): Ghost<Position>,
    moves: &mut Vec<Move>,
    piece: Piece,
    from: u8,
    to: u8,
    color: Color,
    captured: Option<Piece>,
    captures_only: bool,
)
    requires
        valid_squares(sq@),
        p.squares == sq@,
        from < 64,
        to < 64,
        sq@[from as int] == Some(piece),
        piece.side() == color,
        piece.kind() == PieceType::Pawn,
        captured == sq@[to as int],
        enemy_or_empty(sq@, to as int, color),
        pawn_push(sq@, color, from as int, to as int) || (piece_attacks(sq@, piece, from as int, to as int)
            && sq@[to as int] is Some),
        !captures_only || captured is Some,
        strictly_ordered(old(moves)@),
        before_pair(old(moves)@, piece, from as int, to as int),
    ensures
        extended(old(moves)@, final(moves)@, piece, from as int, to as int),
        forall|m: Move|
            #![trigger final(moves)@.contains(m)]
            #![trigger legal_move(p, color, m)]
            at_pair(m, from as int, to as int) && m.piece == piece ==> (final(moves)@.contains(m) <==> legal_move(p, color, m) && (
            captures_only ==> m.captured is Some)),
{
    let ghost old_moves = moves@;
    assert forall|m: Move| at_pair(m, from as int, to as int) && m.piece == piece implies !old_moves.contains(m) by {
        if old_moves.contains(m) {
            let i = choose|i: int| 0 <= i < old_moves.len() && old_moves[i] == m;
            assert(move_key(old_moves[i]) < pair_key(piece, from as int, to as int) * 8);
        }
    }
    if rank_of(to) != color.promotion_rank() {
        let m = Move::normal(from, to, piece, captured);
        assert(ordinary_move(p, color, m));
        let safe = push_if_safe(sq, moves, m, color);
        assert forall|m2: Move|
            #![trigger moves@.contains(m2)]
            #![trigger legal_move(p, color, m2)]
            at_pair(m2, from as int, to as int) && m2.piece == piece implies (moves@.contains(m2) <==> legal_move(p, color, m2) && (
            captures_only ==> m2.captured is Some)) by {
            if legal_move(p, color, m2) {
                assert(!castle_move(p, color, m2));
                assert(!en_passant_move(p, color, m2));
                assert(ordinary_move(p, color, m2));
                assert(m2.piece == piece);
                assert(m2.captured == captured);
                assert(m2.promotion is None);
                assert(m2 == m);
            }
            if moves@.contains(m2) {
                let i = choose|i: int| 0 <= i < moves@.len() && moves@[i] == m2;
                if i >= old_moves.len() {
                    assert(safe);
                    assert(moves@[i] == m);
                    assert(m2 == m);
                    assert(legal_move(p, color, m2));
                } else {
                    assert(old_moves[i] == m2);
                    assert(old_moves.contains(m2));
                }
            }
            if legal_move(p, color, m2) && (captures_only ==> m2.captured is Some) {
                assert(m2 == m);
                assert(safe);
                assert(moves@[moves@.len() - 1] == m);
                assert(moves@.contains(m2));
            }
        }
        return;
    }
    let choices = promotion_choices();
    let mut index: usize = 0;
    while index < 4
        invariant
            valid_squares(sq@),
            p.squares == sq@,
            from < 64,
            to < 64,
            sq@[from as int] == Some(piece),
            piece.side() == color,
            piece.kind() == PieceType::Pawn,
            captured == sq@[to as int],
            enemy_or_empty(sq@, to as int, color),
            pawn_push(sq@, color, from as int, to as int) || (piece_attacks(sq@, piece, from as int, to as int)
                && sq@[to as int] is Some),
            !captures_only || captured is Some,
            rank_spec(to as int) == promotion_rank_of(color),
            forall|i: int| 0 <= i < 4 ==> choices@[i] == promotion_choice(i),
            index <= 4,
            extended(old_moves, moves@, piece, from as int, to as int),
            forall|i: int| old_moves.len() <= i < moves@.len() ==> move_variant(#[trigger] moves@[i]) <= index,
            forall|m: Move| at_pair(m, from as int, to as int) && m.piece == piece ==> !old_moves.contains(m),
            before_pair(old_moves, piece, from as int, to as int),
            forall|m: Move|
                #![trigger moves@.contains(m)]
                #![trigger legal_move(p, color, m)]
                at_pair(m, from as int, to as int) && m.piece == piece ==> (moves@.contains(m) <==> legal_move(p, color, m) && (
                captures_only ==> m.captured is Some) && move_variant(m) <= index),
        decreases 4 - index,
    {
        let choice = choices[index];
        assert(choice == promotion_choice(index as int));
        let m = Move::promoting(from, to, piece, captured, choice);
        assert(move_variant(m) == index + 1);
        assert(ordinary_move(p, color, m));
        let ghost before = moves@;
        assert forall|i: int| 0 <= i < before.len() implies move_key(#[trigger] before[i]) < move_key(m) by {
            if i < old_moves.len() {
                assert(old_moves[i] == before[i]);
            } else {
                assert(at_pair(before[i], from as int, to as int));
            }
        }
        assert(!before.contains(m));
        let safe = push_if_safe(sq, moves, m, color);
        assert forall|m2: Move|
            #![trigger moves@.contains(m2)]
            #![trigger legal_move(p, color, m2)]
            at_pair(m2, from as int, to as int) && m2.piece == piece implies (moves@.contains(m2) <==> legal_move(p, color, m2) && (
            captures_only ==> m2.captured is Some) && move_variant(m2) <= index + 1) by {
            if legal_move(p, color, m2) && move_variant(m2) == index + 1 {
                assert(!castle_move(p, color, m2));
                assert(!en_passant_move(p, color, m2));
                assert(ordinary_move(p, color, m2));
                assert(m2.piece == piece);
                assert(m2.captured == captured);
                let t = m2.promotion.unwrap();
                assert(promotion_index(t) == index);
                assert(t == choice);
                assert(m2 == m);
            }
            if moves@.contains(m2) {
                let i = choose|i: int| 0 <= i < moves@.len() && moves@[i] == m2;
                if i >= before.len() {
                    assert(safe);
                    assert(moves@[i] == m);
                    assert(m2 == m);
                    assert(legal_move(p, color, m2));
                } else {
                    assert(before[i] == m2);
                    assert(before.contains(m2));
                }
            }
            if before.contains(m2) {
                let i = choose|i: int| 0 <= i < before.len() && before[i] == m2;
                assert(moves@[i] == m2);
            }
            if legal_move(p, color, m2) && (captures_only ==> m2.captured is Some) && move_variant(m2) <= index + 1 {
                if move_variant(m2) == index + 1 {
                    assert(m2 == m);
                    assert(safe);
                    assert(moves@[moves@.len() - 1] == m);
                } else {
                    assert(before.contains(m2));
                }
                assert(moves@.contains(m2));
            }
        }
        index += 1;
    }
    assert forall|m: Move| at_pair(m, from as int, to as int) && legal_move(p, color, m) implies move_variant(m) <= 4 by {
    }
}

/// No move of the pair is in the list yet.
proof fn lemma_pair_absent(moves: Seq<Move>, piece: Piece, from: int, to: int)
    requires
        before_pair(moves, piece, from, to),
    ensures
        forall|m: Move| at_pair(m, from, to) && m.piece == piece ==> !moves.contains(m),
{
    assert forall|m: Move| at_pair(m, from, to) && m.piece == piece implies !moves.contains(m) by {
        if moves.contains(m) {
            let i = choose|i: int| 0 <= i < moves.len() && moves[i] == m;
            assert(move_key(moves[i]) < pair_key(piece, from, to) * 8);
        }
    }
}

/// Appends the single move `m` of the pair when it is safe, where being safe is all
/// `m` still lacks to be the one legal move of the pair.
fn push_single(
    sq: &Vec<Option<Piece>>,
    Ghost(p): Ghost<Position>,
    moves: &mut Vec<Move>,
    m: Move,
    color: Color,
    captures_only: bool,
)
    requires
        valid_squares(sq@),
        p.squares == sq@,
        playable(m),
        move_variant(m) == 0,
        strictly_ordered(old(moves)@),
        before_pair(old(moves)@, m.piece, m.from as int, m.to as int),
        forall|m2: Move|
            #![trigger legal_move(p, color, m2)]
            at_pair(m2, m.from as int, m.to as int) ==> (legal_move(p, color, m2) && (captures_only ==> m2.captured is Some) <==> m2 == m && !in_check(apply_squares(sq@, m), color)),
    ensures
        extended(old(moves)@, final(moves)@, m.piece, m.from as int, m.to as int),
        forall|m2: Move|
            #![trigger final(moves)@.contains(m2)]
            #![trigger legal_move(p, color, m2)]
            at_pair(m2, m.from as int, m.to as int) && m2.piece == m.piece ==> (final(moves)@.contains(m2) <==> legal_move(p, color, m2) && (
            captures_only ==> m2.captured is Some)),
{
    let ghost old_moves = moves@;
    proof {
        lemma_pair_absent(old_moves, m.piece, m.from as int, m.to as int);
    }
    let safe = push_if_safe(sq, moves, m, color);
    assert forall|m2: Move|
        #![trigger moves@.contains(m2)]
        #![trigger legal_move(p, color, m2)]
        at_pair(m2, m.from as int, m.to as int) && m2.piece == m.piece implies (moves@.contains(m2) <==> legal_move(p, color, m2) && (
        captures_only ==> m2.captured is Some)) by {
        if moves@.contains(m2) {
            let i = choose|i: int| 0 <= i < moves@.len() && moves@[i] == m2;
            if i >= old_moves.len() {
                assert(safe);
                assert(moves@[i] == m);
            } else {
                assert(old_moves[i] == m2);
                assert(old_moves.contains(m2));
            }
        }
        if legal_move(p, color, m2) && (captures_only ==> m2.captured is Some) {
            assert(m2 == m);
            assert(safe);
            assert(moves@ == old_moves.push(m));
            assert(moves@[moves@.len() - 1] == m);
            assert(moves@.contains(m2));
        }
    }
}

/// Appends the legal moves of `piece` from `from` to `to`, in key order.
fn moves_between(
    sq: &Vec<Option<Piece>>,
    rights: CastlingRights,
    en_passant: Option<u8>,
    Ghost(p): Ghost<Position>,
    moves: &mut Vec<Move>,
    piece: Piece,
    from: u8,
    to: u8,
    color: Color,
    captures_only: bool,
)
    requires
        valid_squares(sq@),
        p.squares == sq@,
        p.castling == rights,
        p.en_passant == en_passant,
        from < 64,
        to < 64,
        sq@[from as int] == Some(piece),
        piece.side() == color,
        strictly_ordered(old(moves)@),
        before_pair(old(moves)@, piece, from as int, to as int),
    ensures
        extended(old(moves)@, final(moves)@, piece, from as int, to as int),
        forall|m: Move|
            #![trigger final(moves)@.contains(m)]
            #![trigger legal_move(p, color, m)]
            at_pair(m, from as int, to as int) && m.piece == piece ==> (final(moves)@.contains(m) <==> legal_move(p, color, m) && (
            captures_only ==> m.captured is Some)),
{
    let ghost old_moves = moves@;
    proof {
        lemma_pair_absent(old_moves, piece, from as int, to as int);
    }
    let target = sq[to as usize];
    match target {
        Some(occupant) => {
            if occupant.color() == color {
                assert forall|m: Move| at_pair(m, from as int, to as int) implies !legal_move(p, color, m) by {
                    if legal_move(p, color, m) && castle_move(p, color, m) {
                        let side = m.castle.unwrap();
                        assert(sq@[m.to as int] is None);
                    }
                }
                return;
            }
        },
        None => {},
    }
    let kind = piece.piece_type();
    if kind == PieceType::King && from == king_start_square(color) {
        if to == king_castle_square(color, CastleSide::King) || to == king_castle_square(color, CastleSide::Queen) {
            let side = if to == king_castle_square(color, CastleSide::King) {
                CastleSide::King
            } else {
                CastleSide::Queen
            };
            let m = Move::castling(piece, from, to, side);
            let allowed = !captures_only && castle_allowed(sq, rights, color, side);
            if allowed {
                assert(castle_move(p, color, m));
                moves.push(m);
            }
            assert forall|m2: Move|
                #![trigger moves@.contains(m2)]
                #![trigger legal_move(p, color, m2)]
                at_pair(m2, from as int, to as int) && m2.piece == piece implies (moves@.contains(m2) <==> legal_move(p, color, m2) && (
                captures_only ==> m2.captured is Some)) by {
                if legal_move(p, color, m2) && (captures_only ==> m2.captured is Some) {
                    assert(!ordinary_move(p, color, m2));
                    assert(!en_passant_move(p, color, m2));
                    assert(castle_move(p, color, m2));
                    assert(m2.castle == Some(side));
                    assert(m2 == m);
                    assert(allowed);
                    assert(moves@[moves@.len() - 1] == m);
                    assert(moves@.contains(m2));
                }
                if moves@.contains(m2) {
                    let i = choose|i: int| 0 <= i < moves@.len() && moves@[i] == m2;
                    if i < old_moves.len() {
                        assert(old_moves[i] == m2);
                        assert(old_moves.contains(m2));
                    }
                }
            }
            return;
        }
    }
    if kind == PieceType::Pawn {
        if file_of(from) == file_of(to) {
            if !captures_only && is_pawn_push(sq, color, from, to) {
                push_pawn_candidates(sq, Ghost(p), moves, piece, from, to, color, None, captures_only);
            } else {
                assert forall|m: Move| at_pair(m, from as int, to as int) implies !(legal_move(p, color, m) && (captures_only ==> m.captured is Some)) by {
                }
            }
            return;
        }
        if attacks_square(sq, piece, from, to) {
            match target {
                Some(occupant) => {
                    push_pawn_candidates(sq, Ghost(p), moves, piece, from, to, color, target, captures_only);
                    return;
                },
                None => {
                    if en_passant == Some(to) && rank_of(to) == color.en_passant_rank() {
                        let captured_square = en_passant_captured_square(to, color);
                        match sq[captured_square as usize] {
                            Some(captured) => {
                                let m = Move::en_passant_capture(from, to, piece, captured);
                                assert(en_passant_move(p, color, m));
                                assert forall|m2: Move|
            #![trigger legal_move(p, color, m2)]
            at_pair(m2, m.from as int, m.to as int) implies (legal_move(p, color, m2) && (captures_only ==> m2.captured is Some) <==> m2 == m && !in_check(apply_squares(sq@, m), color)) by {
                                    if legal_move(p, color, m2) {
                                        assert(!castle_move(p, color, m2));
                                        assert(!ordinary_move(p, color, m2));
                                        assert(en_passant_move(p, color, m2));
                                        assert(m2.piece == piece);
                                        assert(m2 == m);
                                    }
                                }
                                push_single(sq, Ghost(p), moves, m, color, captures_only);
                                return;
                            },
                            None => {},
                        }
                    }
                },
            }
        }
        assert forall|m: Move| at_pair(m, from as int, to as int) implies !legal_move(p, color, m) by {
        }
        return;
    }
    if attacks_square(sq, piece, from, to) && (!captures_only || target.is_some()) {
        let m = Move::normal(from, to, piece, target);
        assert(ordinary_move(p, color, m));
        assert forall|m2: Move|
            #![trigger legal_move(p, color, m2)]
            at_pair(m2, m.from as int, m.to as int) implies (legal_move(p, color, m2) && (captures_only ==> m2.captured is Some) <==> m2 == m && !in_check(apply_squares(sq@, m), color)) by {
            if legal_move(p, color, m2) {
                assert(!castle_move(p, color, m2));
                assert(!en_passant_move(p, color, m2));
                assert(ordinary_move(p, color, m2));
                assert(m2.piece == piece);
                assert(m2 == m);
            }
        }
        push_single(sq, Ghost(p), moves, m, color, captures_only);
        return;
    }
    assert forall|m: Move| at_pair(m, from as int, to as int) implies !(legal_move(p, color, m) && (captures_only ==> m.captured is Some)) by {
    }
}

/// Outside the pair that was looked at, the longer list holds what the shorter one did.
proof fn lemma_extended_contains(before: Seq<Move>, after: Seq<Move>, piece: Piece, from: int, to: int, m: Move)
    requires
        extended(before, after, piece, from, to),
        !at_pair(m, from, to),
    ensures
        after.contains(m) <==> before.contains(m),
{
    if after.contains(m) {
        let i = choose|i: int| 0 <= i < after.len() && after[i] == m;
        if i >= before.len() {
            assert(at_pair(after[i], from, to));
        } else {
            assert(before[i] == m);
        }
    }
    if before.contains(m) {
        let i = choose|i: int| 0 <= i < before.len() && before[i] == m;
        assert(after[i] == m);
    }
}


/// How many places the moves of one piece of a group have before the unplaced ones.
pub open spec fn slot_count(group: int) -> int {
    if group == 0 || group == 2 {
        8
    } else if group == 1 {
        4
    } else if group == 6 {
        2
    } else {
        64
    }
}

/// The kind of piece whose moves make up a group.
pub open spec fn group_kind(group: int) -> PieceType {
    if group == 1 {
        PieceType::Pawn
    } else if group == 2 {
        PieceType::Knight
    } else if group == 3 {
        PieceType::Bishop
    } else if group == 4 {
        PieceType::Rook
    } else if group == 5 {
        PieceType::Queen
    } else {
        PieceType::King
    }
}

/// A step from `from` lands on `to` exactly when the files and ranks differ by the step.
proof fn lemma_offset_inverse(from: int, df: int, dr: int, to: int)
    requires
        0 <= from < 64,
        0 <= to < 64,
    ensures
        offset_spec(from, df, dr) == Some(to) <==> (file_spec(to) - file_spec(from) == df && rank_spec(to) - rank_spec(from) == dr),
{
    assert(to == rank_spec(to) * 8 + file_spec(to));
    assert(0 <= file_spec(to) < 8 && 0 <= rank_spec(to) < 8);
    assert(0 <= file_spec(from) < 8 && 0 <= rank_spec(from) < 8);
}

/// The square a piece's move of the given group and place goes to, if there is one:
/// exactly the square whose move stands in that place.
fn slot_target(piece: Piece, color: Color, from: u8, group: u8, k: u8) -> (r: Option<u8>)
    requires
        from < 64,
        piece.valid(),
        piece.side() == color,
        group < 7,
        piece.kind() == group_kind(group as int),
        k < slot_count(group as int),
    ensures
        r matches Some(t) ==> t < 64,
        forall|to: int|
            0 <= to < 64 ==> (r == Some(to as u8) <==> move_group(piece, from as int, to) == group && move_slot(
                piece,
                from as int,
                to,
            ) == k),
{
    let kind = piece.piece_type();
    let step: (i8, i8) = match kind {
        PieceType::King => {
            if group == 6 {
                if k == 0 {
                    (2, 0)
                } else {
                    (-2, 0)
                }
            } else {
                let steps = crate::board::square::king_steps();
                assert(crate::board::square::king_step(k as int) == (steps@[k as int].0 as int, steps@[k as int].1 as int));
                steps[k as usize]
            }
        },
        PieceType::Knight => {
            let steps = crate::board::square::knight_steps();
            assert(crate::board::square::knight_step(k as int) == (steps@[k as int].0 as int, steps@[k as int].1 as int));
            steps[k as usize]
        },
        PieceType::Pawn => {
            let dir = color.pawn_direction();
            if k == 0 {
                (0, dir)
            } else if k == 1 {
                (0, 2 * dir)
            } else if k == 2 {
                (-1, dir)
            } else {
                (1, dir)
            }
        },
        _ => {
            proof {
                assert forall|to: int|
                    0 <= to < 64 implies (Some(k) == Some(to as u8) <==> move_group(piece, from as int, to) == group
                        && move_slot(piece, from as int, to) == k) by {}
            }
            return Some(k);
        },
    };
    let r = crate::board::square::offset(from, step);
    proof {
        assert forall|to: int|
            0 <= to < 64 implies (r == Some(to as u8) <==> move_group(piece, from as int, to) == group && move_slot(
                piece,
                from as int,
                to,
            ) == k) by {
            lemma_offset_inverse(from as int, step.0 as int, step.1 as int, to);
            if r == Some(to as u8) {
                assert(offset_spec(from as int, step.0 as int, step.1 as int) == Some(to));
            }
            if move_group(piece, from as int, to) == group && move_slot(piece, from as int, to) == k {
                assert(offset_spec(from as int, step.0 as int, step.1 as int) == Some(to));
            }
        }
    }
    r
}

/// A legal move stands in a place its group has, among the moves of the kind of piece
/// the group is made of.
proof fn lemma_legal_slot(p: Position, color: Color, m: Move)
    requires
        legal_move(p, color, m),
    ensures
        0 <= move_group(m.piece, m.from as int, m.to as int) < 7,
        m.piece.kind() == group_kind(move_group(m.piece, m.from as int, m.to as int)),
        0 <= move_slot(m.piece, m.from as int, m.to as int) < slot_count(move_group(m.piece, m.from as int, m.to as int)),
{
    crate::board::piece::lemma_piece_roundtrip(PieceType::King, color);
    if castle_move(p, color, m) {
        let side = m.castle.unwrap();
        assert(m.piece.kind() == PieceType::King);
    }
}

impl Board {
    /// Every legal move of one side, castling included - or only the ones that take
    /// something, when `captures_only` asks for those - in the generator's key order.
    pub fn generate_moves(&self, color: Color, captures_only: bool) -> (r: Vec<Move>)
        requires
            self.wf(),
        ensures
            generated(self.position(), color, captures_only, r@),
    {
        proof {
            self.lemma_wf_squares();
        }
        let sq = self.squares();
        let rights = self.castling_rights();
        let en_passant = self.en_passant_target();
        let ghost p = self.position();
        let mut moves: Vec<Move> = Vec::new();
        let mut group: u8 = 0;
        while group < 7
            invariant
                valid_squares(sq@),
                p.squares == sq@,
                p.castling == rights,
                p.en_passant == en_passant,
                group <= 7,
                strictly_ordered(moves@),
                forall|i: int| 0 <= i < moves@.len() ==> move_key(#[trigger] moves@[i]) < group * 64 * 128 * 8,
                forall|m: Move|
                    #![trigger moves@.contains(m)]
                    #![trigger legal_move(p, color, m)]
                    moves@.contains(m) <==> legal_move(p, color, m) && (captures_only ==> m.captured is Some)
                        && pair_key(m.piece, m.from as int, m.to as int) < group * 64 * 128,
            decreases 7 - group,
        {
            let kind = kind_of_group(group);
            let count = slots_of_group(group);
            let mut from: u8 = 0;
            while from < 64
                invariant
                    valid_squares(sq@),
                    p.squares == sq@,
                    p.castling == rights,
                    p.en_passant == en_passant,
                    group < 7,
                    kind == group_kind(group as int),
                    count == slot_count(group as int),
                    from <= 64,
                    strictly_ordered(moves@),
                    forall|i: int| 0 <= i < moves@.len() ==> move_key(#[trigger] moves@[i]) < (group * 64 + from) * 128 * 8,
                    forall|m: Move|
                        #![trigger moves@.contains(m)]
                        #![trigger legal_move(p, color, m)]
                        moves@.contains(m) <==> legal_move(p, color, m) && (captures_only ==> m.captured is Some)
                            && pair_key(m.piece, m.from as int, m.to as int) < (group * 64 + from) * 128,
                decreases 64 - from,
            {
                let own = match sq[from as usize] {
                    Some(piece) => piece.color() == color && piece.piece_type() == kind,
                    None => false,
                };
                if own {
                    let piece = sq[from as usize].unwrap();
                    let mut k: u8 = 0;
                    while k < count
                        invariant
                            valid_squares(sq@),
                            p.squares == sq@,
                            p.castling == rights,
                            p.en_passant == en_passant,
                            group < 7,
                            kind == group_kind(group as int),
                            count == slot_count(group as int),
                            from < 64,
                            k <= count,
                            sq@[from as int] == Some(piece),
                            piece.side() == color,
                            piece.kind() == kind,
                            strictly_ordered(moves@),
                            forall|i: int| 0 <= i < moves@.len() ==> move_key(#[trigger] moves@[i]) < ((group * 64 + from) * 128 + k) * 8,
                            forall|m: Move|
                                #![trigger moves@.contains(m)]
                                #![trigger legal_move(p, color, m)]
                                moves@.contains(m) <==> legal_move(p, color, m) && (captures_only ==> m.captured is Some)
                                    && pair_key(m.piece, m.from as int, m.to as int) < (group * 64 + from) * 128 + k,
                        decreases count - k,
                    {
                        let cursor: Ghost<int> = Ghost((group * 64 + from) * 128 + k);
                        match slot_target(piece, color, from, group, k) {
                            Some(to) => {
                                let ghost before = moves@;
                                assert(pair_key(piece, from as int, to as int) == cursor@);
                                moves_between(&sq, rights, en_passant, Ghost(p), &mut moves, piece, from, to, color, captures_only);
                                proof {
                                    assert forall|m: Move|
                                        #![trigger moves@.contains(m)]
                                        #![trigger legal_move(p, color, m)]
                                        moves@.contains(m) <==> legal_move(p, color, m) && (captures_only ==> m.captured is Some)
                                            && pair_key(m.piece, m.from as int, m.to as int) < cursor@ + 1 by {
                                        if legal_move(p, color, m) {
                                            lemma_legal_slot(p, color, m);
                                            if pair_key(m.piece, m.from as int, m.to as int) == cursor@ {
                                                assert(m.from == from);
                                                assert(m.to == to);
                                            }
                                        }
                                        if moves@.contains(m) {
                                            let i = choose|i: int| 0 <= i < moves@.len() && moves@[i] == m;
                                            if i < before.len() {
                                                assert(before[i] == m);
                                                assert(before.contains(m));
                                            } else {
                                                assert(at_pair(moves@[i], from as int, to as int) && moves@[i].piece == piece);
                                            }
                                        }
                                        if before.contains(m) {
                                            let i = choose|i: int| 0 <= i < before.len() && before[i] == m;
                                            assert(moves@[i] == m);
                                        }
                                    }
                                    assert forall|i: int| 0 <= i < moves@.len() implies move_key(#[trigger] moves@[i]) < (cursor@ + 1) * 8 by {
                                        if i < before.len() {
                                            assert(before[i] == moves@[i]);
                                        } else {
                                            assert(at_pair(moves@[i], from as int, to as int) && moves@[i].piece == piece);
                                        }
                                    }
                                }
                            },
                            None => {
                                proof {
                                    assert forall|m: Move| legal_move(p, color, m) implies pair_key(m.piece, m.from as int, m.to as int) != cursor@ by {
                                        lemma_legal_slot(p, color, m);
                                        if pair_key(m.piece, m.from as int, m.to as int) == cursor@ {
                                            assert(m.from == from);
                                            assert(m.piece == piece);
                                            assert(move_group(piece, from as int, m.to as int) == group);
                                            assert(move_slot(piece, from as int, m.to as int) == k);
                                        }
                                    }
                                }
                            },
                        }
                        k = k + 1;
                    }
                    proof {
                        assert forall|m: Move| legal_move(p, color, m) && pair_key(m.piece, m.from as int, m.to as int) < (group * 64 + from + 1) * 128
                            implies pair_key(m.piece, m.from as int, m.to as int) < (group * 64 + from) * 128 + count by {
                            lemma_legal_slot(p, color, m);
                        }
                    }
                } else {
                    proof {
                        assert forall|m: Move| legal_move(p, color, m) implies !((group * 64 + from) * 128 <= pair_key(m.piece, m.from as int, m.to as int) < (group * 64 + from + 1) * 128) by {
                            lemma_legal_slot(p, color, m);
                        }
                    }
                }
                from = from + 1;
            }
            group = group + 1;
        }
        proof {
            assert forall|m: Move| legal_move(p, color, m) implies pair_key(m.piece, m.from as int, m.to as int) < 7 * 64 * 128 by {
                lemma_legal_slot(p, color, m);
            }
        }
        moves
    }
}

/// The kind of piece whose moves make up a group.
fn kind_of_group(group: u8) -> (r: PieceType)
    ensures
        r == group_kind(group as int),
{
    if group == 1 {
        PieceType::Pawn
    } else if group == 2 {
        PieceType::Knight
    } else if group == 3 {
        PieceType::Bishop
    } else if group == 4 {
        PieceType::Rook
    } else if group == 5 {
        PieceType::Queen
    } else {
        PieceType::King
    }
}

/// How many places the moves of one piece of a group have.
fn slots_of_group(group: u8) -> (r: u8)
    ensures
        r == slot_count(group as int),
{
    if group == 0 || group == 2 {
        8
    } else if group == 1 {
        4
    } else if group == 6 {
        2
    } else {
        64
    }
}

/// A legal move of a position with real pieces on it can be played there, and taking it
/// back restores the squares: its piece and what it takes are real pieces, and it
/// describes the squares it is played on.
pub proof fn lemma_legal_playable(p: Position, color: Color, m: Move)
    requires
        valid_squares(p.squares),
        legal_move(p, color, m),
    ensures
        playable(m),
        fits(p.squares, m),
{
    let sq = p.squares;
    assert(sq[m.from as int] == Some(m.piece));
    if castle_move(p, color, m) {
        let side = m.castle.unwrap();
        assert(sq[m.to as int] is None);
        assert(sq[rook_castle_spec(color, side)] is None);
    } else if m.en_passant {
        let ep = en_passant_captured_spec(m.to as int, color);
        assert(sq[ep] is Some);
        assert(0 <= ep < 64);
        assert(ep != m.from);
    } else {
        assert(sq[m.to as int] == m.captured);
        assert(m.from != m.to);
    }
}

/// A legal move is named by the squares it goes between and its promotion: two legal
/// moves of a position that agree on those are the same move.
pub proof fn lemma_legal_move_named_by_squares(p: Position, color: Color, a: Move, b: Move)
    requires
        legal_move(p, color, a),
        legal_move(p, color, b),
        a.from == b.from,
        a.to == b.to,
        a.promotion == b.promotion,
    ensures
        a == b,
{
    assert(a.piece == b.piece);
    if castle_move(p, color, a) && castle_move(p, color, b) {
        let sa = a.castle.unwrap();
        let sb = b.castle.unwrap();
        assert(king_castle_spec(color, sa) == king_castle_spec(color, sb));
        assert(sa == sb);
    } else if castle_move(p, color, a) || castle_move(p, color, b) {
        // a castle moves the king two files, which no other king move does, and no pawn
        // castles
        let (c, o) = if castle_move(p, color, a) { (a, b) } else { (b, a) };
        crate::board::piece::lemma_piece_roundtrip(PieceType::King, color);
        assert(c.piece.kind() == PieceType::King);
        assert(o.piece.kind() == PieceType::King);
        assert(file_spec(c.to as int) - file_spec(c.from as int) == 2 || file_spec(c.from as int) - file_spec(c.to as int) == 2);
        assert(!castle_move(p, color, o));
        assert(!en_passant_move(p, color, o));
        assert(!piece_attacks(p.squares, o.piece, o.from as int, o.to as int));
        assert(false);
    } else if en_passant_move(p, color, a) && en_passant_move(p, color, b) {
    } else if en_passant_move(p, color, a) || en_passant_move(p, color, b) {
        // an en passant capture lands on an empty square diagonally, where an ordinary
        // pawn move could only push straight
        let (e, o) = if en_passant_move(p, color, a) { (a, b) } else { (b, a) };
        assert(ordinary_move(p, color, o));
        assert(p.squares[e.to as int] is None);
        assert(!pawn_push(p.squares, color, o.from as int, o.to as int));
        assert(false);
    } else {
    }
}

} // verus!
