// The rules of chess over a plain list of 64 squares: which squares a piece attacks,
// whether a side is in check, and what a move does to the squares. The move generator
// and the board are proved against these.
use vstd::prelude::*;
use crate::board::piece::{Color, Piece, PieceType, opponent_of, pawn_direction_of};
use crate::board::square::{
    abs_spec, distance_spec, en_passant_captured_spec, file_of, file_spec, lines_up, on_board,
    rank_of, rank_spec, sign, square_along, walk,
};
use crate::board::chess_move::{Move, MoveRecord, irreversible};
use crate::board::castling::{
    CastleSide, CastlingRights, king_castle_spec, king_start_spec, rook_castle_spec, rook_start_spec,
};

verus! {

/// What stands on each of the 64 squares, every piece a real one.
pub open spec fn valid_squares(sq: Seq<Option<Piece>>) -> bool {
    &&& sq.len() == 64
    &&& forall|i: int| 0 <= i < 64 ==> (#[trigger] sq[i] matches Some(p) ==> p.valid())
}

/// Every square strictly between two lined-up squares is empty.
pub open spec fn path_clear(sq: Seq<Option<Piece>>, from: int, to: int) -> bool {
    let df = sign(file_spec(to) - file_spec(from));
    let dr = sign(rank_spec(to) - rank_spec(from));
    forall|k: int| 1 <= k < distance_spec(from, to) ==> #[trigger] sq[square_along(from, df, dr, k)] is None
}

/// Whether `piece`, standing on `from`, attacks `to` with the squares as they are.
pub open spec fn piece_attacks(sq: Seq<Option<Piece>>, piece: Piece, from: int, to: int) -> bool {
    let df = file_spec(to) - file_spec(from);
    let dr = rank_spec(to) - rank_spec(from);
    match piece.kind() {
        PieceType::Pawn => dr == pawn_direction_of(piece.side()) && abs_spec(df) == 1,
        PieceType::Knight => (abs_spec(df) == 1 && abs_spec(dr) == 2) || (abs_spec(df) == 2 && abs_spec(dr) == 1),
        PieceType::King => from != to && abs_spec(df) <= 1 && abs_spec(dr) <= 1,
        PieceType::Bishop => lines_up(from, to) && df != 0 && dr != 0 && path_clear(sq, from, to),
        PieceType::Rook => lines_up(from, to) && (df == 0 || dr == 0) && path_clear(sq, from, to),
        PieceType::Queen => lines_up(from, to) && path_clear(sq, from, to),
    }
}

/// Some piece of `color` attacks `square`.
pub open spec fn attacked(sq: Seq<Option<Piece>>, square: int, color: Color) -> bool {
    exists|from: int|
        0 <= from < 64 && #[trigger] sq[from] is Some && sq[from].unwrap().side() == color && piece_attacks(
            sq,
            sq[from].unwrap(),
            from,
            square,
        )
}

/// A king of `color` stands on an attacked square.
pub open spec fn in_check(sq: Seq<Option<Piece>>, color: Color) -> bool {
    exists|k: int|
        0 <= k < 64 && #[trigger] sq[k] == Some(Piece::of(PieceType::King, color)) && attacked(sq, k, opponent_of(color))
}

/// What a move does to the squares: the captured pawn of an en passant goes, the piece
/// (or what it promotes to) arrives, its square empties, and a castling rook moves.
pub open spec fn apply_squares(sq: Seq<Option<Piece>>, m: Move) -> Seq<Option<Piece>> {
    let color = m.piece.side();
    let s1 = if m.en_passant {
        sq.update(en_passant_captured_spec(m.to as int, color), None)
    } else {
        sq
    };
    let arriving = match m.promotion {
        Some(t) => Piece::of(t, color),
        None => m.piece,
    };
    let s2 = s1.update(m.to as int, Some(arriving)).update(m.from as int, None);
    match m.castle {
        Some(side) => {
            let rook = s2[rook_start_spec(color, side)];
            s2.update(rook_castle_spec(color, side), rook).update(rook_start_spec(color, side), None)
        },
        None => s2,
    }
}

/// The squares a move touches are all on the board.
pub open spec fn move_in_range(m: Move) -> bool {
    &&& m.from < 64
    &&& m.to < 64
    &&& m.en_passant ==> 8 <= m.to < 56
}

// -------------------- checking the rules --------------------

pub fn abs_i8(value: i8) -> (r: i8)
    requires
        value > -128,
    ensures
        r == abs_spec(value as int),
{
    if value < 0 {
        -value
    } else {
        value
    }
}

pub fn sign_i8(value: i8) -> (r: i8)
    ensures
        r == sign(value as int),
{
    if value > 0 {
        1
    } else if value < 0 {
        -1
    } else {
        0
    }
}

/// Whether every square strictly between two lined-up squares is empty.
pub fn is_path_clear(sq: &Vec<Option<Piece>>, from: u8, to: u8) -> (r: bool)
    requires
        sq@.len() == 64,
        from < 64,
        to < 64,
        lines_up(from as int, to as int),
    ensures
        r == path_clear(sq@, from as int, to as int),
{
    let df = sign_i8(file_of(to) as i8 - file_of(from) as i8);
    let dr = sign_i8(rank_of(to) as i8 - rank_of(from) as i8);
    let distance = {
        let a = abs_i8(file_of(to) as i8 - file_of(from) as i8);
        let b = abs_i8(rank_of(to) as i8 - rank_of(from) as i8);
        if a > b { a } else { b }
    };
    let ghost f0 = file_spec(from as int);
    let ghost r0 = rank_spec(from as int);
    let mut file: i8 = file_of(from) as i8 + df;
    let mut rank: i8 = rank_of(from) as i8 + dr;
    let mut k: i8 = 1;
    while k < distance
        invariant
            sq@.len() == 64,
            from < 64,
            to < 64,
            lines_up(from as int, to as int),
            f0 == file_spec(from as int),
            r0 == rank_spec(from as int),
            0 <= f0 < 8,
            0 <= r0 < 8,
            df == sign(file_spec(to as int) - file_spec(from as int)),
            dr == sign(rank_spec(to as int) - rank_spec(from as int)),
            distance == distance_spec(from as int, to as int),
            1 <= k <= distance,
            distance <= 7,
            file == walk(f0, df as int, k as int),
            rank == walk(r0, dr as int, k as int),
            forall|j: int| 1 <= j < k ==> #[trigger] sq@[square_along(from as int, df as int, dr as int, j)] is None,
        decreases distance - k,
    {
        proof {
            lemma_walk_on_board(from as int, to as int, k as int);
        }
        let square = (rank * 8 + file) as usize;
        assert(square == square_along(from as int, df as int, dr as int, k as int));
        if sq[square].is_some() {
            return false;
        }
        file = file + df;
        rank = rank + dr;
        k = k + 1;
    }
    true
}

/// The squares walked between two lined-up squares stay on the board.
pub proof fn lemma_walk_on_board(from: int, to: int, k: int)
    requires
        0 <= from < 64,
        0 <= to < 64,
        lines_up(from, to),
        0 <= k <= distance_spec(from, to),
    ensures
        on_board(
            walk(file_spec(from), sign(file_spec(to) - file_spec(from)), k),
            walk(rank_spec(from), sign(rank_spec(to) - rank_spec(from)), k),
        ),
        0 <= square_along(from, sign(file_spec(to) - file_spec(from)), sign(rank_spec(to) - rank_spec(from)), k) < 64,
        k == distance_spec(from, to) ==> square_along(
            from,
            sign(file_spec(to) - file_spec(from)),
            sign(rank_spec(to) - rank_spec(from)),
            k,
        ) == to,
{
}

/// Whether `piece` on `from` attacks `to`.
pub fn attacks_square(sq: &Vec<Option<Piece>>, piece: Piece, from: u8, to: u8) -> (r: bool)
    requires
        sq@.len() == 64,
        piece.valid(),
        from < 64,
        to < 64,
    ensures
        r == piece_attacks(sq@, piece, from as int, to as int),
{
    let df = file_of(to) as i8 - file_of(from) as i8;
    let dr = rank_of(to) as i8 - rank_of(from) as i8;
    let adf = abs_i8(df);
    let adr = abs_i8(dr);
    match piece.piece_type() {
        PieceType::Pawn => dr == piece.color().pawn_direction() && adf == 1,
        PieceType::Knight => (adf == 1 && adr == 2) || (adf == 2 && adr == 1),
        PieceType::King => from != to && adf <= 1 && adr <= 1,
        PieceType::Bishop => {
            if from != to && adf == adr && df != 0 && dr != 0 {
                is_path_clear(sq, from, to)
            } else {
                false
            }
        },
        PieceType::Rook => {
            if from != to && (df == 0 || dr == 0) {
                is_path_clear(sq, from, to)
            } else {
                false
            }
        },
        PieceType::Queen => {
            if from != to && (df == 0 || dr == 0 || adf == adr) {
                is_path_clear(sq, from, to)
            } else {
                false
            }
        },
    }
}

/// Whether some piece of `color` attacks `square`.
pub fn is_attacked_on(sq: &Vec<Option<Piece>>, square: u8, color: Color) -> (r: bool)
    requires
        valid_squares(sq@),
        square < 64,
    ensures
        r == attacked(sq@, square as int, color),
{
    let mut from: u8 = 0;
    while from < 64
        invariant
            valid_squares(sq@),
            square < 64,
            from <= 64,
            forall|f: int| 0 <= f < from ==> !(#[trigger] sq@[f] is Some && sq@[f].unwrap().side() == color && piece_attacks(sq@, sq@[f].unwrap(), f, square as int)),
        decreases 64 - from,
    {
        match sq[from as usize] {
            Some(piece) => {
                if piece.color() == color && attacks_square(sq, piece, from, square) {
                    return true;
                }
            },
            None => {},
        }
        from = from + 1;
    }
    false
}

/// Whether a king of `color` stands on an attacked square.
pub fn is_in_check_on(sq: &Vec<Option<Piece>>, color: Color) -> (r: bool)
    requires
        valid_squares(sq@),
    ensures
        r == in_check(sq@, color),
{
    let king = Piece::new(PieceType::King, color);
    let enemy = color.opponent();
    let mut square: u8 = 0;
    while square < 64
        invariant
            valid_squares(sq@),
            king == Piece::of(PieceType::King, color),
            enemy == opponent_of(color),
            square <= 64,
            forall|k: int| 0 <= k < square ==> !(#[trigger] sq@[k] == Some(king) && attacked(sq@, k, enemy)),
        decreases 64 - square,
    {
        if sq[square as usize] == Some(king) && is_attacked_on(sq, square, enemy) {
            return true;
        }
        square = square + 1;
    }
    false
}

} // verus!

verus! {

/// Everything about a position that the rules read: the squares, the side to move, the
/// castling rights, the en passant target and the halfmove clock.
pub struct Position {
    pub squares: Seq<Option<Piece>>,
    pub turn: Color,
    pub castling: CastlingRights,
    pub en_passant: Option<u8>,
    pub halfmove: u16,
}

/// An en passant target is empty or a square a pawn can be captured behind.
pub open spec fn valid_en_passant(target: Option<u8>) -> bool {
    match target {
        Some(t) => 8 <= t < 56,
        None => true,
    }
}

/// The castling rights once a move is played: the king moving ends both of its side's
/// castles, and a rook leaving or being taken on its start square ends that one.
pub open spec fn rights_after(before: CastlingRights, m: Move, after: CastlingRights) -> bool {
    forall|c: Color, s: CastleSide|
        #[trigger] after.allows(c, s) == (before.allows(c, s) && !(m.piece.kind() == PieceType::King && c
            == m.piece.side()) && rook_start_spec(c, s) != m.from && rook_start_spec(c, s) != m.to)
}

/// Only a double push opens an en passant target, every other move closes it.
pub open spec fn en_passant_after(m: Move) -> Option<u8> {
    if m.piece.kind() == PieceType::Pawn && (m.to as int - m.from as int == 16 || m.from as int - m.to as int == 16) {
        Some(((m.from + m.to) / 2) as u8)
    } else {
        None
    }
}

/// The halfmove clock resets on a capture or a pawn move and counts up otherwise.
pub open spec fn halfmove_after(before: u16, m: Move) -> u16 {
    if irreversible(m) {
        0
    } else if before < u16::MAX {
        (before + 1) as u16
    } else {
        before
    }
}

/// `after` is the position `before` turns into once `m` is played.
pub open spec fn played(before: Position, m: Move, after: Position) -> bool {
    &&& after.squares == apply_squares(before.squares, m)
    &&& after.turn == opponent_of(before.turn)
    &&& rights_after(before.castling, m, after.castling)
    &&& after.en_passant == en_passant_after(m)
    &&& after.halfmove == halfmove_after(before.halfmove, m)
}

/// What taking a move back does to the squares.
pub open spec fn unapply_squares(sq: Seq<Option<Piece>>, m: Move) -> Seq<Option<Piece>> {
    let color = m.piece.side();
    let s1 = sq.update(m.from as int, Some(m.piece));
    let s2 = if m.en_passant {
        s1.update(m.to as int, None).update(en_passant_captured_spec(m.to as int, color), m.captured)
    } else {
        s1.update(m.to as int, m.captured)
    };
    match m.castle {
        Some(side) => {
            let rook = s2[rook_castle_spec(color, side)];
            s2.update(rook_start_spec(color, side), rook).update(rook_castle_spec(color, side), None)
        },
        None => s2,
    }
}

/// A move that describes the position it is played in: its piece stands on its square,
/// what it captures stands where it is captured, and a castle finds the rook's square empty.
pub open spec fn fits(sq: Seq<Option<Piece>>, m: Move) -> bool {
    let color = m.piece.side();
    &&& move_in_range(m)
    &&& m.from != m.to
    &&& sq[m.from as int] == Some(m.piece)
    &&& if m.en_passant {
        &&& sq[m.to as int] is None
        &&& sq[en_passant_captured_spec(m.to as int, color)] == m.captured
        &&& en_passant_captured_spec(m.to as int, color) != m.from
    } else {
        sq[m.to as int] == m.captured
    }
    &&& m.castle matches Some(side) ==> {
        &&& m.from == king_start_spec(color)
        &&& m.to == king_castle_spec(color, side)
        &&& sq[rook_castle_spec(color, side)] is None
        &&& !m.en_passant
    }
}

/// Taking back a move that fits the squares puts every square back as it was.
pub proof fn lemma_unapply_apply(sq: Seq<Option<Piece>>, m: Move)
    requires
        sq.len() == 64,
        fits(sq, m),
    ensures
        unapply_squares(apply_squares(sq, m), m) =~= sq,
{
    let after = apply_squares(sq, m);
    let back = unapply_squares(after, m);
    assert forall|i: int| 0 <= i < 64 implies back[i] == sq[i] by {
    }
}

/// The record make_move keeps of a move played in `before`.
pub open spec fn record_for(before: Position, m: Move) -> MoveRecord {
    MoveRecord {
        chess_move: m,
        castling_rights_before: before.castling,
        en_passant_before: before.en_passant,
        halfmove_clock_before: before.halfmove,
    }
}

/// The position taking back the move of `record` leaves, from `after`.
pub open spec fn undone(after: Position, record: MoveRecord) -> Position {
    Position {
        squares: unapply_squares(after.squares, record.chess_move),
        turn: opponent_of(after.turn),
        castling: record.castling_rights_before,
        en_passant: record.en_passant_before,
        halfmove: record.halfmove_clock_before,
    }
}

/// Playing a move and taking it back leaves every square, the side to move, the castling
/// rights, the en passant target and the halfmove clock exactly as they were.
pub proof fn law_undo_restores(before: Position, m: Move, after: Position)
    requires
        before.squares.len() == 64,
        fits(before.squares, m),
        played(before, m, after),
    ensures
        undone(after, record_for(before, m)) == before,
{
    lemma_unapply_apply(before.squares, m);
    assert(undone(after, record_for(before, m)).squares =~= before.squares);
}

} // verus!
